//! Sources of Nix expressions held in git repositories, their locks, and the parts of
//! locking that do not talk to a remote.
use std::marker::PhantomData;
use vstd::prelude::*;
use vstd::string::StringExecFns;
use vstd::utf8::{encode_utf8, valid_utf8};

verus! {

/// Why locking or evaluating a source failed; the errors of outside libraries are kept
/// as their descriptions.
#[derive(Debug)]
pub enum Error {
    Whatever(String),
    NixNotFound,
    NetworkUnavailable(String),
    UnexpectedResponse(String),
    NixDaemon(String),
    Deserialization(String),
    Git(String),
    NotUtf8(Vec<u8>),
    Join(String),
    ToDo,
}

/// A git reference and revision, each optional.
#[derive(Debug, Clone)]
pub struct GitRef {
    pub reference: Option<String>,
    pub revision: Option<String>,
}

/// A git reference with the revision it was resolved to.
#[derive(Debug, Clone)]
pub struct GitRefLock {
    pub reference: String,
    pub revision: String,
}

/// A git repository given by its URL.
#[derive(Debug, Clone)]
pub struct RawGitRepo {
    pub url: String,
}

/// A repository on a forge.
#[derive(Debug)]
pub struct GitForgeRepo<T> {
    pub instance: T,
    pub owner: String,
    pub repo: String,
    pub phantom: PhantomData<T>,
}

impl<T: Clone> Clone for GitForgeRepo<T> {
    fn clone(&self) -> Self {
        GitForgeRepo {
            instance: self.instance.clone(),
            owner: self.owner.clone(),
            repo: self.repo.clone(),
            phantom: PhantomData,
        }
    }
}

/// Codeberg, or a Forgejo instance at the given host.
#[derive(Debug, Clone)]
pub struct Codeberg(pub Option<String>);

/// GitHub.
#[derive(Debug, Clone)]
pub struct Github;

/// GitLab, or an instance at the given host.
#[derive(Debug, Clone)]
pub struct Gitlab(pub Option<String>);

/// A repository with the reference and revision to take from it.
#[derive(Debug, Clone)]
pub struct GitSource<T> {
    pub repo: T,
    pub git_ref: GitRef,
}

/// A repository with a resolved reference and revision.
#[derive(Debug, Clone)]
pub struct GitLock<T> {
    pub repo: T,
    pub git_ref_lock: GitRefLock,
}

/// A source of Nix expressions.
#[derive(Debug, Clone)]
pub enum Source {
    GitRaw(GitSource<RawGitRepo>),
    Codeberg(GitSource<GitForgeRepo<Codeberg>>),
    Github(GitSource<GitForgeRepo<Github>>),
    Gitlab(GitSource<GitForgeRepo<Gitlab>>),
}

/// A source with its reference and revision resolved.
#[derive(Debug, Clone)]
pub enum LockSpecifics {
    GitRaw(GitLock<RawGitRepo>),
    Codeberg(GitLock<GitForgeRepo<Codeberg>>),
    Github(GitLock<GitForgeRepo<Github>>),
    Gitlab(GitLock<GitForgeRepo<Gitlab>>),
}

/// A locked source: its resolved specifics and the hash of its contents.
#[derive(Debug, Clone)]
pub struct Lock {
    pub specs: LockSpecifics,
    pub sha256: String,
}

fn text(s: &str) -> (r: String)
    ensures
        r@ == s@,
{
    let mut r = String::new();
    r.append(s);
    r
}

/// A repository that can be fetched with git.
pub trait FetchGitRepo {
    /// The URL to fetch the repository from.
    spec fn spec_url(&self) -> Seq<char>;

    /// The URL to fetch the repository from.
    fn url(&self) -> (r: String)
        ensures
            r@ == self.spec_url();
}

/// The URL of a repository on a forge at `host`.
pub open spec fn forge_url(host: Seq<char>, owner: Seq<char>, repo: Seq<char>) -> Seq<char> {
    "https://"@ + host + "/"@ + owner + "/"@ + repo
}

fn forge_url_exec(host: &str, owner: &String, repo: &String) -> (r: String)
    ensures
        r@ == forge_url(host@, owner@, repo@),
{
    let mut r = text("https://");
    r.append(host);
    r.append("/");
    r.append(owner.as_str());
    r.append("/");
    r.append(repo.as_str());
    r
}

/// The host given, or `default`.
pub open spec fn host_or(host: Option<String>, default: Seq<char>) -> Seq<char> {
    match host {
        Some(h) => h@,
        None => default,
    }
}

impl FetchGitRepo for RawGitRepo {
    open spec fn spec_url(&self) -> Seq<char> {
        self.url@
    }

    fn url(&self) -> (r: String) {
        self.url.clone()
    }
}

impl FetchGitRepo for GitForgeRepo<Codeberg> {
    open spec fn spec_url(&self) -> Seq<char> {
        forge_url(host_or(self.instance.0, "codeberg.org"@), self.owner@, self.repo@)
    }

    fn url(&self) -> (r: String) {
        match &self.instance.0 {
            Some(h) => forge_url_exec(h.as_str(), &self.owner, &self.repo),
            None => forge_url_exec("codeberg.org", &self.owner, &self.repo),
        }
    }
}

impl FetchGitRepo for GitForgeRepo<Github> {
    open spec fn spec_url(&self) -> Seq<char> {
        forge_url("github.com"@, self.owner@, self.repo@)
    }

    fn url(&self) -> (r: String) {
        forge_url_exec("github.com", &self.owner, &self.repo)
    }
}

impl FetchGitRepo for GitForgeRepo<Gitlab> {
    /// A GitLab repository without a host is looked for on `codeberg.org`.
    open spec fn spec_url(&self) -> Seq<char> {
        forge_url(host_or(self.instance.0, "codeberg.org"@), self.owner@, self.repo@)
    }

    fn url(&self) -> (r: String) {
        match &self.instance.0 {
            Some(h) => forge_url_exec(h.as_str(), &self.owner, &self.repo),
            None => forge_url_exec("codeberg.org", &self.owner, &self.repo),
        }
    }
}

/// `std::str::from_utf8`: the text whose UTF-8 encoding is `bytes`, or `None` when
/// `bytes` is not valid UTF-8.
#[verifier::external_body]
fn str_from_utf8(bytes: &[u8]) -> (r: Option<&str>)
    ensures
        match r {
            Some(s) => encode_utf8(s@) == bytes@,
            None => !valid_utf8(bytes@),
        },
{
    match std::str::from_utf8(bytes) {
        Ok(s) => Some(s),
        Err(_) => None,
    }
}

/// The text that `bytes` encode in UTF-8; `NotUtf8` with the bytes when they are not
/// valid UTF-8.
pub fn from_utf8(bytes: Vec<u8>) -> (r: Result<String, Error>)
    ensures
        r is Ok <==> valid_utf8(bytes@),
        r matches Ok(s) ==> encode_utf8(s@) == bytes@,
        r matches Err(e) ==> e matches Error::NotUtf8(b) && b@ == bytes@,
{
    let text = match str_from_utf8(bytes.as_slice()) {
        Some(s) => Some(String::from_str(s)),
        None => None,
    };
    match text {
        Some(s) => {
            proof {
                vstd::utf8::encode_utf8_valid_utf8(s@);
            }
            Ok(s)
        },
        None => Err(Error::NotUtf8(bytes)),
    }
}

/// A reference advertised by a remote, with the revision it points to.
pub struct RemoteHead {
    pub name: String,
    pub oid: String,
}

/// The index of the first head named `reference`.
pub fn find_head(heads: &Vec<RemoteHead>, reference: &String) -> (r: Option<usize>)
    ensures
        match r {
            Some(i) => i < heads@.len() && heads@[i as int].name@ == reference@ && forall|j: int|
                0 <= j < i ==> heads@[j].name@ != reference@,
            None => forall|j: int| 0 <= j < heads@.len() ==> heads@[j].name@ != reference@,
        },
{
    let mut i: usize = 0;
    while i < heads.len()
        invariant
            i <= heads@.len(),
            forall|j: int| 0 <= j < i ==> heads@[j].name@ != reference@,
        decreases heads@.len() - i,
    {
        if heads[i].name == *reference {
            return Some(i);
        }
        i = i + 1;
    }
    None
}

/// Resolves a git reference against a remote: a missing reference is the remote's
/// default branch (`default_reference`, needed only then), a missing revision is the
/// revision of the first head of the remote's list (`heads`, needed only then) named by
/// the reference; `ToDo` when no head has that name.
pub fn sync_lock(
    git_ref: GitRef,
    default_reference: Option<String>,
    heads: Option<Vec<RemoteHead>>,
) -> (r: Result<GitRefLock, Error>)
    requires
        git_ref.reference is None ==> default_reference is Some,
        git_ref.revision is None ==> heads is Some,
    ensures
        ({
            let reference = match git_ref.reference {
                Some(x) => x@,
                None => default_reference->0@,
            };
            match git_ref.revision {
                Some(v) => r matches Ok(l) && l.reference@ == reference && l.revision == v,
                None => {
                    let hs = heads->0@;
                    if exists|i: int| 0 <= i < hs.len() && #[trigger] hs[i].name@ == reference {
                        r matches Ok(l) && l.reference@ == reference && exists|i: int|
                            0 <= i < hs.len() && #[trigger] hs[i].name@ == reference && (forall|j: int|
                                0 <= j < i ==> hs[j].name@ != reference) && l.revision == hs[i].oid
                    } else {
                        r matches Err(e) && e is ToDo
                    }
                },
            }
        }),
{
    let reference = match git_ref.reference {
        Some(x) => x,
        None => default_reference.unwrap(),
    };
    let revision = match git_ref.revision {
        Some(v) => v,
        None => {
            let hs = heads.unwrap();
            match find_head(&hs, &reference) {
                Some(i) => hs[i].oid.clone(),
                None => {
                    return Err(Error::ToDo);
                },
            }
        },
    };
    Ok(GitRefLock { reference, revision })
}

} // verus!
