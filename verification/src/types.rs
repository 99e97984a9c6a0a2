//! Sources and locks as exchanged with users, with the Nix expressions that fetch them.
use std::marker::PhantomData;
use vstd::prelude::*;
use vstd::string::StringExecFns;

verus! {

/// A git reference and revision, each optional.
#[derive(Debug, Clone)]
pub struct GitRef {
    pub reference: Option<String>,
    pub revision: Option<String>,
}

/// A git reference with the revision it was resolved to.
#[derive(Debug, Clone)]
pub struct GitLock {
    pub reference: String,
    pub revision: String,
}

/// A kind of repository that Nix can fetch.
pub trait FetchGit {
    /// The Nix function that fetches a repository of this kind.
    const EXPR: &'static str;
}

/// The Nix function that fetches a git repository.
pub open spec fn raw_git_expr() -> Seq<char> {
    "({ url, ref, rev, .. }: builtins.fetchGit { inherit url ref rev, })"@
}

/// A git repository given by its URL.
#[derive(Debug, Clone)]
pub struct RawGitRepo {
    pub url: String,
}

impl FetchGit for RawGitRepo {
    const EXPR: &'static str = "({ url, ref, rev, .. }: builtins.fetchGit { inherit url ref rev, })";
}

/// A repository on a forge.
#[derive(Debug)]
pub struct ForgeGitRepo<T> {
    pub instance: T,
    pub owner: String,
    pub repo: String,
    pub phantom: PhantomData<T>,
}

impl<T: Clone> Clone for ForgeGitRepo<T> {
    fn clone(&self) -> Self {
        ForgeGitRepo {
            instance: self.instance.clone(),
            owner: self.owner.clone(),
            repo: self.repo.clone(),
            phantom: PhantomData,
        }
    }
}

/// Codeberg, or a Forgejo instance at the given host.
#[derive(Debug, Clone)]
pub struct Codeberg(Option<String>);

impl FetchGit for ForgeGitRepo<Codeberg> {
    const EXPR: &'static str = "({ instance ? \"codeberg.org\", owner, repo, rev, sha256, ... }: builtins.fetchTarball { url = \"https://${instance}/${owner}/${repo}/archive/${rev}.tar.gz\"; inherit sha256; })";
}

/// GitHub.
#[derive(Debug, Clone)]
pub struct Github;

impl FetchGit for ForgeGitRepo<Github> {
    const EXPR: &'static str = "({ owner, repo, rev, sha256, ... }: builtins.fetchTarball { url = \"https://github.com/${owner}/${repo}/archive/${rev}.tar.gz\"; inherit sha256; })";
}

/// GitLab, or an instance at the given host.
#[derive(Debug, Clone)]
pub struct Gitlab(Option<String>);

impl FetchGit for ForgeGitRepo<Gitlab> {
    const EXPR: &'static str = "({ instance ? \"gitlab.com\", owner, repo, rev, sha256, ... }: builtins.fetchTarball { url = \"https://${instance}/${owner}/${repo}/archive/${rev}.tar.gz\"; inherit sha256; })";
}

/// A repository with the reference and revision to take from it.
#[derive(Debug, Clone)]
pub struct ForgeGitSource<T> {
    repo: ForgeGitRepo<T>,
    git: GitRef,
}

impl<T> ForgeGitSource<T> {
    /// The repository and the reference and revision to take from it.
    pub closed spec fn parts(&self) -> (ForgeGitRepo<T>, GitRef) {
        (self.repo, self.git)
    }

    /// The repository `repo` at the reference and revision `git`.
    pub fn new(repo: ForgeGitRepo<T>, git: GitRef) -> (r: Self)
        ensures
            r.parts() == (repo, git),
    {
        ForgeGitSource { repo, git }
    }
}

/// A repository with a resolved reference and revision.
#[derive(Debug, Clone)]
pub struct ForgeGitLock<T> {
    repo: ForgeGitRepo<T>,
    git: GitLock,
}

/// A source of Nix expressions.
#[derive(Debug, Clone)]
pub enum Source {
    Git(ForgeGitSource<RawGitRepo>),
    Codeberg(ForgeGitSource<Codeberg>),
    Github(ForgeGitSource<Github>),
    Gitlab(ForgeGitSource<Gitlab>),
}

/// A locked source.
#[derive(Debug, Clone)]
pub enum Lock {
    Git(ForgeGitLock<RawGitRepo>),
    Codeberg(ForgeGitLock<Codeberg>),
    Github(ForgeGitLock<Github>),
    Gitlab(ForgeGitLock<Gitlab>),
}

impl Source {
    /// The Nix function that fetches this source; only git sources have one.
    pub fn expr(&self) -> (r: String)
        requires
            self is Git,
        ensures
            r@ == raw_git_expr(),
    {
        String::from_str(RawGitRepo::EXPR)
    }
}

} // verus!
