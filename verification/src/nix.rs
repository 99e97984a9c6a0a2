//! What Nix reports about derivations, and the planning of source locks.
use vstd::prelude::*;
use vstd::string::StringExecFns;

verus! {

/// An input derivation, as listed by `nix derivation show`.
pub struct InputDrv {}

/// A derivation: the store paths of the derivations it depends on, each once.
pub struct Derivation {
    pub dependencies: Vec<(String, InputDrv)>,
}

/// The closure of a derivation, as printed by `nix derivation show -r`: each derivation
/// path with its derivation.
pub struct RecursiveDerivation(pub Vec<(String, Derivation)>);

/// Each derivation of the closure `rd` names each of its dependencies once.
pub open spec fn distinct_dependencies(rd: Seq<(String, Derivation)>) -> bool {
    forall|j: int, a: int, b: int|
        0 <= j < rd.len() && 0 <= a < b < rd[j].1.dependencies@.len() ==> #[trigger] rd[j].1.dependencies@[a].0@
            != #[trigger] rd[j].1.dependencies@[b].0@
}

/// `d` is a key of the closure `rd`.
pub open spec fn has_derivation(rd: Seq<(String, Derivation)>, d: Seq<char>) -> bool {
    exists|i: int| 0 <= i < rd.len() && #[trigger] rd[i].0@ == d
}

/// In the closure `rd`, the derivation `d` depends on `e`: `e` is among the dependencies of
/// the first entry whose key is `d`.
pub open spec fn depends(rd: Seq<(String, Derivation)>, d: Seq<char>, e: Seq<char>) -> bool {
    exists|i: int, k: int|
        0 <= i < rd.len() && #[trigger] rd[i].0@ == d && (forall|j: int|
            0 <= j < i ==> rd[j].0@ != d) && 0 <= k < rd[i].1.dependencies@.len()
            && #[trigger] rd[i].1.dependencies@[k].0@ == e
}

/// The index of the first entry of `rd` whose key is `d`, if any.
pub fn find_derivation(rd: &Vec<(String, Derivation)>, d: &String) -> (r: Option<usize>)
    ensures
        match r {
            Some(i) => i < rd@.len() && rd@[i as int].0@ == d@ && forall|j: int|
                0 <= j < i ==> rd@[j].0@ != d@,
            None => !has_derivation(rd@, d@),
        },
{
    let mut i: usize = 0;
    while i < rd.len()
        invariant
            i <= rd@.len(),
            forall|j: int| 0 <= j < i ==> rd@[j].0@ != d@,
        decreases rd@.len() - i,
    {
        if rd[i].0 == *d {
            return Some(i);
        }
        i = i + 1;
    }
    None
}


fn text(s: &str) -> (r: String)
    ensures
        r@ == s@,
{
    let mut r = String::new();
    r.append(s);
    r
}

/// A source of Nix expressions, as given by a user.
pub enum Source {
    /// A git repository at `url`; the reference defaults to `HEAD` and the revision to
    /// the reference's head.
    Git { url: String, reference: Option<String>, revision: Option<String> },
    /// A GitHub repository; the branch defaults to the repository's default branch and
    /// the revision to the branch's head.
    GitHub { owner: String, repo: String, branch: Option<String>, revision: Option<String> },
}

/// A source with every choice resolved.
pub enum Lock {
    Git { url: String, reference: String, revision: String },
    GitHub { owner: String, repo: String, revision: String, sha256: String },
}

pub enum SourceView {
    Git { url: Seq<char>, reference: Option<Seq<char>>, revision: Option<Seq<char>> },
    GitHub {
        owner: Seq<char>,
        repo: Seq<char>,
        branch: Option<Seq<char>>,
        revision: Option<Seq<char>>,
    },
}

pub enum LockView {
    Git { url: Seq<char>, reference: Seq<char>, revision: Seq<char> },
    GitHub { owner: Seq<char>, repo: Seq<char>, revision: Seq<char>, sha256: Seq<char> },
}

impl View for Source {
    type V = SourceView;

    open spec fn view(&self) -> SourceView {
        match self {
            Source::Git { url, reference, revision } => SourceView::Git {
                url: url@,
                reference: reference.deep_view(),
                revision: revision.deep_view(),
            },
            Source::GitHub { owner, repo, branch, revision } => SourceView::GitHub {
                owner: owner@,
                repo: repo@,
                branch: branch.deep_view(),
                revision: revision.deep_view(),
            },
        }
    }
}

impl View for Lock {
    type V = LockView;

    open spec fn view(&self) -> LockView {
        match self {
            Lock::Git { url, reference, revision } => LockView::Git {
                url: url@,
                reference: reference@,
                revision: revision@,
            },
            Lock::GitHub { owner, repo, revision, sha256 } => LockView::GitHub {
                owner: owner@,
                repo: repo@,
                revision: revision@,
                sha256: sha256@,
            },
        }
    }
}

/// Where the locking of a source stands: what it waits for, and what it knows so far.
pub enum Locking {
    /// Waits for the revision of `reference`.
    GitRevision { url: String, reference: String },
    /// Waits for the store path of the revision.
    GitOutPath { url: String, reference: String, revision: String },
    /// Waits for the default branch of the repository.
    GitHubBranch { owner: String, repo: String, revision: Option<String> },
    /// Waits for the head of `branch`.
    GitHubRevision { owner: String, repo: String, branch: String },
    /// Waits for the store path of the revision's archive.
    GitHubOutPath { owner: String, repo: String, revision: String },
    /// Waits for the hash of `out_path`.
    GitHubHash { owner: String, repo: String, revision: String, out_path: String },
    /// Locked.
    Finished,
}

pub enum LockingView {
    GitRevision { url: Seq<char>, reference: Seq<char> },
    GitOutPath { url: Seq<char>, reference: Seq<char>, revision: Seq<char> },
    GitHubBranch { owner: Seq<char>, repo: Seq<char>, revision: Option<Seq<char>> },
    GitHubRevision { owner: Seq<char>, repo: Seq<char>, branch: Seq<char> },
    GitHubOutPath { owner: Seq<char>, repo: Seq<char>, revision: Seq<char> },
    GitHubHash { owner: Seq<char>, repo: Seq<char>, revision: Seq<char>, out_path: Seq<char> },
    Finished,
}

impl View for Locking {
    type V = LockingView;

    open spec fn view(&self) -> LockingView {
        match self {
            Locking::GitRevision { url, reference } => LockingView::GitRevision {
                url: url@,
                reference: reference@,
            },
            Locking::GitOutPath { url, reference, revision } => LockingView::GitOutPath {
                url: url@,
                reference: reference@,
                revision: revision@,
            },
            Locking::GitHubBranch { owner, repo, revision } => LockingView::GitHubBranch {
                owner: owner@,
                repo: repo@,
                revision: revision.deep_view(),
            },
            Locking::GitHubRevision { owner, repo, branch } => LockingView::GitHubRevision {
                owner: owner@,
                repo: repo@,
                branch: branch@,
            },
            Locking::GitHubOutPath { owner, repo, revision } => LockingView::GitHubOutPath {
                owner: owner@,
                repo: repo@,
                revision: revision@,
            },
            Locking::GitHubHash { owner, repo, revision, out_path } => LockingView::GitHubHash {
                owner: owner@,
                repo: repo@,
                revision: revision@,
                out_path: out_path@,
            },
            Locking::Finished => LockingView::Finished,
        }
    }
}

/// What the caller must do next to lock a source; the reply is a string each time.
pub enum LockAction {
    /// Evaluate the expression with `nix-instantiate --eval --expr` and reply with the
    /// string it yields.
    Eval(String),
    /// Fetch the GitHub API document at this URL and reply with its `default_branch`.
    DefaultBranch(String),
    /// Fetch the GitHub API document at this URL and reply with its `commit.sha`.
    BranchHead(String),
    /// Ask the store for the NAR hash of this path and reply with it.
    Hash(String),
    /// The source is locked; its contents are at the store path.
    Done(Lock, String),
}

pub enum LockActionView {
    Eval(Seq<char>),
    DefaultBranch(Seq<char>),
    BranchHead(Seq<char>),
    Hash(Seq<char>),
    Done(LockView, Seq<char>),
}

impl View for LockAction {
    type V = LockActionView;

    open spec fn view(&self) -> LockActionView {
        match self {
            LockAction::Eval(e) => LockActionView::Eval(e@),
            LockAction::DefaultBranch(u) => LockActionView::DefaultBranch(u@),
            LockAction::BranchHead(u) => LockActionView::BranchHead(u@),
            LockAction::Hash(p) => LockActionView::Hash(p@),
            LockAction::Done(l, p) => LockActionView::Done(l@, p@),
        }
    }
}

/// The expression whose value is the revision at the head of `reference`.
pub open spec fn git_rev_expr(url: Seq<char>, reference: Seq<char>) -> Seq<char> {
    "(builtins.fetchGit { url = \""@ + url + "\"; ref = \""@ + reference + "\"; }).rev"@
}

/// The expression whose value is the store path of `revision`.
pub open spec fn git_out_expr(url: Seq<char>, reference: Seq<char>, revision: Seq<char>) -> Seq<char> {
    "(builtins.fetchGit { url = \""@ + url + "\"; ref = \""@ + reference + "\"; rev = \""@
        + revision + "\"; }).outPath"@
}

/// The GitHub API document of a repository.
pub open spec fn repo_api_url(owner: Seq<char>, repo: Seq<char>) -> Seq<char> {
    "https://api.github.com/repos/"@ + owner + "/"@ + repo
}

/// The GitHub API document of a branch.
pub open spec fn branch_api_url(owner: Seq<char>, repo: Seq<char>, branch: Seq<char>) -> Seq<char> {
    "https://api.github.com/repos/"@ + owner + "/"@ + repo + "/branches/"@ + branch
}

/// The expression whose value is the store path of a revision's archive on GitHub.
pub open spec fn archive_expr(owner: Seq<char>, repo: Seq<char>, revision: Seq<char>) -> Seq<char> {
    "builtins.fetchTarball { url = \""@ + ("https://github.com/"@ + owner + "/"@ + repo
        + "/archive/"@ + revision + ".tar.gz"@) + "\"; }"@
}

/// The first step of locking `s`.
pub open spec fn lock_start(s: SourceView) -> (LockingView, LockActionView) {
    match s {
        SourceView::Git { url, reference, revision } => {
            let reference = match reference {
                Some(r) => r,
                None => "HEAD"@,
            };
            match revision {
                Some(revision) => (
                    LockingView::GitOutPath { url, reference, revision },
                    LockActionView::Eval(git_out_expr(url, reference, revision)),
                ),
                None => (
                    LockingView::GitRevision { url, reference },
                    LockActionView::Eval(git_rev_expr(url, reference)),
                ),
            }
        },
        SourceView::GitHub { owner, repo, branch, revision } => match branch {
            None => (
                LockingView::GitHubBranch { owner, repo, revision },
                LockActionView::DefaultBranch(repo_api_url(owner, repo)),
            ),
            Some(branch) => github_after_branch(owner, repo, branch, revision),
        },
    }
}

/// The step of a GitHub lock once the branch is known.
pub open spec fn github_after_branch(
    owner: Seq<char>,
    repo: Seq<char>,
    branch: Seq<char>,
    revision: Option<Seq<char>>,
) -> (LockingView, LockActionView) {
    match revision {
        Some(revision) => (
            LockingView::GitHubOutPath { owner, repo, revision },
            LockActionView::Eval(archive_expr(owner, repo, revision)),
        ),
        None => (
            LockingView::GitHubRevision { owner, repo, branch },
            LockActionView::BranchHead(branch_api_url(owner, repo, branch)),
        ),
    }
}

/// The step of locking that follows `reply` in state `st`.
pub open spec fn lock_next(st: LockingView, reply: Seq<char>) -> (LockingView, LockActionView) {
    match st {
        LockingView::GitRevision { url, reference } => (
            LockingView::GitOutPath { url, reference, revision: reply },
            LockActionView::Eval(git_out_expr(url, reference, reply)),
        ),
        LockingView::GitOutPath { url, reference, revision } => (
            LockingView::Finished,
            LockActionView::Done(LockView::Git { url, reference, revision }, reply),
        ),
        LockingView::GitHubBranch { owner, repo, revision } => github_after_branch(
            owner,
            repo,
            reply,
            revision,
        ),
        LockingView::GitHubRevision { owner, repo, branch } => (
            LockingView::GitHubOutPath { owner, repo, revision: reply },
            LockActionView::Eval(archive_expr(owner, repo, reply)),
        ),
        LockingView::GitHubOutPath { owner, repo, revision } => (
            LockingView::GitHubHash { owner, repo, revision, out_path: reply },
            LockActionView::Hash(reply),
        ),
        LockingView::GitHubHash { owner, repo, revision, out_path } => (
            LockingView::Finished,
            LockActionView::Done(LockView::GitHub { owner, repo, revision, sha256: reply }, out_path),
        ),
        LockingView::Finished => (LockingView::Finished, LockActionView::Eval(Seq::empty())),
    }
}

fn git_rev_expr_exec(url: &String, reference: &String) -> (r: String)
    ensures
        r@ == git_rev_expr(url@, reference@),
{
    let mut r = text("(builtins.fetchGit { url = \"");
    r.append(url.as_str());
    r.append("\"; ref = \"");
    r.append(reference.as_str());
    r.append("\"; }).rev");
    r
}

fn git_out_expr_exec(url: &String, reference: &String, revision: &String) -> (r: String)
    ensures
        r@ == git_out_expr(url@, reference@, revision@),
{
    let mut r = text("(builtins.fetchGit { url = \"");
    r.append(url.as_str());
    r.append("\"; ref = \"");
    r.append(reference.as_str());
    r.append("\"; rev = \"");
    r.append(revision.as_str());
    r.append("\"; }).outPath");
    r
}

fn repo_api_url_exec(owner: &String, repo: &String) -> (r: String)
    ensures
        r@ == repo_api_url(owner@, repo@),
{
    let mut r = text("https://api.github.com/repos/");
    r.append(owner.as_str());
    r.append("/");
    r.append(repo.as_str());
    r
}

fn branch_api_url_exec(owner: &String, repo: &String, branch: &String) -> (r: String)
    ensures
        r@ == branch_api_url(owner@, repo@, branch@),
{
    let mut r = repo_api_url_exec(owner, repo);
    r.append("/branches/");
    r.append(branch.as_str());
    r
}

fn archive_expr_exec(owner: &String, repo: &String, revision: &String) -> (r: String)
    ensures
        r@ == archive_expr(owner@, repo@, revision@),
{
    let mut url = text("https://github.com/");
    url.append(owner.as_str());
    url.append("/");
    url.append(repo.as_str());
    url.append("/archive/");
    url.append(revision.as_str());
    url.append(".tar.gz");
    let mut r = text("builtins.fetchTarball { url = \"");
    r.append(url.as_str());
    r.append("\"; }");
    r
}

fn github_after_branch_exec(
    owner: String,
    repo: String,
    branch: String,
    revision: Option<String>,
) -> (r: (Locking, LockAction))
    ensures
        (r.0@, r.1@) == github_after_branch(owner@, repo@, branch@, revision.deep_view()),
{
    match revision {
        Some(revision) => {
            let expr = archive_expr_exec(&owner, &repo, &revision);
            (Locking::GitHubOutPath { owner, repo, revision }, LockAction::Eval(expr))
        },
        None => {
            let url = branch_api_url_exec(&owner, &repo, &branch);
            (Locking::GitHubRevision { owner, repo, branch }, LockAction::BranchHead(url))
        },
    }
}

fn copy_opt(o: &Option<String>) -> (r: Option<String>)
    ensures
        r == *o,
{
    match o {
        Some(s) => Some(s.clone()),
        None => None,
    }
}

impl Source {
    /// An identical source.
    pub fn copy(&self) -> (r: Source)
        ensures
            r == *self,
    {
        match self {
            Source::Git { url, reference, revision } => Source::Git {
                url: url.clone(),
                reference: copy_opt(reference),
                revision: copy_opt(revision),
            },
            Source::GitHub { owner, repo, branch, revision } => Source::GitHub {
                owner: owner.clone(),
                repo: repo.clone(),
                branch: copy_opt(branch),
                revision: copy_opt(revision),
            },
        }
    }

    /// The first step of locking this source: what to ask, and the state that waits for
    /// the reply.
    pub fn lock_start(self) -> (r: (Locking, LockAction))
        ensures
            (r.0@, r.1@) == lock_start(self@),
    {
        match self {
            Source::Git { url, reference, revision } => {
                let reference = match reference {
                    Some(r) => r,
                    None => text("HEAD"),
                };
                match revision {
                    Some(revision) => {
                        let expr = git_out_expr_exec(&url, &reference, &revision);
                        (Locking::GitOutPath { url, reference, revision }, LockAction::Eval(expr))
                    },
                    None => {
                        let expr = git_rev_expr_exec(&url, &reference);
                        (Locking::GitRevision { url, reference }, LockAction::Eval(expr))
                    },
                }
            },
            Source::GitHub { owner, repo, branch, revision } => match branch {
                None => {
                    let url = repo_api_url_exec(&owner, &repo);
                    (Locking::GitHubBranch { owner, repo, revision }, LockAction::DefaultBranch(url))
                },
                Some(branch) => github_after_branch_exec(owner, repo, branch, revision),
            },
        }
    }
}

impl Locking {
    /// The step that follows `reply`, the answer to the last action.
    pub fn next(self, reply: String) -> (r: (Locking, LockAction))
        requires
            !(self@ is Finished),
        ensures
            (r.0@, r.1@) == lock_next(self@, reply@),
    {
        match self {
            Locking::GitRevision { url, reference } => {
                let expr = git_out_expr_exec(&url, &reference, &reply);
                (Locking::GitOutPath { url, reference, revision: reply }, LockAction::Eval(expr))
            },
            Locking::GitOutPath { url, reference, revision } => {
                (Locking::Finished, LockAction::Done(Lock::Git { url, reference, revision }, reply))
            },
            Locking::GitHubBranch { owner, repo, revision } => {
                github_after_branch_exec(owner, repo, reply, revision)
            },
            Locking::GitHubRevision { owner, repo, branch } => {
                let expr = archive_expr_exec(&owner, &repo, &reply);
                (Locking::GitHubOutPath { owner, repo, revision: reply }, LockAction::Eval(expr))
            },
            Locking::GitHubOutPath { owner, repo, revision } => {
                let path = reply.clone();
                (Locking::GitHubHash { owner, repo, revision, out_path: reply }, LockAction::Hash(path))
            },
            Locking::GitHubHash { owner, repo, revision, out_path } => {
                (
                    Locking::Finished,
                    LockAction::Done(Lock::GitHub { owner, repo, revision, sha256: reply }, out_path),
                )
            },
            Locking::Finished => (Locking::Finished, LockAction::Eval(String::new())),
        }
    }
}


/// The action that locking reaches from state `st` and action `act` when the caller
/// answers each action in turn with `replies`.
pub open spec fn lock_run(st: LockingView, act: LockActionView, replies: Seq<Seq<char>>) -> LockActionView
    decreases replies.len(),
{
    if replies.len() == 0 || st is Finished {
        act
    } else {
        let (st2, act2) = lock_next(st, replies[0]);
        lock_run(st2, act2, replies.drop_first())
    }
}

/// The lock of source `s` agrees with it: same repository, the given reference (or
/// `HEAD`) for a git source, and the given revision whenever there is one.
pub open spec fn lock_agrees(s: SourceView, l: LockView) -> bool {
    match (s, l) {
        (
            SourceView::Git { url, reference, revision },
            LockView::Git { url: lurl, reference: lref, revision: lrev },
        ) => {
            &&& lurl == url
            &&& lref == match reference {
                Some(r) => r,
                None => "HEAD"@,
            }
            &&& revision matches Some(v) ==> lrev == v
        },
        (
            SourceView::GitHub { owner, repo, branch, revision },
            LockView::GitHub { owner: lowner, repo: lrepo, revision: lrev, sha256 },
        ) => {
            &&& lowner == owner
            &&& lrepo == repo
            &&& revision matches Some(v) ==> lrev == v
        },
        _ => false,
    }
}

/// Whatever the answers, locking a source is done after at most four of them, and the
/// lock agrees with the source: it keeps the repository and every reference and revision
/// that the source gives.
pub proof fn lemma_lock_keeps_source(s: SourceView, replies: Seq<Seq<char>>)
    requires
        replies.len() >= 4,
    ensures
        ({
            let (st, act) = lock_start(s);
            lock_run(st, act, replies) matches LockActionView::Done(l, _) && lock_agrees(s, l)
        }),
{
    reveal_with_fuel(lock_run, 5);
    let (st, act) = lock_start(s);
    let r1 = replies.drop_first();
    let r2 = r1.drop_first();
    let r3 = r2.drop_first();
    assert(r1[0] == replies[1]);
    assert(r2[0] == replies[2]);
    assert(r3[0] == replies[3]);
}

/// A git source without a revision is locked at the head of its own reference (`HEAD`
/// when it names none): the first action evaluates the revision expression of the lock's
/// reference, its answer is the lock's revision, and the second action evaluates the store
/// path of that revision.
pub proof fn lemma_git_lock_follows_reference(url: Seq<char>, reference: Option<Seq<char>>, replies: Seq<Seq<char>>)
    requires
        replies.len() >= 2,
    ensures
        ({
            let s = SourceView::Git { url, reference, revision: None };
            let r = match reference {
                Some(r) => r,
                None => "HEAD"@,
            };
            let (st, act) = lock_start(s);
            &&& act == LockActionView::Eval(git_rev_expr(url, r))
            &&& lock_run(st, act, replies.take(1)) == LockActionView::Eval(git_out_expr(url, r, replies[0]))
            &&& lock_run(st, act, replies) == LockActionView::Done(
                LockView::Git { url, reference: r, revision: replies[0] },
                replies[1],
            )
        }),
{
    reveal_with_fuel(lock_run, 3);
    let r1 = replies.drop_first();
    assert(r1[0] == replies[1]);
    assert(replies.take(1).drop_first().len() == 0);
    assert(replies.take(1)[0] == replies[0]);
}

/// A git source with a revision is locked at that revision, under its own reference:
/// the only question is the store path of that revision.
pub proof fn lemma_git_lock_keeps_revision(url: Seq<char>, reference: Option<Seq<char>>, revision: Seq<char>, replies: Seq<Seq<char>>)
    requires
        replies.len() >= 1,
    ensures
        ({
            let s = SourceView::Git { url, reference, revision: Some(revision) };
            let r = match reference {
                Some(r) => r,
                None => "HEAD"@,
            };
            let (st, act) = lock_start(s);
            &&& act == LockActionView::Eval(git_out_expr(url, r, revision))
            &&& lock_run(st, act, replies) == LockActionView::Done(LockView::Git { url, reference: r, revision }, replies[0])
        }),
{
    reveal_with_fuel(lock_run, 2);
}

/// A GitHub source that names a branch but no revision is locked at the head of that
/// branch: the first action asks for the head of the given branch, never for the
/// default branch, and its answer is the lock's revision.
pub proof fn lemma_github_lock_follows_branch(owner: Seq<char>, repo: Seq<char>, branch: Seq<char>, replies: Seq<Seq<char>>)
    requires
        replies.len() >= 3,
    ensures
        ({
            let s = SourceView::GitHub { owner, repo, branch: Some(branch), revision: None };
            let (st, act) = lock_start(s);
            &&& act == LockActionView::BranchHead(branch_api_url(owner, repo, branch))
            &&& lock_run(st, act, replies.take(1)) == LockActionView::Eval(archive_expr(owner, repo, replies[0]))
            &&& lock_run(st, act, replies) == LockActionView::Done(
                LockView::GitHub { owner, repo, revision: replies[0], sha256: replies[2] },
                replies[1],
            )
        }),
{
    reveal_with_fuel(lock_run, 4);
    let r1 = replies.drop_first();
    let r2 = r1.drop_first();
    assert(r1[0] == replies[1]);
    assert(r2[0] == replies[2]);
    assert(replies.take(1).drop_first().len() == 0);
    assert(replies.take(1)[0] == replies[0]);
}

/// A GitHub source that names no branch is locked at the head of the repository's
/// default branch: the first action asks for the default branch, the second for the
/// head of the branch given in answer, and that head is the lock's revision.
pub proof fn lemma_github_lock_default_branch(owner: Seq<char>, repo: Seq<char>, replies: Seq<Seq<char>>)
    requires
        replies.len() >= 4,
    ensures
        ({
            let s = SourceView::GitHub { owner, repo, branch: None, revision: None };
            let (st, act) = lock_start(s);
            &&& act == LockActionView::DefaultBranch(repo_api_url(owner, repo))
            &&& lock_run(st, act, replies.take(1)) == LockActionView::BranchHead(branch_api_url(owner, repo, replies[0]))
            &&& lock_run(st, act, replies) == LockActionView::Done(
                LockView::GitHub { owner, repo, revision: replies[1], sha256: replies[3] },
                replies[2],
            )
        }),
{
    reveal_with_fuel(lock_run, 5);
    let r1 = replies.drop_first();
    let r2 = r1.drop_first();
    let r3 = r2.drop_first();
    assert(r1[0] == replies[1]);
    assert(r2[0] == replies[2]);
    assert(r3[0] == replies[3]);
    assert(replies.take(1).drop_first().len() == 0);
    assert(replies.take(1)[0] == replies[0]);
}

/// The default branch of a GitHub repository is asked for exactly when the source names
/// no branch, whatever its revision.
pub proof fn lemma_default_branch_only_without_branch(
    owner: Seq<char>,
    repo: Seq<char>,
    branch: Option<Seq<char>>,
    revision: Option<Seq<char>>,
)
    ensures
        lock_start(SourceView::GitHub { owner, repo, branch, revision }).1 is DefaultBranch <==> branch is None,
{
}

/// Why talking to Nix failed; the errors of outside libraries are kept as their
/// descriptions.
#[derive(Debug)]
pub enum Error {
    Whatever(String),
    NonUtf8Output(String),
    NixNotFound,
    NetworkUnavailable(String),
    UnexpectedResponse(String),
    NixDaemon(String),
    DeserializationError(String),
    ToDo,
}

/// The installable that stands for every output of the derivation `drv`.
pub open spec fn all_outputs(drv: Seq<char>) -> Seq<char> {
    drv + "!*"@
}

/// The installable that stands for every output of the derivation `drv`.
pub fn all_outputs_exec(drv: &str) -> (r: String)
    ensures
        r@ == all_outputs(drv@),
{
    let mut r = String::new();
    r.append(drv);
    r.append("!*");
    r
}

/// What the Nix daemon reports while it builds.
pub enum BuildEvent {
    /// A line of build log; the text of its first field when that field is a string.
    LogLine(Option<String>),
    /// Any other report.
    Other,
    /// The end of the reports: the build succeeded.
    Finished,
    /// The daemon reports that Nix failed: the build failed.
    NixError,
    /// Talking to the daemon failed.
    DaemonError(String),
}

/// What to do with a report of the daemon.
pub enum BuildStep {
    /// Write this to the build log and wait for the next report.
    Write(String),
    /// Wait for the next report.
    Continue,
    /// Stop with this result: `Ok(Ok(()))` when the build succeeded, `Ok(Err(()))` when
    /// it failed.
    Stop(Result<Result<(), ()>, Error>),
}

/// How a build goes on after the daemon's report `event`: log lines are written with a
/// line break, the end of the reports is a success, a Nix error a failed build, and a
/// log line without text or a failure to talk to the daemon an error.
pub fn build_step(event: BuildEvent) -> (r: BuildStep)
    ensures
        match event {
            BuildEvent::LogLine(Some(line)) => r matches BuildStep::Write(w) && w@ == line@ + "\n"@,
            BuildEvent::LogLine(None) => r matches BuildStep::Stop(Err(e)) && e is ToDo,
            BuildEvent::Other => r is Continue,
            BuildEvent::Finished => r matches BuildStep::Stop(Ok(Ok(()))),
            BuildEvent::NixError => r matches BuildStep::Stop(Ok(Err(()))),
            BuildEvent::DaemonError(m) => r matches BuildStep::Stop(Err(e)) && e matches Error::NixDaemon(m2) && m2 == m,
        },
{
    match event {
        BuildEvent::LogLine(Some(line)) => {
            let mut w = line;
            w.append("\n");
            BuildStep::Write(w)
        },
        BuildEvent::LogLine(None) => BuildStep::Stop(Err(Error::ToDo)),
        BuildEvent::Other => BuildStep::Continue,
        BuildEvent::Finished => BuildStep::Stop(Ok(Ok(()))),
        BuildEvent::NixError => BuildStep::Stop(Ok(Err(()))),
        BuildEvent::DaemonError(m) => BuildStep::Stop(Err(Error::NixDaemon(m))),
    }
}

/// The hash of a store path from the daemon's answer about it: a failure to talk to the
/// daemon is passed on, and a path the daemon does not know is an error.
pub fn hash_result(info: Result<Option<String>, String>) -> (r: Result<String, Error>)
    ensures
        match info {
            Ok(Some(h)) => r == Ok::<String, Error>(h),
            Ok(None) => r matches Err(e) && e is ToDo,
            Err(m) => r matches Err(e) && e matches Error::NixDaemon(m2) && m2 == m,
        },
{
    match info {
        Ok(Some(h)) => Ok(h),
        Ok(None) => Err(Error::ToDo),
        Err(m) => Err(Error::NixDaemon(m)),
    }
}

/// The derivations that building all outputs of a derivation would build, from the
/// daemon's answer: any failure is an error.
pub fn missing_result<E>(will_build: Result<Vec<String>, E>) -> (r: Result<Vec<String>, Error>)
    ensures
        match will_build {
            Ok(v) => r == Ok::<Vec<String>, Error>(v),
            Err(_) => r matches Err(e) && e is ToDo,
        },
{
    match will_build {
        Ok(v) => Ok(v),
        Err(_) => Err(Error::ToDo),
    }
}

} // verus!
