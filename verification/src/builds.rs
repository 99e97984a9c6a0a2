//! The build scheduler: it records every derivation that must be built, the
//! dependencies between them, their priorities, and which builds are ready to run.
use vstd::prelude::*;

use crate::nix::{depends, distinct_dependencies, find_derivation, has_derivation, Derivation, InputDrv, RecursiveDerivation};
use crate::queue::{Entry, Queue};

verus! {

/// The identifier of a build.
pub type Id = i64;

/// The priority of a build; higher runs first.
pub type Priority = u64;

/// The identifier of a build request.
pub type RootId = u128;

#[verifier::external_type_specification]
#[verifier::external_body]
pub struct ExSystemTime(std::time::SystemTime);

/// `SystemTime` is `Copy`: its `clone` gives back an equal instant.
pub assume_specification[ <std::time::SystemTime as Clone>::clone ](t: &std::time::SystemTime) -> (r: std::time::SystemTime)
    ensures
        r == *t,
;

/// How a finished build ended.
#[derive(Debug, Clone, Copy)]
pub enum Outcome {
    Cancel,
    Fail,
    Success,
}

/// Where a build stands.
#[derive(Debug, Clone)]
pub enum Status {
    Unknown,
    Pending,
    InQueue,
    Skipped,
    DependencyFail { id: Id },
    Running { started_at: std::time::SystemTime },
    Finished { started_at: std::time::SystemTime, ended_at: std::time::SystemTime, result: Outcome },
}

/// What is known of a build.
#[derive(Debug, Clone)]
pub struct Info {
    pub id: Id,
    pub drv: String,
    pub status: Status,
}

/// A handle on one build that a request touched.
pub struct WatchBuild {}

/// The builds that a request touched, one handle each.
pub struct Watch(pub Vec<WatchBuild>);

/// Why a build's log cannot be read.
#[derive(Debug)]
pub enum Error {
    BuildNotFound(Id),
    StderrNotFound(Id),
}

/// One build: its derivation, its priority, the builds it waits for, the builds that
/// wait for it (with the priority of the request that linked them) and the requests it
/// answers.
pub struct Build {
    drv: String,
    priority: Priority,
    dependencies: Vec<Id>,
    dependents: Vec<(Priority, Id)>,
    roots: Vec<(Priority, RootId)>,
}

/// A build seen as sets.
pub struct BuildView {
    pub drv: Seq<char>,
    pub priority: Priority,
    pub dependencies: Set<Id>,
    pub dependents: Set<(Priority, Id)>,
    pub roots: Set<(Priority, RootId)>,
}

impl View for Build {
    type V = BuildView;

    closed spec fn view(&self) -> BuildView {
        BuildView {
            drv: self.drv@,
            priority: self.priority,
            dependencies: Set::new(|x: Id| self.dependencies@.contains(x)),
            dependents: Set::new(|x: (Priority, Id)| self.dependents@.contains(x)),
            roots: Set::new(|x: (Priority, RootId)| self.roots@.contains(x)),
        }
    }
}

/// The scheduler seen as values: the next request number, the builds (build `i` has
/// identifier `i`) and the ready queue.
pub struct SchedulerView {
    pub count_roots: RootId,
    pub builds: Seq<BuildView>,
    pub queue: Set<Entry>,
}

/// Some build of `builds` is for derivation `d`.
pub open spec fn known(builds: Seq<BuildView>, d: Seq<char>) -> bool {
    exists|i: int| 0 <= i < builds.len() && #[trigger] builds[i].drv == d
}

/// `d` is one of the derivations that are missing from the store.
pub open spec fn in_missing(missing: Seq<String>, d: Seq<char>) -> bool {
    exists|i: int| 0 <= i < missing.len() && #[trigger] missing[i]@ == d
}

/// `path` starts at a derivation and follows dependencies through derivations that are
/// missing and that `builds` does not know yet.
pub open spec fn new_path(
    rd: Seq<(String, Derivation)>,
    missing: Seq<String>,
    builds: Seq<BuildView>,
    path: Seq<Seq<char>>,
) -> bool {
    &&& path.len() > 0
    &&& forall|i: int|
        0 <= i < path.len() ==> in_missing(missing, #[trigger] path[i]) && !known(builds, path[i])
    &&& forall|i: int| 0 <= i < path.len() - 1 ==> #[trigger] depends(rd, path[i], path[i + 1])
}

/// A request for `root` reaches `d` through missing derivations that `builds` does not
/// know yet: these are the builds that the request creates.
pub open spec fn newly_reached(
    rd: Seq<(String, Derivation)>,
    missing: Seq<String>,
    builds: Seq<BuildView>,
    root: Seq<char>,
    d: Seq<char>,
) -> bool {
    exists|path: Seq<Seq<char>>|
        #[trigger] new_path(rd, missing, builds, path) && path[0] == root && path.last() == d
}

/// A request for a derivation that the scheduler already knows reaches no new
/// derivation, so it creates no build: asking twice for the same derivation builds it
/// once.
pub proof fn lemma_known_reaches_nothing(
    rd: Seq<(String, Derivation)>,
    missing: Seq<String>,
    builds: Seq<BuildView>,
    root: Seq<char>,
    d: Seq<char>,
)
    requires
        known(builds, root),
    ensures
        !newly_reached(rd, missing, builds, root, d),
{
    if newly_reached(rd, missing, builds, root, d) {
        let path = choose|path: Seq<Seq<char>>|
            #[trigger] new_path(rd, missing, builds, path) && path[0] == root && path.last() == d;
        assert(!known(builds, path[0]));
    }
}

/// A request never lowers a build's priority: it keeps it, or raises it to the priority
/// of the request.
pub proof fn lemma_raised_never_lowers(before: Priority, after: Priority, p: Priority)
    requires
        raised(before, after, p),
    ensures
        before <= after,
        after == before || after == p,
{
}

/// The scheduler's state.
pub struct Scheduler {
    count_roots: RootId,
    builds: Vec<Build>,
    queue: Queue,
    roots: Vec<(RootId, Priority)>,
    max_running: usize,
}

impl View for Scheduler {
    type V = SchedulerView;

    closed spec fn view(&self) -> SchedulerView {
        SchedulerView {
            count_roots: self.count_roots,
            builds: self.builds@.map_values(|b: Build| b@),
            queue: self.queue@,
        }
    }
}

/// Every build of `bs` has a distinct derivation, and every identifier it holds names a
/// build of `bs` (or, for requests, one below `count_roots`).
spec fn builds_wf(bs: Seq<Build>, count_roots: RootId) -> bool {
    &&& bs.len() <= i64::MAX
    &&& forall|i: int, j: int| 0 <= i < j < bs.len() ==> #[trigger] bs[i].drv@ != #[trigger] bs[j].drv@
    &&& forall|i: int| 0 <= i < bs.len() ==> build_wf(#[trigger] bs[i], bs.len() as int, count_roots)
}

spec fn build_wf(b: Build, n: int, count_roots: RootId) -> bool {
    &&& b.dependencies@.no_duplicates()
    &&& b.dependents@.no_duplicates()
    &&& b.roots@.no_duplicates()
    &&& forall|k: int| 0 <= k < b.dependencies@.len() ==> 0 <= #[trigger] b.dependencies@[k] < n
    &&& forall|k: int| 0 <= k < b.dependents@.len() ==> 0 <= (#[trigger] b.dependents@[k]).1 < n
    &&& forall|k: int| 0 <= k < b.roots@.len() ==> (#[trigger] b.roots@[k]).1 < count_roots
}

spec fn queue_ids_valid(q: Set<Entry>, n: int) -> bool {
    forall|e: Entry| #[trigger] q.contains(e) ==> 0 <= e.1 < n
}


/// A build's priority after a request with priority `p`: unchanged, or raised to `p`.
pub open spec fn raised(before: Priority, after: Priority, p: Priority) -> bool {
    after == before || (before < p && after == p)
}

/// Old build `v` (one of `b0`) is asked for directly by a request for `root` that left
/// the builds `b`: it is the build of `root`, or a dependency of a build the request
/// created.
pub open spec fn seed(b0: Seq<BuildView>, b: Seq<BuildView>, root: Seq<char>, v: int) -> bool {
    &&& 0 <= v < b0.len()
    &&& (b0[v].drv == root || exists|u: int|
        b0.len() <= u < b.len() && #[trigger] b[u].dependencies.contains(v as Id))
}

/// `c` is a chain of old builds whose priority is below `p`, each one a dependency of the
/// one before.
pub open spec fn low_chain(b0: Seq<BuildView>, p: Priority, c: Seq<Id>) -> bool {
    &&& c.len() > 0
    &&& forall|i: int| 0 <= i < c.len() ==> 0 <= #[trigger] c[i] < b0.len() && b0[c[i] as int].priority < p
    &&& forall|i: int| 0 <= i < c.len() - 1 ==> #[trigger] b0[c[i] as int].dependencies.contains(c[i + 1])
}

/// A request for `root` at priority `p`, which left the builds `b`, raises the old build
/// `v`: a chain of old builds below `p` leads to `v` from a build that the request asks
/// for directly.
pub open spec fn promoted(b0: Seq<BuildView>, b: Seq<BuildView>, root: Seq<char>, p: Priority, v: int) -> bool {
    exists|c: Seq<Id>| #[trigger] low_chain(b0, p, c) && seed(b0, b, root, c[0] as int) && c.last() == v
}

/// A request never raises a build whose priority is already at least its own.
pub proof fn lemma_high_priority_untouched(b0: Seq<BuildView>, b: Seq<BuildView>, root: Seq<char>, p: Priority, v: int)
    requires
        0 <= v < b0.len(),
        b0[v].priority >= p,
    ensures
        !promoted(b0, b, root, p, v),
{
    if promoted(b0, b, root, p, v) {
        let c = choose|c: Seq<Id>| #[trigger] low_chain(b0, p, c) && seed(b0, b, root, c[0] as int) && c.last() == v;
        assert(0 <= c[c.len() - 1] < b0.len() && b0[c[c.len() - 1] as int].priority < p);
    }
}

/// The dependencies of the old builds are old builds.
spec fn deps_closed(b0: Seq<BuildView>) -> bool {
    forall|u: int, v: Id| 0 <= u < b0.len() && #[trigger] b0[u].dependencies.contains(v) ==> 0 <= v < b0.len()
}

/// Every change of an old build's priority so far is a promotion.
spec fn prom_sound(bs: Seq<Build>, b0: Seq<BuildView>, root: Seq<char>, p: Priority) -> bool {
    forall|x: int| 0 <= x < b0.len() && #[trigger] bs[x].priority != b0[x].priority ==> promoted(b0, bview(bs), root, p, x)
}

/// The queued links leave promoted old builds, toward their dependencies.
spec fn prom_items(bs: Seq<Build>, b0: Seq<BuildView>, root: Seq<char>, p: Priority, q: Seq<(Priority, Id, Id)>) -> bool {
    forall|k: int| 0 <= k < q.len() ==> {
        &&& 0 <= (#[trigger] q[k]).1 < b0.len()
        &&& promoted(b0, bview(bs), root, p, q[k].1 as int)
        &&& b0[q[k].1 as int].dependencies.contains(q[k].2)
    }
}

/// The old builds asked for directly are raised when they were below `p`.
spec fn prom_seeds(bs: Seq<Build>, b0: Seq<BuildView>, root: Seq<char>, p: Priority) -> bool {
    forall|s: int| #[trigger] seed(b0, bview(bs), root, s) && b0[s].priority < p ==> bs[s].priority == p
}

/// The low dependencies of a raised old build are raised, or their link is queued from
/// `from` on.
spec fn prom_links(bs: Seq<Build>, b0: Seq<BuildView>, p: Priority, q: Seq<(Priority, Id, Id)>, from: int) -> bool {
    forall|u: int, v: Id|
        0 <= u < b0.len() && bs[u].priority != b0[u].priority && #[trigger] b0[u].dependencies.contains(v) ==> {
            ||| exists|k: int| from <= k < q.len() && (#[trigger] q[k]).1 == u && q[k].2 == v
            ||| b0[v as int].priority >= p
            ||| bs[v as int].priority == p
        }
}

/// Where the raising of priorities stands: every change so far is a promotion, the
/// queued links leave promoted builds, the builds asked for directly are raised, and the
/// low dependencies of a raised build are raised or have their link queued from `from`.
spec fn promotion(
    bs: Seq<Build>,
    b0: Seq<BuildView>,
    root: Seq<char>,
    p: Priority,
    q: Seq<(Priority, Id, Id)>,
    from: int,
) -> bool {
    &&& b0.len() <= bs.len() <= i64::MAX
    &&& deps_closed(b0)
    &&& prom_sound(bs, b0, root, p)
    &&& prom_items(bs, b0, root, p, q)
    &&& prom_seeds(bs, b0, root, p)
    &&& prom_links(bs, b0, p, q, from)
}

proof fn lemma_promoted_grow(
    b0: Seq<BuildView>,
    b1: Seq<BuildView>,
    b2: Seq<BuildView>,
    root: Seq<char>,
    p: Priority,
    x: int,
)
    requires
        forall|s: int| #[trigger] seed(b0, b1, root, s) ==> seed(b0, b2, root, s),
        promoted(b0, b1, root, p, x),
    ensures
        promoted(b0, b2, root, p, x),
{
    let c = choose|c: Seq<Id>| #[trigger] low_chain(b0, p, c) && seed(b0, b1, root, c[0] as int) && c.last() == x;
    assert(seed(b0, b2, root, c[0] as int));
}

proof fn lemma_promoted_extend(b0: Seq<BuildView>, b: Seq<BuildView>, root: Seq<char>, p: Priority, u: int, v: Id)
    requires
        promoted(b0, b, root, p, u),
        0 <= v < b0.len(),
        b0[u].dependencies.contains(v),
        b0[v as int].priority < p,
    ensures
        promoted(b0, b, root, p, v as int),
{
    let c = choose|c: Seq<Id>| #[trigger] low_chain(b0, p, c) && seed(b0, b, root, c[0] as int) && c.last() == u;
    let c2 = c.push(v);
    assert(low_chain(b0, p, c2)) by {
        assert forall|i: int| 0 <= i < c2.len() - 1 implies #[trigger] b0[c2[i] as int].dependencies.contains(c2[i + 1]) by {
            if i < c.len() - 1 {
                assert(c2[i] == c[i] && c2[i + 1] == c[i + 1]);
                assert(b0[c[i] as int].dependencies.contains(c[i + 1]));
            } else {
                assert(c2[i] == c.last());
            }
        }
    }
    assert(c2[0] == c[0]);
}

/// A seed below `p` is promoted: the one-element chain.
proof fn lemma_seed_promoted(b0: Seq<BuildView>, b: Seq<BuildView>, root: Seq<char>, p: Priority, s: int)
    requires
        seed(b0, b, root, s),
        b0[s].priority < p,
        b0.len() <= i64::MAX,
    ensures
        promoted(b0, b, root, p, s),
{
    let c = seq![s as Id];
    assert(c[0] as int == s);
    assert(low_chain(b0, p, c));
}

/// The invariant survives a change that keeps the priorities of the old builds and what
/// is asked for directly.
#[verifier::rlimit(30)]
#[verifier::spinoff_prover]
proof fn lemma_promotion_frame(
    bs1: Seq<Build>,
    bs2: Seq<Build>,
    b0: Seq<BuildView>,
    root: Seq<char>,
    p: Priority,
    q: Seq<(Priority, Id, Id)>,
    from: int,
)
    requires
        promotion(bs1, b0, root, p, q, from),
        b0.len() <= bs2.len() <= i64::MAX,
        forall|x: int| 0 <= x < b0.len() ==> #[trigger] bs2[x].priority == bs1[x].priority,
        forall|s: int| #[trigger] seed(b0, bview(bs2), root, s) <==> seed(b0, bview(bs1), root, s),
    ensures
        promotion(bs2, b0, root, p, q, from),
{
    let v1 = bview(bs1);
    let v2 = bview(bs2);
    assert forall|x: int| #[trigger] promoted(b0, v1, root, p, x) implies promoted(b0, v2, root, p, x) by {
        lemma_promoted_grow(b0, v1, v2, root, p, x);
    }
    assert(prom_sound(bs2, b0, root, p)) by {
        assert forall|x: int| 0 <= x < b0.len() && #[trigger] bs2[x].priority != b0[x].priority implies promoted(b0, v2, root, p, x) by {
            assert(bs1[x].priority != b0[x].priority);
            assert(promoted(b0, v1, root, p, x));
        }
    }
    assert(prom_items(bs2, b0, root, p, q)) by {
        assert forall|k: int| 0 <= k < q.len() implies {
            &&& 0 <= (#[trigger] q[k]).1 < b0.len()
            &&& promoted(b0, v2, root, p, q[k].1 as int)
            &&& b0[q[k].1 as int].dependencies.contains(q[k].2)
        } by {
            assert(promoted(b0, v1, root, p, q[k].1 as int));
        }
    }
    assert(prom_seeds(bs2, b0, root, p)) by {
        assert forall|s: int| #[trigger] seed(b0, v2, root, s) && b0[s].priority < p implies bs2[s].priority == p by {
            assert(seed(b0, v1, root, s));
            assert(bs1[s].priority == bs2[s].priority);
        }
    }
    assert(prom_links(bs2, b0, p, q, from)) by {
        assert forall|u: int, v: Id|
            0 <= u < b0.len() && bs2[u].priority != b0[u].priority && #[trigger] b0[u].dependencies.contains(v) implies {
                ||| exists|k: int| from <= k < q.len() && (#[trigger] q[k]).1 == u && q[k].2 == v
                ||| b0[v as int].priority >= p
                ||| bs2[v as int].priority == p
            } by {
            assert(bs1[u].priority == bs2[u].priority);
            assert(0 <= v < b0.len());
            assert(bs1[v as int].priority == bs2[v as int].priority);
        }
    }
}

proof fn lemma_chain_raised(
    bs: Seq<Build>,
    b0: Seq<BuildView>,
    root: Seq<char>,
    p: Priority,
    q: Seq<(Priority, Id, Id)>,
    c: Seq<Id>,
    i: int,
)
    requires
        promotion(bs, b0, root, p, q, q.len() as int),
        low_chain(b0, p, c),
        seed(b0, bview(bs), root, c[0] as int),
        0 <= i < c.len(),
    ensures
        bs[c[i] as int].priority == p,
    decreases i,
{
    if i == 0 {
        assert(0 <= c[0] < b0.len() && b0[c[0] as int].priority < p);
    } else {
        lemma_chain_raised(bs, b0, root, p, q, c, i - 1);
        let u = c[i - 1] as int;
        let v = c[i];
        assert(0 <= c[i - 1] < b0.len() && b0[c[i - 1] as int].priority < p);
        assert(0 <= c[i] < b0.len() && b0[c[i] as int].priority < p);
        assert(b0[c[i - 1] as int].dependencies.contains(c[(i - 1) + 1]));
        assert(b0[u].dependencies.contains(v));
        assert(bs[u].priority != b0[u].priority);
    }
}

/// Once no link is left to update, the old builds raised are exactly the promoted ones.
#[verifier::rlimit(30)]
#[verifier::spinoff_prover]
proof fn lemma_promotion_complete(
    bs: Seq<Build>,
    b0: Seq<BuildView>,
    root: Seq<char>,
    p: Priority,
    q: Seq<(Priority, Id, Id)>,
)
    requires
        promotion(bs, b0, root, p, q, q.len() as int),
        forall|x: int| 0 <= x < b0.len() ==> raised(b0[x].priority, #[trigger] bs[x].priority, p),
    ensures
        forall|x: int| 0 <= x < b0.len() ==> #[trigger] bs[x].priority == if promoted(b0, bview(bs), root, p, x) {
            p
        } else {
            b0[x].priority
        },
{
    assert forall|x: int| 0 <= x < b0.len() implies #[trigger] bs[x].priority == if promoted(b0, bview(bs), root, p, x) {
        p
    } else {
        b0[x].priority
    } by {
        if promoted(b0, bview(bs), root, p, x) {
            let c = choose|c: Seq<Id>| #[trigger] low_chain(b0, p, c) && seed(b0, bview(bs), root, c[0] as int) && c.last() == x;
            lemma_chain_raised(bs, b0, root, p, q, c, c.len() - 1);
        }
    }
}

/// `q2` is `q1` followed by one link `(op, v, w)` for each dependency `w` in `deps`.
spec fn raise_items(
    q1: Seq<(Priority, Id, Id)>,
    q2: Seq<(Priority, Id, Id)>,
    op: Priority,
    v: Id,
    deps: Seq<Id>,
) -> bool {
    &&& q2.len() == q1.len() + deps.len()
    &&& forall|k: int| 0 <= k < q1.len() ==> #[trigger] q2[k] == q1[k]
    &&& forall|j: int| 0 <= j < deps.len() ==> #[trigger] q2[q1.len() + j] == (op, v, deps[j])
}

/// The step from `bs1` to `bs4`: a new build asks for the build `v`, which becomes (if
/// it is old) a build asked for directly; asking raises it and queues its links when it
/// was below `p`.
spec fn ask_step(
    bs1: Seq<Build>,
    bs4: Seq<Build>,
    b0: Seq<BuildView>,
    root: Seq<char>,
    p: Priority,
    q1: Seq<(Priority, Id, Id)>,
    q3: Seq<(Priority, Id, Id)>,
    from: int,
    v: int,
) -> bool {
    &&& 0 <= from <= q1.len()
    &&& b0.len() <= bs4.len() <= i64::MAX
    &&& 0 <= v < bs1.len()
    &&& forall|x: int| 0 <= x < b0.len() && x != v ==> #[trigger] bs4[x].priority == bs1[x].priority
    &&& v < b0.len() ==> bs4[v].priority == if bs1[v].priority < p { p } else { bs1[v].priority }
    &&& forall|x: int| 0 <= x < b0.len() ==> raised(b0[x].priority, #[trigger] bs1[x].priority, p)
    &&& forall|x: int| 0 <= x < b0.len() ==> #[trigger] bs1[x]@.dependencies == b0[x].dependencies
    &&& if v < b0.len() && bs1[v].priority < p {
        raise_items(q1, q3, bs1[v].priority, v as Id, bs1[v].dependencies@)
    } else {
        q3 == q1
    }
    &&& forall|s: int| #[trigger] seed(b0, bview(bs4), root, s) <==> (seed(b0, bview(bs1), root, s) || (s == v && v < b0.len()))
}

#[verifier::rlimit(30)]
#[verifier::spinoff_prover]
proof fn lemma_ask_promoted(
    bs1: Seq<Build>,
    bs4: Seq<Build>,
    b0: Seq<BuildView>,
    root: Seq<char>,
    p: Priority,
    q1: Seq<(Priority, Id, Id)>,
    q3: Seq<(Priority, Id, Id)>,
    from: int,
    v: int,
)
    requires
        ask_step(bs1, bs4, b0, root, p, q1, q3, from, v),
    ensures
        forall|x: int| #[trigger] promoted(b0, bview(bs1), root, p, x) ==> promoted(b0, bview(bs4), root, p, x),
        v < b0.len() && bs1[v].priority < p ==> promoted(b0, bview(bs4), root, p, v),
{
    let v1 = bview(bs1);
    let v4 = bview(bs4);
    assert forall|x: int| #[trigger] promoted(b0, v1, root, p, x) implies promoted(b0, v4, root, p, x) by {
        assert forall|s: int| #[trigger] seed(b0, v1, root, s) implies seed(b0, v4, root, s) by {}
        lemma_promoted_grow(b0, v1, v4, root, p, x);
    }
    if v < b0.len() && bs1[v].priority < p {
        assert(bs1[v].priority == b0[v].priority);
        assert(seed(b0, v4, root, v));
        lemma_seed_promoted(b0, v4, root, p, v);
    }
}

#[verifier::rlimit(30)]
#[verifier::spinoff_prover]
proof fn lemma_ask_sound_items(
    bs1: Seq<Build>,
    bs4: Seq<Build>,
    b0: Seq<BuildView>,
    root: Seq<char>,
    p: Priority,
    q1: Seq<(Priority, Id, Id)>,
    q3: Seq<(Priority, Id, Id)>,
    from: int,
    v: int,
)
    requires
        ask_step(bs1, bs4, b0, root, p, q1, q3, from, v),
        prom_sound(bs1, b0, root, p),
        prom_items(bs1, b0, root, p, q1),
    ensures
        prom_sound(bs4, b0, root, p),
        prom_items(bs4, b0, root, p, q3),
{
    let v4 = bview(bs4);
    let n0 = b0.len() as int;
    let raising = v < n0 && bs1[v].priority < p;
    lemma_ask_promoted(bs1, bs4, b0, root, p, q1, q3, from, v);
    assert forall|x: int| 0 <= x < n0 && #[trigger] bs4[x].priority != b0[x].priority implies promoted(b0, v4, root, p, x) by {
        if x != v || !raising {
            assert(bs1[x].priority != b0[x].priority);
            assert(promoted(b0, bview(bs1), root, p, x));
        }
    }
    assert forall|k: int| 0 <= k < q3.len() implies {
        &&& 0 <= (#[trigger] q3[k]).1 < b0.len()
        &&& promoted(b0, v4, root, p, q3[k].1 as int)
        &&& b0[q3[k].1 as int].dependencies.contains(q3[k].2)
    } by {
        if k < q1.len() {
            assert(q3[k] == q1[k]);
            assert(promoted(b0, bview(bs1), root, p, q1[k].1 as int));
        } else {
            let j = k - q1.len();
            assert(q3[q1.len() + j] == (bs1[v].priority, v as Id, bs1[v].dependencies@[j]));
            assert(bs1[v]@.dependencies.contains(bs1[v].dependencies@[j]));
        }
    }
}

#[verifier::rlimit(30)]
#[verifier::spinoff_prover]
proof fn lemma_ask_seeds_links(
    bs1: Seq<Build>,
    bs4: Seq<Build>,
    b0: Seq<BuildView>,
    root: Seq<char>,
    p: Priority,
    q1: Seq<(Priority, Id, Id)>,
    q3: Seq<(Priority, Id, Id)>,
    from: int,
    v: int,
)
    requires
        ask_step(bs1, bs4, b0, root, p, q1, q3, from, v),
        deps_closed(b0),
        prom_seeds(bs1, b0, root, p),
        prom_links(bs1, b0, p, q1, from),
    ensures
        prom_seeds(bs4, b0, root, p),
        prom_links(bs4, b0, p, q3, from),
{
    let v1 = bview(bs1);
    let v4 = bview(bs4);
    let n0 = b0.len() as int;
    let raising = v < n0 && bs1[v].priority < p;
    assert forall|s: int| #[trigger] seed(b0, v4, root, s) && b0[s].priority < p implies bs4[s].priority == p by {
        if s != v {
            assert(seed(b0, v1, root, s));
        }
    }
    assert forall|u: int, w: Id|
        0 <= u < n0 && bs4[u].priority != b0[u].priority && #[trigger] b0[u].dependencies.contains(w) implies {
            ||| exists|k: int| from <= k < q3.len() && (#[trigger] q3[k]).1 == u && q3[k].2 == w
            ||| b0[w as int].priority >= p
            ||| bs4[w as int].priority == p
        } by {
        assert(0 <= w < n0);
        if raising && u == v {
            assert(bs1[v]@.dependencies.contains(w));
            let j = choose|j: int| 0 <= j < bs1[v].dependencies@.len() && bs1[v].dependencies@[j] == w;
            assert(q3[q1.len() + j] == (bs1[v].priority, v as Id, w));
        } else {
            assert(bs1[u].priority == bs4[u].priority);
            if exists|k: int| from <= k < q1.len() && (#[trigger] q1[k]).1 == u && q1[k].2 == w {
                let k = choose|k: int| from <= k < q1.len() && (#[trigger] q1[k]).1 == u && q1[k].2 == w;
                assert(q3[k] == q1[k]);
            } else if b0[w as int].priority < p {
                assert(bs1[w as int].priority == p);
            }
        }
    }
}

/// A new build asks for the build `v`: the invariant is kept.
#[verifier::rlimit(30)]
#[verifier::spinoff_prover]
proof fn lemma_promotion_ask(
    bs1: Seq<Build>,
    bs4: Seq<Build>,
    b0: Seq<BuildView>,
    root: Seq<char>,
    p: Priority,
    q1: Seq<(Priority, Id, Id)>,
    q3: Seq<(Priority, Id, Id)>,
    from: int,
    v: int,
)
    requires
        promotion(bs1, b0, root, p, q1, from),
        ask_step(bs1, bs4, b0, root, p, q1, q3, from, v),
    ensures
        promotion(bs4, b0, root, p, q3, from),
{
    lemma_ask_sound_items(bs1, bs4, b0, root, p, q1, q3, from, v);
    lemma_ask_seeds_links(bs1, bs4, b0, root, p, q1, q3, from, v);
}

/// The step from `bs1` to `bs3` follows the queued link at `uh`, from `u0` to `v`:
/// `v` is raised, with its links queued, if it was below `p`; nothing else changes that
/// the promotion depends on.
spec fn follow_step(
    bs1: Seq<Build>,
    bs3: Seq<Build>,
    b0: Seq<BuildView>,
    root: Seq<char>,
    p: Priority,
    q1: Seq<(Priority, Id, Id)>,
    q3: Seq<(Priority, Id, Id)>,
    uh: int,
    u0: int,
    v: int,
) -> bool {
    &&& 0 <= uh < q1.len()
    &&& q1[uh].1 as int == u0
    &&& q1[uh].2 as int == v
    &&& 0 <= u0 < b0.len()
    &&& 0 <= v < b0.len()
    &&& promoted(b0, bview(bs1), root, p, u0)
    &&& b0[u0].dependencies.contains(v as Id)
    &&& b0.len() <= bs3.len() <= i64::MAX
    &&& forall|x: int| 0 <= x < b0.len() && x != v ==> #[trigger] bs3[x].priority == bs1[x].priority
    &&& bs3[v].priority == if bs1[v].priority < p { p } else { bs1[v].priority }
    &&& forall|x: int| 0 <= x < b0.len() ==> raised(b0[x].priority, #[trigger] bs1[x].priority, p)
    &&& forall|x: int| 0 <= x < b0.len() ==> #[trigger] bs1[x]@.dependencies == b0[x].dependencies
    &&& if bs1[v].priority < p {
        raise_items(q1, q3, bs1[v].priority, v as Id, bs1[v].dependencies@)
    } else {
        q3 == q1
    }
    &&& forall|s: int| #[trigger] seed(b0, bview(bs3), root, s) <==> seed(b0, bview(bs1), root, s)
}

#[verifier::rlimit(30)]
#[verifier::spinoff_prover]
proof fn lemma_follow_promoted(
    bs1: Seq<Build>,
    bs3: Seq<Build>,
    b0: Seq<BuildView>,
    root: Seq<char>,
    p: Priority,
    q1: Seq<(Priority, Id, Id)>,
    q3: Seq<(Priority, Id, Id)>,
    uh: int,
    u0: int,
    v: int,
)
    requires
        follow_step(bs1, bs3, b0, root, p, q1, q3, uh, u0, v),
    ensures
        forall|x: int| #[trigger] promoted(b0, bview(bs1), root, p, x) ==> promoted(b0, bview(bs3), root, p, x),
        bs1[v].priority < p ==> promoted(b0, bview(bs3), root, p, v),
{
    let v1 = bview(bs1);
    let v3 = bview(bs3);
    assert forall|x: int| #[trigger] promoted(b0, v1, root, p, x) implies promoted(b0, v3, root, p, x) by {
        assert forall|s: int| #[trigger] seed(b0, v1, root, s) implies seed(b0, v3, root, s) by {}
        lemma_promoted_grow(b0, v1, v3, root, p, x);
    }
    if bs1[v].priority < p {
        assert(bs1[v].priority == b0[v].priority);
        lemma_promoted_extend(b0, v1, root, p, u0, v as Id);
    }
}

#[verifier::rlimit(30)]
#[verifier::spinoff_prover]
proof fn lemma_follow_sound_items(
    bs1: Seq<Build>,
    bs3: Seq<Build>,
    b0: Seq<BuildView>,
    root: Seq<char>,
    p: Priority,
    q1: Seq<(Priority, Id, Id)>,
    q3: Seq<(Priority, Id, Id)>,
    uh: int,
    u0: int,
    v: int,
)
    requires
        follow_step(bs1, bs3, b0, root, p, q1, q3, uh, u0, v),
        prom_sound(bs1, b0, root, p),
        prom_items(bs1, b0, root, p, q1),
    ensures
        prom_sound(bs3, b0, root, p),
        prom_items(bs3, b0, root, p, q3),
{
    let v3 = bview(bs3);
    lemma_follow_promoted(bs1, bs3, b0, root, p, q1, q3, uh, u0, v);
    let raising = bs1[v].priority < p;
    assert forall|x: int| 0 <= x < b0.len() && #[trigger] bs3[x].priority != b0[x].priority implies promoted(b0, v3, root, p, x) by {
        if x != v || !raising {
            assert(bs1[x].priority != b0[x].priority);
            assert(promoted(b0, bview(bs1), root, p, x));
        }
    }
    assert forall|k: int| 0 <= k < q3.len() implies {
        &&& 0 <= (#[trigger] q3[k]).1 < b0.len()
        &&& promoted(b0, v3, root, p, q3[k].1 as int)
        &&& b0[q3[k].1 as int].dependencies.contains(q3[k].2)
    } by {
        if k < q1.len() {
            assert(q3[k] == q1[k]);
            assert(promoted(b0, bview(bs1), root, p, q1[k].1 as int));
        } else {
            let j = k - q1.len();
            assert(q3[q1.len() + j] == (bs1[v].priority, v as Id, bs1[v].dependencies@[j]));
            assert(bs1[v]@.dependencies.contains(bs1[v].dependencies@[j]));
        }
    }
}

#[verifier::rlimit(30)]
#[verifier::spinoff_prover]
proof fn lemma_follow_seeds_links(
    bs1: Seq<Build>,
    bs3: Seq<Build>,
    b0: Seq<BuildView>,
    root: Seq<char>,
    p: Priority,
    q1: Seq<(Priority, Id, Id)>,
    q3: Seq<(Priority, Id, Id)>,
    uh: int,
    u0: int,
    v: int,
)
    requires
        follow_step(bs1, bs3, b0, root, p, q1, q3, uh, u0, v),
        deps_closed(b0),
        prom_seeds(bs1, b0, root, p),
        prom_links(bs1, b0, p, q1, uh),
    ensures
        prom_seeds(bs3, b0, root, p),
        prom_links(bs3, b0, p, q3, uh + 1),
{
    let v1 = bview(bs1);
    let v3 = bview(bs3);
    let n0 = b0.len() as int;
    let raising = bs1[v].priority < p;
    assert forall|s: int| #[trigger] seed(b0, v3, root, s) && b0[s].priority < p implies bs3[s].priority == p by {
        assert(seed(b0, v1, root, s));
    }
    assert forall|u: int, w: Id|
        0 <= u < n0 && bs3[u].priority != b0[u].priority && #[trigger] b0[u].dependencies.contains(w) implies {
            ||| exists|k: int| uh + 1 <= k < q3.len() && (#[trigger] q3[k]).1 == u && q3[k].2 == w
            ||| b0[w as int].priority >= p
            ||| bs3[w as int].priority == p
        } by {
        assert(0 <= w < n0);
        if raising && u == v {
            assert(bs1[v]@.dependencies.contains(w));
            let j = choose|j: int| 0 <= j < bs1[v].dependencies@.len() && bs1[v].dependencies@[j] == w;
            assert(q3[q1.len() + j] == (bs1[v].priority, v as Id, w));
        } else {
            assert(bs1[u].priority == bs3[u].priority);
            if exists|k: int| uh <= k < q1.len() && (#[trigger] q1[k]).1 == u && q1[k].2 == w {
                let k = choose|k: int| uh <= k < q1.len() && (#[trigger] q1[k]).1 == u && q1[k].2 == w;
                if k == uh {
                    assert(w as int == v);
                } else {
                    assert(q3[k] == q1[k]);
                }
            } else if b0[w as int].priority < p {
                assert(bs1[w as int].priority == p);
            }
        }
    }
}

/// Adding `v` to the dependencies of the new build `u` (and appending builds without
/// dependencies) adds `v` to the builds asked for directly, when `v` is old.
#[verifier::rlimit(30)]
#[verifier::spinoff_prover]
proof fn lemma_seeds_add(b0: Seq<BuildView>, bs1: Seq<Build>, bs4: Seq<Build>, root: Seq<char>, u: int, v: int)
    requires
        b0.len() <= u < bs1.len() <= bs4.len() <= i64::MAX,
        0 <= v <= i64::MAX,
        forall|x: int| 0 <= x < bs1.len() && x != u ==> #[trigger] bs4[x]@.dependencies == bs1[x]@.dependencies,
        forall|x: int| bs1.len() <= x < bs4.len() ==> #[trigger] bs4[x]@.dependencies == Set::<Id>::empty(),
        forall|y: Id| #[trigger] bs4[u]@.dependencies.contains(y) <==> (bs1[u]@.dependencies.contains(y) || y == v as Id),
    ensures
        forall|s: int| #[trigger] seed(b0, bview(bs4), root, s) <==> (seed(b0, bview(bs1), root, s) || (s == v && v < b0.len())),
{
    let v1 = bview(bs1);
    let v4 = bview(bs4);
    let n0 = b0.len() as int;
    assert forall|s: int| #[trigger] seed(b0, v4, root, s) <==> (seed(b0, v1, root, s) || (s == v && v < n0)) by {
        if seed(b0, v1, root, s) && b0[s].drv != root {
            let w = choose|w: int| n0 <= w < v1.len() && #[trigger] v1[w].dependencies.contains(s as Id);
            assert(v4[w] == bs4[w]@);
            assert(v1[w] == bs1[w]@);
            if w != u {
                assert(bs4[w]@.dependencies == bs1[w]@.dependencies);
            }
            assert(v4[w].dependencies.contains(s as Id));
        }
        if s == v && v < n0 {
            assert(v4[u] == bs4[u]@);
            assert(v4[u].dependencies.contains(s as Id));
        }
        if seed(b0, v4, root, s) && b0[s].drv != root {
            let w = choose|w: int| n0 <= w < v4.len() && #[trigger] v4[w].dependencies.contains(s as Id);
            assert(v4[w] == bs4[w]@);
            if w >= bs1.len() {
                assert(bs4[w]@.dependencies.contains(s as Id));
                assert(false);
            } else {
                assert(v1[w] == bs1[w]@);
                if w != u {
                    assert(v1[w].dependencies.contains(s as Id));
                } else if bs1[u]@.dependencies.contains(s as Id) {
                    assert(v1[w].dependencies.contains(s as Id));
                } else {
                    assert(s as Id == v as Id);
                }
            }
        }
    }
}

/// Builds with the same dependencies ask for the same builds directly.
#[verifier::rlimit(30)]
#[verifier::spinoff_prover]
proof fn lemma_seeds_same(b0: Seq<BuildView>, bs1: Seq<Build>, bs3: Seq<Build>, root: Seq<char>)
    requires
        bs1.len() == bs3.len(),
        forall|x: int| 0 <= x < bs1.len() ==> #[trigger] bs3[x].dependencies == bs1[x].dependencies,
    ensures
        forall|s: int| #[trigger] seed(b0, bview(bs3), root, s) <==> seed(b0, bview(bs1), root, s),
{
    let v1 = bview(bs1);
    let v3 = bview(bs3);
    assert forall|s: int| #[trigger] seed(b0, v3, root, s) <==> seed(b0, v1, root, s) by {
        if seed(b0, v1, root, s) && b0[s].drv != root {
            let w = choose|w: int| b0.len() <= w < v1.len() && #[trigger] v1[w].dependencies.contains(s as Id);
            assert(v3[w] == bs3[w]@ && v1[w] == bs1[w]@);
            assert(v3[w].dependencies.contains(s as Id));
        }
        if seed(b0, v3, root, s) && b0[s].drv != root {
            let w = choose|w: int| b0.len() <= w < v3.len() && #[trigger] v3[w].dependencies.contains(s as Id);
            assert(v3[w] == bs3[w]@ && v1[w] == bs1[w]@);
            assert(v1[w].dependencies.contains(s as Id));
        }
    }
}

proof fn lemma_deps_closed(bs: Seq<Build>, count_roots: RootId)
    requires
        builds_wf(bs, count_roots),
    ensures
        deps_closed(bview(bs)),
{
    let b = bview(bs);
    assert forall|u: int, v: Id| 0 <= u < b.len() && #[trigger] b[u].dependencies.contains(v) implies 0 <= v < b.len() by {
        assert(b[u] == bs[u]@);
        assert(build_wf(bs[u], bs.len() as int, count_roots));
        let k = choose|k: int| 0 <= k < bs[u].dependencies@.len() && bs[u].dependencies@[k] == v;
    }
}

/// The request starts with the known build `u` of the requested derivation: asking for
/// it establishes the invariant.
#[verifier::rlimit(30)]
#[verifier::spinoff_prover]
proof fn lemma_promotion_start_known(
    bs0: Seq<Build>,
    bs1: Seq<Build>,
    root: Seq<char>,
    p: Priority,
    q1: Seq<(Priority, Id, Id)>,
    u: int,
    count_roots: RootId,
)
    requires
        builds_wf(bs0, count_roots),
        0 <= u < bs0.len(),
        bs0[u].drv@ == root,
        bs1.len() == bs0.len(),
        forall|i: int| 0 <= i < bs0.len() && i != u ==> #[trigger] bs1[i] == bs0[i],
        bs1[u].dependencies == bs0[u].dependencies,
        bs1[u].drv == bs0[u].drv,
        bs1[u].priority == if bs0[u].priority < p { p } else { bs0[u].priority },
        if bs0[u].priority < p {
            raise_items(Seq::empty(), q1, bs0[u].priority, u as Id, bs0[u].dependencies@)
        } else {
            q1 == Seq::<(Priority, Id, Id)>::empty()
        },
    ensures
        promotion(bs1, bview(bs0), root, p, q1, 0),
{
    let b0 = bview(bs0);
    let v1 = bview(bs1);
    let n0 = b0.len() as int;
    lemma_deps_closed(bs0, count_roots);
    assert forall|s: int| #[trigger] seed(b0, v1, root, s) <==> s == u by {
        if seed(b0, v1, root, s) {
            assert(b0[s] == bs0[s]@);
            if s != u {
                assert(bs0[s].drv@ != bs0[u].drv@);
            }
        }
        if s == u {
            assert(b0[u] == bs0[u]@);
        }
    }
    let raising = bs0[u].priority < p;
    if raising {
        assert(b0[u] == bs0[u]@);
        lemma_seed_promoted(b0, v1, root, p, u);
    }
    assert(prom_sound(bs1, b0, root, p)) by {
        assert forall|x: int| 0 <= x < n0 && #[trigger] bs1[x].priority != b0[x].priority implies promoted(b0, v1, root, p, x) by {
            assert(b0[x] == bs0[x]@);
            if x != u {
                assert(bs1[x] == bs0[x]);
            }
        }
    }
    assert(prom_items(bs1, b0, root, p, q1)) by {
        assert forall|k: int| 0 <= k < q1.len() implies {
            &&& 0 <= (#[trigger] q1[k]).1 < b0.len()
            &&& promoted(b0, v1, root, p, q1[k].1 as int)
            &&& b0[q1[k].1 as int].dependencies.contains(q1[k].2)
        } by {
            assert(raising);
            assert(q1[0 + k] == (bs0[u].priority, u as Id, bs0[u].dependencies@[k]));
            assert(b0[u] == bs0[u]@);
            assert(bs0[u]@.dependencies.contains(bs0[u].dependencies@[k]));
        }
    }
    assert(prom_seeds(bs1, b0, root, p)) by {
        assert forall|s: int| #[trigger] seed(b0, v1, root, s) && b0[s].priority < p implies bs1[s].priority == p by {
            assert(b0[u] == bs0[u]@);
        }
    }
    assert(prom_links(bs1, b0, p, q1, 0)) by {
        assert forall|x: int, w: Id|
            0 <= x < n0 && bs1[x].priority != b0[x].priority && #[trigger] b0[x].dependencies.contains(w) implies {
                ||| exists|k: int| 0 <= k < q1.len() && (#[trigger] q1[k]).1 == x && q1[k].2 == w
                ||| b0[w as int].priority >= p
                ||| bs1[w as int].priority == p
            } by {
            assert(b0[x] == bs0[x]@);
            if x != u {
                assert(bs1[x] == bs0[x]);
            }
            assert(x == u);
            assert(bs0[u]@.dependencies.contains(w));
            let j = choose|j: int| 0 <= j < bs0[u].dependencies@.len() && bs0[u].dependencies@[j] == w;
            assert(q1[0 + j] == (bs0[u].priority, u as Id, w));
        }
    }
}

/// The request starts with a new build for the requested derivation, which no old build
/// has: nothing is raised yet, and the invariant holds.
#[verifier::rlimit(30)]
#[verifier::spinoff_prover]
proof fn lemma_promotion_start_new(bs0: Seq<Build>, bs1: Seq<Build>, root: Seq<char>, p: Priority, count_roots: RootId)
    requires
        builds_wf(bs0, count_roots),
        bs1.len() == bs0.len() + 1 <= i64::MAX,
        forall|i: int| 0 <= i < bs0.len() ==> #[trigger] bs1[i] == bs0[i],
        bs1[bs0.len() as int].dependencies@ == Seq::<Id>::empty(),
        forall|i: int| 0 <= i < bs0.len() ==> #[trigger] bs0[i].drv@ != root,
    ensures
        promotion(bs1, bview(bs0), root, p, Seq::empty(), 0),
{
    let b0 = bview(bs0);
    let v1 = bview(bs1);
    let n0 = b0.len() as int;
    lemma_deps_closed(bs0, count_roots);
    assert forall|s: int| !#[trigger] seed(b0, v1, root, s) by {
        if seed(b0, v1, root, s) {
            assert(b0[s] == bs0[s]@);
            if b0[s].drv != root {
                let w = choose|w: int| n0 <= w < v1.len() && #[trigger] v1[w].dependencies.contains(s as Id);
                assert(w == n0);
                assert(v1[w] == bs1[w]@);
                assert(!bs1[w].dependencies@.contains(s as Id));
            }
        }
    }
    assert(prom_sound(bs1, b0, root, p)) by {
        assert forall|x: int| 0 <= x < n0 && #[trigger] bs1[x].priority != b0[x].priority implies promoted(b0, v1, root, p, x) by {
            assert(b0[x] == bs0[x]@);
            assert(bs1[x] == bs0[x]);
        }
    }
    assert(prom_links(bs1, b0, p, Seq::empty(), 0)) by {
        assert forall|x: int, w: Id|
            0 <= x < n0 && bs1[x].priority != b0[x].priority && #[trigger] b0[x].dependencies.contains(w) implies {
                ||| exists|k: int| 0 <= k < Seq::<(Priority, Id, Id)>::empty().len() && (#[trigger] Seq::<(Priority, Id, Id)>::empty()[k]).1 == x && Seq::<(Priority, Id, Id)>::empty()[k].2 == w
                ||| b0[w as int].priority >= p
                ||| bs1[w as int].priority == p
            } by {
            assert(b0[x] == bs0[x]@);
            assert(bs1[x] == bs0[x]);
        }
    }
}

/// No build waits for a build of lower priority: each dependency of a build is a build
/// whose priority is at least as high.
pub open spec fn no_inversion(b: Seq<BuildView>) -> bool {
    forall|u: int, v: Id|
        0 <= u < b.len() && #[trigger] b[u].dependencies.contains(v) ==> 0 <= v < b.len() && b[u].priority
            <= b[v as int].priority
}

/// A request that raises exactly the promoted old builds and gives its new builds its
/// own priority keeps every build at or below the priority of what it waits for.
#[verifier::rlimit(30)]
#[verifier::spinoff_prover]
proof fn lemma_no_inversion_after(b0: Seq<BuildView>, b: Seq<BuildView>, root: Seq<char>, p: Priority)
    requires
        no_inversion(b0),
        b0.len() <= b.len() <= i64::MAX,
        forall|i: int| 0 <= i < b0.len() ==> (#[trigger] b[i]).dependencies == b0[i].dependencies,
        forall|i: int| 0 <= i < b0.len() ==> #[trigger] b[i].priority == if promoted(b0, b, root, p, i) {
            p
        } else {
            b0[i].priority
        },
        forall|i: int| 0 <= i < b0.len() ==> raised(b0[i].priority, #[trigger] b[i].priority, p),
        forall|i: int| b0.len() <= i < b.len() ==> (#[trigger] b[i]).priority == p,
        forall|i: int, v: Id| b0.len() <= i < b.len() && #[trigger] b[i].dependencies.contains(v) ==> 0 <= v < b.len(),
    ensures
        no_inversion(b),
{
    let n0 = b0.len() as int;
    assert forall|u: int, v: Id| 0 <= u < b.len() && #[trigger] b[u].dependencies.contains(v) implies 0 <= v < b.len()
        && b[u].priority <= b[v as int].priority by {
        if u < n0 {
            assert(b0[u].dependencies.contains(v));
            assert(0 <= v < n0 && b0[u].priority <= b0[v as int].priority);
            assert(raised(b0[v as int].priority, b[v as int].priority, p));
            if promoted(b0, b, root, p, u) && b0[v as int].priority < p {
                lemma_promoted_extend(b0, b, root, p, u, v);
            }
        } else if v < n0 {
            assert(b[u].dependencies.contains((v as int) as Id));
            assert(seed(b0, b, root, v as int));
            assert(raised(b0[v as int].priority, b[v as int].priority, p));
            if b0[v as int].priority < p {
                lemma_seed_promoted(b0, b, root, p, v as int);
            }
        }
    }
}

/// A promoted build was below the request's priority.
proof fn lemma_promoted_low(b0: Seq<BuildView>, b: Seq<BuildView>, root: Seq<char>, p: Priority, v: int)
    requires
        promoted(b0, b, root, p, v),
    ensures
        0 <= v < b0.len(),
        b0[v].priority < p,
{
    let c = choose|c: Seq<Id>| #[trigger] low_chain(b0, p, c) && seed(b0, b, root, c[0] as int) && c.last() == v;
    assert(0 <= c[c.len() - 1] < b0.len() && b0[c[c.len() - 1] as int].priority < p);
}

/// What the links to old build `v` are after a request for `root` at priority `p` that
/// left the builds `b`: the former links, less those from promoted builds at their former
/// priority; the links from promoted builds at `p`; and, when a new build waits for `v`,
/// the link `(p, v)`.
pub open spec fn relinked(
    b0: Seq<BuildView>,
    b: Seq<BuildView>,
    root: Seq<char>,
    p: Priority,
    v: int,
    e: (Priority, Id),
) -> bool {
    ||| (b0[v].dependents.contains(e) && !(0 <= e.1 < b0.len() && promoted(b0, b, root, p, e.1 as int)
        && b0[e.1 as int].dependencies.contains(v as Id) && e.0 == b0[e.1 as int].priority))
    ||| (e.0 == p && 0 <= e.1 < b0.len() && promoted(b0, b, root, p, e.1 as int) && b0[e.1 as int].dependencies.contains(
        v as Id,
    ))
    ||| (e == (p, v as Id) && exists|w: int| b0.len() <= w < b.len() && #[trigger] b[w].dependencies.contains(v as Id))
}

/// The links to new build `v` are at priority `p` and come from new builds: from one that
/// waits for `v`, or from `v` itself.
pub open spec fn new_links_ok(b0_len: int, b: Seq<BuildView>, p: Priority, v: int) -> bool {
    forall|e: (Priority, Id)| #[trigger] b[v].dependents.contains(e) ==> {
        &&& e.0 == p
        &&& b0_len <= e.1 < b.len()
        &&& (e.1 == v as Id || b[e.1 as int].dependencies.contains(v as Id))
    }
}

/// New build `v` is linked, at priority `p`, from a new build that waits for it.
pub open spec fn linked_from_new(b0_len: int, b: Seq<BuildView>, p: Priority, v: int) -> bool {
    exists|u: int| b0_len <= u < b.len() && #[trigger] b[u].dependencies.contains(v as Id) && b[v].dependents.contains((p, u as Id))
}

spec fn processed_removed(q: Seq<(Priority, Id, Id)>, uh: int, v: int, e: (Priority, Id)) -> bool {
    exists|k: int| 0 <= k < uh && (#[trigger] q[k]).2 == v as Id && q[k].0 == e.0 && q[k].1 == e.1
}

spec fn processed_added(q: Seq<(Priority, Id, Id)>, uh: int, p: Priority, v: int, e: (Priority, Id)) -> bool {
    e.0 == p && exists|k: int| 0 <= k < uh && (#[trigger] q[k]).2 == v as Id && q[k].1 == e.1
}

spec fn asked_by_new(n0: int, b: Seq<BuildView>, v: int) -> bool {
    exists|w: int| n0 <= w < b.len() && #[trigger] b[w].dependencies.contains(v as Id)
}

/// Where the links stand: those of old builds follow the links processed so far (before
/// `uh`) and the new builds that wait for them, those of new builds come from new builds,
/// every queued link carries the former priority of its build, and every raised build
/// has a queued link to each of its dependencies.
spec fn linking(bs: Seq<Build>, b0: Seq<BuildView>, p: Priority, q: Seq<(Priority, Id, Id)>, uh: int) -> bool {
    let b = bview(bs);
    &&& forall|v: int, e: (Priority, Id)| 0 <= v < b0.len() ==> (#[trigger] b[v].dependents.contains(e) <==> {
        ||| (b0[v].dependents.contains(e) && !processed_removed(q, uh, v, e))
        ||| processed_added(q, uh, p, v, e)
        ||| (e == (p, v as Id) && asked_by_new(b0.len() as int, b, v))
    })
    &&& forall|v: int| b0.len() <= v < b.len() ==> #[trigger] new_links_ok(b0.len() as int, b, p, v)
    &&& forall|k: int| 0 <= k < q.len() ==> 0 <= (#[trigger] q[k]).1 < b0.len() && q[k].0 == b0[q[k].1 as int].priority
    &&& forall|u: int, w: Id| 0 <= u < b0.len() && bs[u].priority != b0[u].priority && #[trigger] b0[u].dependencies.contains(w)
        ==> exists|k: int| 0 <= k < q.len() && (#[trigger] q[k]).1 == u && q[k].2 == w
}

#[verifier::rlimit(30)]
#[verifier::spinoff_prover]
proof fn lemma_linking_start_known(
    bs0: Seq<Build>,
    bs1: Seq<Build>,
    p: Priority,
    q1: Seq<(Priority, Id, Id)>,
    u: int,
    count_roots: RootId,
)
    requires
        builds_wf(bs0, count_roots),
        0 <= u < bs0.len(),
        bs1.len() == bs0.len(),
        forall|i: int| 0 <= i < bs0.len() && i != u ==> #[trigger] bs1[i] == bs0[i],
        bs1[u].dependencies == bs0[u].dependencies,
        bs1[u].dependents == bs0[u].dependents,
        bs1[u].priority == if bs0[u].priority < p { p } else { bs0[u].priority },
        if bs0[u].priority < p {
            raise_items(Seq::empty(), q1, bs0[u].priority, u as Id, bs0[u].dependencies@)
        } else {
            q1 == Seq::<(Priority, Id, Id)>::empty()
        },
    ensures
        linking(bs1, bview(bs0), p, q1, 0),
{
    let b0 = bview(bs0);
    let b1 = bview(bs1);
    let n0 = b0.len() as int;
    assert forall|v: int, e: (Priority, Id)| 0 <= v < n0 implies (#[trigger] b1[v].dependents.contains(e) <==> {
        ||| (b0[v].dependents.contains(e) && !processed_removed(q1, 0, v, e))
        ||| processed_added(q1, 0, p, v, e)
        ||| (e == (p, v as Id) && asked_by_new(n0, b1, v))
    }) by {
        assert(b1[v] == bs1[v]@ && b0[v] == bs0[v]@);
        if v != u {
            assert(bs1[v] == bs0[v]);
        }
    }
    assert forall|k: int| 0 <= k < q1.len() implies 0 <= (#[trigger] q1[k]).1 < n0 && q1[k].0 == b0[q1[k].1 as int].priority by {
        assert(q1[0 + k] == (bs0[u].priority, u as Id, bs0[u].dependencies@[k]));
        assert(b0[u] == bs0[u]@);
    }
    assert forall|x: int, w: Id| 0 <= x < n0 && bs1[x].priority != b0[x].priority && #[trigger] b0[x].dependencies.contains(w)
        implies exists|k: int| 0 <= k < q1.len() && (#[trigger] q1[k]).1 == x && q1[k].2 == w by {
        assert(b0[x] == bs0[x]@);
        if x != u {
            assert(bs1[x] == bs0[x]);
        }
        assert(bs0[u]@.dependencies.contains(w));
        let j = choose|j: int| 0 <= j < bs0[u].dependencies@.len() && bs0[u].dependencies@[j] == w;
        assert(q1[0 + j] == (bs0[u].priority, u as Id, w));
    }
}

#[verifier::rlimit(30)]
#[verifier::spinoff_prover]
proof fn lemma_linking_start_new(bs0: Seq<Build>, bs1: Seq<Build>, p: Priority)
    requires
        bs1.len() == bs0.len() + 1,
        forall|i: int| 0 <= i < bs0.len() ==> #[trigger] bs1[i] == bs0[i],
        bs1[bs0.len() as int].dependencies@ == Seq::<Id>::empty(),
        bs1[bs0.len() as int].dependents@ == Seq::<(Priority, Id)>::empty(),
    ensures
        linking(bs1, bview(bs0), p, Seq::empty(), 0),
{
    let b0 = bview(bs0);
    let b1 = bview(bs1);
    let n0 = b0.len() as int;
    let q: Seq<(Priority, Id, Id)> = Seq::empty();
    assert forall|v: int, e: (Priority, Id)| 0 <= v < n0 implies (#[trigger] b1[v].dependents.contains(e) <==> {
        ||| (b0[v].dependents.contains(e) && !processed_removed(q, 0, v, e))
        ||| processed_added(q, 0, p, v, e)
        ||| (e == (p, v as Id) && asked_by_new(n0, b1, v))
    }) by {
        assert(b1[v] == bs1[v]@ && b0[v] == bs0[v]@);
        if asked_by_new(n0, b1, v) {
            let w = choose|w: int| n0 <= w < b1.len() && #[trigger] b1[w].dependencies.contains(v as Id);
            assert(b1[w] == bs1[w]@);
            assert(!bs1[w].dependencies@.contains(v as Id));
        }
    }
    assert forall|v: int| n0 <= v < b1.len() implies #[trigger] new_links_ok(n0, b1, p, v) by {
        assert(b1[v] == bs1[v]@);
        assert forall|e: (Priority, Id)| !#[trigger] b1[v].dependents.contains(e) by {
            assert(!bs1[v].dependents@.contains(e));
        }
    }
    assert forall|x: int, w: Id| 0 <= x < n0 && bs1[x].priority != b0[x].priority && #[trigger] b0[x].dependencies.contains(w)
        implies exists|k: int| 0 <= k < q.len() && (#[trigger] q[k]).1 == x && q[k].2 == w by {
        assert(b0[x] == bs0[x]@);
        assert(bs1[x] == bs0[x]);
    }
}

/// The new build `u` asks for the known build `v`: `v` gets the link `(p, v)`, is raised
/// when old and below `p`, and joins the dependencies of `u`.
#[verifier::rlimit(30)]
#[verifier::spinoff_prover]
proof fn lemma_linking_ask_known(
    bs1: Seq<Build>,
    bs4: Seq<Build>,
    b0: Seq<BuildView>,
    p: Priority,
    q1: Seq<(Priority, Id, Id)>,
    q3: Seq<(Priority, Id, Id)>,
    u: int,
    v: int,
)
    requires
        linking(bs1, b0, p, q1, 0),
        b0.len() <= u < bs1.len(),
        0 <= v < bs1.len(),
        bs4.len() == bs1.len() <= i64::MAX,
        forall|y: (Priority, Id)| #[trigger] bs4[v]@.dependents.contains(y) <==> (bs1[v]@.dependents.contains(y) || y == (p, v as Id)),
        forall|x: int| 0 <= x < bs1.len() && x != v ==> #[trigger] bs4[x]@.dependents == bs1[x]@.dependents,
        forall|x: int| 0 <= x < bs1.len() && x != u ==> #[trigger] bs4[x]@.dependencies == bs1[x]@.dependencies,
        forall|y: Id| #[trigger] bs4[u]@.dependencies.contains(y) <==> (bs1[u]@.dependencies.contains(y) || y == v as Id),
        forall|x: int| 0 <= x < b0.len() && x != v ==> #[trigger] bs4[x].priority == bs1[x].priority,
        v < b0.len() ==> bs4[v].priority == if bs1[v].priority < p { p } else { bs1[v].priority },
        forall|x: int| 0 <= x < b0.len() ==> raised(b0[x].priority, #[trigger] bs1[x].priority, p),
        forall|x: int| 0 <= x < b0.len() ==> #[trigger] bs1[x]@.dependencies == b0[x].dependencies,
        if v < b0.len() && bs1[v].priority < p {
            raise_items(q1, q3, bs1[v].priority, v as Id, bs1[v].dependencies@)
        } else {
            q3 == q1
        },
    ensures
        linking(bs4, b0, p, q3, 0),
{
    let b1 = bview(bs1);
    let b4 = bview(bs4);
    let n0 = b0.len() as int;
    let raising = v < n0 && bs1[v].priority < p;
    assert forall|x: int| 0 <= x < n0 && x != v implies asked_by_new(n0, b4, x) == asked_by_new(n0, b1, x) by {
        if asked_by_new(n0, b1, x) {
            let w = choose|w: int| n0 <= w < b1.len() && #[trigger] b1[w].dependencies.contains(x as Id);
            assert(b4[w] == bs4[w]@ && b1[w] == bs1[w]@);
            assert(b4[w].dependencies.contains(x as Id));
        }
        if asked_by_new(n0, b4, x) {
            let w = choose|w: int| n0 <= w < b4.len() && #[trigger] b4[w].dependencies.contains(x as Id);
            assert(b4[w] == bs4[w]@ && b1[w] == bs1[w]@);
            if w != u {
                assert(b1[w].dependencies.contains(x as Id));
            } else if !bs1[u]@.dependencies.contains(x as Id) {
                assert(x as Id == v as Id);
            } else {
                assert(b1[w].dependencies.contains(x as Id));
            }
        }
    }
    if v < n0 {
        assert(b4[u] == bs4[u]@);
        assert(b4[u].dependencies.contains(v as Id));
        assert(asked_by_new(n0, b4, v));
    }
    assert forall|x: int, e: (Priority, Id)| 0 <= x < n0 implies (#[trigger] b4[x].dependents.contains(e) <==> {
        ||| (b0[x].dependents.contains(e) && !processed_removed(q3, 0, x, e))
        ||| processed_added(q3, 0, p, x, e)
        ||| (e == (p, x as Id) && asked_by_new(n0, b4, x))
    }) by {
        assert(b4[x] == bs4[x]@ && b1[x] == bs1[x]@);
        assert(b1[x].dependents.contains(e) <==> {
            ||| (b0[x].dependents.contains(e) && !processed_removed(q1, 0, x, e))
            ||| processed_added(q1, 0, p, x, e)
            ||| (e == (p, x as Id) && asked_by_new(n0, b1, x))
        });
    }
    assert forall|x: int| n0 <= x < b4.len() implies #[trigger] new_links_ok(n0, b4, p, x) by {
        assert(new_links_ok(n0, b1, p, x));
        assert(b4[x] == bs4[x]@ && b1[x] == bs1[x]@);
        assert forall|e: (Priority, Id)| #[trigger] b4[x].dependents.contains(e) implies {
            &&& e.0 == p
            &&& n0 <= e.1 < b4.len()
            &&& (e.1 == x as Id || b4[e.1 as int].dependencies.contains(x as Id))
        } by {
            if x != v || e != (p, v as Id) {
                assert(b1[x].dependents.contains(e));
                if e.1 != x as Id {
                    assert(b1[e.1 as int].dependencies.contains(x as Id));
                    assert(b4[e.1 as int] == bs4[e.1 as int]@ && b1[e.1 as int] == bs1[e.1 as int]@);
                }
            }
        }
    }
    assert forall|k: int| 0 <= k < q3.len() implies 0 <= (#[trigger] q3[k]).1 < n0 && q3[k].0 == b0[q3[k].1 as int].priority by {
        if k < q1.len() {
            assert(q3[k] == q1[k]);
        } else {
            assert(raising);
            assert(q3[q1.len() + (k - q1.len())] == (bs1[v].priority, v as Id, bs1[v].dependencies@[k - q1.len()]));
        }
    }
    assert forall|x: int, w: Id| 0 <= x < n0 && bs4[x].priority != b0[x].priority && #[trigger] b0[x].dependencies.contains(w)
        implies exists|k: int| 0 <= k < q3.len() && (#[trigger] q3[k]).1 == x && q3[k].2 == w by {
        if raising && x == v {
            assert(bs1[v]@.dependencies.contains(w));
            let j = choose|j: int| 0 <= j < bs1[v].dependencies@.len() && bs1[v].dependencies@[j] == w;
            assert(q3[q1.len() + j] == (bs1[v].priority, v as Id, w));
        } else {
            assert(bs1[x].priority == bs4[x].priority);
            let k = choose|k: int| 0 <= k < q1.len() && (#[trigger] q1[k]).1 == x && q1[k].2 == w;
            assert(q3[k] == q1[k]);
        }
    }
}

/// The new build `u` creates the build `v`, linked from `u`, and waits for it.
#[verifier::rlimit(30)]
#[verifier::spinoff_prover]
proof fn lemma_linking_ask_new(
    bs1: Seq<Build>,
    bs4: Seq<Build>,
    b0: Seq<BuildView>,
    p: Priority,
    q: Seq<(Priority, Id, Id)>,
    u: int,
)
    requires
        linking(bs1, b0, p, q, 0),
        b0.len() <= u < bs1.len(),
        bs4.len() == bs1.len() + 1 <= i64::MAX,
        forall|x: int| 0 <= x < bs1.len() ==> #[trigger] bs4[x]@.dependents == bs1[x]@.dependents,
        forall|x: int| 0 <= x < bs1.len() ==> #[trigger] bs4[x].priority == bs1[x].priority,
        forall|x: int| 0 <= x < bs1.len() && x != u ==> #[trigger] bs4[x]@.dependencies == bs1[x]@.dependencies,
        forall|y: Id| #[trigger] bs4[u]@.dependencies.contains(y) <==> (bs1[u]@.dependencies.contains(y) || y == bs1.len() as Id),
        bs4[bs1.len() as int]@.dependencies == Set::<Id>::empty(),
        forall|y: (Priority, Id)| #[trigger] bs4[bs1.len() as int]@.dependents.contains(y) <==> y == (p, u as Id),
    ensures
        linking(bs4, b0, p, q, 0),
{
    let b1 = bview(bs1);
    let b4 = bview(bs4);
    let n0 = b0.len() as int;
    let vn = bs1.len() as int;
    assert forall|x: int| 0 <= x < n0 implies asked_by_new(n0, b4, x) == asked_by_new(n0, b1, x) by {
        if asked_by_new(n0, b1, x) {
            let w = choose|w: int| n0 <= w < b1.len() && #[trigger] b1[w].dependencies.contains(x as Id);
            assert(b4[w] == bs4[w]@ && b1[w] == bs1[w]@);
            assert(b4[w].dependencies.contains(x as Id));
        }
        if asked_by_new(n0, b4, x) {
            let w = choose|w: int| n0 <= w < b4.len() && #[trigger] b4[w].dependencies.contains(x as Id);
            assert(b4[w] == bs4[w]@);
            if w == vn {
                assert(!bs4[vn]@.dependencies.contains(x as Id));
            } else {
                assert(b1[w] == bs1[w]@);
                if w != u || bs1[u]@.dependencies.contains(x as Id) {
                    assert(b1[w].dependencies.contains(x as Id));
                } else {
                    assert(x as Id == vn as Id);
                }
            }
        }
    }
    assert forall|x: int, e: (Priority, Id)| 0 <= x < n0 implies (#[trigger] b4[x].dependents.contains(e) <==> {
        ||| (b0[x].dependents.contains(e) && !processed_removed(q, 0, x, e))
        ||| processed_added(q, 0, p, x, e)
        ||| (e == (p, x as Id) && asked_by_new(n0, b4, x))
    }) by {
        assert(b4[x] == bs4[x]@ && b1[x] == bs1[x]@);
        assert(b1[x].dependents.contains(e) <==> {
            ||| (b0[x].dependents.contains(e) && !processed_removed(q, 0, x, e))
            ||| processed_added(q, 0, p, x, e)
            ||| (e == (p, x as Id) && asked_by_new(n0, b1, x))
        });
    }
    assert forall|x: int| n0 <= x < b4.len() implies #[trigger] new_links_ok(n0, b4, p, x) by {
        assert(b4[x] == bs4[x]@);
        if x == vn {
            assert forall|e: (Priority, Id)| #[trigger] b4[x].dependents.contains(e) implies {
                &&& e.0 == p
                &&& n0 <= e.1 < b4.len()
                &&& (e.1 == x as Id || b4[e.1 as int].dependencies.contains(x as Id))
            } by {
                assert(e == (p, u as Id));
                assert(b4[u] == bs4[u]@);
                assert(bs4[u]@.dependencies.contains(vn as Id));
            }
        } else {
            assert(new_links_ok(n0, b1, p, x));
            assert(b1[x] == bs1[x]@);
            assert forall|e: (Priority, Id)| #[trigger] b4[x].dependents.contains(e) implies {
                &&& e.0 == p
                &&& n0 <= e.1 < b4.len()
                &&& (e.1 == x as Id || b4[e.1 as int].dependencies.contains(x as Id))
            } by {
                assert(b1[x].dependents.contains(e));
                if e.1 != x as Id {
                    assert(b1[e.1 as int].dependencies.contains(x as Id));
                    assert(b4[e.1 as int] == bs4[e.1 as int]@ && b1[e.1 as int] == bs1[e.1 as int]@);
                }
            }
        }
    }
    assert forall|x: int, w: Id| 0 <= x < n0 && bs4[x].priority != b0[x].priority && #[trigger] b0[x].dependencies.contains(w)
        implies exists|k: int| 0 <= k < q.len() && (#[trigger] q[k]).1 == x && q[k].2 == w by {
        assert(bs1[x].priority == bs4[x].priority);
    }
}

/// Following the queued link at `uh` to `v`: the link moves to priority `p`, and `v` is
/// raised (with its links queued) when it is below `p`.
#[verifier::rlimit(30)]
#[verifier::spinoff_prover]
proof fn lemma_linking_follow(
    bs1: Seq<Build>,
    bs3: Seq<Build>,
    b0: Seq<BuildView>,
    root: Seq<char>,
    p: Priority,
    q1: Seq<(Priority, Id, Id)>,
    q3: Seq<(Priority, Id, Id)>,
    uh: int,
    v: int,
)
    requires
        linking(bs1, b0, p, q1, uh),
        prom_items(bs1, b0, root, p, q1),
        0 <= uh < q1.len(),
        q1[uh].2 as int == v,
        0 <= v < b0.len() <= bs1.len(),
        bs3.len() == bs1.len() <= i64::MAX,
        forall|x: int| 0 <= x < bs1.len() ==> #[trigger] bs3[x]@.dependencies == bs1[x]@.dependencies,
        forall|y: (Priority, Id)| #[trigger] bs3[v]@.dependents.contains(y) <==> (
            (bs1[v]@.dependents.contains(y) && y != (q1[uh].0, q1[uh].1)) || y == (p, q1[uh].1)),
        forall|x: int| 0 <= x < bs1.len() && x != v ==> #[trigger] bs3[x]@.dependents == bs1[x]@.dependents,
        forall|x: int| 0 <= x < b0.len() && x != v ==> #[trigger] bs3[x].priority == bs1[x].priority,
        bs3[v].priority == if bs1[v].priority < p { p } else { bs1[v].priority },
        forall|x: int| 0 <= x < b0.len() ==> raised(b0[x].priority, #[trigger] bs1[x].priority, p),
        forall|x: int| 0 <= x < b0.len() ==> #[trigger] bs1[x]@.dependencies == b0[x].dependencies,
        if bs1[v].priority < p {
            raise_items(q1, q3, bs1[v].priority, v as Id, bs1[v].dependencies@)
        } else {
            q3 == q1
        },
    ensures
        linking(bs3, b0, p, q3, uh + 1),
{
    let b1 = bview(bs1);
    let b3 = bview(bs3);
    let n0 = b0.len() as int;
    let e0 = q1[uh];
    let raising = bs1[v].priority < p;
    assert(0 <= e0.1 < n0 && promoted(b0, b1, root, p, e0.1 as int) && e0.0 == b0[e0.1 as int].priority);
    lemma_promoted_low(b0, b1, root, p, e0.1 as int);
    assert(e0.0 < p);
    assert forall|k: int| 0 <= k < uh + 1 implies #[trigger] q3[k] == q1[k] by {
        if raising {
            assert(k < q1.len());
        }
    }
    assert forall|x: int| 0 <= x < n0 implies asked_by_new(n0, b3, x) == asked_by_new(n0, b1, x) by {
        if asked_by_new(n0, b1, x) {
            let w = choose|w: int| n0 <= w < b1.len() && #[trigger] b1[w].dependencies.contains(x as Id);
            assert(b3[w] == bs3[w]@ && b1[w] == bs1[w]@);
            assert(b3[w].dependencies.contains(x as Id));
        }
        if asked_by_new(n0, b3, x) {
            let w = choose|w: int| n0 <= w < b3.len() && #[trigger] b3[w].dependencies.contains(x as Id);
            assert(b3[w] == bs3[w]@ && b1[w] == bs1[w]@);
            assert(b1[w].dependencies.contains(x as Id));
        }
    }
    assert forall|x: int, e: (Priority, Id)| 0 <= x < n0 implies (#[trigger] b3[x].dependents.contains(e) <==> {
        ||| (b0[x].dependents.contains(e) && !processed_removed(q3, uh + 1, x, e))
        ||| processed_added(q3, uh + 1, p, x, e)
        ||| (e == (p, x as Id) && asked_by_new(n0, b3, x))
    }) by {
        assert(b3[x] == bs3[x]@ && b1[x] == bs1[x]@);
        assert(b1[x].dependents.contains(e) <==> {
            ||| (b0[x].dependents.contains(e) && !processed_removed(q1, uh, x, e))
            ||| processed_added(q1, uh, p, x, e)
            ||| (e == (p, x as Id) && asked_by_new(n0, b1, x))
        });
        if x == v {
            assert(processed_removed(q3, uh + 1, x, e) <==> (processed_removed(q1, uh, x, e) || e == (e0.0, e0.1))) by {
                if processed_removed(q3, uh + 1, x, e) {
                    let k = choose|k: int| 0 <= k < uh + 1 && (#[trigger] q3[k]).2 == x as Id && q3[k].0 == e.0 && q3[k].1 == e.1;
                    assert(q3[k] == q1[k]);
                }
                if processed_removed(q1, uh, x, e) {
                    let k = choose|k: int| 0 <= k < uh && (#[trigger] q1[k]).2 == x as Id && q1[k].0 == e.0 && q1[k].1 == e.1;
                    assert(q3[k] == q1[k]);
                }
                if e == (e0.0, e0.1) {
                    assert(q3[uh] == q1[uh]);
                }
            }
            assert(processed_added(q3, uh + 1, p, x, e) <==> (processed_added(q1, uh, p, x, e) || e == (p, e0.1))) by {
                if processed_added(q3, uh + 1, p, x, e) {
                    let k = choose|k: int| 0 <= k < uh + 1 && (#[trigger] q3[k]).2 == x as Id && q3[k].1 == e.1;
                    assert(q3[k] == q1[k]);
                }
                if processed_added(q1, uh, p, x, e) {
                    let k = choose|k: int| 0 <= k < uh && (#[trigger] q1[k]).2 == x as Id && q1[k].1 == e.1;
                    assert(q3[k] == q1[k]);
                }
                if e == (p, e0.1) {
                    assert(q3[uh] == q1[uh]);
                }
            }
            if e == (e0.0, e0.1) {
                assert(!processed_added(q1, uh, p, x, e));
            }
        } else {
            assert(processed_removed(q3, uh + 1, x, e) <==> processed_removed(q1, uh, x, e)) by {
                if processed_removed(q3, uh + 1, x, e) {
                    let k = choose|k: int| 0 <= k < uh + 1 && (#[trigger] q3[k]).2 == x as Id && q3[k].0 == e.0 && q3[k].1 == e.1;
                    assert(q3[k] == q1[k]);
                    assert(k != uh);
                }
                if processed_removed(q1, uh, x, e) {
                    let k = choose|k: int| 0 <= k < uh && (#[trigger] q1[k]).2 == x as Id && q1[k].0 == e.0 && q1[k].1 == e.1;
                    assert(q3[k] == q1[k]);
                }
            }
            assert(processed_added(q3, uh + 1, p, x, e) <==> processed_added(q1, uh, p, x, e)) by {
                if processed_added(q3, uh + 1, p, x, e) {
                    let k = choose|k: int| 0 <= k < uh + 1 && (#[trigger] q3[k]).2 == x as Id && q3[k].1 == e.1;
                    assert(q3[k] == q1[k]);
                    assert(k != uh);
                }
                if processed_added(q1, uh, p, x, e) {
                    let k = choose|k: int| 0 <= k < uh && (#[trigger] q1[k]).2 == x as Id && q1[k].1 == e.1;
                    assert(q3[k] == q1[k]);
                }
            }
        }
    }
    assert forall|x: int| n0 <= x < b3.len() implies #[trigger] new_links_ok(n0, b3, p, x) by {
        assert(new_links_ok(n0, b1, p, x));
        assert(b3[x] == bs3[x]@ && b1[x] == bs1[x]@);
        assert forall|e: (Priority, Id)| #[trigger] b3[x].dependents.contains(e) implies {
            &&& e.0 == p
            &&& n0 <= e.1 < b3.len()
            &&& (e.1 == x as Id || b3[e.1 as int].dependencies.contains(x as Id))
        } by {
            assert(b1[x].dependents.contains(e));
            if e.1 != x as Id {
                assert(b1[e.1 as int].dependencies.contains(x as Id));
                assert(b3[e.1 as int] == bs3[e.1 as int]@ && b1[e.1 as int] == bs1[e.1 as int]@);
            }
        }
    }
    assert forall|k: int| 0 <= k < q3.len() implies 0 <= (#[trigger] q3[k]).1 < n0 && q3[k].0 == b0[q3[k].1 as int].priority by {
        if k < q1.len() {
            assert(q3[k] == q1[k]);
        } else {
            assert(raising);
            assert(q3[q1.len() + (k - q1.len())] == (bs1[v].priority, v as Id, bs1[v].dependencies@[k - q1.len()]));
        }
    }
    assert forall|x: int, w: Id| 0 <= x < n0 && bs3[x].priority != b0[x].priority && #[trigger] b0[x].dependencies.contains(w)
        implies exists|k: int| 0 <= k < q3.len() && (#[trigger] q3[k]).1 == x && q3[k].2 == w by {
        if raising && x == v {
            assert(bs1[v]@.dependencies.contains(w));
            let j = choose|j: int| 0 <= j < bs1[v].dependencies@.len() && bs1[v].dependencies@[j] == w;
            assert(q3[q1.len() + j] == (bs1[v].priority, v as Id, w));
        } else {
            assert(bs1[x].priority == bs3[x].priority);
            let k = choose|k: int| 0 <= k < q1.len() && (#[trigger] q1[k]).1 == x && q1[k].2 == w;
            if raising {
                assert(q3[k] == q1[k]);
            }
        }
    }
}

/// Once every queued link is processed, the links of the old builds are exactly the
/// relinked ones.
#[verifier::rlimit(30)]
#[verifier::spinoff_prover]
proof fn lemma_linking_final(bs: Seq<Build>, b0: Seq<BuildView>, root: Seq<char>, p: Priority, q: Seq<(Priority, Id, Id)>)
    requires
        linking(bs, b0, p, q, q.len() as int),
        prom_items(bs, b0, root, p, q),
        b0.len() <= bs.len(),
        forall|x: int| 0 <= x < b0.len() ==> #[trigger] bs[x].priority == if promoted(b0, bview(bs), root, p, x) {
            p
        } else {
            b0[x].priority
        },
    ensures
        forall|v: int, e: (Priority, Id)| 0 <= v < b0.len() ==> (#[trigger] bview(bs)[v].dependents.contains(e) <==> relinked(
            b0,
            bview(bs),
            root,
            p,
            v,
            e,
        )),
{
    let b = bview(bs);
    let n0 = b0.len() as int;
    let n = q.len() as int;
    assert forall|v: int, e: (Priority, Id)| 0 <= v < n0 implies (#[trigger] b[v].dependents.contains(e) <==> relinked(b0, b, root, p, v, e)) by {
        assert(b[v].dependents.contains(e) <==> {
            ||| (b0[v].dependents.contains(e) && !processed_removed(q, n, v, e))
            ||| processed_added(q, n, p, v, e)
            ||| (e == (p, v as Id) && asked_by_new(n0, b, v))
        });
        let rem = 0 <= e.1 < n0 && promoted(b0, b, root, p, e.1 as int) && b0[e.1 as int].dependencies.contains(v as Id)
            && e.0 == b0[e.1 as int].priority;
        let add = e.0 == p && 0 <= e.1 < n0 && promoted(b0, b, root, p, e.1 as int) && b0[e.1 as int].dependencies.contains(v as Id);
        assert(processed_removed(q, n, v, e) <==> rem) by {
            if processed_removed(q, n, v, e) {
                let k = choose|k: int| 0 <= k < n && (#[trigger] q[k]).2 == v as Id && q[k].0 == e.0 && q[k].1 == e.1;
                assert(0 <= q[k].1 < n0 && q[k].0 == b0[q[k].1 as int].priority);
                assert(promoted(b0, b, root, p, q[k].1 as int) && b0[q[k].1 as int].dependencies.contains(q[k].2));
            }
            if rem {
                lemma_promoted_low(b0, b, root, p, e.1 as int);
                assert(bs[e.1 as int].priority != b0[e.1 as int].priority);
                let k = choose|k: int| 0 <= k < n && (#[trigger] q[k]).1 == e.1 as int && q[k].2 == v as Id;
                assert(q[k].0 == b0[q[k].1 as int].priority);
            }
        }
        assert(processed_added(q, n, p, v, e) <==> add) by {
            if processed_added(q, n, p, v, e) {
                let k = choose|k: int| 0 <= k < n && (#[trigger] q[k]).2 == v as Id && q[k].1 == e.1;
                assert(0 <= q[k].1 < n0);
                assert(promoted(b0, b, root, p, q[k].1 as int) && b0[q[k].1 as int].dependencies.contains(q[k].2));
            }
            if add {
                lemma_promoted_low(b0, b, root, p, e.1 as int);
                assert(bs[e.1 as int].priority != b0[e.1 as int].priority);
                let k = choose|k: int| 0 <= k < n && (#[trigger] q[k]).1 == e.1 as int && q[k].2 == v as Id;
            }
        }
        assert(asked_by_new(n0, b, v) <==> exists|w: int| n0 <= w < b.len() && #[trigger] b[w].dependencies.contains(v as Id));
    }
}

/// New build `v` is linked from a new build `u` that waits for it, at priority `p`.
spec fn has_parent(bs: Seq<Build>, n0: int, v: int, p: Priority) -> bool {
    exists|u: int| n0 <= u < bs.len() && #[trigger] bs[u]@.dependencies.contains(v as Id) && bs[v]@.dependents.contains((p, u as Id))
}

/// Every new build but the one that the request created for its own derivation is linked
/// from a new build that waits for it.
spec fn parented(bs: Seq<Build>, b0: Seq<BuildView>, root: Seq<char>, p: Priority) -> bool {
    forall|v: int| b0.len() <= v < bs.len() && (v > b0.len() || known(b0, root)) ==> #[trigger] has_parent(bs, b0.len() as int, v, p)
}

/// New build `v` holds a link from itself only when a new build other than the one that
/// created it waits for it: two new builds wait for it, or, when `v` is the first new
/// build (the one a request for an unknown derivation creates), one does.
pub open spec fn self_link_ok(b0_len: int, b: Seq<BuildView>, p: Priority, v: int) -> bool {
    b[v].dependents.contains((p, v as Id)) ==> {
        ||| exists|u: int, w: int|
            b0_len <= u < w < b.len() && #[trigger] b[u].dependencies.contains(v as Id) && #[trigger] b[w].dependencies.contains(
                v as Id,
            )
        ||| (v == b0_len && exists|u: int| b0_len <= u < b.len() && #[trigger] b[u].dependencies.contains(v as Id))
    }
}

spec fn self_links(bs: Seq<Build>, n0: int, p: Priority) -> bool {
    forall|v: int| n0 <= v < bs.len() ==> #[trigger] self_link_ok(n0, bview(bs), p, v)
}

/// Self-links of new builds stay justified while the dependencies of new builds only
/// grow, given that every self-link that appears is justified.
proof fn lemma_self_links_grow(bs1: Seq<Build>, bs4: Seq<Build>, n0: int, p: Priority)
    requires
        self_links(bs1, n0, p),
        0 <= n0 <= bs1.len() <= bs4.len(),
        forall|x: int, y: Id| n0 <= x < bs1.len() && #[trigger] bs1[x]@.dependencies.contains(y) ==> bs4[x]@.dependencies.contains(y),
        forall|x: int|
            n0 <= x < bs4.len() && #[trigger] bs4[x]@.dependents.contains((p, x as Id)) ==> (x < bs1.len()
                && bs1[x]@.dependents.contains((p, x as Id))) || self_link_ok(n0, bview(bs4), p, x),
    ensures
        self_links(bs4, n0, p),
{
    let b1 = bview(bs1);
    let b4 = bview(bs4);
    assert forall|v: int| n0 <= v < bs4.len() implies #[trigger] self_link_ok(n0, b4, p, v) by {
        if b4[v].dependents.contains((p, v as Id)) {
            assert(b4[v] == bs4[v]@);
            if !self_link_ok(n0, b4, p, v) {
                assert(v < bs1.len() && bs1[v]@.dependents.contains((p, v as Id)));
                assert(self_link_ok(n0, b1, p, v));
                assert(b1[v] == bs1[v]@);
                if exists|u: int, w: int|
                    n0 <= u < w < b1.len() && #[trigger] b1[u].dependencies.contains(v as Id) && #[trigger] b1[w].dependencies.contains(v as Id) {
                    let (u, w) = choose|u: int, w: int|
                        n0 <= u < w < b1.len() && #[trigger] b1[u].dependencies.contains(v as Id) && #[trigger] b1[w].dependencies.contains(v as Id);
                    assert(b1[u] == bs1[u]@ && b1[w] == bs1[w]@);
                    assert(bs4[u]@.dependencies.contains(v as Id));
                    assert(bs4[w]@.dependencies.contains(v as Id));
                    assert(b4[u] == bs4[u]@ && b4[w] == bs4[w]@);
                } else {
                    let u = choose|u: int| n0 <= u < b1.len() && #[trigger] b1[u].dependencies.contains(v as Id);
                    assert(b1[u] == bs1[u]@);
                    assert(bs4[u]@.dependencies.contains(v as Id));
                    assert(b4[u] == bs4[u]@);
                }
            }
        }
    }
}

/// The links between new builds only grow, and appended builds are linked.
#[verifier::rlimit(30)]
#[verifier::spinoff_prover]
proof fn lemma_parented_grow(bs1: Seq<Build>, bs4: Seq<Build>, b0: Seq<BuildView>, root: Seq<char>, p: Priority)
    requires
        parented(bs1, b0, root, p),
        b0.len() <= bs1.len() <= bs4.len(),
        forall|x: int, y: Id| b0.len() <= x < bs1.len() && #[trigger] bs1[x]@.dependencies.contains(y) ==> bs4[x]@.dependencies.contains(y),
        forall|x: int, y: (Priority, Id)| b0.len() <= x < bs1.len() && #[trigger] bs1[x]@.dependents.contains(y) ==> bs4[x]@.dependents.contains(y),
        forall|v: int| bs1.len() <= v < bs4.len() ==> #[trigger] has_parent(bs4, b0.len() as int, v, p),
    ensures
        parented(bs4, b0, root, p),
{
    let n0 = b0.len() as int;
    assert forall|v: int| n0 <= v < bs4.len() && (v > n0 || known(b0, root)) implies #[trigger] has_parent(bs4, n0, v, p) by {
        if v < bs1.len() {
            assert(has_parent(bs1, n0, v, p));
            let u = choose|u: int| n0 <= u < bs1.len() && #[trigger] bs1[u]@.dependencies.contains(v as Id) && bs1[v]@.dependents.contains((p, u as Id));
            assert(bs4[u]@.dependencies.contains(v as Id));
            assert(bs4[v]@.dependents.contains((p, u as Id)));
        }
    }
}

/// The entries that the builds `lo..hi` of `bs` add to the ready queue: those without
/// dependencies, at priority `p`.
pub open spec fn ready_entries(bs: Seq<BuildView>, lo: int, hi: int, p: Priority) -> Set<Entry> {
    Set::new(|e: Entry| lo <= e.1 < hi && e.0 == p && bs[e.1 as int].dependencies.is_empty())
}

/// The dependencies that a new build for `d` gets: the builds of `bs` whose derivation
/// is missing and is a dependency of `d`.
pub open spec fn expected_dependencies(
    rd: Seq<(String, Derivation)>,
    missing: Seq<String>,
    bs: Seq<BuildView>,
    d: Seq<char>,
    v: Id,
) -> bool {
    0 <= v < bs.len() && depends(rd, d, bs[v as int].drv) && in_missing(missing, bs[v as int].drv)
}

spec fn count_true(s: Seq<bool>) -> nat
    decreases s.len(),
{
    if s.len() == 0 {
        0
    } else {
        count_true(s.drop_last()) + if s.last() {
            1nat
        } else {
            0nat
        }
    }
}

/// How many of the old builds `0 .. m` a request for `root`, which left the builds `b`,
/// asks for directly: the build of `root`, and the old builds that new builds wait for.
pub open spec fn seed_count(b0: Seq<BuildView>, b: Seq<BuildView>, root: Seq<char>, m: int) -> nat
    decreases m,
{
    if m <= 0 {
        0
    } else {
        seed_count(b0, b, root, m - 1) + if seed(b0, b, root, m - 1) {
            1nat
        } else {
            0nat
        }
    }
}

/// `c` is a chain of old builds at or above `p`, each one a dependency of the one before.
pub open spec fn high_chain(b0: Seq<BuildView>, p: Priority, c: Seq<Id>) -> bool {
    &&& c.len() > 0
    &&& forall|i: int| 0 <= i < c.len() ==> 0 <= #[trigger] c[i] < b0.len() && b0[c[i] as int].priority >= p
    &&& forall|i: int| 0 <= i < c.len() - 1 ==> #[trigger] b0[c[i] as int].dependencies.contains(c[i + 1])
}

/// Old build `v` is reached, through old builds that a request for `root` at priority `p`
/// does not raise, from an old build that the request asks for directly: the request
/// visits it.
pub open spec fn visited_unraised(b0: Seq<BuildView>, b: Seq<BuildView>, root: Seq<char>, p: Priority, v: int) -> bool {
    exists|c: Seq<Id>| #[trigger] high_chain(b0, p, c) && seed(b0, b, root, c[0] as int) && c.last() == v
}

/// Old build `v` is touched by the request whatever order the work is done in: it is
/// asked for directly, or visited through builds the request does not raise.
pub open spec fn surely_touched(b0: Seq<BuildView>, b: Seq<BuildView>, root: Seq<char>, p: Priority, v: int) -> bool {
    seed(b0, b, root, v) || visited_unraised(b0, b, root, p, v)
}

/// How many of the old builds `0 .. m` are surely touched.
pub open spec fn touched_count(b0: Seq<BuildView>, b: Seq<BuildView>, root: Seq<char>, p: Priority, m: int) -> nat
    decreases m,
{
    if m <= 0 {
        0
    } else {
        touched_count(b0, b, root, p, m - 1) + if surely_touched(b0, b, root, p, m - 1) {
            1nat
        } else {
            0nat
        }
    }
}

proof fn lemma_chain_stays_high(b0: Seq<BuildView>, p: Priority, c: Seq<Id>, i: int)
    requires
        no_inversion(b0),
        0 <= i < c.len(),
        0 <= c[0] < b0.len(),
        b0[c[0] as int].priority >= p,
        forall|k: int| 0 <= k < c.len() - 1 ==> #[trigger] b0[c[k] as int].dependencies.contains(c[k + 1]),
    ensures
        0 <= c[i] < b0.len(),
        b0[c[i] as int].priority >= p,
    decreases i,
{
    if i > 0 {
        lemma_chain_stays_high(b0, p, c, i - 1);
        assert(b0[c[i - 1] as int].dependencies.contains(c[(i - 1) + 1]));
    }
}

/// In a scheduler where no build waits for one of lower priority, every old build that
/// can be reached by dependencies from a build the request asks for directly, at a
/// priority that does not raise it, is touched by the request.
pub proof fn lemma_unraised_closure_touched(
    b0: Seq<BuildView>,
    b: Seq<BuildView>,
    root: Seq<char>,
    p: Priority,
    c: Seq<Id>,
)
    requires
        no_inversion(b0),
        c.len() > 0,
        seed(b0, b, root, c[0] as int),
        b0[c[0] as int].priority >= p,
        forall|k: int| 0 <= k < c.len() - 1 ==> #[trigger] b0[c[k] as int].dependencies.contains(c[k + 1]),
    ensures
        surely_touched(b0, b, root, p, c.last() as int),
{
    assert forall|i: int| 0 <= i < c.len() implies 0 <= #[trigger] c[i] < b0.len() && b0[c[i] as int].priority >= p by {
        lemma_chain_stays_high(b0, p, c, i);
    }
    assert(high_chain(b0, p, c));
}

proof fn lemma_count_true_touched(s: Seq<bool>, lo: int, b0: Seq<BuildView>, b: Seq<BuildView>, root: Seq<char>, p: Priority)
    requires
        0 <= lo <= s.len(),
        lo == b0.len(),
        forall|i: int| lo <= i < s.len() ==> s[i],
        forall|i: int| 0 <= i < lo && #[trigger] surely_touched(b0, b, root, p, i) ==> s[i],
    ensures
        count_true(s) >= (s.len() - lo) + touched_count(b0, b, root, p, lo),
    decreases s.len(),
{
    if s.len() > 0 {
        let t = s.drop_last();
        if lo < s.len() {
            lemma_count_true_touched(t, lo, b0, b, root, p);
        } else {
            lemma_count_true_touched_below(s, lo, b0, b, root, p);
            assert(s.take(lo) =~= s);
        }
    }
}

proof fn lemma_count_true_touched_below(s: Seq<bool>, m: int, b0: Seq<BuildView>, b: Seq<BuildView>, root: Seq<char>, p: Priority)
    requires
        0 <= m <= s.len(),
        forall|i: int| 0 <= i < m && #[trigger] surely_touched(b0, b, root, p, i) ==> s[i],
    ensures
        count_true(s.take(m)) >= touched_count(b0, b, root, p, m),
    decreases m,
{
    if m > 0 {
        lemma_count_true_touched_below(s, m - 1, b0, b, root, p);
        assert(s.take(m).drop_last() =~= s.take(m - 1));
        if surely_touched(b0, b, root, p, m - 1) {
            assert(s[m - 1]);
        }
    }
}

/// Along a chain of old builds at or above `p` that starts at a marked build, every build
/// is marked: none of them was marked before the visits, so each was visited and its
/// dependencies queued.
proof fn lemma_chain_marked(
    bs: Seq<Build>,
    b0: Seq<BuildView>,
    p: Priority,
    c: Seq<Id>,
    before: Seq<bool>,
    marks: Seq<bool>,
    q: Seq<Id>,
    j: int,
)
    requires
        high_chain(b0, p, c),
        0 <= j < c.len(),
        b0.len() <= bs.len() == marks.len() == before.len(),
        marks[c[0] as int],
        low_marks(before, b0, p),
        visits_expand(bs, before, marks, q, q.len() as int),
        forall|x: int| 0 <= x < b0.len() ==> #[trigger] bs[x]@.dependencies == b0[x].dependencies,
    ensures
        marks[c[j] as int],
    decreases j,
{
    if j > 0 {
        lemma_chain_marked(bs, b0, p, c, before, marks, q, j - 1);
        let x = c[j - 1] as int;
        assert(0 <= x < b0.len() && b0[x].priority >= p);
        assert(!before[x]);
        assert(b0[c[j - 1] as int].dependencies.contains(c[(j - 1) + 1]));
        assert(b0[x].dependencies.contains(c[j]));
        assert(bs[x]@.dependencies.contains(c[j]));
        let k = choose|k: int| 0 <= k < bs[x].dependencies@.len() && bs[x].dependencies@[k] == c[j];
        assert(marks[bs[x].dependencies@[k] as int] || exists|kk: int| q.len() <= kk < q.len() && #[trigger] q[kk] == bs[x].dependencies@[k]);
    }
}

/// Marks on every index from `lo` on and on every seed below it count at least as many.
proof fn lemma_count_true_seeds(s: Seq<bool>, lo: int, b0: Seq<BuildView>, b: Seq<BuildView>, root: Seq<char>)
    requires
        0 <= lo <= s.len(),
        lo == b0.len(),
        forall|i: int| lo <= i < s.len() ==> s[i],
        forall|i: int| 0 <= i < lo && #[trigger] seed(b0, b, root, i) ==> s[i],
    ensures
        count_true(s) >= (s.len() - lo) + seed_count(b0, b, root, lo),
    decreases s.len(),
{
    if s.len() > 0 {
        let t = s.drop_last();
        if lo < s.len() {
            lemma_count_true_seeds(t, lo, b0, b, root);
        } else {
            assert forall|i: int| 0 <= i < lo - 1 && #[trigger] seed(b0, b, root, i) implies t[i] by {
                assert(s[i]);
            }
            lemma_count_true_seeds_below(t, lo - 1, b0, b, root);
            if seed(b0, b, root, lo - 1) {
                assert(s[lo - 1]);
            }
        }
    }
}

proof fn lemma_count_true_seeds_below(s: Seq<bool>, m: int, b0: Seq<BuildView>, b: Seq<BuildView>, root: Seq<char>)
    requires
        0 <= m == s.len(),
        forall|i: int| 0 <= i < m && #[trigger] seed(b0, b, root, i) ==> s[i],
    ensures
        count_true(s) >= seed_count(b0, b, root, m),
    decreases m,
{
    if m > 0 {
        let t = s.drop_last();
        assert forall|i: int| 0 <= i < m - 1 && #[trigger] seed(b0, b, root, i) implies t[i] by {
            assert(s[i]);
        }
        lemma_count_true_seeds_below(t, m - 1, b0, b, root);
        if seed(b0, b, root, m - 1) {
            assert(s[m - 1]);
        }
    }
}

/// Every old build that a new build waits for is marked, or waits in the visit queue.
spec fn seeds_pending(bs: Seq<Build>, n0: int, marks: Seq<bool>, vq: Seq<Id>) -> bool {
    forall|u: int, v: Id|
        n0 <= u < bs.len() && 0 <= v < n0 && #[trigger] bs[u]@.dependencies.contains(v) ==> marks[v as int] || exists|k: int|
            0 <= k < vq.len() && #[trigger] vq[k] == v
}

proof fn lemma_seeds_pending_frame(
    bs1: Seq<Build>,
    bs2: Seq<Build>,
    n0: int,
    m1: Seq<bool>,
    m2: Seq<bool>,
    q1: Seq<Id>,
    q2: Seq<Id>,
)
    requires
        seeds_pending(bs1, n0, m1, q1),
        0 <= n0 <= m1.len(),
        marks_grow(m1, m2),
        q1.len() <= q2.len(),
        forall|k: int| 0 <= k < q1.len() ==> #[trigger] q2[k] == q1[k],
        forall|u: int, v: Id|
            n0 <= u < bs2.len() && 0 <= v < n0 && #[trigger] bs2[u]@.dependencies.contains(v) ==> (u < bs1.len()
                && bs1[u]@.dependencies.contains(v)) || m2[v as int] || exists|k: int| 0 <= k < q2.len() && #[trigger] q2[k] == v,
    ensures
        seeds_pending(bs2, n0, m2, q2),
{
    assert forall|u: int, v: Id|
        n0 <= u < bs2.len() && 0 <= v < n0 && #[trigger] bs2[u]@.dependencies.contains(v) implies m2[v as int] || exists|k: int|
            0 <= k < q2.len() && #[trigger] q2[k] == v by {
        if !m2[v as int] && !(exists|k: int| 0 <= k < q2.len() && #[trigger] q2[k] == v) {
            assert(u < bs1.len() && bs1[u]@.dependencies.contains(v));
            if m1[v as int] {
                assert(m2[v as int]);
            } else {
                let k = choose|k: int| 0 <= k < q1.len() && #[trigger] q1[k] == v;
                assert(q2[k] == v);
            }
        }
    }
}

/// Among the old builds, only some below `p` are marked.
spec fn low_marks(marks: Seq<bool>, b0: Seq<BuildView>, p: Priority) -> bool {
    forall|x: int| 0 <= x < b0.len() && #[trigger] marks[x] ==> b0[x].priority < p
}

/// Every build marked by the visits (marked in `marks` but not in `before`) has each of
/// its dependencies marked, or queued for a visit at or after position `from`.
spec fn visits_expand(bs: Seq<Build>, before: Seq<bool>, marks: Seq<bool>, q: Seq<Id>, from: int) -> bool {
    forall|x: int, j: int|
        0 <= x < bs.len() && marks[x] && !before[x] && 0 <= j < bs[x].dependencies@.len() ==> marks[#[trigger] bs[x].dependencies@[j] as int]
            || exists|k: int| from <= k < q.len() && #[trigger] q[k] == bs[x].dependencies@[j]
}

proof fn lemma_count_true_update(s: Seq<bool>, i: int, b: bool)
    requires
        0 <= i < s.len(),
    ensures
        count_true(s.update(i, b)) == count_true(s) - (if s[i] {
            1int
        } else {
            0int
        }) + (if b {
            1int
        } else {
            0int
        }),
    decreases s.len(),
{
    if i < s.len() - 1 {
        assert(s.update(i, b).drop_last() =~= s.drop_last().update(i, b));
        lemma_count_true_update(s.drop_last(), i, b);
    } else {
        assert(s.update(i, b).drop_last() =~= s.drop_last());
    }
}

proof fn lemma_count_true_bounds(s: Seq<bool>, lo: int)
    requires
        0 <= lo <= s.len(),
    ensures
        count_true(s) <= s.len(),
        (forall|i: int| lo <= i < s.len() ==> s[i]) ==> count_true(s) >= s.len() - lo,
        (exists|i: int| 0 <= i < s.len() && s[i]) ==> count_true(s) >= 1,
    decreases s.len(),
{
    if s.len() > 0 {
        let t = s.drop_last();
        if lo < s.len() {
            lemma_count_true_bounds(t, lo);
        } else {
            lemma_count_true_bounds(t, lo - 1);
        }
        if exists|i: int| 0 <= i < s.len() && s[i] {
            let i = choose|i: int| 0 <= i < s.len() && s[i];
            if i < s.len() - 1 {
                assert(t[i]);
            }
        }
        if forall|i: int| lo <= i < s.len() ==> s[i] {
            if lo < s.len() {
                assert forall|i: int| lo <= i < t.len() implies t[i] by {
                    assert(s[i]);
                }
                assert(s[s.len() - 1]);
            }
        }
    }
}

/// `count` distinct indices into a sequence of length `m` are at most `m`.
proof fn lemma_distinct_indices(idx: Seq<int>, m: int)
    requires
        idx.no_duplicates(),
        forall|k: int| 0 <= k < idx.len() ==> 0 <= #[trigger] idx[k] < m,
        0 <= m,
    ensures
        idx.len() <= m,
{
    idx.unique_seq_to_set();
    vstd::set_lib::lemma_int_range(0, m);
    assert(idx.to_set().subset_of(vstd::set_lib::set_int_range(0, m))) by {
        assert forall|x: int| idx.to_set().contains(x) implies vstd::set_lib::set_int_range(
            0,
            m,
        ).contains(x) by {
            let k = choose|k: int| 0 <= k < idx.len() && idx[k] == x;
        }
    }
    vstd::set_lib::lemma_len_subset(idx.to_set(), vstd::set_lib::set_int_range(0, m));
}

fn position_string(v: &Vec<String>, s: &String) -> (r: Option<usize>)
    ensures
        match r {
            Some(i) => i < v@.len() && v@[i as int]@ == s@,
            None => !in_missing(v@, s@),
        },
{
    let mut i: usize = 0;
    while i < v.len()
        invariant
            i <= v@.len(),
            forall|j: int| 0 <= j < i ==> v@[j]@ != s@,
        decreases v@.len() - i,
    {
        if v[i] == *s {
            return Some(i);
        }
        i = i + 1;
    }
    None
}

fn insert_id(v: &mut Vec<Id>, x: Id)
    requires
        old(v)@.no_duplicates(),
    ensures
        final(v)@.no_duplicates(),
        forall|y: Id| final(v)@.contains(y) <==> (old(v)@.contains(y) || y == x),
        forall|k: int| 0 <= k < old(v)@.len() ==> final(v)@[k] == old(v)@[k],
        final(v)@.len() >= old(v)@.len(),
        forall|k: int| old(v)@.len() <= k < final(v)@.len() ==> final(v)@[k] == x,
{
    let mut i: usize = 0;
    while i < v.len()
        invariant
            i <= v@.len(),
            v@ === old(v)@,
            old(v)@.no_duplicates(),
            forall|j: int| 0 <= j < i ==> v@[j] != x,
        decreases v@.len() - i,
    {
        if v[i] == x {
            return;
        }
        i = i + 1;
    }
    let ghost before = v@;
    v.push(x);
    assert forall|y: Id| v@.contains(y) <==> (before.contains(y) || y == x) by {
        if v@.contains(y) {
            let k = choose|k: int| 0 <= k < v@.len() && v@[k] == y;
            if k < before.len() {
                assert(before[k] == y);
            }
        }
        if before.contains(y) {
            let k = choose|k: int| 0 <= k < before.len() && before[k] == y;
            assert(v@[k] == y);
        }
        if y == x {
            assert(v@[v@.len() - 1] == y);
        }
    }
}

fn insert_pair(v: &mut Vec<(Priority, Id)>, x: (Priority, Id))
    requires
        old(v)@.no_duplicates(),
    ensures
        final(v)@.no_duplicates(),
        forall|y: (Priority, Id)| final(v)@.contains(y) <==> (old(v)@.contains(y) || y == x),
{
    let mut i: usize = 0;
    while i < v.len()
        invariant
            i <= v@.len(),
            v@ === old(v)@,
            old(v)@.no_duplicates(),
            forall|j: int| 0 <= j < i ==> v@[j] != x,
        decreases v@.len() - i,
    {
        if v[i].0 == x.0 && v[i].1 == x.1 {
            return;
        }
        i = i + 1;
    }
    let ghost before = v@;
    v.push(x);
    assert forall|y: (Priority, Id)| v@.contains(y) <==> (before.contains(y) || y == x) by {
        if v@.contains(y) {
            let k = choose|k: int| 0 <= k < v@.len() && v@[k] == y;
            if k < before.len() {
                assert(before[k] == y);
            }
        }
        if before.contains(y) {
            let k = choose|k: int| 0 <= k < before.len() && before[k] == y;
            assert(v@[k] == y);
        }
        if y == x {
            assert(v@[v@.len() - 1] == y);
        }
    }
}

fn remove_pair(v: &mut Vec<(Priority, Id)>, x: (Priority, Id))
    requires
        old(v)@.no_duplicates(),
    ensures
        final(v)@.no_duplicates(),
        forall|y: (Priority, Id)| final(v)@.contains(y) <==> (old(v)@.contains(y) && y != x),
{
    let mut i: usize = 0;
    let mut found = false;
    while i < v.len() && !found
        invariant
            i <= v@.len(),
            v@ === old(v)@,
            old(v)@.no_duplicates(),
            forall|j: int| 0 <= j < i ==> v@[j] != x,
            found ==> i < v@.len() && v@[i as int] == x,
        decreases v@.len() - i, if found { 0int } else { 1int },
    {
        if v[i].0 == x.0 && v[i].1 == x.1 {
            found = true;
        } else {
            i = i + 1;
        }
    }
    let ghost before = v@;
    if found {
        v.remove(i);
        assert forall|y: (Priority, Id)| v@.contains(y) <==> (before.contains(y) && y != x) by {
            if v@.contains(y) {
                let k = choose|k: int| 0 <= k < v@.len() && v@[k] == y;
                if k < i {
                    assert(before[k] == y);
                    assert(k != i);
                } else {
                    assert(before[k + 1] == y);
                    assert(k + 1 != i);
                }
            }
            if before.contains(y) && y != x {
                let k = choose|k: int| 0 <= k < before.len() && before[k] == y;
                assert(k != i);
                if k < i {
                    assert(v@[k] == y);
                } else {
                    assert(v@[k - 1] == y);
                }
            }
        }
        assert(v@.no_duplicates()) by {
            assert forall|a: int, b: int| 0 <= a < b < v@.len() implies v@[a] != v@[b] by {
                let a2 = if a < i { a } else { a + 1 };
                let b2 = if b < i { b } else { b + 1 };
                assert(v@[a] == before[a2]);
                assert(v@[b] == before[b2]);
            }
        }
    } else {
        assert forall|y: (Priority, Id)| v@.contains(y) <==> (before.contains(y) && y != x) by {
            if v@.contains(y) {
                let k = choose|k: int| 0 <= k < v@.len() && v@[k] == y;
            }
        }
    }
}

impl Scheduler {
    /// The scheduler's invariant.
    pub closed spec fn wf(&self) -> bool {
        &&& builds_wf(self.builds@, self.count_roots)
        &&& self.queue.wf()
        &&& queue_ids_valid(self.queue@, self.builds@.len() as int)
        &&& no_inversion(self@.builds)
    }

    /// In a well-formed scheduler each derivation has at most one build.
    pub proof fn lemma_distinct_derivations(&self)
        requires
            self.wf(),
        ensures
            forall|i: int, j: int|
                0 <= i < j < self@.builds.len() ==> #[trigger] self@.builds[i].drv != #[trigger] self@.builds[j].drv,
    {
        assert forall|i: int, j: int| 0 <= i < j < self@.builds.len() implies #[trigger] self@.builds[i].drv
            != #[trigger] self@.builds[j].drv by {
            assert(self.builds@[i].drv@ != self.builds@[j].drv@);
        }
    }

    /// In a well-formed scheduler every identifier that a build or the queue holds names
    /// one of its builds, and every request identifier was given out.
    pub proof fn lemma_ids_in_range(&self)
        requires
            self.wf(),
        ensures
            forall|i: int, v: Id|
                0 <= i < self@.builds.len() && #[trigger] self@.builds[i].dependencies.contains(v)
                    ==> v < self@.builds.len(),
            forall|i: int, e: (Priority, Id)|
                0 <= i < self@.builds.len() && #[trigger] self@.builds[i].dependents.contains(e)
                    ==> 0 <= e.1 < self@.builds.len(),
            forall|i: int, r: (Priority, RootId)|
                0 <= i < self@.builds.len() && #[trigger] self@.builds[i].roots.contains(r)
                    ==> r.1 < self@.count_roots,
            forall|e: Entry| #[trigger] self@.queue.contains(e) ==> 0 <= e.1 < self@.builds.len(),
    {
        assert forall|i: int, v: Id|
            0 <= i < self@.builds.len() && #[trigger] self@.builds[i].dependencies.contains(v)
                implies v < self@.builds.len() by {
            assert(build_wf(self.builds@[i], self.builds@.len() as int, self.count_roots));
            let k = choose|k: int| 0 <= k < self.builds@[i].dependencies@.len() && self.builds@[i].dependencies@[k] == v;
        }
        assert forall|i: int, e: (Priority, Id)|
            0 <= i < self@.builds.len() && #[trigger] self@.builds[i].dependents.contains(e)
                implies 0 <= e.1 < self@.builds.len() by {
            assert(build_wf(self.builds@[i], self.builds@.len() as int, self.count_roots));
            let k = choose|k: int| 0 <= k < self.builds@[i].dependents@.len() && self.builds@[i].dependents@[k] == e;
        }
        assert forall|i: int, r: (Priority, RootId)|
            0 <= i < self@.builds.len() && #[trigger] self@.builds[i].roots.contains(r)
                implies r.1 < self@.count_roots by {
            assert(build_wf(self.builds@[i], self.builds@.len() as int, self.count_roots));
            let k = choose|k: int| 0 <= k < self.builds@[i].roots@.len() && self.builds@[i].roots@[k] == r;
        }
    }

    /// In a well-formed scheduler no build waits for a build of lower priority.
    pub proof fn lemma_no_inversion(&self)
        requires
            self.wf(),
        ensures
            no_inversion(self@.builds),
    {
    }

    /// A scheduler with no build, no request and an empty queue.
    pub fn new() -> (s: Self)
        ensures
            s.wf(),
            s@.count_roots == 0,
            s@.builds.len() == 0,
            s@.queue == Set::<Entry>::empty(),
    {
        let max_running: usize = 1;
        let s = Scheduler {
            count_roots: 0,
            builds: Vec::new(),
            queue: Queue::new(),
            roots: Vec::new(),
            max_running,
        };
        assert(s@.builds =~= Seq::<BuildView>::empty());
        s
    }
}


spec fn bview(bs: Seq<Build>) -> Seq<BuildView> {
    bs.map_values(|b: Build| b@)
}

spec fn lows(bs: Seq<Build>, p: Priority) -> Seq<bool> {
    bs.map_values(|b: Build| b.priority < p)
}

spec fn update_q_valid(q: Seq<(Priority, Id, Id)>, n: int) -> bool {
    forall|k: int| 0 <= k < q.len() ==> 0 <= (#[trigger] q[k]).1 < n && 0 <= q[k].2 < n
}

spec fn visit_q_valid(q: Seq<Id>, n: int) -> bool {
    forall|k: int| 0 <= k < q.len() ==> 0 <= #[trigger] q[k] < n
}

/// Marks only ever go from false to true.
spec fn marks_grow(before: Seq<bool>, after: Seq<bool>) -> bool {
    &&& before.len() <= after.len()
    &&& forall|i: int| 0 <= i < before.len() && #[trigger] before[i] ==> after[i]
}

/// The builds before index `b0.len()` keep their derivation, dependencies and requests,
/// and their priority is unchanged or raised to `p`.
spec fn old_kept(bs: Seq<Build>, b0: Seq<BuildView>, p: Priority) -> bool {
    &&& b0.len() <= bs.len()
    &&& forall|i: int|
        0 <= i < b0.len() ==> {
            &&& (#[trigger] bs[i])@.drv == b0[i].drv
            &&& bs[i]@.dependencies == b0[i].dependencies
            &&& bs[i]@.roots == b0[i].roots
            &&& raised(b0[i].priority, bs[i].priority, p)
        }
}

impl Scheduler {
    fn find_build(&self, d: &String) -> (r: Option<usize>)
        ensures
            match r {
                Some(i) => i < self.builds@.len() && self.builds@[i as int].drv@ == d@,
                None => forall|i: int| 0 <= i < self.builds@.len() ==> self.builds@[i].drv@ != d@,
            },
    {
        let mut i: usize = 0;
        while i < self.builds.len()
            invariant
                i <= self.builds@.len(),
                forall|j: int| 0 <= j < i ==> self.builds@[j].drv@ != d@,
            decreases self.builds@.len() - i,
        {
            if self.builds[i].drv == *d {
                return Some(i);
            }
            i = i + 1;
        }
        None
    }

    /// Build `u` is asked for at priority `p`. If that raises its priority, `mark` is
    /// marked as touched, and the links to its dependencies are queued for update with
    /// its former priority; otherwise `u` is queued for a visit.
    fn raise(
        &mut self,
        u: usize,
        mark: usize,
        p: Priority,
        update_q: &mut Vec<(Priority, Id, Id)>,
        visit_q: &mut Vec<Id>,
        marks: &mut Vec<bool>,
    )
        requires
            u < old(self).builds@.len(),
            mark < old(marks)@.len(),
            builds_wf(old(self).builds@, old(self).count_roots),
            update_q_valid(old(update_q)@, old(self).builds@.len() as int),
            visit_q_valid(old(visit_q)@, old(self).builds@.len() as int),
        ensures
            final(self).builds@.len() == old(self).builds@.len(),
            final(self).count_roots == old(self).count_roots,
            final(self).queue == old(self).queue,
            builds_wf(final(self).builds@, final(self).count_roots),
            forall|i: int|
                0 <= i < old(self).builds@.len() && i != u ==> #[trigger] final(self).builds@[i]
                    == old(self).builds@[i],
            final(self).builds@[u as int].drv == old(self).builds@[u as int].drv,
            final(self).builds@[u as int].dependencies == old(self).builds@[u as int].dependencies,
            final(self).builds@[u as int].dependents == old(self).builds@[u as int].dependents,
            final(self).builds@[u as int].roots == old(self).builds@[u as int].roots,
            final(self).builds@[u as int].priority == if old(self).builds@[u as int].priority < p {
                p
            } else {
                old(self).builds@[u as int].priority
            },
            final(marks)@ == if old(self).builds@[u as int].priority < p {
                old(marks)@.update(mark as int, true)
            } else {
                old(marks)@
            },
            update_q_valid(final(update_q)@, final(self).builds@.len() as int),
            visit_q_valid(final(visit_q)@, final(self).builds@.len() as int),
            old(visit_q)@.len() <= final(visit_q)@.len(),
            forall|k: int| 0 <= k < old(visit_q)@.len() ==> #[trigger] final(visit_q)@[k] == old(visit_q)@[k],
            !(old(self).builds@[u as int].priority < p) ==> final(visit_q)@ == old(visit_q)@.push(u as Id),
            !(old(self).builds@[u as int].priority < p) ==> final(update_q)@ == old(update_q)@,
            old(self).builds@[u as int].priority < p ==> raise_items(
                old(update_q)@,
                final(update_q)@,
                old(self).builds@[u as int].priority,
                u as Id,
                old(self).builds@[u as int].dependencies@,
            ),
            old(update_q)@.len() <= final(update_q)@.len(),
            forall|k: int| 0 <= k < old(update_q)@.len() ==> #[trigger] final(update_q)@[k] == old(update_q)@[k],
    {
        let n = self.builds.len();
        let old_priority = self.builds[u].priority;
        if old_priority < p {
            marks.set(mark, true);
            let mut k: usize = 0;
            while k < self.builds[u].dependencies.len()
                invariant
                    self.builds@ == old(self).builds@,
                    n == self.builds@.len(),
                    u < n,
                    k <= self.builds@[u as int].dependencies@.len(),
                    builds_wf(self.builds@, self.count_roots),
                    update_q_valid(update_q@, n as int),
                    old(update_q)@.len() <= update_q@.len(),
                    forall|j: int| 0 <= j < old(update_q)@.len() ==> #[trigger] update_q@[j] == old(update_q)@[j],
                    old_priority == old(self).builds@[u as int].priority,
                    update_q@.len() == old(update_q)@.len() + k,
                    forall|j: int| 0 <= j < k ==> #[trigger] update_q@[old(update_q)@.len() + j] == (
                        old_priority,
                        u as Id,
                        old(self).builds@[u as int].dependencies@[j],
                    ),
                decreases self.builds@[u as int].dependencies@.len() - k,
            {
                let w = self.builds[u].dependencies[k];
                assert(build_wf(self.builds@[u as int], n as int, self.count_roots));
                update_q.push((old_priority, u as Id, w));
                k = k + 1;
            }
            self.builds[u].priority = p;
        } else {
            visit_q.push(u as Id);
        }
        proof {
            let bs = self.builds@;
            assert forall|i: int| 0 <= i < bs.len() implies build_wf(#[trigger] bs[i], bs.len() as int, self.count_roots) by {
                assert(build_wf(old(self).builds@[i], bs.len() as int, self.count_roots));
            }
            assert forall|i: int, j: int| 0 <= i < j < bs.len() implies #[trigger] bs[i].drv@ != #[trigger] bs[j].drv@ by {
                assert(old(self).builds@[i].drv@ != old(self).builds@[j].drv@);
            }
        }
    }
}

/// The builds from `b0.len()` on were created by the request for `root` at priority
/// `p` (request number `root_id`): each is reached through new missing derivations (the
/// path is in `paths`), has priority `p`, and only the first answers the request; `idx`
/// tells where in `missing` each derivation stands.
spec fn new_builds_ok(
    bs: Seq<Build>,
    b0: Seq<BuildView>,
    rd: Seq<(String, Derivation)>,
    missing: Seq<String>,
    root: Seq<char>,
    p: Priority,
    root_id: RootId,
    paths: Seq<Seq<Seq<char>>>,
    idx: Seq<int>,
) -> bool {
    &&& b0.len() <= bs.len()
    &&& paths.len() == bs.len() - b0.len()
    &&& idx.len() == bs.len() - b0.len()
    &&& forall|i: int|
        b0.len() <= i < bs.len() ==> #[trigger] new_build_ok(bs, b0, rd, missing, root, p, root_id, paths, i)
    &&& forall|k: int|
        0 <= k < idx.len() ==> 0 <= #[trigger] idx[k] < missing.len() && missing[idx[k]]@ == bs[b0.len()
            + k].drv@
}

/// Build `i` was created by the request: see [`new_builds_ok`].
spec fn new_build_ok(
    bs: Seq<Build>,
    b0: Seq<BuildView>,
    rd: Seq<(String, Derivation)>,
    missing: Seq<String>,
    root: Seq<char>,
    p: Priority,
    root_id: RootId,
    paths: Seq<Seq<Seq<char>>>,
    i: int,
) -> bool {
    &&& new_path(rd, missing, b0, paths[i - b0.len()])
    &&& paths[i - b0.len()][0] == root
    &&& paths[i - b0.len()].last() == bs[i].drv@
    &&& bs[i].priority == p
    &&& bs[i]@.roots == if i == b0.len() {
        set![(p, root_id)]
    } else {
        Set::<(Priority, RootId)>::empty()
    }
}

/// Build `i` of `bs` has all its missing dependencies recorded: each is a build, and
/// its dependency set is exactly those builds.
spec fn settled(
    bs: Seq<Build>,
    i: int,
    rd: Seq<(String, Derivation)>,
    missing: Seq<String>,
) -> bool {
    &&& forall|e: Seq<char>|
        #[trigger] depends(rd, bs[i].drv@, e) && in_missing(missing, e) ==> known(bview(bs), e)
    &&& forall|v: Id|
        #[trigger] bs[i]@.dependencies.contains(v) <==> expected_dependencies(
            rd,
            missing,
            bview(bs),
            bs[i].drv@,
            v,
        )
}

/// The builds `lo..hi` are settled, and the builds from `hi` on have no dependency yet.
spec fn progress(
    bs: Seq<Build>,
    lo: int,
    hi: int,
    rd: Seq<(String, Derivation)>,
    missing: Seq<String>,
) -> bool {
    &&& forall|i: int| lo <= i < hi ==> #[trigger] settled(bs, i, rd, missing)
    &&& forall|i: int| hi <= i < bs.len() ==> (#[trigger] bs[i])@.dependencies == Set::<Id>::empty()
}

proof fn lemma_known_grows(bs: Seq<Build>, bs2: Seq<Build>, e: Seq<char>)
    requires
        bs.len() <= bs2.len(),
        forall|j: int| 0 <= j < bs.len() ==> (#[trigger] bs2[j]).drv@ == bs[j].drv@,
        known(bview(bs), e),
    ensures
        known(bview(bs2), e),
{
    let j = choose|j: int| 0 <= j < bview(bs).len() && #[trigger] bview(bs)[j].drv == e;
    assert(bview(bs2)[j].drv == e);
}

/// Settledness survives changes that keep every name and the build's own dependencies,
/// and appending builds for derivations that were not known.
proof fn lemma_settled_frame(
    bs: Seq<Build>,
    bs2: Seq<Build>,
    i: int,
    rd: Seq<(String, Derivation)>,
    missing: Seq<String>,
    count_roots: RootId,
)
    requires
        0 <= i < bs.len() <= bs2.len(),
        settled(bs, i, rd, missing),
        builds_wf(bs, count_roots),
        forall|j: int| 0 <= j < bs.len() ==> (#[trigger] bs2[j]).drv@ == bs[j].drv@,
        forall|j: int| bs.len() <= j < bs2.len() ==> !known(bview(bs), (#[trigger] bs2[j]).drv@),
        bs2[i].dependencies@ == bs[i].dependencies@,
    ensures
        settled(bs2, i, rd, missing),
{
    assert(bs2[i].drv@ == bs[i].drv@);
    assert forall|e: Seq<char>|
        #[trigger] depends(rd, bs2[i].drv@, e) && in_missing(missing, e) implies known(bview(bs2), e) by {
        lemma_known_grows(bs, bs2, e);
    }
    assert forall|v: Id|
        #[trigger] bs2[i]@.dependencies.contains(v) <==> expected_dependencies(
            rd,
            missing,
            bview(bs2),
            bs2[i].drv@,
            v,
        ) by {
        assert(bs2[i]@.dependencies.contains(v) == bs[i]@.dependencies.contains(v));
        if 0 <= v < bs.len() {
            assert(bview(bs2)[v as int].drv == bview(bs)[v as int].drv);
        } else if bs.len() <= v < bs2.len() {
            assert(build_wf(bs[i], bs.len() as int, count_roots));
            if bs[i]@.dependencies.contains(v) {
                let k = choose|k: int| 0 <= k < bs[i].dependencies@.len() && bs[i].dependencies@[k] == v;
                assert(false);
            }
            if expected_dependencies(rd, missing, bview(bs2), bs2[i].drv@, v) {
                assert(depends(rd, bs[i].drv@, bs2[v as int].drv@));
                assert(known(bview(bs), bs2[v as int].drv@));
                assert(false);
            }
        }
    }
}

/// The first `k` entries of `deps` are done for build `u`: the missing ones are builds,
/// and they are exactly the dependencies of `u` so far.
spec fn partial(
    bs: Seq<Build>,
    u: int,
    deps: Seq<(String, InputDrv)>,
    k: int,
    missing: Seq<String>,
) -> bool {
    &&& forall|kk: int|
        0 <= kk < k && in_missing(missing, (#[trigger] deps[kk]).0@) ==> known(bview(bs), deps[kk].0@)
    &&& forall|v: Id|
        #[trigger] bs[u]@.dependencies.contains(v) <==> (0 <= v < bs.len() && exists|kk: int|
            0 <= kk < k && in_missing(missing, (#[trigger] deps[kk]).0@) && bs[v as int].drv@
                == deps[kk].0@)
}

proof fn lemma_first_unique(rd: Seq<(String, Derivation)>, d: Seq<char>, i: int, j: int)
    requires
        0 <= i < rd.len(),
        0 <= j < rd.len(),
        rd[i].0@ == d,
        rd[j].0@ == d,
        forall|x: int| 0 <= x < i ==> rd[x].0@ != d,
        forall|x: int| 0 <= x < j ==> rd[x].0@ != d,
    ensures
        i == j,
{
    if i < j {
        assert(rd[i].0@ != d);
    }
    if j < i {
        assert(rd[j].0@ != d);
    }
}

/// Names and new-build facts survive a change of priorities, dependents and of the
/// dependencies of one new build.
proof fn lemma_new_builds_frame(
    bs: Seq<Build>,
    bs2: Seq<Build>,
    b0: Seq<BuildView>,
    rd: Seq<(String, Derivation)>,
    missing: Seq<String>,
    root: Seq<char>,
    p: Priority,
    root_id: RootId,
    paths: Seq<Seq<Seq<char>>>,
    idx: Seq<int>,
)
    requires
        new_builds_ok(bs, b0, rd, missing, root, p, root_id, paths, idx),
        bs2.len() == bs.len(),
        forall|j: int| 0 <= j < bs.len() ==> (#[trigger] bs2[j]).drv@ == bs[j].drv@,
        forall|j: int| 0 <= j < bs.len() ==> (#[trigger] bs2[j])@.roots == bs[j]@.roots,
        forall|j: int| b0.len() <= j < bs.len() ==> (#[trigger] bs2[j]).priority == bs[j].priority,
    ensures
        new_builds_ok(bs2, b0, rd, missing, root, p, root_id, paths, idx),
{
    assert forall|i: int| b0.len() <= i < bs2.len() implies #[trigger] new_build_ok(bs2, b0, rd, missing, root, p, root_id, paths, i) by {
        assert(new_build_ok(bs, b0, rd, missing, root, p, root_id, paths, i));
        assert(bs[i].drv@ == bs2[i].drv@);
    }
    assert forall|k: int| 0 <= k < idx.len() implies 0 <= #[trigger] idx[k] < missing.len()
        && missing[idx[k]]@ == bs2[b0.len() + k].drv@ by {
        assert(bs2[b0.len() + k].drv@ == bs[b0.len() + k].drv@);
    }
}

impl Scheduler {
    /// Records the missing dependencies of the new build `u`, whose derivation lists
    /// `deps`: a dependency with a build is asked for at priority `p`, one without gets
    /// a new build.
    #[verifier::rlimit(60)]
    #[verifier::spinoff_prover]
    fn add_dependencies(
        &mut self,
        u: usize,
        deps: &Vec<(String, InputDrv)>,
        missing: &Vec<String>,
        p: Priority,
        update_q: &mut Vec<(Priority, Id, Id)>,
        visit_q: &mut Vec<Id>,
        marks: &mut Vec<bool>,
        Ghost(rd): Ghost<Seq<(String, Derivation)>>,
        Ghost(j): Ghost<int>,
        Ghost(b0): Ghost<Seq<BuildView>>,
        Ghost(root): Ghost<Seq<char>>,
        Ghost(root_id): Ghost<RootId>,
        Ghost(paths): Ghost<Seq<Seq<Seq<char>>>>,
        Ghost(idx): Ghost<Seq<int>>,
    ) -> (ghosts: (Ghost<Seq<Seq<Seq<char>>>>, Ghost<Seq<int>>))
        requires
            builds_wf(old(self).builds@, old(self).count_roots),
            root_id < old(self).count_roots,
            old(marks)@.len() == old(self).builds@.len(),
            update_q_valid(old(update_q)@, old(self).builds@.len() as int),
            visit_q_valid(old(visit_q)@, old(self).builds@.len() as int),
            old_kept(old(self).builds@, b0, p),
            new_builds_ok(old(self).builds@, b0, rd, missing@, root, p, root_id, paths, idx),
            b0.len() <= u < old(self).builds@.len(),
            progress(old(self).builds@, b0.len() as int, u as int, rd, missing@),
            b0.len() + missing@.len() <= i64::MAX,
            0 <= j < rd.len(),
            rd[j].0@ == old(self).builds@[u as int].drv@,
            forall|x: int| 0 <= x < j ==> rd[x].0@ != old(self).builds@[u as int].drv@,
            rd[j].1.dependencies@ == deps@,
            promotion(old(self).builds@, b0, root, p, old(update_q)@, 0),
            linking(old(self).builds@, b0, p, old(update_q)@, 0),
            parented(old(self).builds@, b0, root, p),
            self_links(old(self).builds@, b0.len() as int, p),
            forall|a: int, b: int| 0 <= a < b < deps@.len() ==> #[trigger] deps@[a].0@ != #[trigger] deps@[b].0@,
            seeds_pending(old(self).builds@, b0.len() as int, old(marks)@, old(visit_q)@),
            low_marks(old(marks)@, b0, p),
        ensures
            parented(final(self).builds@, b0, root, p),
            self_links(final(self).builds@, b0.len() as int, p),
            seeds_pending(final(self).builds@, b0.len() as int, final(marks)@, final(visit_q)@),
            low_marks(final(marks)@, b0, p),
            promotion(final(self).builds@, b0, root, p, final(update_q)@, 0),
            linking(final(self).builds@, b0, p, final(update_q)@, 0),
            builds_wf(final(self).builds@, final(self).count_roots),
            final(self).count_roots == old(self).count_roots,
            final(self).queue == old(self).queue,
            final(marks)@.len() == final(self).builds@.len(),
            marks_grow(old(marks)@, final(marks)@),
            update_q_valid(final(update_q)@, final(self).builds@.len() as int),
            visit_q_valid(final(visit_q)@, final(self).builds@.len() as int),
            old(visit_q)@.len() <= final(visit_q)@.len(),
            forall|k: int| 0 <= k < old(visit_q)@.len() ==> #[trigger] final(visit_q)@[k] == old(visit_q)@[k],
            old_kept(final(self).builds@, b0, p),
            new_builds_ok(final(self).builds@, b0, rd, missing@, root, p, root_id, ghosts.0@, ghosts.1@),
            old(self).builds@.len() <= final(self).builds@.len(),
            forall|x: int| 0 <= x < old(self).builds@.len() ==> (#[trigger] final(self).builds@[x]).drv@ == old(self).builds@[x].drv@,
            progress(final(self).builds@, b0.len() as int, u + 1, rd, missing@),
            forall|x: int| 0 <= x < old(self).builds@.len() && x != u ==> (#[trigger] final(self).builds@[x]).dependencies == old(self).builds@[x].dependencies,
            forall|x: int| 0 <= x < old(self).builds@.len() ==> raised(old(self).builds@[x].priority, (#[trigger] final(self).builds@[x]).priority, p),
    {
        let ghost n0 = b0.len() as int;
        let ghost mut paths = paths;
        let ghost mut idx = idx;
        let ghost bs_in = self.builds@;
        let mut k: usize = 0;
        while k < deps.len()
            invariant
                builds_wf(self.builds@, self.count_roots),
                root_id < self.count_roots,
                self.count_roots == old(self).count_roots,
                self.queue == old(self).queue,
                marks@.len() == self.builds@.len(),
                marks_grow(old(marks)@, marks@),
                update_q_valid(update_q@, self.builds@.len() as int),
                visit_q_valid(visit_q@, self.builds@.len() as int),
                old(visit_q)@.len() <= visit_q@.len(),
                forall|x: int| 0 <= x < old(visit_q)@.len() ==> #[trigger] visit_q@[x] == old(visit_q)@[x],
                old_kept(self.builds@, b0, p),
                new_builds_ok(self.builds@, b0, rd, missing@, root, p, root_id, paths, idx),
                n0 == b0.len(),
                n0 <= u < bs_in.len() <= self.builds@.len(),
                forall|x: int| 0 <= x < bs_in.len() ==> (#[trigger] self.builds@[x]).drv@ == bs_in[x].drv@,
                forall|i: int| n0 <= i < u ==> #[trigger] settled(self.builds@, i, rd, missing@),
                forall|i: int| u < i < self.builds@.len() ==> (#[trigger] self.builds@[i])@.dependencies == Set::<Id>::empty(),
                partial(self.builds@, u as int, deps@, k as int, missing@),
                forall|x: int| 0 <= x < bs_in.len() && x != u ==> (#[trigger] self.builds@[x]).dependencies == bs_in[x].dependencies,
                forall|x: int| 0 <= x < bs_in.len() ==> raised(bs_in[x].priority, (#[trigger] self.builds@[x]).priority, p),
                n0 + missing@.len() <= i64::MAX,
                k <= deps@.len(),
                bs_in == old(self).builds@,
                0 <= j < rd.len(),
                rd[j].0@ == bs_in[u as int].drv@,
                forall|x: int| 0 <= x < j ==> rd[x].0@ != bs_in[u as int].drv@,
                rd[j].1.dependencies@ == deps@,
                promotion(self.builds@, b0, root, p, update_q@, 0),
                linking(self.builds@, b0, p, update_q@, 0),
                parented(self.builds@, b0, root, p),
                self_links(self.builds@, n0, p),
                forall|a: int, b: int| 0 <= a < b < deps@.len() ==> #[trigger] deps@[a].0@ != #[trigger] deps@[b].0@,
                seeds_pending(self.builds@, n0, marks@, visit_q@),
                low_marks(marks@, b0, p),
            decreases deps@.len() - k,
        {
            let ghost bs1 = self.builds@;
            let ghost q1 = update_q@;
            let ghost m1 = marks@;
            let ghost vq1 = visit_q@;
            let d = &deps[k].0;
            match position_string(missing, d) {
                None => {
                    assert(partial(self.builds@, u as int, deps@, k + 1, missing@)) by {
                        assert forall|v: Id| #[trigger] self.builds@[u as int]@.dependencies.contains(v) <==> (0 <= v < self.builds@.len() && exists|kk: int|
                            0 <= kk < k + 1 && in_missing(missing@, (#[trigger] deps@[kk]).0@) && self.builds@[v as int].drv@
                                == deps@[kk].0@) by {
                            if exists|kk: int| 0 <= kk < k + 1 && in_missing(missing@, (#[trigger] deps@[kk]).0@) && self.builds@[v as int].drv@ == deps@[kk].0@ {
                                let kk = choose|kk: int| 0 <= kk < k + 1 && in_missing(missing@, (#[trigger] deps@[kk]).0@) && self.builds@[v as int].drv@ == deps@[kk].0@;
                                assert(kk != k);
                            }
                        }
                    }
                },
                Some(pos) => {
                    match self.find_build(d) {
                        Some(v) => {
                            insert_pair(&mut self.builds[v].dependents, (p, v as Id));
                            let ghost bs2 = self.builds@;
                            proof {
                                assert forall|i: int| 0 <= i < bs2.len() implies build_wf(#[trigger] bs2[i], bs2.len() as int, self.count_roots) by {
                                    assert(build_wf(bs1[i], bs1.len() as int, self.count_roots));
                                    if i == v {
                                        assert forall|kk: int| 0 <= kk < bs2[i].dependents@.len() implies 0 <= (#[trigger] bs2[i].dependents@[kk]).1 < bs2.len() by {
                                            let x = bs2[i].dependents@[kk];
                                            assert(bs2[i].dependents@.contains(x));
                                            if x != (p, v as Id) {
                                                let k2 = choose|k2: int| 0 <= k2 < bs1[i].dependents@.len() && bs1[i].dependents@[k2] == x;
                                            }
                                        }
                                    }
                                }
                                assert forall|a: int, b: int| 0 <= a < b < bs2.len() implies #[trigger] bs2[a].drv@ != #[trigger] bs2[b].drv@ by {
                                    assert(bs1[a].drv@ != bs1[b].drv@);
                                }
                            }
                            self.raise(v, v, p, update_q, visit_q, marks);
                            let ghost bs3 = self.builds@;
                            insert_id(&mut self.builds[u].dependencies, v as Id);
                            proof {
                                let bs4 = self.builds@;
                                assert forall|x: int| 0 <= x < bs4.len() implies (#[trigger] bs4[x]).drv@ == bs1[x].drv@ by {
                                    assert(bs2[x].drv@ == bs1[x].drv@);
                                    assert(bs3[x].drv@ == bs2[x].drv@);
                                }
                                assert forall|i: int| 0 <= i < bs4.len() implies build_wf(#[trigger] bs4[i], bs4.len() as int, self.count_roots) by {
                                    assert(build_wf(bs3[i], bs3.len() as int, self.count_roots));
                                    if i == u {
                                        assert forall|kk: int| 0 <= kk < bs4[i].dependencies@.len() implies 0 <= #[trigger] bs4[i].dependencies@[kk] < bs4.len() by {
                                            let x = bs4[i].dependencies@[kk];
                                            assert(bs4[i].dependencies@.contains(x));
                                            if x != v {
                                                let k2 = choose|k2: int| 0 <= k2 < bs3[i].dependencies@.len() && bs3[i].dependencies@[k2] == x;
                                            }
                                        }
                                    }
                                }
                                assert(builds_wf(bs4, self.count_roots)) by {
                                    assert forall|a: int, b: int| 0 <= a < b < bs4.len() implies #[trigger] bs4[a].drv@ != #[trigger] bs4[b].drv@ by {
                                        assert(bs1[a].drv@ != bs1[b].drv@);
                                    }
                                }
                                assert(old_kept(bs4, b0, p)) by {
                                    assert forall|i: int| 0 <= i < b0.len() implies {
                                        &&& (#[trigger] bs4[i])@.drv == b0[i].drv
                                        &&& bs4[i]@.dependencies == b0[i].dependencies
                                        &&& bs4[i]@.roots == b0[i].roots
                                        &&& raised(b0[i].priority, bs4[i].priority, p)
                                    } by {
                                        assert(bs1[i]@.drv == b0[i].drv);
                                        assert(i != u);
                                        assert(bs4[i] == bs3[i]);
                                        assert(bs2[i].dependencies == bs1[i].dependencies);
                                        assert(bs2[i].roots == bs1[i].roots);
                                        assert(bs2[i].priority == bs1[i].priority);
                                        assert(bs4[i]@.dependencies == bs1[i]@.dependencies);
                                        assert(bs4[i]@.roots == bs1[i]@.roots);
                                    }
                                }
                                assert forall|jj: int| 0 <= jj < bs4.len() implies (#[trigger] bs4[jj])@.roots == bs1[jj]@.roots by {
                                    assert(bs2[jj].roots == bs1[jj].roots);
                                    assert(bs3[jj].roots == bs2[jj].roots);
                                }
                                assert forall|jj: int| n0 <= jj < bs4.len() implies (#[trigger] bs4[jj]).priority == bs1[jj].priority by {
                                    assert(bs2[jj].priority == bs1[jj].priority);
                                    if jj == v {
                                        assert(new_build_ok(bs1, b0, rd, missing@, root, p, root_id, paths, jj));
                                    }
                                    assert(bs3[jj].priority == bs2[jj].priority);
                                }
                                lemma_new_builds_frame(bs1, bs4, b0, rd, missing@, root, p, root_id, paths, idx);
                                assert forall|x: int| 0 <= x < bs_in.len() implies raised(bs_in[x].priority, (#[trigger] bs4[x]).priority, p) by {
                                    assert(raised(bs_in[x].priority, bs1[x].priority, p));
                                    assert(bs2[x].priority == bs1[x].priority);
                                    assert(bs4[x].priority == bs3[x].priority);
                                }
                                assert forall|i: int| n0 <= i < u implies #[trigger] settled(bs4, i, rd, missing@) by {
                                    assert(settled(bs1, i, rd, missing@));
                                    assert(bs2[i].dependencies == bs1[i].dependencies);
                                    assert(bs3[i].dependencies == bs2[i].dependencies);
                                    lemma_settled_frame(bs1, bs4, i, rd, missing@, self.count_roots);
                                }
                                assert forall|i: int| u < i < bs4.len() implies (#[trigger] bs4[i])@.dependencies == Set::<Id>::empty() by {
                                    assert(bs2[i].dependencies == bs1[i].dependencies);
                                    assert(bs3[i].dependencies == bs2[i].dependencies);
                                    assert(bs4[i]@.dependencies == bs1[i]@.dependencies);
                                }
                                assert(partial(bs4, u as int, deps@, k + 1, missing@)) by {
                                    assert forall|kk: int| 0 <= kk < k + 1 && in_missing(missing@, (#[trigger] deps@[kk]).0@) implies known(bview(bs4), deps@[kk].0@) by {
                                        if kk < k {
                                            lemma_known_grows(bs1, bs4, deps@[kk].0@);
                                        } else {
                                            assert(bview(bs4)[v as int].drv == d@);
                                        }
                                    }
                                    assert(bs3[u as int].dependencies == bs1[u as int].dependencies);
                                    assert forall|w: Id| #[trigger] bs4[u as int]@.dependencies.contains(w) <==> (0 <= w < bs4.len() && exists|kk: int|
                                        0 <= kk < k + 1 && in_missing(missing@, (#[trigger] deps@[kk]).0@) && bs4[w as int].drv@ == deps@[kk].0@) by {
                                        assert(bs4[u as int]@.dependencies.contains(w) == (bs1[u as int]@.dependencies.contains(w) || w == v));
                                        if w == v {
                                            assert(in_missing(missing@, deps@[k as int].0@));
                                        }
                                        if 0 <= w < bs4.len() && exists|kk: int| 0 <= kk < k + 1 && in_missing(missing@, (#[trigger] deps@[kk]).0@) && bs4[w as int].drv@ == deps@[kk].0@ {
                                            let kk = choose|kk: int| 0 <= kk < k + 1 && in_missing(missing@, (#[trigger] deps@[kk]).0@) && bs4[w as int].drv@ == deps@[kk].0@;
                                            if kk == k && w != v {
                                                assert(bs4[w as int].drv@ == bs4[v as int].drv@);
                                                if w < v {
                                                    assert(bs4[w as int].drv@ != bs4[v as int].drv@);
                                                } else {
                                                    assert(bs4[v as int].drv@ != bs4[w as int].drv@);
                                                }
                                            }
                                        }
                                    }
                                }
                                assert(promotion(bs4, b0, root, p, update_q@, 0)) by {
                                    assert(bs2[v as int].dependencies == bs1[v as int].dependencies);
                                    assert(bs2[v as int].priority == bs1[v as int].priority);
                                    if v >= n0 {
                                        assert(new_build_ok(bs1, b0, rd, missing@, root, p, root_id, paths, v as int));
                                    }
                                    assert forall|x: int| 0 <= x < bs1.len() && x != u implies #[trigger] bs4[x]@.dependencies == bs1[x]@.dependencies by {
                                        assert(bs4[x] == bs3[x]);
                                        assert(bs3[x].dependencies == bs2[x].dependencies);
                                        assert(bs2[x].dependencies == bs1[x].dependencies);
                                    }
                                    assert forall|x: int| 0 <= x < b0.len() && x != v implies #[trigger] bs4[x].priority == bs1[x].priority by {
                                        assert(bs4[x] == bs3[x]);
                                        assert(bs3[x].priority == bs2[x].priority);
                                        assert(bs2[x].priority == bs1[x].priority);
                                    }
                                    if v < n0 {
                                        assert(bs4[v as int] == bs3[v as int]);
                                    }
                                    assert forall|y: Id| #[trigger] bs4[u as int]@.dependencies.contains(y) <==> (bs1[u as int]@.dependencies.contains(y) || y == v as Id) by {
                                        assert(bs3[u as int].dependencies == bs1[u as int].dependencies);
                                    }
                                    lemma_seeds_add(b0, bs1, bs4, root, u as int, v as int);
                                    lemma_promotion_ask(bs1, bs4, b0, root, p, q1, update_q@, 0, v as int);
                                }
                                assert(linking(bs4, b0, p, update_q@, 0)) by {
                                    assert(bs2[v as int].dependencies == bs1[v as int].dependencies);
                                    assert(bs2[v as int].priority == bs1[v as int].priority);
                                    if v >= n0 {
                                        assert(new_build_ok(bs1, b0, rd, missing@, root, p, root_id, paths, v as int));
                                    }
                                    assert(bs3[v as int].dependents == bs2[v as int].dependents);
                                    assert(bs4[v as int].dependents == bs3[v as int].dependents);
                                    assert forall|y: (Priority, Id)| #[trigger] bs4[v as int]@.dependents.contains(y) <==> (bs1[v as int]@.dependents.contains(y) || y == (p, v as Id)) by {}
                                    assert forall|x: int| 0 <= x < bs1.len() && x != v implies #[trigger] bs4[x]@.dependents == bs1[x]@.dependents by {
                                        assert(bs4[x].dependents == bs3[x].dependents);
                                        assert(bs3[x] == bs2[x]);
                                        assert(bs2[x] == bs1[x]);
                                    }
                                    assert forall|x: int| 0 <= x < bs1.len() && x != u implies #[trigger] bs4[x]@.dependencies == bs1[x]@.dependencies by {
                                        assert(bs4[x] == bs3[x]);
                                        assert(bs3[x].dependencies == bs2[x].dependencies);
                                        assert(bs2[x].dependencies == bs1[x].dependencies);
                                    }
                                    assert forall|x: int| 0 <= x < b0.len() && x != v implies #[trigger] bs4[x].priority == bs1[x].priority by {
                                        assert(bs4[x] == bs3[x]);
                                        assert(bs3[x].priority == bs2[x].priority);
                                        assert(bs2[x].priority == bs1[x].priority);
                                    }
                                    if v < n0 {
                                        assert(bs4[v as int] == bs3[v as int]);
                                    }
                                    assert forall|y: Id| #[trigger] bs4[u as int]@.dependencies.contains(y) <==> (bs1[u as int]@.dependencies.contains(y) || y == v as Id) by {
                                        assert(bs3[u as int].dependencies == bs1[u as int].dependencies);
                                    }
                                    lemma_linking_ask_known(bs1, bs4, b0, p, q1, update_q@, u as int, v as int);
                                }
                                assert(parented(bs4, b0, root, p)) by {
                                    assert forall|x: int, y: Id| n0 <= x < bs1.len() && #[trigger] bs1[x]@.dependencies.contains(y) implies bs4[x]@.dependencies.contains(y) by {
                                        if x != v {
                                            assert(bs2[x] == bs1[x]);
                                            assert(bs3[x] == bs2[x]);
                                        }
                                        assert(bs3[x].dependencies == bs1[x].dependencies);
                                        if x != u {
                                            assert(bs4[x] == bs3[x]);
                                        }
                                    }
                                    assert forall|x: int, y: (Priority, Id)| n0 <= x < bs1.len() && #[trigger] bs1[x]@.dependents.contains(y) implies bs4[x]@.dependents.contains(y) by {
                                        if x != v {
                                            assert(bs2[x] == bs1[x]);
                                            assert(bs3[x] == bs2[x]);
                                        }
                                        assert(bs3[x].dependents == bs2[x].dependents);
                                        assert(bs4[x].dependents == bs3[x].dependents);
                                    }
                                    lemma_parented_grow(bs1, bs4, b0, root, p);
                                }
                                assert(self_links(bs4, n0, p)) by {
                                    assert forall|x: int, y: Id| n0 <= x < bs1.len() && #[trigger] bs1[x]@.dependencies.contains(y) implies bs4[x]@.dependencies.contains(y) by {
                                        if x != v {
                                            assert(bs2[x] == bs1[x]);
                                            assert(bs3[x] == bs2[x]);
                                        }
                                        assert(bs3[x].dependencies == bs1[x].dependencies);
                                        if x != u {
                                            assert(bs4[x] == bs3[x]);
                                        }
                                    }
                                    assert(bs3[u as int].dependencies == bs1[u as int].dependencies);
                                    assert(bs4[u as int]@.dependencies.contains(v as Id));
                                    if v >= n0 {
                                        let b4 = bview(bs4);
                                        assert(self_link_ok(n0, b4, p, v as int)) by {
                                            assert(b4[u as int] == bs4[u as int]@);
                                            if v > n0 || known(b0, root) {
                                                assert(has_parent(bs1, n0, v as int, p));
                                                let w = choose|w: int| n0 <= w < bs1.len() && #[trigger] bs1[w]@.dependencies.contains(v as Id)
                                                    && bs1[v as int]@.dependents.contains((p, w as Id));
                                                assert(w != u) by {
                                                    if w == u {
                                                        assert(bs1[v as int].drv@ == deps@[k as int].0@);
                                                        let kk = choose|kk: int| 0 <= kk < k && in_missing(missing@, (#[trigger] deps@[kk]).0@)
                                                            && bs1[v as int].drv@ == deps@[kk].0@;
                                                        assert(deps@[kk].0@ != deps@[k as int].0@);
                                                    }
                                                }
                                                assert(bs4[w]@.dependencies.contains(v as Id));
                                                assert(b4[w] == bs4[w]@);
                                                if w < u {
                                                    assert(b4[w].dependencies.contains(v as Id) && b4[u as int].dependencies.contains(v as Id));
                                                } else {
                                                    assert(b4[u as int].dependencies.contains(v as Id) && b4[w].dependencies.contains(v as Id));
                                                }
                                            } else {
                                                assert(b4[u as int].dependencies.contains(v as Id));
                                            }
                                        }
                                    }
                                    assert forall|x: int|
                                        n0 <= x < bs4.len() && #[trigger] bs4[x]@.dependents.contains((p, x as Id)) implies (x < bs1.len()
                                            && bs1[x]@.dependents.contains((p, x as Id))) || self_link_ok(n0, bview(bs4), p, x) by {
                                        if x != v {
                                            assert(bs4[x].dependents == bs3[x].dependents);
                                            assert(bs3[x] == bs2[x]);
                                            assert(bs2[x] == bs1[x]);
                                        }
                                    }
                                    lemma_self_links_grow(bs1, bs4, n0, p);
                                }
                                assert(seeds_pending(bs4, n0, marks@, visit_q@)) by {
                                    assert(marks_grow(m1, marks@));
                                    assert forall|y: Id| #[trigger] bs4[u as int]@.dependencies.contains(y) <==> (bs1[u as int]@.dependencies.contains(y) || y == v as Id) by {
                                        assert(bs3[u as int].dependencies == bs1[u as int].dependencies);
                                    }
                                    assert forall|uu: int, vv: Id|
                                        n0 <= uu < bs4.len() && 0 <= vv < n0 && #[trigger] bs4[uu]@.dependencies.contains(vv) implies (uu < bs1.len()
                                            && bs1[uu]@.dependencies.contains(vv)) || marks@[vv as int] || exists|kk: int|
                                            0 <= kk < visit_q@.len() && #[trigger] visit_q@[kk] == vv by {
                                        if uu != u {
                                            assert(bs4[uu] == bs3[uu]);
                                            if uu != v {
                                                assert(bs3[uu] == bs2[uu]);
                                                assert(bs2[uu] == bs1[uu]);
                                            }
                                            assert(bs3[uu].dependencies == bs1[uu].dependencies);
                                        } else if !bs1[u as int]@.dependencies.contains(vv) {
                                            assert(vv == v as Id);
                                            if bs2[v as int].priority < p {
                                                assert(marks@ == m1.update(v as int, true));
                                            } else {
                                                assert(visit_q@ == vq1.push(v as Id));
                                                assert(visit_q@[vq1.len() as int] == vv);
                                            }
                                        }
                                    }
                                    lemma_seeds_pending_frame(bs1, bs4, n0, m1, marks@, vq1, visit_q@);
                                }
                                assert(low_marks(marks@, b0, p)) by {
                                    if bs2[v as int].priority < p {
                                        assert(marks@ == m1.update(v as int, true));
                                        if v < n0 {
                                            assert(bs2[v as int].priority == bs1[v as int].priority);
                                            assert(raised(b0[v as int].priority, bs1[v as int].priority, p));
                                        }
                                        assert forall|x: int| 0 <= x < b0.len() && #[trigger] marks@[x] implies b0[x].priority < p by {
                                            if x != v {
                                                assert(m1[x]);
                                            }
                                        }
                                    } else {
                                        assert(marks@ == m1);
                                    }
                                }
                            }
                        },
                        None => {
                            let v = self.builds.len();
                            let nb = Build {
                                drv: d.clone(),
                                priority: p,
                                dependencies: Vec::new(),
                                dependents: vec![(p, u as Id)],
                                roots: Vec::new(),
                            };
                            self.builds.push(nb);
                            marks.push(false);
                            let ghost bs2 = self.builds@;
                            proof {
                                let new_path_v = paths[u - n0].push(d@);
                                let paths2 = paths.push(new_path_v);
                                let idx2 = idx.push(pos as int);
                                assert(!known(bview(bs1), d@)) by {
                                    if known(bview(bs1), d@) {
                                        let i = choose|i: int| 0 <= i < bview(bs1).len() && #[trigger] bview(bs1)[i].drv == d@;
                                        assert(bs1[i].drv@ == d@);
                                    }
                                }
                                assert(!known(b0, d@)) by {
                                    if known(b0, d@) {
                                        let i = choose|i: int| 0 <= i < b0.len() && #[trigger] b0[i].drv == d@;
                                        assert(bs1[i]@.drv == b0[i].drv);
                                    }
                                }
                                assert forall|a: int, b: int| 0 <= a < b < bs2.len() implies #[trigger] bs2[a].drv@ != #[trigger] bs2[b].drv@ by {
                                    if b < bs1.len() {
                                        assert(bs1[a].drv@ != bs1[b].drv@);
                                    }
                                }
                                assert(idx2.no_duplicates()) by {
                                    assert forall|a: int, b: int| 0 <= a < b < idx2.len() implies idx2[a] != idx2[b] by {
                                        assert(bs2[n0 + a].drv@ != bs2[n0 + b].drv@);
                                        if a < idx.len() {
                                            assert(missing@[idx2[a]]@ == bs2[n0 + a].drv@);
                                        }
                                        if b < idx.len() {
                                            assert(missing@[idx2[b]]@ == bs2[n0 + b].drv@);
                                        }
                                    }
                                }
                                lemma_distinct_indices(idx2, missing@.len() as int);
                                assert(depends(rd, bs1[u as int].drv@, d@)) by {
                                    assert(rd[j].1.dependencies@[k as int].0@ == d@);
                                }
                                assert(new_path(rd, missing@, b0, new_path_v)) by {
                                    let pu = paths[u - n0];
                                    assert(new_build_ok(bs1, b0, rd, missing@, root, p, root_id, paths, u as int));
                                    assert(new_path(rd, missing@, b0, pu));
                                    assert forall|i: int| 0 <= i < new_path_v.len() implies in_missing(missing@, #[trigger] new_path_v[i]) && !known(b0, new_path_v[i]) by {
                                        if i < pu.len() {
                                            assert(new_path_v[i] == pu[i]);
                                        } else {
                                            assert(missing@[pos as int]@ == d@);
                                        }
                                    }
                                    assert forall|i: int| 0 <= i < new_path_v.len() - 1 implies #[trigger] depends(rd, new_path_v[i], new_path_v[i + 1]) by {
                                        if i < pu.len() - 1 {
                                            assert(new_path_v[i] == pu[i]);
                                            assert(new_path_v[i + 1] == pu[i + 1]);
                                            assert(depends(rd, pu[i], pu[i + 1]));
                                        } else {
                                            assert(new_path_v[i] == pu.last());
                                        }
                                    }
                                }
                                assert(new_builds_ok(bs2, b0, rd, missing@, root, p, root_id, paths2, idx2)) by {
                                    assert forall|i: int| n0 <= i < bs2.len() implies #[trigger] new_build_ok(bs2, b0, rd, missing@, root, p, root_id, paths2, i) by {
                                        if i == v {
                                            assert(bs2[i]@.roots =~= Set::<(Priority, RootId)>::empty());
                                            assert(paths2[i - n0] == new_path_v);
                                            assert(new_build_ok(bs1, b0, rd, missing@, root, p, root_id, paths, u as int));
                                            assert(new_path_v[0] == paths[u - n0][0]);
                                            assert(i != n0) by {
                                                assert(n0 <= u < v);
                                            }
                                        } else {
                                            assert(bs2[i] == bs1[i]);
                                            assert(paths2[i - n0] == paths[i - n0]);
                                            assert(new_build_ok(bs1, b0, rd, missing@, root, p, root_id, paths, i));
                                        }
                                    }
                                    assert forall|kk: int| 0 <= kk < idx2.len() implies 0 <= #[trigger] idx2[kk] < missing@.len() && missing@[idx2[kk]]@ == bs2[n0 + kk].drv@ by {
                                        if kk < idx.len() {
                                            assert(bs2[n0 + kk] == bs1[n0 + kk]);
                                        }
                                    }
                                }
                                paths = paths2;
                                idx = idx2;
                            }
                            proof {
                                assert forall|i: int| 0 <= i < bs2.len() implies build_wf(#[trigger] bs2[i], bs2.len() as int, self.count_roots) by {
                                    if i < bs1.len() {
                                        assert(build_wf(bs1[i], bs1.len() as int, self.count_roots));
                                    } else {
                                        assert(bs2[i].dependents@ == seq![(p, u as Id)]);
                                    }
                                }
                            }
                            insert_id(&mut self.builds[u].dependencies, v as Id);
                            proof {
                                let bs4 = self.builds@;
                                assert forall|x: int| 0 <= x < bs2.len() implies (#[trigger] bs4[x]).drv@ == bs2[x].drv@ by {}
                                assert forall|i: int| 0 <= i < bs4.len() implies build_wf(#[trigger] bs4[i], bs4.len() as int, self.count_roots) by {
                                    assert(build_wf(bs2[i], bs2.len() as int, self.count_roots));
                                    if i == u {
                                        assert forall|kk: int| 0 <= kk < bs4[i].dependencies@.len() implies 0 <= #[trigger] bs4[i].dependencies@[kk] < bs4.len() by {
                                            let x = bs4[i].dependencies@[kk];
                                            assert(bs4[i].dependencies@.contains(x));
                                            if x != v {
                                                let k2 = choose|k2: int| 0 <= k2 < bs2[i].dependencies@.len() && bs2[i].dependencies@[k2] == x;
                                            }
                                        }
                                    }
                                }
                                assert(builds_wf(bs4, self.count_roots)) by {
                                    assert forall|a: int, b: int| 0 <= a < b < bs4.len() implies #[trigger] bs4[a].drv@ != #[trigger] bs4[b].drv@ by {
                                        assert(bs2[a].drv@ != bs2[b].drv@);
                                    }
                                }
                                assert(old_kept(bs4, b0, p)) by {
                                    assert forall|i: int| 0 <= i < b0.len() implies {
                                        &&& (#[trigger] bs4[i])@.drv == b0[i].drv
                                        &&& bs4[i]@.dependencies == b0[i].dependencies
                                        &&& bs4[i]@.roots == b0[i].roots
                                        &&& raised(b0[i].priority, bs4[i].priority, p)
                                    } by {
                                        assert(bs4[i] == bs1[i]);
                                    }
                                }
                                assert forall|jj: int| 0 <= jj < bs4.len() implies (#[trigger] bs4[jj])@.roots == bs2[jj]@.roots by {}
                                assert forall|jj: int| n0 <= jj < bs4.len() implies (#[trigger] bs4[jj]).priority == bs2[jj].priority by {}
                                lemma_new_builds_frame(bs2, bs4, b0, rd, missing@, root, p, root_id, paths, idx);
                                assert forall|x: int| 0 <= x < bs_in.len() implies raised(bs_in[x].priority, (#[trigger] bs4[x]).priority, p) by {
                                    assert(raised(bs_in[x].priority, bs1[x].priority, p));
                                    assert(bs4[x].priority == bs1[x].priority);
                                }
                                assert forall|jj: int| bs1.len() <= jj < bs4.len() implies !known(bview(bs1), (#[trigger] bs4[jj]).drv@) by {}
                                assert forall|i: int| n0 <= i < u implies #[trigger] settled(bs4, i, rd, missing@) by {
                                    assert(settled(bs1, i, rd, missing@));
                                    lemma_settled_frame(bs1, bs4, i, rd, missing@, self.count_roots);
                                }
                                assert forall|i: int| u < i < bs4.len() implies (#[trigger] bs4[i])@.dependencies == Set::<Id>::empty() by {
                                    if i < bs1.len() {
                                        assert(bs4[i] == bs1[i]);
                                    } else {
                                        assert(bs4[i]@.dependencies =~= Set::<Id>::empty());
                                    }
                                }
                                assert(partial(bs4, u as int, deps@, k + 1, missing@)) by {
                                    assert forall|kk: int| 0 <= kk < k + 1 && in_missing(missing@, (#[trigger] deps@[kk]).0@) implies known(bview(bs4), deps@[kk].0@) by {
                                        if kk < k {
                                            lemma_known_grows(bs1, bs4, deps@[kk].0@);
                                        } else {
                                            assert(bview(bs4)[v as int].drv == d@);
                                        }
                                    }
                                    assert forall|w: Id| #[trigger] bs4[u as int]@.dependencies.contains(w) <==> (0 <= w < bs4.len() && exists|kk: int|
                                        0 <= kk < k + 1 && in_missing(missing@, (#[trigger] deps@[kk]).0@) && bs4[w as int].drv@ == deps@[kk].0@) by {
                                        assert(bs4[u as int]@.dependencies.contains(w) == (bs1[u as int]@.dependencies.contains(w) || w == v));
                                        if w == v {
                                            assert(in_missing(missing@, deps@[k as int].0@));
                                        }
                                        if 0 <= w < bs4.len() && exists|kk: int| 0 <= kk < k + 1 && in_missing(missing@, (#[trigger] deps@[kk]).0@) && bs4[w as int].drv@ == deps@[kk].0@ {
                                            let kk = choose|kk: int| 0 <= kk < k + 1 && in_missing(missing@, (#[trigger] deps@[kk]).0@) && bs4[w as int].drv@ == deps@[kk].0@;
                                            if kk == k && w != v {
                                                assert(w < bs1.len());
                                                assert(bs1[w as int].drv@ == d@);
                                            }
                                            if kk < k && w == v {
                                                assert(known(bview(bs1), deps@[kk].0@));
                                                let i2 = choose|i2: int| 0 <= i2 < bview(bs1).len() && #[trigger] bview(bs1)[i2].drv == deps@[kk].0@;
                                                assert(bs1[i2].drv@ == d@);
                                            }
                                        }
                                    }
                                }
                                assert(promotion(bs4, b0, root, p, update_q@, 0)) by {
                                    assert forall|x: int| 0 <= x < bs1.len() && x != u implies #[trigger] bs4[x]@.dependencies == bs1[x]@.dependencies by {
                                        assert(bs4[x] == bs1[x]);
                                    }
                                    assert forall|x: int| bs1.len() <= x < bs4.len() implies #[trigger] bs4[x]@.dependencies == Set::<Id>::empty() by {
                                        assert(bs4[x]@.dependencies =~= Set::<Id>::empty());
                                    }
                                    assert forall|y: Id| #[trigger] bs4[u as int]@.dependencies.contains(y) <==> (bs1[u as int]@.dependencies.contains(y) || y == v as Id) by {}
                                    assert forall|x: int| 0 <= x < b0.len() implies #[trigger] bs4[x].priority == bs1[x].priority by {
                                        assert(bs4[x] == bs1[x]);
                                    }
                                    lemma_seeds_add(b0, bs1, bs4, root, u as int, v as int);
                                    lemma_promotion_frame(bs1, bs4, b0, root, p, update_q@, 0);
                                }
                                assert(linking(bs4, b0, p, update_q@, 0)) by {
                                    assert forall|x: int| 0 <= x < bs1.len() implies #[trigger] bs4[x]@.dependents == bs1[x]@.dependents by {
                                        assert(bs4[x].dependents == bs1[x].dependents);
                                    }
                                    assert forall|x: int| 0 <= x < bs1.len() implies #[trigger] bs4[x].priority == bs1[x].priority by {
                                        assert(bs4[x].priority == bs1[x].priority);
                                    }
                                    assert forall|x: int| 0 <= x < bs1.len() && x != u implies #[trigger] bs4[x]@.dependencies == bs1[x]@.dependencies by {
                                        assert(bs4[x] == bs1[x]);
                                    }
                                    assert forall|y: Id| #[trigger] bs4[u as int]@.dependencies.contains(y) <==> (bs1[u as int]@.dependencies.contains(y) || y == bs1.len() as Id) by {}
                                    assert(bs4[bs1.len() as int]@.dependencies =~= Set::<Id>::empty());
                                    assert forall|y: (Priority, Id)| #[trigger] bs4[bs1.len() as int]@.dependents.contains(y) <==> y == (p, u as Id) by {
                                        assert(bs4[bs1.len() as int].dependents@ == seq![(p, u as Id)]);
                                        if y == (p, u as Id) {
                                            assert(bs4[bs1.len() as int].dependents@[0] == y);
                                        }
                                    }
                                    lemma_linking_ask_new(bs1, bs4, b0, p, update_q@, u as int);
                                }
                                assert(parented(bs4, b0, root, p)) by {
                                    assert forall|x: int, y: Id| n0 <= x < bs1.len() && #[trigger] bs1[x]@.dependencies.contains(y) implies bs4[x]@.dependencies.contains(y) by {
                                        if x != u {
                                            assert(bs4[x] == bs1[x]);
                                        }
                                    }
                                    assert forall|x: int, y: (Priority, Id)| n0 <= x < bs1.len() && #[trigger] bs1[x]@.dependents.contains(y) implies bs4[x]@.dependents.contains(y) by {
                                        assert(bs4[x].dependents == bs1[x].dependents);
                                    }
                                    let vn = bs1.len() as int;
                                    assert(has_parent(bs4, n0, vn, p)) by {
                                        assert(bs4[u as int]@.dependencies.contains(vn as Id));
                                        assert(bs4[vn].dependents@ == seq![(p, u as Id)]);
                                        assert(bs4[vn].dependents@[0] == (p, u as Id));
                                        assert(bs4[vn]@.dependents.contains((p, u as Id)));
                                    }
                                    lemma_parented_grow(bs1, bs4, b0, root, p);
                                }
                                assert(self_links(bs4, n0, p)) by {
                                    assert forall|x: int, y: Id| n0 <= x < bs1.len() && #[trigger] bs1[x]@.dependencies.contains(y) implies bs4[x]@.dependencies.contains(y) by {
                                        if x != u {
                                            assert(bs4[x] == bs1[x]);
                                        }
                                    }
                                    assert forall|x: int|
                                        n0 <= x < bs4.len() && #[trigger] bs4[x]@.dependents.contains((p, x as Id)) implies (x < bs1.len()
                                            && bs1[x]@.dependents.contains((p, x as Id))) || self_link_ok(n0, bview(bs4), p, x) by {
                                        if x < bs1.len() {
                                            assert(bs4[x].dependents == bs1[x].dependents);
                                        } else {
                                            assert(bs4[x].dependents@ == seq![(p, u as Id)]);
                                            let k2 = choose|k2: int| 0 <= k2 < bs4[x].dependents@.len() && bs4[x].dependents@[k2] == (p, x as Id);
                                            assert(bs4[x].dependents@[0] == (p, u as Id));
                                        }
                                    }
                                    lemma_self_links_grow(bs1, bs4, n0, p);
                                }
                                assert(seeds_pending(bs4, n0, marks@, visit_q@)) by {
                                    assert(marks_grow(m1, marks@));
                                    assert forall|uu: int, vv: Id|
                                        n0 <= uu < bs4.len() && 0 <= vv < n0 && #[trigger] bs4[uu]@.dependencies.contains(vv) implies (uu < bs1.len()
                                            && bs1[uu]@.dependencies.contains(vv)) || marks@[vv as int] || exists|kk: int|
                                            0 <= kk < visit_q@.len() && #[trigger] visit_q@[kk] == vv by {
                                        if uu < bs1.len() && uu != u {
                                            assert(bs4[uu] == bs1[uu]);
                                        } else if uu == u {
                                            assert(bs4[u as int]@.dependencies.contains(vv) == (bs1[u as int]@.dependencies.contains(vv) || vv == v));
                                        } else {
                                            assert(bs4[uu]@.dependencies =~= Set::<Id>::empty());
                                        }
                                    }
                                    lemma_seeds_pending_frame(bs1, bs4, n0, m1, marks@, vq1, visit_q@);
                                }
                                assert(low_marks(marks@, b0, p)) by {
                                    assert forall|x: int| 0 <= x < b0.len() && #[trigger] marks@[x] implies b0[x].priority < p by {
                                        assert(marks@[x] == m1[x]);
                                    }
                                }
                            }
                        },
                    }
                },
            }
            k = k + 1;
        }
        proof {
            let bs = self.builds@;
            assert(settled(bs, u as int, rd, missing@)) by {
                assert forall|e: Seq<char>| #[trigger] depends(rd, bs[u as int].drv@, e) && in_missing(missing@, e) implies known(bview(bs), e) by {
                    let (i, kk) = choose|i: int, kk: int|
                        0 <= i < rd.len() && #[trigger] rd[i].0@ == bs[u as int].drv@ && (forall|x: int|
                            0 <= x < i ==> rd[x].0@ != bs[u as int].drv@) && 0 <= kk < rd[i].1.dependencies@.len()
                            && #[trigger] rd[i].1.dependencies@[kk].0@ == e;
                    lemma_first_unique(rd, bs[u as int].drv@, i, j);
                    assert(deps@[kk].0@ == e);
                }
                assert forall|v: Id| #[trigger] bs[u as int]@.dependencies.contains(v) <==> expected_dependencies(rd, missing@, bview(bs), bs[u as int].drv@, v) by {
                    if bs[u as int]@.dependencies.contains(v) {
                        let kk = choose|kk: int| 0 <= kk < deps@.len() && in_missing(missing@, (#[trigger] deps@[kk]).0@) && bs[v as int].drv@ == deps@[kk].0@;
                        assert(rd[j].1.dependencies@[kk].0@ == bs[v as int].drv@);
                        assert(depends(rd, bs[u as int].drv@, bs[v as int].drv@));
                    }
                    if expected_dependencies(rd, missing@, bview(bs), bs[u as int].drv@, v) {
                        let e = bs[v as int].drv@;
                        let (i, kk) = choose|i: int, kk: int|
                            0 <= i < rd.len() && #[trigger] rd[i].0@ == bs[u as int].drv@ && (forall|x: int|
                                0 <= x < i ==> rd[x].0@ != bs[u as int].drv@) && 0 <= kk < rd[i].1.dependencies@.len()
                                && #[trigger] rd[i].1.dependencies@[kk].0@ == e;
                        lemma_first_unique(rd, bs[u as int].drv@, i, j);
                        assert(deps@[kk].0@ == e);
                    }
                }
            }
        }
        (Ghost(paths), Ghost(idx))
    }
}

proof fn lemma_new_count_bound(
    bs: Seq<Build>,
    b0: Seq<BuildView>,
    rd: Seq<(String, Derivation)>,
    missing: Seq<String>,
    root: Seq<char>,
    p: Priority,
    root_id: RootId,
    paths: Seq<Seq<Seq<char>>>,
    idx: Seq<int>,
    count_roots: RootId,
)
    requires
        new_builds_ok(bs, b0, rd, missing, root, p, root_id, paths, idx),
        builds_wf(bs, count_roots),
    ensures
        bs.len() <= b0.len() + missing.len(),
{
    assert(idx.no_duplicates()) by {
        assert forall|a: int, b: int| 0 <= a < b < idx.len() implies idx[a] != idx[b] by {
            assert(bs[b0.len() + a].drv@ != bs[b0.len() + b].drv@);
            assert(missing[idx[a]]@ == bs[b0.len() + a].drv@);
            assert(missing[idx[b]]@ == bs[b0.len() + b].drv@);
        }
    }
    lemma_distinct_indices(idx, missing.len() as int);
}

proof fn lemma_deps_empty(b: Build)
    ensures
        (b.dependencies@.len() == 0) == (b@.dependencies == Set::<Id>::empty()),
{
    if b.dependencies@.len() == 0 {
        assert(b@.dependencies =~= Set::<Id>::empty());
    } else {
        assert(b@.dependencies.contains(b.dependencies@[0]));
    }
}

/// Along a path of new missing derivations from a known root, every derivation is known
/// once every new build has its dependencies settled.
proof fn lemma_reached_known(
    bs: Seq<Build>,
    b0: Seq<BuildView>,
    rd: Seq<(String, Derivation)>,
    missing: Seq<String>,
    path: Seq<Seq<char>>,
    i: int,
)
    requires
        new_path(rd, missing, b0, path),
        0 <= i < path.len(),
        known(bview(bs), path[0]),
        b0.len() <= bs.len(),
        forall|x: int| 0 <= x < b0.len() ==> (#[trigger] bs[x]).drv@ == b0[x].drv,
        forall|x: int| b0.len() <= x < bs.len() ==> #[trigger] settled(bs, x, rd, missing),
    ensures
        known(bview(bs), path[i]),
    decreases i,
{
    if i > 0 {
        lemma_reached_known(bs, b0, rd, missing, path, i - 1);
        let x = choose|x: int| 0 <= x < bview(bs).len() && #[trigger] bview(bs)[x].drv == path[i - 1];
        assert(in_missing(missing, path[i - 1]) && !known(b0, path[i - 1]));
        if x < b0.len() {
            assert(b0[x].drv == path[i - 1]);
        }
        assert(settled(bs, x, rd, missing));
        assert(depends(rd, path[i - 1], path[(i - 1) + 1]));
        assert(in_missing(missing, path[i]));
        assert(bs[x].drv@ == path[i - 1]);
    }
}

proof fn lemma_lows_update(bs: Seq<Build>, bs2: Seq<Build>, v: int, p: Priority)
    requires
        0 <= v < bs.len(),
        bs2.len() == bs.len(),
        forall|x: int| 0 <= x < bs.len() && x != v ==> (#[trigger] bs2[x]).priority == bs[x].priority,
    ensures
        lows(bs2, p) == lows(bs, p).update(v, bs2[v].priority < p),
{
    assert(lows(bs2, p) =~= lows(bs, p).update(v, bs2[v].priority < p));
}

impl Scheduler {
    /// Settles the dependencies of every new build, in order of creation, and queues the
    /// new builds that wait for nothing.
    #[verifier::rlimit(40)]
    #[verifier::spinoff_prover]
    fn insert_phase(
        &mut self,
        first_new: usize,
        rd: &RecursiveDerivation,
        missing: &Vec<String>,
        p: Priority,
        update_q: &mut Vec<(Priority, Id, Id)>,
        visit_q: &mut Vec<Id>,
        marks: &mut Vec<bool>,
        Ghost(b0): Ghost<Seq<BuildView>>,
        Ghost(root): Ghost<Seq<char>>,
        Ghost(root_id): Ghost<RootId>,
        Ghost(paths): Ghost<Seq<Seq<Seq<char>>>>,
        Ghost(idx): Ghost<Seq<int>>,
    ) -> (ghosts: (Ghost<Seq<Seq<Seq<char>>>>, Ghost<Seq<int>>))
        requires
            first_new == b0.len(),
            builds_wf(old(self).builds@, old(self).count_roots),
            root_id < old(self).count_roots,
            old(marks)@.len() == old(self).builds@.len(),
            update_q_valid(old(update_q)@, old(self).builds@.len() as int),
            visit_q_valid(old(visit_q)@, old(self).builds@.len() as int),
            old_kept(old(self).builds@, b0, p),
            new_builds_ok(old(self).builds@, b0, rd.0@, missing@, root, p, root_id, paths, idx),
            progress(old(self).builds@, b0.len() as int, b0.len() as int, rd.0@, missing@),
            b0.len() + missing@.len() <= i64::MAX,
            forall|d: Seq<char>| #[trigger] newly_reached(rd.0@, missing@, b0, root, d) ==> has_derivation(rd.0@, d),
            old(self).queue.wf(),
            queue_ids_valid(old(self).queue@, old(self).builds@.len() as int),
            promotion(old(self).builds@, b0, root, p, old(update_q)@, 0),
            linking(old(self).builds@, b0, p, old(update_q)@, 0),
            parented(old(self).builds@, b0, root, p),
            self_links(old(self).builds@, b0.len() as int, p),
            distinct_dependencies(rd.0@),
            seeds_pending(old(self).builds@, b0.len() as int, old(marks)@, old(visit_q)@),
            low_marks(old(marks)@, b0, p),
        ensures
            parented(final(self).builds@, b0, root, p),
            self_links(final(self).builds@, b0.len() as int, p),
            seeds_pending(final(self).builds@, b0.len() as int, final(marks)@, final(visit_q)@),
            low_marks(final(marks)@, b0, p),
            promotion(final(self).builds@, b0, root, p, final(update_q)@, 0),
            linking(final(self).builds@, b0, p, final(update_q)@, 0),
            builds_wf(final(self).builds@, final(self).count_roots),
            final(self).count_roots == old(self).count_roots,
            final(marks)@.len() == final(self).builds@.len(),
            marks_grow(old(marks)@, final(marks)@),
            update_q_valid(final(update_q)@, final(self).builds@.len() as int),
            visit_q_valid(final(visit_q)@, final(self).builds@.len() as int),
            old(visit_q)@.len() <= final(visit_q)@.len(),
            forall|k: int| 0 <= k < old(visit_q)@.len() ==> #[trigger] final(visit_q)@[k] == old(visit_q)@[k],
            old_kept(final(self).builds@, b0, p),
            new_builds_ok(final(self).builds@, b0, rd.0@, missing@, root, p, root_id, ghosts.0@, ghosts.1@),
            progress(final(self).builds@, b0.len() as int, final(self).builds@.len() as int, rd.0@, missing@),
            forall|i: int| b0.len() <= i < final(self).builds@.len() ==> #[trigger] final(marks)@[i],
            final(self).queue.wf(),
            final(self).queue@ == old(self).queue@.union(ready_entries(bview(final(self).builds@), b0.len() as int, final(self).builds@.len() as int, p)),
            queue_ids_valid(final(self).queue@, final(self).builds@.len() as int),
            old(self).builds@.len() <= final(self).builds@.len(),
            forall|x: int| 0 <= x < old(self).builds@.len() ==> (#[trigger] final(self).builds@[x]).drv@ == old(self).builds@[x].drv@,
            forall|x: int| 0 <= x < old(self).builds@.len() ==> raised(old(self).builds@[x].priority, (#[trigger] final(self).builds@[x]).priority, p),
    {
        let ghost n0 = b0.len() as int;
        let ghost mut paths = paths;
        let ghost mut idx = idx;
        let ghost bs_in = self.builds@;
        let mut cur: usize = first_new;
        proof {
            lemma_new_count_bound(self.builds@, b0, rd.0@, missing@, root, p, root_id, paths, idx, self.count_roots);
            assert(ready_entries(bview(self.builds@), n0, n0, p) =~= Set::<Entry>::empty());
            assert(self.queue@.union(ready_entries(bview(self.builds@), n0, n0, p)) =~= self.queue@);
        }
        while cur < self.builds.len()
            invariant
                builds_wf(self.builds@, self.count_roots),
                root_id < self.count_roots,
                self.count_roots == old(self).count_roots,
                marks@.len() == self.builds@.len(),
                marks_grow(old(marks)@, marks@),
                update_q_valid(update_q@, self.builds@.len() as int),
                visit_q_valid(visit_q@, self.builds@.len() as int),
                old(visit_q)@.len() <= visit_q@.len(),
                forall|k: int| 0 <= k < old(visit_q)@.len() ==> #[trigger] visit_q@[k] == old(visit_q)@[k],
                old_kept(self.builds@, b0, p),
                new_builds_ok(self.builds@, b0, rd.0@, missing@, root, p, root_id, paths, idx),
                progress(self.builds@, n0, cur as int, rd.0@, missing@),
                n0 == b0.len(),
                n0 <= cur <= self.builds@.len() <= n0 + missing@.len(),
                n0 + missing@.len() <= i64::MAX,
                forall|i: int| n0 <= i < cur ==> #[trigger] marks@[i],
                forall|d: Seq<char>| #[trigger] newly_reached(rd.0@, missing@, b0, root, d) ==> has_derivation(rd.0@, d),
                self.queue.wf(),
                self.queue@ == old(self).queue@.union(ready_entries(bview(self.builds@), n0, cur as int, p)),
                queue_ids_valid(old(self).queue@, bs_in.len() as int),
                bs_in == old(self).builds@,
                bs_in.len() <= self.builds@.len(),
                forall|x: int| 0 <= x < bs_in.len() ==> (#[trigger] self.builds@[x]).drv@ == bs_in[x].drv@,
                forall|x: int| 0 <= x < bs_in.len() ==> raised(bs_in[x].priority, (#[trigger] self.builds@[x]).priority, p),
                promotion(self.builds@, b0, root, p, update_q@, 0),
                linking(self.builds@, b0, p, update_q@, 0),
                parented(self.builds@, b0, root, p),
                self_links(self.builds@, n0, p),
                distinct_dependencies(rd.0@),
                seeds_pending(self.builds@, n0, marks@, visit_q@),
                low_marks(marks@, b0, p),
            decreases n0 + missing@.len() - cur,
        {
            let ghost bs1 = self.builds@;
            let ghost marks1 = marks@;
            marks.set(cur, true);
            proof {
                assert(marks_grow(marks1, marks@)) by {
                    assert forall|i: int| 0 <= i < marks1.len() && #[trigger] marks1[i] implies marks@[i] by {
                        assert(marks1.update(cur as int, true)[i]);
                    }
                }
                lemma_seeds_pending_frame(bs1, bs1, n0, marks1, marks@, visit_q@, visit_q@);
                assert forall|x: int| 0 <= x < b0.len() && #[trigger] marks@[x] implies b0[x].priority < p by {
                    assert(marks@[x] == marks1[x]);
                }
                assert(new_build_ok(bs1, b0, rd.0@, missing@, root, p, root_id, paths, cur as int));
                let path = paths[cur - n0];
                assert(newly_reached(rd.0@, missing@, b0, root, bs1[cur as int].drv@));
            }
            match find_derivation(&rd.0, &self.builds[cur].drv) {
                None => {
                    proof {
                        assert(has_derivation(rd.0@, bs1[cur as int].drv@));
                    }
                },
                Some(j) => {
                    let (Ghost(paths2), Ghost(idx2)) = self.add_dependencies(
                        cur,
                        &rd.0[j].1.dependencies,
                        missing,
                        p,
                        update_q,
                        visit_q,
                        marks,
                        Ghost(rd.0@),
                        Ghost(j as int),
                        Ghost(b0),
                        Ghost(root),
                        Ghost(root_id),
                        Ghost(paths),
                        Ghost(idx),
                    );
                    proof {
                        paths = paths2;
                        idx = idx2;
                        lemma_new_count_bound(self.builds@, b0, rd.0@, missing@, root, p, root_id, paths, idx, self.count_roots);
                    }
                    let ghost bs2 = self.builds@;
                    let ghost q1 = self.queue@;
                    let ready = self.builds[cur].dependencies.len() == 0;
                    proof {
                        lemma_deps_empty(bs2[cur as int]);
                    }
                    if ready {
                        self.queue.push(cur as Id, p);
                    }
                    proof {
                        let bs = self.builds@;
                        assert(ready_entries(bview(bs), n0, cur + 1, p) =~= ready_entries(bview(bs1), n0, cur as int, p).union(
                            if ready { set![(p, cur as Id)] } else { Set::<Entry>::empty() })) by {
                            assert forall|e: Entry| #[trigger] ready_entries(bview(bs), n0, cur + 1, p).contains(e) == ready_entries(bview(bs1), n0, cur as int, p).union(
                                if ready { set![(p, cur as Id)] } else { Set::<Entry>::empty() }).contains(e) by {
                                if n0 <= e.1 < cur {
                                    assert(bs[e.1 as int].dependencies == bs1[e.1 as int].dependencies);
                                    assert(bview(bs)[e.1 as int].dependencies == bview(bs1)[e.1 as int].dependencies);
                                }
                                if e.1 == cur {
                                    assert(bview(bs)[e.1 as int] == bs2[cur as int]@);
                                }
                            }
                        }
                        assert(self.queue@ =~= old(self).queue@.union(ready_entries(bview(bs), n0, cur + 1, p)));
                        assert forall|e: Entry| #[trigger] self.queue@.contains(e) implies 0 <= e.1 < bs.len() by {
                            if old(self).queue@.contains(e) {
                                assert(queue_ids_valid(old(self).queue@, bs_in.len() as int));
                            }
                        }
                        assert forall|i: int| n0 <= i < cur + 1 implies #[trigger] marks@[i] by {
                            if i < cur {
                                assert(marks1[i]);
                            }
                            assert(marks1.update(cur as int, true)[i]);
                        }
                        assert(marks_grow(old(marks)@, marks@)) by {
                            assert forall|i: int| 0 <= i < old(marks)@.len() && #[trigger] old(marks)@[i] implies marks@[i] by {
                                assert(marks1[i]);
                                assert(marks1.update(cur as int, true)[i]);
                            }
                        }
                        assert forall|x: int| 0 <= x < bs_in.len() implies (#[trigger] bs[x]).drv@ == bs_in[x].drv@ by {
                            assert(bs1[x].drv@ == bs_in[x].drv@);
                        }
                        assert forall|x: int| 0 <= x < bs_in.len() implies raised(bs_in[x].priority, (#[trigger] bs[x]).priority, p) by {
                            assert(raised(bs_in[x].priority, bs1[x].priority, p));
                            assert(raised(bs1[x].priority, bs2[x].priority, p));
                        }
                    }
                },
            }
            cur = cur + 1;
        }
        (Ghost(paths), Ghost(idx))
    }
}

proof fn lemma_count_true_take(s: Seq<bool>, i: int)
    requires
        0 <= i < s.len(),
    ensures
        count_true(s.take(i + 1)) == count_true(s.take(i)) + (if s[i] {
            1int
        } else {
            0int
        }),
{
    assert(s.take(i + 1).drop_last() =~= s.take(i));
}

/// One step of the update phase keeps the promotion invariant: the link at `uh` leads
/// to `v`, which is raised (with its links queued) when it is below `p`.
#[verifier::rlimit(30)]
#[verifier::spinoff_prover]
proof fn lemma_update_step(
    bs0: Seq<Build>,
    bs1: Seq<Build>,
    bs3: Seq<Build>,
    b0: Seq<BuildView>,
    root: Seq<char>,
    p: Priority,
    q1: Seq<(Priority, Id, Id)>,
    q3: Seq<(Priority, Id, Id)>,
    uh: int,
    v: int,
)
    requires
        promotion(bs1, b0, root, p, q1, uh),
        old_kept(bs0, b0, p),
        bs1.len() == bs0.len() == bs3.len(),
        forall|i: int| 0 <= i < bs0.len() ==> {
            &&& (#[trigger] bs1[i]).dependencies == bs0[i].dependencies
            &&& raised(bs0[i].priority, bs1[i].priority, p)
        },
        0 <= uh < q1.len(),
        q1[uh].2 as int == v,
        0 <= v < bs1.len(),
        forall|x: int| 0 <= x < bs1.len() && x != v ==> #[trigger] bs3[x] == bs1[x],
        bs3[v].dependencies == bs1[v].dependencies,
        bs3[v].priority == if bs1[v].priority < p { p } else { bs1[v].priority },
        if bs1[v].priority < p {
            raise_items(q1, q3, bs1[v].priority, v as Id, bs1[v].dependencies@)
        } else {
            q3 == q1
        },
    ensures
        promotion(bs3, b0, root, p, q3, uh + 1),
{
    let n0 = b0.len() as int;
    let e = q1[uh];
    assert(prom_items(bs1, b0, root, p, q1));
    assert(0 <= e.1 < n0 && promoted(b0, bview(bs1), root, p, e.1 as int) && b0[e.1 as int].dependencies.contains(e.2));
    assert(0 <= v < n0);
    assert forall|x: int| 0 <= x < n0 implies #[trigger] bs1[x]@.dependencies == b0[x].dependencies
        && raised(b0[x].priority, bs1[x].priority, p) by {
        assert(bs0[x]@.dependencies == b0[x].dependencies);
        assert(raised(b0[x].priority, bs0[x].priority, p));
        assert(bs1[x].dependencies == bs0[x].dependencies);
        assert(raised(bs0[x].priority, bs1[x].priority, p));
    }
    assert forall|x: int| 0 <= x < n0 && x != v implies #[trigger] bs3[x].priority == bs1[x].priority by {
        assert(bs3[x] == bs1[x]);
    }
    assert forall|x: int| 0 <= x < bs1.len() implies #[trigger] bs3[x].dependencies == bs1[x].dependencies by {
        if x != v {
            assert(bs3[x] == bs1[x]);
        }
    }
    lemma_seeds_same(b0, bs1, bs3, root);
    assert(follow_step(bs1, bs3, b0, root, p, q1, q3, uh, e.1 as int, v));
    lemma_follow_sound_items(bs1, bs3, b0, root, p, q1, q3, uh, e.1 as int, v);
    lemma_follow_seeds_links(bs1, bs3, b0, root, p, q1, q3, uh, e.1 as int, v);
}

/// One step of the update phase keeps the links invariant.
#[verifier::rlimit(30)]
#[verifier::spinoff_prover]
proof fn lemma_update_links(
    bs0: Seq<Build>,
    bs1: Seq<Build>,
    bs3: Seq<Build>,
    b0: Seq<BuildView>,
    root: Seq<char>,
    p: Priority,
    q1: Seq<(Priority, Id, Id)>,
    q3: Seq<(Priority, Id, Id)>,
    uh: int,
    v: int,
)
    requires
        promotion(bs1, b0, root, p, q1, uh),
        linking(bs1, b0, p, q1, uh),
        old_kept(bs0, b0, p),
        bs1.len() == bs0.len() == bs3.len(),
        forall|i: int| 0 <= i < bs0.len() ==> {
            &&& (#[trigger] bs1[i]).dependencies == bs0[i].dependencies
            &&& raised(bs0[i].priority, bs1[i].priority, p)
        },
        0 <= uh < q1.len(),
        q1[uh].2 as int == v,
        0 <= v < bs1.len(),
        forall|x: int| 0 <= x < bs1.len() && x != v ==> #[trigger] bs3[x] == bs1[x],
        bs3[v].dependencies == bs1[v].dependencies,
        bs3[v].priority == if bs1[v].priority < p { p } else { bs1[v].priority },
        if bs1[v].priority < p {
            raise_items(q1, q3, bs1[v].priority, v as Id, bs1[v].dependencies@)
        } else {
            q3 == q1
        },
        forall|y: (Priority, Id)| #[trigger] bs3[v]@.dependents.contains(y) <==> (
            (bs1[v]@.dependents.contains(y) && y != (q1[uh].0, q1[uh].1)) || y == (p, q1[uh].1)),
    ensures
        linking(bs3, b0, p, q3, uh + 1),
{
    let n0 = b0.len() as int;
    assert(prom_items(bs1, b0, root, p, q1));
    assert(0 <= q1[uh].1 < n0 && b0[q1[uh].1 as int].dependencies.contains(q1[uh].2));
    assert(0 <= v < n0);
    assert forall|x: int| 0 <= x < n0 implies #[trigger] bs1[x]@.dependencies == b0[x].dependencies
        && raised(b0[x].priority, bs1[x].priority, p) by {
        assert(bs0[x]@.dependencies == b0[x].dependencies);
        assert(raised(b0[x].priority, bs0[x].priority, p));
        assert(bs1[x].dependencies == bs0[x].dependencies);
        assert(raised(bs0[x].priority, bs1[x].priority, p));
    }
    assert forall|x: int| 0 <= x < n0 && x != v implies #[trigger] bs3[x].priority == bs1[x].priority by {
        assert(bs3[x] == bs1[x]);
    }
    assert forall|x: int| 0 <= x < bs1.len() implies #[trigger] bs3[x]@.dependencies == bs1[x]@.dependencies by {
        if x != v {
            assert(bs3[x] == bs1[x]);
        }
    }
    assert forall|x: int| 0 <= x < bs1.len() && x != v implies #[trigger] bs3[x]@.dependents == bs1[x]@.dependents by {
        assert(bs3[x] == bs1[x]);
    }
    lemma_linking_follow(bs1, bs3, b0, root, p, q1, q3, uh, v);
}

impl Scheduler {
    /// Moves the links queued for update to priority `p`, raising the builds they reach.
    #[verifier::rlimit(60)]
    #[verifier::spinoff_prover]
    fn update_phase(
        &mut self,
        p: Priority,
        update_q: &mut Vec<(Priority, Id, Id)>,
        visit_q: &mut Vec<Id>,
        marks: &mut Vec<bool>,
        Ghost(b0): Ghost<Seq<BuildView>>,
        Ghost(root): Ghost<Seq<char>>,
    )
        requires
            builds_wf(old(self).builds@, old(self).count_roots),
            old(marks)@.len() == old(self).builds@.len(),
            update_q_valid(old(update_q)@, old(self).builds@.len() as int),
            visit_q_valid(old(visit_q)@, old(self).builds@.len() as int),
            old_kept(old(self).builds@, b0, p),
            promotion(old(self).builds@, b0, root, p, old(update_q)@, 0),
            linking(old(self).builds@, b0, p, old(update_q)@, 0),
            low_marks(old(marks)@, b0, p),
        ensures
            low_marks(final(marks)@, b0, p),
            promotion(final(self).builds@, b0, root, p, final(update_q)@, final(update_q)@.len() as int),
            linking(final(self).builds@, b0, p, final(update_q)@, final(update_q)@.len() as int),
            forall|i: int| b0.len() <= i < final(self).builds@.len() ==> #[trigger] final(self).builds@[i].dependents
                == old(self).builds@[i].dependents,
            builds_wf(final(self).builds@, final(self).count_roots),
            final(self).count_roots == old(self).count_roots,
            final(self).queue == old(self).queue,
            final(self).builds@.len() == old(self).builds@.len(),
            forall|i: int|
                0 <= i < old(self).builds@.len() ==> {
                    &&& (#[trigger] final(self).builds@[i]).drv == old(self).builds@[i].drv
                    &&& final(self).builds@[i].dependencies == old(self).builds@[i].dependencies
                    &&& final(self).builds@[i].roots == old(self).builds@[i].roots
                    &&& raised(old(self).builds@[i].priority, final(self).builds@[i].priority, p)
                },
            final(marks)@.len() == final(self).builds@.len(),
            marks_grow(old(marks)@, final(marks)@),
            visit_q_valid(final(visit_q)@, final(self).builds@.len() as int),
            old(visit_q)@.len() <= final(visit_q)@.len(),
            forall|k: int| 0 <= k < old(visit_q)@.len() ==> #[trigger] final(visit_q)@[k] == old(visit_q)@[k],
    {
        let mut uh: usize = 0;
        while uh < update_q.len()
            invariant
                builds_wf(self.builds@, self.count_roots),
                self.count_roots == old(self).count_roots,
                self.queue == old(self).queue,
                self.builds@.len() == old(self).builds@.len(),
                forall|i: int|
                    0 <= i < old(self).builds@.len() ==> {
                        &&& (#[trigger] self.builds@[i]).drv == old(self).builds@[i].drv
                        &&& self.builds@[i].dependencies == old(self).builds@[i].dependencies
                        &&& self.builds@[i].roots == old(self).builds@[i].roots
                        &&& raised(old(self).builds@[i].priority, self.builds@[i].priority, p)
                    },
                marks@.len() == self.builds@.len(),
                marks_grow(old(marks)@, marks@),
                update_q_valid(update_q@, self.builds@.len() as int),
                visit_q_valid(visit_q@, self.builds@.len() as int),
                old(visit_q)@.len() <= visit_q@.len(),
                forall|k: int| 0 <= k < old(visit_q)@.len() ==> #[trigger] visit_q@[k] == old(visit_q)@[k],
                uh <= update_q@.len(),
                old_kept(old(self).builds@, b0, p),
                promotion(self.builds@, b0, root, p, update_q@, uh as int),
                linking(self.builds@, b0, p, update_q@, uh as int),
                forall|i: int| b0.len() <= i < self.builds@.len() ==> #[trigger] self.builds@[i].dependents
                    == old(self).builds@[i].dependents,
                low_marks(marks@, b0, p),
            decreases count_true(lows(self.builds@, p)), update_q@.len() - uh,
        {
            let ghost bs1 = self.builds@;
            let ghost q1 = update_q@;
            let ghost uh0 = uh as int;
            let ghost marks1 = marks@;
            let ghost vq1 = visit_q@;
            let e = update_q[uh];
            uh = uh + 1;
            assert(0 <= e.1 < bs1.len() && 0 <= e.2 < bs1.len());
            let e2: Id = e.2;
            let n_now: usize = self.builds.len();
            assert(0 <= e2 < n_now);
            let v = e2 as usize;
            assert(v as int == e2 as int) by (bit_vector)
                requires
                    0 <= e2,
                    e2 < n_now,
                    v == e2 as usize;
            remove_pair(&mut self.builds[v].dependents, (e.0, e.1));
            insert_pair(&mut self.builds[v].dependents, (p, e.1));
            let ghost bs2 = self.builds@;
            proof {
                assert forall|i: int| 0 <= i < bs2.len() implies build_wf(#[trigger] bs2[i], bs2.len() as int, self.count_roots) by {
                    assert(build_wf(bs1[i], bs1.len() as int, self.count_roots));
                    if i == v {
                        assert forall|kk: int| 0 <= kk < bs2[i].dependents@.len() implies 0 <= (#[trigger] bs2[i].dependents@[kk]).1 < bs2.len() by {
                            let x = bs2[i].dependents@[kk];
                            assert(bs2[i].dependents@.contains(x));
                            if x != (p, e.1) {
                                let k2 = choose|k2: int| 0 <= k2 < bs1[i].dependents@.len() && bs1[i].dependents@[k2] == x;
                            }
                        }
                    }
                }
                assert forall|a: int, b: int| 0 <= a < b < bs2.len() implies #[trigger] bs2[a].drv@ != #[trigger] bs2[b].drv@ by {
                    assert(bs1[a].drv@ != bs1[b].drv@);
                }
                lemma_lows_update(bs1, bs2, v as int, p);
                assert(lows(bs2, p) =~= lows(bs1, p));
            }
            proof {
                assert(prom_items(bs1, b0, root, p, q1));
                assert(q1[uh0] == e);
                assert(promoted(b0, bview(bs1), root, p, e.1 as int));
                lemma_promoted_low(b0, bview(bs1), root, p, e.1 as int);
            }
            self.raise(v, e.1 as usize, p, update_q, visit_q, marks);
            proof {
                assert forall|x: int| 0 <= x < b0.len() && #[trigger] marks@[x] implies b0[x].priority < p by {
                    if x != e.1 {
                        assert(marks1[x]) by {
                            assert(marks@ == marks1 || marks@ == marks1.update(e.1 as int, true));
                        }
                    }
                }
                let bs3 = self.builds@;
                lemma_lows_update(bs2, bs3, v as int, p);
                lemma_count_true_update(lows(bs2, p), v as int, bs3[v as int].priority < p);
                assert forall|i: int| 0 <= i < old(self).builds@.len() implies {
                    &&& (#[trigger] bs3[i]).drv == old(self).builds@[i].drv
                    &&& bs3[i].dependencies == old(self).builds@[i].dependencies
                    &&& bs3[i].roots == old(self).builds@[i].roots
                    &&& raised(old(self).builds@[i].priority, bs3[i].priority, p)
                } by {
                    assert(bs1[i].drv == old(self).builds@[i].drv);
                    if i != v {
                        assert(bs2[i] == bs1[i]);
                    }
                }
                assert(marks_grow(old(marks)@, marks@)) by {
                    assert forall|i: int| 0 <= i < old(marks)@.len() && #[trigger] old(marks)@[i] implies marks@[i] by {
                        assert(marks1[i]);
                        if bs2[v as int].priority < p {
                            assert(marks1.update(e.1 as int, true)[i]);
                        }
                    }
                }
                assert forall|k: int| 0 <= k < old(visit_q)@.len() implies #[trigger] visit_q@[k] == old(visit_q)@[k] by {
                    assert(vq1[k] == old(visit_q)@[k]);
                }
                assert forall|x: int| 0 <= x < bs1.len() && x != v implies #[trigger] bs3[x] == bs1[x] by {
                    assert(bs2[x] == bs1[x]);
                }
                assert(e == q1[uh0]);
                assert(bs3[v as int].dependents == bs2[v as int].dependents);
                assert forall|y: (Priority, Id)| #[trigger] bs3[v as int]@.dependents.contains(y) <==> (
                    (bs1[v as int]@.dependents.contains(y) && y != (q1[uh0].0, q1[uh0].1)) || y == (p, q1[uh0].1)) by {}
                lemma_update_step(old(self).builds@, bs1, bs3, b0, root, p, q1, update_q@, uh0, v as int);
                lemma_update_links(old(self).builds@, bs1, bs3, b0, root, p, q1, update_q@, uh0, v as int);
                assert(prom_items(bs1, b0, root, p, q1));
                assert(0 <= q1[uh0].1 < b0.len() && b0[q1[uh0].1 as int].dependencies.contains(q1[uh0].2));
                assert(deps_closed(b0));
                assert(v < b0.len());
                assert forall|i: int| b0.len() <= i < bs3.len() implies #[trigger] bs3[i].dependents == old(self).builds@[i].dependents by {
                    assert(bs3[i] == bs1[i]);
                }
            }
        }
    }

    /// Marks every build queued for a visit, and, for each that was not marked yet, queues
    /// its dependencies for a visit.
    fn visit_phase(&self, visit_q: &mut Vec<Id>, marks: &mut Vec<bool>)
        requires
            builds_wf(self.builds@, self.count_roots),
            old(marks)@.len() == self.builds@.len(),
            visit_q_valid(old(visit_q)@, self.builds@.len() as int),
        ensures
            final(marks)@.len() == self.builds@.len(),
            marks_grow(old(marks)@, final(marks)@),
            old(visit_q)@.len() <= final(visit_q)@.len(),
            forall|k: int| 0 <= k < old(visit_q)@.len() ==> #[trigger] final(visit_q)@[k] == old(visit_q)@[k],
            forall|k: int| 0 <= k < final(visit_q)@.len() ==> #[trigger] final(marks)@[final(visit_q)@[k] as int],
            visits_expand(self.builds@, old(marks)@, final(marks)@, final(visit_q)@, final(visit_q)@.len() as int),
    {
        let n = self.builds.len();
        let mut vh: usize = 0;
        while vh < visit_q.len()
            invariant
                builds_wf(self.builds@, self.count_roots),
                n == self.builds@.len(),
                marks@.len() == n,
                marks_grow(old(marks)@, marks@),
                visit_q_valid(visit_q@, n as int),
                old(visit_q)@.len() <= visit_q@.len(),
                forall|k: int| 0 <= k < old(visit_q)@.len() ==> #[trigger] visit_q@[k] == old(visit_q)@[k],
                vh <= visit_q@.len(),
                forall|k: int| 0 <= k < vh ==> #[trigger] marks@[visit_q@[k] as int],
                visits_expand(self.builds@, old(marks)@, marks@, visit_q@, vh as int),
            decreases n - count_true(marks@), visit_q@.len() - vh,
        {
            let ghost marks1 = marks@;
            let ghost vq1 = visit_q@;
            let u = visit_q[vh] as usize;
            proof {
                lemma_count_true_bounds(marks@, 0);
            }
            if !marks[u] {
                marks.set(u, true);
                proof {
                    lemma_count_true_update(marks1, u as int, true);
                    lemma_count_true_bounds(marks@, 0);
                }
                let mut k: usize = 0;
                while k < self.builds[u].dependencies.len()
                    invariant
                        builds_wf(self.builds@, self.count_roots),
                        n == self.builds@.len(),
                        u < n,
                        k <= self.builds@[u as int].dependencies@.len(),
                        visit_q_valid(visit_q@, n as int),
                        vq1.len() <= visit_q@.len(),
                        forall|x: int| 0 <= x < vq1.len() ==> #[trigger] visit_q@[x] == vq1[x],
                        visit_q@.len() == vq1.len() + k,
                        forall|j: int| 0 <= j < k ==> #[trigger] visit_q@[vq1.len() + j] == self.builds@[u as int].dependencies@[j],
                    decreases self.builds@[u as int].dependencies@.len() - k,
                {
                    assert(build_wf(self.builds@[u as int], n as int, self.count_roots));
                    visit_q.push(self.builds[u].dependencies[k]);
                    k = k + 1;
                }
            }
            proof {
                assert forall|i: int| 0 <= i < old(marks)@.len() && #[trigger] old(marks)@[i] implies marks@[i] by {
                    assert(marks1[i]);
                    if !marks1[u as int] {
                        assert(marks1.update(u as int, true)[i]);
                    }
                }
                assert forall|k: int| 0 <= k < vh + 1 implies #[trigger] marks@[visit_q@[k] as int] by {
                    assert(visit_q@[k] == vq1[k]);
                    if k < vh {
                        assert(marks1[vq1[k] as int]);
                        if !marks1[u as int] {
                            assert(marks1.update(u as int, true)[vq1[k] as int]);
                        }
                    }
                }
                assert forall|k: int| 0 <= k < old(visit_q)@.len() implies #[trigger] visit_q@[k] == old(visit_q)@[k] by {
                    assert(vq1[k] == old(visit_q)@[k]);
                }
                let bs = self.builds@;
                assert(marks@[u as int]) by {
                    if !marks1[u as int] {
                        assert(marks1.update(u as int, true)[u as int]);
                    }
                }
                assert forall|x: int, j: int|
                    0 <= x < bs.len() && marks@[x] && !old(marks)@[x] && 0 <= j < bs[x].dependencies@.len() implies marks@[#[trigger] bs[x].dependencies@[j] as int]
                        || exists|k: int| vh + 1 <= k < visit_q@.len() && #[trigger] visit_q@[k] == bs[x].dependencies@[j] by {
                    let w = bs[x].dependencies@[j];
                    assert(build_wf(bs[x], n as int, self.count_roots));
                    if x == u && !marks1[u as int] {
                        assert(visit_q@[vq1.len() + j] == w);
                    } else {
                        assert(marks1[x]) by {
                            if x != u {
                                assert(marks1.update(u as int, true)[x] == marks1[x]);
                            }
                        }
                        if marks1[w as int] {
                            if !marks1[u as int] {
                                assert(marks1.update(u as int, true)[w as int]);
                            }
                        } else {
                            let k = choose|k: int| vh <= k < vq1.len() && #[trigger] vq1[k] == w;
                            if k > vh {
                                assert(visit_q@[k] == vq1[k]);
                            }
                        }
                    }
                }
            }
            vh = vh + 1;
        }
    }
}

impl Scheduler {
    /// Records a request to build `drv` at priority `priority`, given the closure of `drv`
    /// and the derivations that are `missing` from the store.
    ///
    /// A request for a derivation that is not missing touches nothing and watches nothing.
    /// Otherwise the derivation and every missing derivation reached from it through
    /// derivations the scheduler did not know get a build, each with its missing
    /// dependencies and the request's priority. A known build that the request asks for
    /// (the requested one, or a dependency of a new build) is raised to `priority` when it
    /// was below it, and raising goes on to its dependencies that are below it too;
    /// builds at or above `priority` stop it. The links from each raised build to its
    /// dependencies move to `priority`. A build asked for by a new build records a link
    /// from it; a known build, or a new build asked for again by another new build, also
    /// records a link from itself. New builds that wait for nothing join the ready queue,
    /// and the returned watch holds one handle per build the request touched: at least
    /// one per new build, per known build it asks for directly, and per known build
    /// reached from those by dependencies through builds it does not raise.
    #[verifier::rlimit(40)]
    #[verifier::spinoff_prover]
    pub fn build_inner(
        &mut self,
        drv: String,
        priority: Priority,
        recursive_derivation: RecursiveDerivation,
        missing: Vec<String>,
    ) -> (watch: Watch)
        requires
            old(self).wf(),
            old(self)@.count_roots < u128::MAX,
            old(self)@.builds.len() + missing@.len() <= i64::MAX,
            forall|d: Seq<char>|
                #[trigger] newly_reached(recursive_derivation.0@, missing@, old(self)@.builds, drv@, d)
                    ==> has_derivation(recursive_derivation.0@, d),
            distinct_dependencies(recursive_derivation.0@),
        ensures
            final(self).wf(),
            final(self)@.count_roots == old(self)@.count_roots + 1,
            !in_missing(missing@, drv@) ==> {
                &&& final(self)@.builds == old(self)@.builds
                &&& final(self)@.queue == old(self)@.queue
                &&& watch.0@.len() == 0
            },
            in_missing(missing@, drv@) ==> {
                let b0 = old(self)@.builds;
                let b = final(self)@.builds;
                let rd = recursive_derivation.0@;
                &&& b0.len() <= b.len()
                &&& forall|i: int|
                    0 <= i < b0.len() ==> {
                        &&& (#[trigger] b[i]).drv == b0[i].drv
                        &&& b[i].dependencies == b0[i].dependencies
                        &&& b[i].roots == b0[i].roots
                        &&& raised(b0[i].priority, b[i].priority, priority)
                        &&& b0[i].drv == drv@ ==> b[i].priority == if b0[i].priority < priority {
                            priority
                        } else {
                            b0[i].priority
                        }
                    }
                &&& forall|i: int|
                    0 <= i < b0.len() ==> #[trigger] b[i].priority == if promoted(b0, b, drv@, priority, i) {
                        priority
                    } else {
                        b0[i].priority
                    }
                &&& forall|v: int, e: (Priority, Id)|
                    0 <= v < b0.len() ==> (#[trigger] b[v].dependents.contains(e) <==> relinked(b0, b, drv@, priority, v, e))
                &&& forall|v: int| b0.len() <= v < b.len() ==> #[trigger] new_links_ok(b0.len() as int, b, priority, v)
                &&& forall|v: int| b0.len() <= v < b.len() ==> #[trigger] self_link_ok(b0.len() as int, b, priority, v)
                &&& !known(b0, drv@) ==> b[b0.len() as int].drv == drv@
                &&& forall|v: int|
                    b0.len() <= v < b.len() && (v > b0.len() || known(b0, drv@)) ==> #[trigger] linked_from_new(
                        b0.len() as int,
                        b,
                        priority,
                        v,
                    )
                &&& forall|i: int|
                    b0.len() <= i < b.len() ==> {
                        &&& newly_reached(rd, missing@, b0, drv@, (#[trigger] b[i]).drv)
                        &&& b[i].priority == priority
                        &&& b[i].roots == if i == b0.len() {
                            set![(priority, old(self)@.count_roots)]
                        } else {
                            Set::<(Priority, RootId)>::empty()
                        }
                        &&& forall|v: Id|
                            #[trigger] b[i].dependencies.contains(v) <==> expected_dependencies(
                                rd,
                                missing@,
                                b,
                                b[i].drv,
                                v,
                            )
                    }
                &&& forall|d: Seq<char>| #[trigger] newly_reached(rd, missing@, b0, drv@, d) ==> known(b, d)
                &&& known(b, drv@)
                &&& final(self)@.queue == old(self)@.queue.union(ready_entries(b, b0.len() as int, b.len() as int, priority))
                &&& b.len() - b0.len() <= watch.0@.len() <= b.len()
                &&& watch.0@.len() >= (b.len() - b0.len()) + seed_count(b0, b, drv@, b0.len() as int)
                &&& watch.0@.len() >= (b.len() - b0.len()) + touched_count(b0, b, drv@, priority, b0.len() as int)
                &&& 1 <= watch.0@.len()
            },
    {
        let root_id = self.count_roots;
        self.count_roots = self.count_roots + 1;
        proof {
            let bs = self.builds@;
            assert forall|i: int| 0 <= i < bs.len() implies build_wf(#[trigger] bs[i], bs.len() as int, self.count_roots) by {
                assert(build_wf(bs[i], bs.len() as int, root_id));
            }
        }
        let pos = match position_string(&missing, &drv) {
            None => {
                return Watch(Vec::new());
            },
            Some(pos) => pos,
        };
        let ghost b0 = bview(self.builds@);
        let ghost rd = recursive_derivation.0@;
        let n0 = self.builds.len();
        let mut marks: Vec<bool> = Vec::new();
        while marks.len() < n0
            invariant
                marks@.len() <= n0,
                forall|i: int| 0 <= i < marks@.len() ==> !#[trigger] marks@[i],
            decreases n0 - marks@.len(),
        {
            marks.push(false);
        }
        let mut update_q: Vec<(Priority, Id, Id)> = Vec::new();
        let mut visit_q: Vec<Id> = Vec::new();
        let ghost mut paths: Seq<Seq<Seq<char>>> = Seq::empty();
        let ghost mut idx: Seq<int> = Seq::empty();
        let root_idx: usize;
        let ghost bs_pre = self.builds@;
        let ghost cr = self.count_roots;
        assert(builds_wf(bs_pre, cr));
        match self.find_build(&drv) {
            Some(u) => {
                self.raise(u, u, priority, &mut update_q, &mut visit_q, &mut marks);
                root_idx = u;
                proof {
                    assert(b0 == bview(bs_pre));
                    lemma_promotion_start_known(bs_pre, self.builds@, drv@, priority, update_q@, u as int, cr);
                    lemma_linking_start_known(bs_pre, self.builds@, priority, update_q@, u as int, cr);
                    let bs = self.builds@;
                    assert(old_kept(bs, b0, priority)) by {
                        assert forall|i: int| 0 <= i < b0.len() implies {
                            &&& (#[trigger] bs[i])@.drv == b0[i].drv
                            &&& bs[i]@.dependencies == b0[i].dependencies
                            &&& bs[i]@.roots == b0[i].roots
                            &&& raised(b0[i].priority, bs[i].priority, priority)
                        } by {
                            assert(b0[i] == old(self).builds@[i]@);
                        }
                    }
                    assert(new_builds_ok(bs, b0, rd, missing@, drv@, priority, root_id, paths, idx));
                }
            },
            None => {
                let b = Build {
                    drv: drv.clone(),
                    priority,
                    dependencies: Vec::new(),
                    dependents: Vec::new(),
                    roots: vec![(priority, root_id)],
                };
                self.builds.push(b);
                marks.push(false);
                root_idx = n0;
                proof {
                    assert(self.builds@[n0 as int].dependencies@ == Seq::<Id>::empty());
                    lemma_promotion_start_new(bs_pre, self.builds@, drv@, priority, cr);
                    assert(self.builds@[n0 as int].dependents@ == Seq::<(Priority, Id)>::empty());
                    lemma_linking_start_new(bs_pre, self.builds@, priority);
                    let bs = self.builds@;
                    let path = seq![drv@];
                    paths = seq![path];
                    idx = seq![pos as int];
                    assert(!known(b0, drv@)) by {
                        if known(b0, drv@) {
                            let i = choose|i: int| 0 <= i < b0.len() && #[trigger] b0[i].drv == drv@;
                            assert(old(self).builds@[i].drv@ == drv@);
                        }
                    }
                    assert(new_path(rd, missing@, b0, path)) by {
                        assert(missing@[pos as int]@ == drv@);
                    }
                    assert(bs[n0 as int]@.roots =~= set![(priority, root_id)]) by {
                        assert forall|x: (Priority, RootId)| bs[n0 as int]@.roots.contains(x) <==> x == (priority, root_id) by {
                            if bs[n0 as int].roots@.contains(x) {
                                let k = choose|k: int| 0 <= k < bs[n0 as int].roots@.len() && bs[n0 as int].roots@[k] == x;
                            }
                            if x == (priority, root_id) {
                                assert(bs[n0 as int].roots@[0] == x);
                            }
                        }
                    }
                    assert(new_build_ok(bs, b0, rd, missing@, drv@, priority, root_id, paths, n0 as int));
                    assert(new_builds_ok(bs, b0, rd, missing@, drv@, priority, root_id, paths, idx));
                    assert forall|i: int| 0 <= i < bs.len() implies build_wf(#[trigger] bs[i], bs.len() as int, self.count_roots) by {
                        if i < n0 {
                            assert(build_wf(old(self).builds@[i], n0 as int, self.count_roots));
                        } else {
                            assert(bs[i].roots@ == seq![(priority, root_id)]);
                        }
                    }
                    assert forall|a: int, b: int| 0 <= a < b < bs.len() implies #[trigger] bs[a].drv@ != #[trigger] bs[b].drv@ by {
                        if b < n0 {
                            assert(old(self).builds@[a].drv@ != old(self).builds@[b].drv@);
                        }
                    }
                    assert(old_kept(bs, b0, priority)) by {
                        assert forall|i: int| 0 <= i < b0.len() implies {
                            &&& (#[trigger] bs[i])@.drv == b0[i].drv
                            &&& bs[i]@.dependencies == b0[i].dependencies
                            &&& bs[i]@.roots == b0[i].roots
                            &&& raised(b0[i].priority, bs[i].priority, priority)
                        } by {
                            assert(bs[i] == old(self).builds@[i]);
                        }
                    }
                    lemma_deps_empty(bs[n0 as int]);
                }
            },
        }
        proof {
            let bs = self.builds@;
            assert(bs[root_idx as int].drv@ == drv@);
            assert(progress(bs, n0 as int, n0 as int, rd, missing@)) by {
                assert forall|i: int| n0 <= i < bs.len() implies (#[trigger] bs[i])@.dependencies == Set::<Id>::empty() by {
                    lemma_deps_empty(bs[i]);
                }
            }
            assert(root_idx < n0 ==> marks@[root_idx as int] || (visit_q@.len() == 1 && visit_q@[0] == root_idx));
            assert(!known(b0, drv@) ==> root_idx == n0) by {
                if root_idx < n0 {
                    assert(b0[root_idx as int] == bs_pre[root_idx as int]@);
                    assert(b0[root_idx as int].drv == drv@);
                }
            }
        }
        let ghost bs_a = self.builds@;
        let ghost marks_a = marks@;
        let ghost vq_a = visit_q@;
        let (Ghost(paths), Ghost(idx)) = self.insert_phase(
            n0,
            &recursive_derivation,
            &missing,
            priority,
            &mut update_q,
            &mut visit_q,
            &mut marks,
            Ghost(b0),
            Ghost(drv@),
            Ghost(root_id),
            Ghost(paths),
            Ghost(idx),
        );
        let ghost bs_b = self.builds@;
        let ghost q_b = self.queue@;
        let ghost marks_b = marks@;
        let ghost vq_b = visit_q@;
        self.update_phase(priority, &mut update_q, &mut visit_q, &mut marks, Ghost(b0), Ghost(drv@));
        let ghost q_c = update_q@;
        let ghost bs_c = self.builds@;
        let ghost marks_c = marks@;
        let ghost vq_c = visit_q@;
        self.visit_phase(&mut visit_q, &mut marks);
        let mut handles: Vec<WatchBuild> = Vec::new();
        let mut i: usize = 0;
        while i < marks.len()
            invariant
                i <= marks@.len(),
                handles@.len() == count_true(marks@.take(i as int)),
            decreases marks@.len() - i,
        {
            proof {
                lemma_count_true_take(marks@, i as int);
            }
            if marks[i] {
                handles.push(WatchBuild {});
            }
            i = i + 1;
        }
        proof {
            assert(marks@.take(marks@.len() as int) =~= marks@);
            assert forall|x: int| 0 <= x < b0.len() implies raised(b0[x].priority, #[trigger] self.builds@[x].priority, priority) by {
                assert(bs_b[x]@.drv == b0[x].drv);
                assert(raised(bs_b[x].priority, self.builds@[x].priority, priority));
            }
            lemma_promotion_complete(self.builds@, b0, drv@, priority, q_c);
            lemma_linking_final(self.builds@, b0, drv@, priority, q_c);
            assert(parented(self.builds@, b0, drv@, priority)) by {
                assert forall|x: int, y: Id| n0 <= x < bs_b.len() && #[trigger] bs_b[x]@.dependencies.contains(y) implies self.builds@[x]@.dependencies.contains(y) by {
                    assert(self.builds@[x].dependencies == bs_b[x].dependencies);
                }
                assert forall|x: int, y: (Priority, Id)| n0 <= x < bs_b.len() && #[trigger] bs_b[x]@.dependents.contains(y) implies self.builds@[x]@.dependents.contains(y) by {
                    assert(self.builds@[x].dependents == bs_b[x].dependents);
                }
                lemma_parented_grow(bs_b, self.builds@, b0, drv@, priority);
            }
            assert(self_links(self.builds@, n0 as int, priority)) by {
                assert forall|x: int, y: Id| n0 <= x < bs_b.len() && #[trigger] bs_b[x]@.dependencies.contains(y) implies self.builds@[x]@.dependencies.contains(y) by {
                    assert(self.builds@[x].dependencies == bs_b[x].dependencies);
                }
                assert forall|x: int|
                    n0 <= x < self.builds@.len() && #[trigger] self.builds@[x]@.dependents.contains((priority, x as Id)) implies (x < bs_b.len()
                        && bs_b[x]@.dependents.contains((priority, x as Id))) || self_link_ok(n0 as int, bview(self.builds@), priority, x) by {
                    assert(self.builds@[x].dependents == bs_b[x].dependents);
                }
                lemma_self_links_grow(bs_b, self.builds@, n0 as int, priority);
            }
            assert forall|v: int| n0 <= v < self@.builds.len() implies #[trigger] self_link_ok(n0 as int, self@.builds, priority, v) by {
                assert(self_link_ok(n0 as int, bview(self.builds@), priority, v));
                assert(bview(self.builds@) == self@.builds);
            }
            assert forall|v: int| n0 <= v < self@.builds.len() && (v > n0 || known(b0, drv@)) implies #[trigger] linked_from_new(
                n0 as int,
                self@.builds,
                priority,
                v,
            ) by {
                assert(has_parent(self.builds@, n0 as int, v, priority));
                let u = choose|u: int| n0 <= u < self.builds@.len() && #[trigger] self.builds@[u]@.dependencies.contains(v as Id)
                    && self.builds@[v]@.dependents.contains((priority, u as Id));
                assert(self@.builds[u] == self.builds@[u]@);
                assert(self@.builds[v] == self.builds@[v]@);
            }
            if !known(b0, drv@) {
                assert(self@.builds[n0 as int].drv == drv@) by {
                    assert(bs_b[root_idx as int]@.drv == drv@);
                    assert(self.builds@[root_idx as int].drv == bs_b[root_idx as int].drv);
                }
            }
            let b_final = bview(self.builds@);
            let bs = self.builds@;
            let n = bs.len();
            assert(bview(bs) == self@.builds);
            assert(old(self)@.builds == b0);
            // names, dependencies and requests of the builds after the insert phase
            assert forall|x: int| 0 <= x < n implies {
                &&& (#[trigger] bs[x]).drv@ == bs_b[x].drv@
                &&& bs[x]@.dependencies == bs_b[x]@.dependencies
                &&& bs[x]@.roots == bs_b[x]@.roots
                &&& raised(bs_b[x].priority, bs[x].priority, priority)
            } by {}
            assert forall|x: int| n0 <= x < n implies #[trigger] settled(bs, x, rd, missing@) by {
                assert(settled(bs_b, x, rd, missing@));
                lemma_settled_frame(bs_b, bs, x, rd, missing@, self.count_roots);
            }
            assert forall|x: int| n0 <= x < n implies #[trigger] new_build_ok(bs, b0, rd, missing@, drv@, priority, root_id, paths, x) by {
                assert(new_build_ok(bs_b, b0, rd, missing@, drv@, priority, root_id, paths, x));
                assert(bs[x].priority == bs_b[x].priority);
            }
            // the root is marked
            assert(marks@[root_idx as int]) by {
                if root_idx < n0 {
                    if marks_a[root_idx as int] {
                        assert(marks_b[root_idx as int]);
                        assert(marks_c[root_idx as int]);
                    } else {
                        assert(vq_b[0] == vq_a[0]);
                        assert(vq_c[0] == vq_b[0]);
                        assert(visit_q@[0] == vq_c[0]);
                        assert(visit_q@[0] == root_idx);
                    }
                } else {
                    assert(root_idx == n0);
                    assert(marks_b[root_idx as int]);
                    assert(marks_c[root_idx as int]);
                }
            }
            assert forall|x: int| n0 <= x < marks@.len() implies #[trigger] marks@[x] by {
                assert(marks_b[x]);
                assert(marks_c[x]);
            }
            lemma_count_true_bounds(marks@, n0 as int);
            assert forall|i: int| 0 <= i < n0 && #[trigger] seed(b0, self@.builds, drv@, i) implies marks@[i] by {
                if b0[i].drv == drv@ {
                    assert(root_idx < n0) by {
                        assert(known(b0, drv@));
                    }
                    assert(bs_b[root_idx as int]@.drv == drv@);
                    assert(bs_b[i]@.drv == b0[i].drv);
                    if i != root_idx {
                        if i < root_idx {
                            assert(bs_b[i].drv@ != bs_b[root_idx as int].drv@);
                        } else {
                            assert(bs_b[root_idx as int].drv@ != bs_b[i].drv@);
                        }
                    }
                } else {
                    let u = choose|u: int| b0.len() <= u < self@.builds.len() && #[trigger] self@.builds[u].dependencies.contains(i as Id);
                    assert(self@.builds[u] == bs[u]@);
                    assert(bs[u].dependencies == bs_b[u].dependencies);
                    assert(bs_b[u]@.dependencies.contains(i as Id));
                    if marks_b[i] {
                        assert(marks_c[i]);
                    } else {
                        let k = choose|k: int| 0 <= k < vq_b.len() && #[trigger] vq_b[k] == i as Id;
                        assert(vq_c[k] == vq_b[k]);
                        assert(visit_q@[k] == vq_c[k]);
                    }
                }
            }
            lemma_count_true_seeds(marks@, n0 as int, b0, self@.builds, drv@);
            assert forall|i: int| 0 <= i < n0 && #[trigger] surely_touched(b0, self@.builds, drv@, priority, i) implies marks@[i] by {
                if !seed(b0, self@.builds, drv@, i) {
                    let c = choose|c: Seq<Id>| #[trigger] high_chain(b0, priority, c) && seed(b0, self@.builds, drv@, c[0] as int) && c.last() == i;
                    assert(marks@[c[0] as int]);
                    assert forall|x: int| 0 <= x < b0.len() implies #[trigger] bs[x]@.dependencies == b0[x].dependencies by {
                        assert(bs_b[x]@.dependencies == b0[x].dependencies);
                    }
                    lemma_chain_marked(bs, b0, priority, c, marks_c, marks@, visit_q@, c.len() - 1);
                }
            }
            lemma_count_true_touched(marks@, n0 as int, b0, self@.builds, drv@, priority);
            assert(self.queue@ == old(self)@.queue.union(ready_entries(self@.builds, n0 as int, n as int, priority))) by {
                assert(ready_entries(bview(bs_b), n0 as int, n as int, priority) =~= ready_entries(bview(bs), n0 as int, n as int, priority)) by {
                    assert forall|e: Entry| #[trigger] ready_entries(bview(bs_b), n0 as int, n as int, priority).contains(e) == ready_entries(bview(bs), n0 as int, n as int, priority).contains(e) by {
                        if n0 <= e.1 < n {
                            assert(bview(bs_b)[e.1 as int].dependencies == bview(bs)[e.1 as int].dependencies);
                        }
                    }
                }
            }
            assert forall|d: Seq<char>| #[trigger] newly_reached(rd, missing@, b0, drv@, d) implies known(self@.builds, d) by {
                let path = choose|path: Seq<Seq<char>>| #[trigger] new_path(rd, missing@, b0, path) && path[0] == drv@ && path.last() == d;
                assert(known(bview(bs), drv@)) by {
                    assert(bview(bs)[root_idx as int].drv == drv@);
                }
                assert forall|x: int| 0 <= x < b0.len() implies (#[trigger] bs[x]).drv@ == b0[x].drv by {
                    assert(bs_b[x]@.drv == b0[x].drv);
                }
                lemma_reached_known(bs, b0, rd, missing@, path, path.len() - 1);
            }
            assert(known(self@.builds, drv@)) by {
                assert(self@.builds[root_idx as int].drv == drv@);
            }
            assert forall|x: int| n0 <= x < n implies {
                &&& newly_reached(rd, missing@, b0, drv@, (#[trigger] self@.builds[x]).drv)
                &&& self@.builds[x].priority == priority
                &&& self@.builds[x].roots == if x == n0 {
                    set![(priority, old(self)@.count_roots)]
                } else {
                    Set::<(Priority, RootId)>::empty()
                }
                &&& forall|v: Id|
                    #[trigger] self@.builds[x].dependencies.contains(v) <==> expected_dependencies(
                        rd,
                        missing@,
                        self@.builds,
                        self@.builds[x].drv,
                        v,
                    )
            } by {
                assert(new_build_ok(bs, b0, rd, missing@, drv@, priority, root_id, paths, x));
                assert(new_path(rd, missing@, b0, paths[x - n0]));
                assert(settled(bs, x, rd, missing@));
            }
            assert forall|x: int| 0 <= x < b0.len() implies {
                &&& (#[trigger] self@.builds[x]).drv == b0[x].drv
                &&& self@.builds[x].dependencies == b0[x].dependencies
                &&& self@.builds[x].roots == b0[x].roots
                &&& raised(b0[x].priority, self@.builds[x].priority, priority)
                &&& b0[x].drv == drv@ ==> self@.builds[x].priority == if b0[x].priority < priority {
                    priority
                } else {
                    b0[x].priority
                }
            } by {
                assert(bs_b[x]@.drv == b0[x].drv);
                if b0[x].drv == drv@ {
                    assert(x == root_idx) by {
                        if x != root_idx {
                            assert(bs[x].drv@ == bs[root_idx as int].drv@);
                            if x < root_idx {
                                assert(bs[x].drv@ != bs[root_idx as int].drv@);
                            } else {
                                assert(bs[root_idx as int].drv@ != bs[x].drv@);
                            }
                        }
                    }
                    assert(bs_a[x].priority == if b0[x].priority < priority { priority } else { b0[x].priority });
                    assert(raised(bs_a[x].priority, bs_b[x].priority, priority));
                    assert(raised(bs_b[x].priority, bs[x].priority, priority));
                }
            }
            assert(no_inversion(self@.builds)) by {
                assert(no_inversion(b0));
                assert forall|i: int, v: Id| n0 <= i < self@.builds.len() && #[trigger] self@.builds[i].dependencies.contains(v)
                    implies 0 <= v < self@.builds.len() by {
                    assert(expected_dependencies(rd, missing@, self@.builds, self@.builds[i].drv, v));
                }
                assert forall|i: int| n0 <= i < self@.builds.len() implies (#[trigger] self@.builds[i]).priority == priority by {
                    assert(new_build_ok(bs, b0, rd, missing@, drv@, priority, root_id, paths, i));
                }
                lemma_no_inversion_after(b0, self@.builds, drv@, priority);
            }
        }
        Watch(handles)
    }
}

impl Scheduler {
    /// How many requests the scheduler has answered.
    pub fn request_count(&self) -> (r: RootId)
        ensures
            r == self@.count_roots,
    {
        self.count_roots
    }

    /// How many builds the scheduler holds; their identifiers are `0` up to that number.
    pub fn build_count(&self) -> (r: usize)
        ensures
            r == self@.builds.len(),
    {
        self.builds.len()
    }

    /// The derivation of build `id`, if there is such a build.
    pub fn derivation(&self, id: Id) -> (r: Option<String>)
        requires
            self.wf(),
        ensures
            match r {
                Some(d) => 0 <= id < self@.builds.len() && d@ == self@.builds[id as int].drv,
                None => !(0 <= id < self@.builds.len()),
            },
    {
        if 0 <= id && (id as i128) < (self.builds.len() as i128) {
            Some(self.builds[id as usize].drv.clone())
        } else {
            None
        }
    }

    /// The priority of build `id`, if there is such a build.
    pub fn priority(&self, id: Id) -> (r: Option<Priority>)
        requires
            self.wf(),
        ensures
            match r {
                Some(p) => 0 <= id < self@.builds.len() && p == self@.builds[id as int].priority,
                None => !(0 <= id < self@.builds.len()),
            },
    {
        if 0 <= id && (id as i128) < (self.builds.len() as i128) {
            Some(self.builds[id as usize].priority)
        } else {
            None
        }
    }

    /// The builds that build `id` waits for, if there is such a build.
    pub fn dependencies(&self, id: Id) -> (r: Option<Vec<Id>>)
        requires
            self.wf(),
        ensures
            match r {
                Some(v) => 0 <= id < self@.builds.len() && forall|x: Id|
                    v@.contains(x) <==> self@.builds[id as int].dependencies.contains(x),
                None => !(0 <= id < self@.builds.len()),
            },
    {
        if 0 <= id && (id as i128) < (self.builds.len() as i128) {
            let v = self.builds[id as usize].dependencies.clone();
            assert(v@ =~= self.builds@[id as int].dependencies@);
            Some(v)
        } else {
            None
        }
    }

    /// The links to build `id` from the builds that wait for it, each with the priority of
    /// the request that made it, if there is such a build.
    pub fn dependents(&self, id: Id) -> (r: Option<Vec<(Priority, Id)>>)
        requires
            self.wf(),
        ensures
            match r {
                Some(v) => 0 <= id < self@.builds.len() && forall|x: (Priority, Id)|
                    v@.contains(x) <==> self@.builds[id as int].dependents.contains(x),
                None => !(0 <= id < self@.builds.len()),
            },
    {
        if 0 <= id && (id as i128) < (self.builds.len() as i128) {
            let src = &self.builds[id as usize].dependents;
            let mut v: Vec<(Priority, Id)> = Vec::new();
            let mut k: usize = 0;
            while k < src.len()
                invariant
                    k <= src@.len(),
                    v@ == src@.take(k as int),
                decreases src@.len() - k,
            {
                let x = src[k];
                v.push(x);
                k = k + 1;
                assert(v@ =~= src@.take(k as int));
            }
            assert(src@.take(src@.len() as int) =~= src@);
            Some(v)
        } else {
            None
        }
    }

    /// Whether build `id` waits in the ready queue with priority `priority`.
    pub fn is_ready(&self, id: Id, priority: Priority) -> (r: bool)
        ensures
            r == self@.queue.contains((priority, id)),
    {
        self.queue.contains(id, priority)
    }
}

/// Where the log of a build is read from.
pub enum StderrSource {
    /// The build runs: its live log.
    Running,
    /// The stored log, once the build is found in the database.
    Stored,
}

/// Where the log of a build is read from: the live log of a running build, else the
/// stored one.
pub fn stderr_source(running: bool) -> (r: StderrSource)
    ensures
        running <==> r is Running,
{
    if running {
        StderrSource::Running
    } else {
        StderrSource::Stored
    }
}

/// The stored log of build `id`: `BuildNotFound` when the database has no such build,
/// `StderrNotFound` when its log cannot be opened.
pub fn stored_stderr<R>(id: Id, build_found: bool, log: Option<R>) -> (r: Result<R, Error>)
    ensures
        !build_found ==> r == Err::<R, Error>(Error::BuildNotFound(id)),
        build_found ==> r == match log {
            Some(l) => Ok::<R, Error>(l),
            None => Err::<R, Error>(Error::StderrNotFound(id)),
        },
{
    if !build_found {
        return Err(Error::BuildNotFound(id));
    }
    match log {
        Some(l) => Ok(l),
        None => Err(Error::StderrNotFound(id)),
    }
}

/// The decimal digit `d`, as a one-character string.
pub open spec fn digit(d: int) -> Seq<char> {
    seq!['0', '1', '2', '3', '4', '5', '6', '7', '8', '9'].subrange(d, d + 1)
}

/// The decimal digits of `n`, most significant first.
pub open spec fn decimal_nat(n: nat) -> Seq<char>
    decreases n,
{
    if n < 10 {
        digit(n as int)
    } else {
        decimal_nat(n / 10) + digit((n % 10) as int)
    }
}

/// `i` written in decimal, with a minus sign when it is negative.
pub open spec fn decimal(i: int) -> Seq<char> {
    if i < 0 {
        "-"@ + decimal_nat((-i) as nat)
    } else {
        decimal_nat(i as nat)
    }
}

/// The decimal digits of `n`.
fn decimal_u64(n: u64) -> (r: String)
    ensures
        r@ == decimal_nat(n as nat),
    decreases n,
{
    let digits = "0123456789";
    proof {
        reveal_strlit("0123456789");
        assert(digits@ == seq!['0', '1', '2', '3', '4', '5', '6', '7', '8', '9']);
    }
    if n < 10 {
        let d = n as usize;
        String::from_str(digits.substring_char(d, d + 1))
    } else {
        let mut r = decimal_u64(n / 10);
        let d = (n % 10) as usize;
        r.append(digits.substring_char(d, d + 1));
        r
    }
}

/// Where the log of the finished build `id` is stored.
pub open spec fn stderr_path_spec(id: int) -> Seq<char> {
    "logs/builds/"@ + decimal(id) + ".stderr"@
}

/// Where the log of the finished build `id` is stored.
pub fn stderr_path(id: Id) -> (r: String)
    ensures
        r@ == stderr_path_spec(id as int),
{
    let mut r = String::from_str("logs/builds/");
    if id < 0 {
        r.append("-");
        let magnitude: u64 = (-(id as i128)) as u64;
        let digits = decimal_u64(magnitude);
        r.append(digits.as_str());
    } else {
        let digits = decimal_u64(id as u64);
        r.append(digits.as_str());
    }
    r.append(".stderr");
    r
}

} // verus!
