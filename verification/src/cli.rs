//! The command line's management of a `sources.json` file: named sources, each with its
//! lock and the store path of its contents.
use vstd::prelude::*;

use crate::nix::{Lock, Source as NixSource, SourceView};
use crate::strmap::StrMap;

verus! {

/// A source as given on the command line.
pub enum Source {
    Git { url: String, reference: Option<String>, revision: Option<String> },
    GitHub { owner: String, repo: String, branch: Option<String>, revision: Option<String> },
}

impl View for Source {
    type V = SourceView;

    open spec fn view(&self) -> SourceView {
        match self {
            Source::Git { url, reference, revision } => SourceView::Git {
                url: url@,
                reference: reference.deep_view(),
                revision: revision.deep_view(),
            },
            Source::GitHub { owner, repo, branch, revision } => SourceView::GitHub {
                owner: owner@,
                repo: repo@,
                branch: branch.deep_view(),
                revision: revision.deep_view(),
            },
        }
    }
}

impl Source {
    /// The source that the command line describes.
    pub fn into_source(self) -> (r: NixSource)
        ensures
            r@ == self@,
    {
        match self {
            Source::Git { url, reference, revision } => NixSource::Git { url, reference, revision },
            Source::GitHub { owner, repo, branch, revision } => NixSource::GitHub {
                owner,
                repo,
                branch,
                revision,
            },
        }
    }
}

/// What the command line asks.
pub enum Cmd {
    /// Add a source.
    Add { name: String, source: Source },
    /// Remove a source.
    Remove { name: String },
    /// Update one or all of the sources.
    Update { name: Option<String> },
}

/// A named source with its lock and the store path of its contents.
pub struct Entry {
    pub source: NixSource,
    pub lock: Lock,
    pub out_path: String,
}

impl Entry {
    /// An entry for `source` locked to `lock`, with contents at `out_path`.
    pub fn new(source: NixSource, lock: Lock, out_path: String) -> (e: Self)
        ensures
            e.source == source,
            e.lock == lock,
            e.out_path == out_path,
    {
        Entry { source, lock, out_path }
    }

    /// Replaces the lock and the store path.
    pub fn update(&mut self, lock: Lock, out_path: String)
        ensures
            final(self).source == old(self).source,
            final(self).lock == lock,
            final(self).out_path == out_path,
    {
        self.lock = lock;
        self.out_path = out_path;
    }
}

/// The named sources of a `sources.json` file, in byte order of their names.
pub struct Sources {
    entries: StrMap<Entry>,
}

impl View for Sources {
    type V = Map<Seq<char>, Entry>;

    closed spec fn view(&self) -> Map<Seq<char>, Entry> {
        self.entries@
    }
}

/// `m` is `m0` after the first `i` results of `r` were applied: same names and sources,
/// untouched entries where no result names them, and the last result for each name.
#[verifier::opaque]
pub open spec fn relocked(m0: Map<Seq<char>, Entry>, m: Map<Seq<char>, Entry>, r: Seq<(String, Lock, String)>, i: int) -> bool {
    &&& m.dom() == m0.dom()
    &&& forall|k: Seq<char>| #[trigger] m0.contains_key(k) ==> m[k].source == m0[k].source
    &&& forall|k: Seq<char>|
        m0.contains_key(k) && (forall|j: int| 0 <= j < i ==> #[trigger] r[j].0@ != k) ==> #[trigger] m[k] == m0[k]
    &&& forall|a: int|
        0 <= a < i && (forall|j: int| a < j < i ==> #[trigger] r[j].0@ != r[a].0@) ==> m[#[trigger] r[a].0@] == (Entry {
            source: m0[r[a].0@].source,
            lock: r[a].1,
            out_path: r[a].2,
        })
}

/// Applying one more result keeps the description.
proof fn lemma_relocked_step(
    m0: Map<Seq<char>, Entry>,
    before: Map<Seq<char>, Entry>,
    after: Map<Seq<char>, Entry>,
    r: Seq<(String, Lock, String)>,
    i: int,
)
    requires
        relocked(m0, before, r, i),
        0 <= i < r.len(),
        m0.contains_key(r[i].0@),
        after == before.insert(r[i].0@, Entry { source: before[r[i].0@].source, lock: r[i].1, out_path: r[i].2 }),
    ensures
        relocked(m0, after, r, i + 1),
        after.dom() == m0.dom(),
{
    reveal(relocked);
    let nm = r[i].0@;
    assert(after.dom() =~= m0.dom());
    assert forall|k: Seq<char>|
        m0.contains_key(k) && (forall|j: int| 0 <= j < i + 1 ==> #[trigger] r[j].0@ != k) implies #[trigger] after[k] == m0[k] by {
        assert(r[i].0@ != k);
    }
    assert forall|a: int|
        0 <= a < i + 1 && (forall|j: int| a < j < i + 1 ==> #[trigger] r[j].0@ != r[a].0@) implies after[#[trigger] r[a].0@]
            == (Entry { source: m0[r[a].0@].source, lock: r[a].1, out_path: r[a].2 }) by {
        if a < i {
            assert(r[i].0@ != r[a].0@);
        }
    }
}

impl Sources {
    pub closed spec fn wf(&self) -> bool {
        self.entries.wf()
    }

    /// No source.
    pub fn new() -> (s: Self)
        ensures
            s.wf(),
            s@ == Map::<Seq<char>, Entry>::empty(),
    {
        Sources { entries: StrMap::new() }
    }

    /// Adds (or replaces) the source `name`.
    pub fn add(&mut self, name: String, entry: Entry)
        requires
            old(self).wf(),
        ensures
            final(self).wf(),
            final(self)@ == old(self)@.insert(name@, entry),
    {
        self.entries.insert(name, entry);
    }

    /// Removes the source `name`, if there is one.
    pub fn remove(&mut self, name: &String)
        requires
            old(self).wf(),
        ensures
            final(self).wf(),
            final(self)@ == old(self)@.remove(name@),
    {
        self.entries.remove(name);
    }

    /// The source `name`, if there is one.
    pub fn get(&self, name: &String) -> (r: Option<&Entry>)
        requires
            self.wf(),
        ensures
            match r {
                Some(e) => self@.contains_key(name@) && self@[name@] == *e,
                None => !self@.contains_key(name@),
            },
    {
        self.entries.get(name)
    }

    /// Gives the source `name` a new lock and store path.
    pub fn update(&mut self, name: String, lock: Lock, out_path: String)
        requires
            old(self).wf(),
            old(self)@.contains_key(name@),
        ensures
            final(self).wf(),
            final(self)@ == old(self)@.insert(
                name@,
                Entry { source: old(self)@[name@].source, lock, out_path },
            ),
    {
        let source = match self.entries.get(&name) {
            Some(e) => e.source.copy(),
            None => {
                return;
            },
        };
        self.entries.insert(name, Entry { source, lock, out_path });
    }

    /// Gives each source named in `results` the lock and store path that come with it; a
    /// name given more than once takes its last result. The names and every source stay
    /// as they are, and a source named nowhere in `results` keeps its entry.
    pub fn update_all(&mut self, results: Vec<(String, Lock, String)>)
        requires
            old(self).wf(),
            forall|i: int| 0 <= i < results@.len() ==> old(self)@.contains_key(#[trigger] results@[i].0@),
        ensures
            final(self).wf(),
            final(self)@.dom() == old(self)@.dom(),
            forall|k: Seq<char>| #[trigger] old(self)@.contains_key(k) ==> final(self)@[k].source == old(self)@[k].source,
            forall|k: Seq<char>|
                old(self)@.contains_key(k) && (forall|i: int| 0 <= i < results@.len() ==> #[trigger] results@[i].0@ != k)
                    ==> #[trigger] final(self)@[k] == old(self)@[k],
            forall|i: int|
                0 <= i < results@.len() && (forall|j: int| i < j < results@.len() ==> #[trigger] results@[j].0@ != results@[i].0@)
                    ==> final(self)@[#[trigger] results@[i].0@] == (Entry {
                    source: old(self)@[results@[i].0@].source,
                    lock: results@[i].1,
                    out_path: results@[i].2,
                }),
    {
        let ghost m0 = self@;
        let ghost r0 = results@;
        let ghost n = r0.len();
        let total: usize = results.len();
        let mut results = results;
        let mut i: usize = 0;
        proof {
            reveal(relocked);
            assert(relocked(m0, self@, r0, 0));
            assert(results@ =~= r0.subrange(0, n as int));
        }
        while results.len() > 0
            invariant
                self.wf(),
                0 <= i <= n,
                n == r0.len(),
                n == total,
                self@.dom() == m0.dom(),
                results@ == r0.subrange(i as int, n as int),
                forall|a: int| 0 <= a < n ==> m0.contains_key(#[trigger] r0[a].0@),
                relocked(m0, self@, r0, i as int),
            decreases results@.len(),
        {
            let ghost before = self@;
            assert(results@.len() == n - i);
            assert(results@[0] == r0[i as int]);
            let (name, lock, out_path) = results.remove(0);
            proof {
                assert(r0[i as int] == (name, lock, out_path));
                assert(m0.contains_key(r0[i as int].0@));
                assert(relocked(m0, before, r0, i as int));
            }
            self.update(name, lock, out_path);
            proof {
                lemma_relocked_step(m0, before, self@, r0, i as int);
                assert(results@ =~= r0.subrange(i + 1, n as int));
            }
            i = i + 1;
        }
        proof {
            reveal(relocked);
            assert(i == n);
        }
    }

    /// The names of the sources, in byte order.
    pub fn names(&self) -> (r: Vec<String>)
        requires
            self.wf(),
        ensures
            r@.len() == self@.dom().len(),
            forall|k: Seq<char>| self@.contains_key(k) <==> exists|i: int| 0 <= i < r@.len() && #[trigger] r@[i]@ == k,
            forall|i: int, j: int|
                0 <= i < j < r@.len() ==> crate::order::lex_lt(crate::order::key(#[trigger] r@[i]@), crate::order::key(#[trigger] r@[j]@)),
    {
        self.entries.keys()
    }
}

} // verus!
