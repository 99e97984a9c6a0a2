//! The priority queue of builds that are ready to run.
//!
//! An entry is a pair `(priority, element)`. The entry that leaves first is the one with
//! the highest priority and, among equal priorities, the smallest element.
use vstd::prelude::*;

verus! {

/// An entry of the queue: `(priority, element)`.
pub type Entry = (u64, i64);

/// `a` leaves the queue before `b`.
pub open spec fn outranks(a: Entry, b: Entry) -> bool {
    a.0 > b.0 || (a.0 == b.0 && a.1 < b.1)
}

/// `e` is the entry of `s` that leaves first.
pub open spec fn is_top(s: Set<Entry>, e: Entry) -> bool {
    &&& s.contains(e)
    &&& forall|x: Entry| #[trigger] s.contains(x) && x != e ==> outranks(e, x)
}

/// The entry of `s` that leaves first (meaningful when `s` is not empty).
pub open spec fn top(s: Set<Entry>) -> Entry {
    choose|e: Entry| is_top(s, e)
}

/// At most one entry of a set can leave first.
pub proof fn lemma_top_unique(s: Set<Entry>, a: Entry, b: Entry)
    requires
        is_top(s, a),
        is_top(s, b),
    ensures
        a == b,
{
    if a != b {
        assert(outranks(a, b));
        assert(outranks(b, a));
    }
}

/// Every non-empty finite set of entries has an entry that leaves first: the queue
/// always has a next entry to pop.
pub proof fn lemma_top_exists(s: Set<Entry>)
    requires
        s.finite(),
        !s.is_empty(),
    ensures
        is_top(s, top(s)),
    decreases s.len(),
{
    let x = s.choose();
    let r = s.remove(x);
    if r.is_empty() {
        assert(is_top(s, x)) by {
            assert forall|y: Entry| #[trigger] s.contains(y) && y != x implies outranks(x, y) by {
                assert(r.contains(y));
            }
        }
    } else {
        lemma_top_exists(r);
        let t = top(r);
        if outranks(x, t) {
            assert(is_top(s, x)) by {
                assert forall|y: Entry| #[trigger] s.contains(y) && y != x implies outranks(x, y) by {
                    if y != t {
                        assert(r.contains(y));
                    }
                }
            }
        } else {
            assert(is_top(s, t)) by {
                assert forall|y: Entry| #[trigger] s.contains(y) && y != t implies outranks(t, y) by {
                    if y != x {
                        assert(r.contains(y));
                    }
                }
            }
        }
    }
}

/// Entries leave in order: the entry popped after the first one never outranks it, so
/// priorities come out from the highest down and, within a priority, elements from the
/// smallest up.
pub proof fn lemma_pop_order(s: Set<Entry>)
    requires
        s.finite(),
        s.len() >= 2,
    ensures
        outranks(top(s), top(s.remove(top(s)))),
{
    lemma_top_exists(s);
    let t = top(s);
    let r = s.remove(t);
    assert(r.len() == s.len() - 1);
    lemma_top_exists(r);
}

/// Pushing an entry that is already queued changes nothing.
pub proof fn lemma_push_queued(s: Set<Entry>, e: Entry)
    requires
        s.contains(e),
    ensures
        s.insert(e) == s,
{
    assert(s.insert(e) =~= s);
}

/// Removing an entry undoes pushing it, when it was not queued before.
pub proof fn lemma_remove_undoes_push(s: Set<Entry>, e: Entry)
    requires
        !s.contains(e),
    ensures
        s.insert(e).remove(e) == s,
{
    assert(s.insert(e).remove(e) =~= s);
}

/// A set of `(priority, element)` entries, popped highest priority first.
pub struct Queue {
    items: Vec<Entry>,
}

impl View for Queue {
    type V = Set<Entry>;

    closed spec fn view(&self) -> Set<Entry> {
        Set::new(|e: Entry| self.items@.contains(e))
    }
}

impl Queue {
    /// The queue holds no entry twice.
    pub closed spec fn wf(&self) -> bool {
        self.items@.no_duplicates()
    }

    /// The queue has finitely many entries.
    pub proof fn lemma_finite(&self)
        ensures
            self@.finite(),
    {
        assert(self@ =~= self.items@.to_set());
        vstd::seq_lib::seq_to_set_is_finite(self.items@);
    }

    /// An empty queue.
    pub fn new() -> (q: Self)
        ensures
            q.wf(),
            q@ == Set::<Entry>::empty(),
    {
        let q = Queue { items: Vec::new() };
        assert(q@ =~= Set::<Entry>::empty());
        q
    }

    fn index_of(&self, e: Entry) -> (r: Option<usize>)
        ensures
            match r {
                Some(i) => i < self.items@.len() && self.items@[i as int] == e,
                None => !self.items@.contains(e),
            },
    {
        let mut i: usize = 0;
        while i < self.items.len()
            invariant
                i <= self.items@.len(),
                forall|j: int| 0 <= j < i ==> self.items@[j] != e,
            decreases self.items@.len() - i,
        {
            if self.items[i].0 == e.0 && self.items[i].1 == e.1 {
                return Some(i);
            }
            i = i + 1;
        }
        None
    }

    /// Whether `element` is queued with `priority`.
    pub fn contains(&self, element: i64, priority: u64) -> (r: bool)
        ensures
            r == self@.contains((priority, element)),
    {
        self.index_of((priority, element)).is_some()
    }

    /// Adds `element` with `priority`; adding an entry that is already there changes nothing.
    pub fn push(&mut self, element: i64, priority: u64)
        requires
            old(self).wf(),
        ensures
            final(self).wf(),
            final(self)@ == old(self)@.insert((priority, element)),
    {
        let e = (priority, element);
        match self.index_of(e) {
            Some(_) => {
                assert(self@ =~= old(self)@.insert(e));
            },
            None => {
                self.items.push(e);
                assert(self.items@ == old(self).items@.push(e));
                assert forall|x: Entry| self.items@.contains(x) <==> (old(self).items@.contains(x)
                    || x == e) by {
                    if self.items@.contains(x) {
                        let k = choose|k: int| 0 <= k < self.items@.len() && self.items@[k] == x;
                        if k < old(self).items@.len() {
                            assert(old(self).items@[k] == x);
                        }
                    }
                    if old(self).items@.contains(x) {
                        let k = choose|k: int|
                            0 <= k < old(self).items@.len() && old(self).items@[k] == x;
                        assert(self.items@[k] == x);
                    }
                    if x == e {
                        assert(self.items@[self.items@.len() - 1] == x);
                    }
                }
                assert(self@ =~= old(self)@.insert(e));
            },
        }
    }

    proof fn lemma_remove_at(old_items: Seq<Entry>, i: int)
        requires
            old_items.no_duplicates(),
            0 <= i < old_items.len(),
        ensures
            old_items.remove(i).no_duplicates(),
            forall|x: Entry|
                old_items.remove(i).contains(x) <==> (old_items.contains(x) && x != old_items[i]),
    {
        let s = old_items.remove(i);
        assert forall|x: Entry| s.contains(x) <==> (old_items.contains(x) && x != old_items[i]) by {
            if s.contains(x) {
                let k = choose|k: int| 0 <= k < s.len() && s[k] == x;
                if k < i {
                    assert(old_items[k] == x);
                    assert(k != i);
                } else {
                    assert(old_items[k + 1] == x);
                    assert(k + 1 != i);
                }
            }
            if old_items.contains(x) && x != old_items[i] {
                let k = choose|k: int| 0 <= k < old_items.len() && old_items[k] == x;
                assert(k != i);
                if k < i {
                    assert(s[k] == x);
                } else {
                    assert(s[k - 1] == x);
                }
            }
        }
    }

    /// Takes the entry `(priority, element)` out, if it is there.
    pub fn remove(&mut self, element: i64, priority: u64)
        requires
            old(self).wf(),
        ensures
            final(self).wf(),
            final(self)@ == old(self)@.remove((priority, element)),
    {
        let e = (priority, element);
        match self.index_of(e) {
            Some(i) => {
                proof {
                    Self::lemma_remove_at(self.items@, i as int);
                }
                self.items.remove(i);
                assert(self@ =~= old(self)@.remove(e));
            },
            None => {
                assert(self@ =~= old(self)@.remove(e));
            },
        }
    }

    /// Takes out the entry with the highest priority (the smallest element among equal
    /// priorities) and returns its element; `None` when the queue is empty.
    pub fn pop(&mut self) -> (r: Option<i64>)
        requires
            old(self).wf(),
        ensures
            final(self).wf(),
            old(self)@.is_empty() ==> r is None && final(self)@ == old(self)@,
            !old(self)@.is_empty() ==> r == Some(top(old(self)@).1) && final(self)@ == old(
                self,
            )@.remove(top(old(self)@)),
    {
        if self.items.len() == 0 {
            assert(self@ =~= Set::<Entry>::empty()) by {
                assert forall|x: Entry| !self@.contains(x) by {}
            }
            return None;
        }
        let mut best: usize = 0;
        let mut i: usize = 1;
        while i < self.items.len()
            invariant
                0 <= best < i <= self.items@.len(),
                forall|j: int|
                    0 <= j < i && j != best ==> outranks(self.items@[best as int], self.items@[j]),
                self.items@.no_duplicates(),
            decreases self.items@.len() - i,
        {
            let a = self.items[best];
            let b = self.items[i];
            if b.0 > a.0 || (b.0 == a.0 && b.1 < a.1) {
                best = i;
            } else {
                assert(self.items@[best as int] != self.items@[i as int]);
            }
            i = i + 1;
        }
        let e = self.items[best];
        proof {
            let s = old(self)@;
            assert(is_top(s, e)) by {
                assert(s.contains(e)) by {
                    assert(self.items@[best as int] == e);
                }
                assert forall|x: Entry| #[trigger] s.contains(x) && x != e implies outranks(
                    e,
                    x,
                ) by {
                    let k = choose|k: int| 0 <= k < self.items@.len() && self.items@[k] == x;
                    assert(k != best);
                }
            }
            assert(exists|x: Entry| is_top(s, x));
            lemma_top_unique(s, e, top(s));
            assert(!s.is_empty()) by {
                assert(s.contains(e));
            }
            Self::lemma_remove_at(self.items@, best as int);
        }
        self.items.remove(best);
        assert(self@ =~= old(self)@.remove(e));
        Some(e.1)
    }
}

} // verus!
