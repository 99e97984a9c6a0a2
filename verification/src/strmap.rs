//! Maps keyed by strings, kept in the byte order of their keys (as `BTreeMap<String, _>`
//! keeps them).
use vstd::prelude::*;

use crate::order::{key, lemma_key_injective, lemma_lex_irreflexive, lemma_lex_total, lemma_lex_transitive, lex_lt, string_less};

verus! {

spec fn to_map<V>(s: Seq<(String, V)>) -> Map<Seq<char>, V>
    decreases s.len(),
{
    if s.len() == 0 {
        Map::empty()
    } else {
        to_map(s.drop_last()).insert(s.last().0@, s.last().1)
    }
}

spec fn sorted<V>(s: Seq<(String, V)>) -> bool {
    forall|i: int, j: int| 0 <= i < j < s.len() ==> lex_lt(key(#[trigger] s[i].0@), key(#[trigger] s[j].0@))
}

proof fn lemma_to_map<V>(s: Seq<(String, V)>)
    requires
        sorted(s),
    ensures
        forall|k: Seq<char>| to_map(s).contains_key(k) <==> exists|i: int| 0 <= i < s.len() && #[trigger] s[i].0@ == k,
        forall|i: int| 0 <= i < s.len() ==> to_map(s)[#[trigger] s[i].0@] == s[i].1,
        to_map(s).dom().finite(),
        to_map(s).dom().len() == s.len(),
    decreases s.len(),
{
    if s.len() > 0 {
        let t = s.drop_last();
        assert(sorted(t));
        lemma_to_map(t);
        assert forall|i: int| 0 <= i < t.len() implies t[i].0@ != s.last().0@ by {
            assert(lex_lt(key(s[i].0@), key(s[s.len() - 1].0@)));
            lemma_lex_irreflexive(key(s.last().0@));
        }
        assert(!to_map(t).contains_key(s.last().0@));
        assert forall|k: Seq<char>| to_map(s).contains_key(k) <==> exists|i: int| 0 <= i < s.len() && #[trigger] s[i].0@ == k by {
            if to_map(s).contains_key(k) && k != s.last().0@ {
                let i = choose|i: int| 0 <= i < t.len() && #[trigger] t[i].0@ == k;
                assert(s[i].0@ == k);
            }
            if exists|i: int| 0 <= i < s.len() && #[trigger] s[i].0@ == k {
                let i = choose|i: int| 0 <= i < s.len() && #[trigger] s[i].0@ == k;
                if i < t.len() {
                    assert(t[i].0@ == k);
                }
            }
        }
        assert forall|i: int| 0 <= i < s.len() implies to_map(s)[#[trigger] s[i].0@] == s[i].1 by {
            if i < t.len() {
                assert(t[i] == s[i]);
                assert(t[i].0@ != s.last().0@);
            }
        }
    }
}

/// A map from strings to `V`, in byte order of its keys.
pub struct StrMap<V> {
    entries: Vec<(String, V)>,
}

impl<V> View for StrMap<V> {
    type V = Map<Seq<char>, V>;

    closed spec fn view(&self) -> Map<Seq<char>, V> {
        to_map(self.entries@)
    }
}

impl<V> StrMap<V> {
    /// The entries are kept in byte order of their keys, each key once.
    pub closed spec fn wf(&self) -> bool {
        sorted(self.entries@)
    }

    /// An empty map.
    pub fn new() -> (r: Self)
        ensures
            r.wf(),
            r@ == Map::<Seq<char>, V>::empty(),
    {
        StrMap { entries: Vec::new() }
    }

    /// Where `name` stands: `Ok(i)` if it is at `i`, `Err(i)` if it belongs at `i`.
    fn locate(&self, name: &String) -> (r: Result<usize, usize>)
        requires
            self.wf(),
        ensures
            match r {
                Ok(i) => i < self.entries@.len() && self.entries@[i as int].0@ == name@,
                Err(i) => {
                    &&& i <= self.entries@.len()
                    &&& forall|j: int| 0 <= j < i ==> lex_lt(key(#[trigger] self.entries@[j].0@), key(name@))
                    &&& forall|j: int| i <= j < self.entries@.len() ==> lex_lt(key(name@), key(#[trigger] self.entries@[j].0@))
                },
            },
    {
        let mut i: usize = 0;
        while i < self.entries.len()
            invariant
                self.wf(),
                i <= self.entries@.len(),
                forall|j: int| 0 <= j < i ==> lex_lt(key(#[trigger] self.entries@[j].0@), key(name@)),
            decreases self.entries@.len() - i,
        {
            if self.entries[i].0 == *name {
                return Ok(i);
            }
            if !string_less(&self.entries[i].0, name) {
                proof {
                    let s = self.entries@;
                    lemma_key_injective(s[i as int].0@, name@);
                    lemma_lex_total(key(s[i as int].0@), key(name@));
                    assert forall|j: int| i <= j < s.len() implies lex_lt(key(name@), key(#[trigger] s[j].0@)) by {
                        if j > i {
                            assert(lex_lt(key(s[i as int].0@), key(s[j].0@)));
                            lemma_lex_transitive(key(name@), key(s[i as int].0@), key(s[j].0@));
                        }
                    }
                }
                return Err(i);
            }
            i = i + 1;
        }
        Err(i)
    }

    proof fn lemma_view(&self)
        requires
            self.wf(),
        ensures
            forall|k: Seq<char>| self@.contains_key(k) <==> exists|i: int| 0 <= i < self.entries@.len() && #[trigger] self.entries@[i].0@ == k,
            forall|i: int| 0 <= i < self.entries@.len() ==> self@[#[trigger] self.entries@[i].0@] == self.entries@[i].1,
            self@.dom().finite(),
            self@.dom().len() == self.entries@.len(),
    {
        lemma_to_map(self.entries@);
    }

    fn insert_at(&mut self, i: usize, name: String, v: V)
        requires
            old(self).wf(),
            i <= old(self).entries@.len(),
            forall|j: int| 0 <= j < i ==> lex_lt(key(#[trigger] old(self).entries@[j].0@), key(name@)),
            forall|j: int| i <= j < old(self).entries@.len() ==> lex_lt(key(name@), key(#[trigger] old(self).entries@[j].0@)),
        ensures
            final(self).wf(),
            final(self)@ == old(self)@.insert(name@, v),
    {
        let ghost n = name@;
        let ghost old_s = self.entries@;
        proof {
            self.lemma_view();
        }
        self.entries.insert(i, (name, v));
        proof {
            let s = self.entries@;
            assert(s == old_s.insert(i as int, s[i as int]));
            assert(sorted(s)) by {
                assert forall|a: int, b: int| 0 <= a < b < s.len() implies lex_lt(key(#[trigger] s[a].0@), key(#[trigger] s[b].0@)) by {
                    if a < i && b < i {
                        assert(lex_lt(key(old_s[a].0@), key(old_s[b].0@)));
                    } else if a < i && b == i {
                    } else if a < i && b > i {
                        assert(s[b] == old_s[b - 1]);
                        assert(lex_lt(key(old_s[a].0@), key(n)));
                        lemma_lex_transitive(key(old_s[a].0@), key(n), key(old_s[b - 1].0@));
                    } else if a == i {
                        assert(s[b] == old_s[b - 1]);
                    } else {
                        assert(s[a] == old_s[a - 1]);
                        assert(s[b] == old_s[b - 1]);
                        assert(lex_lt(key(old_s[a - 1].0@), key(old_s[b - 1].0@)));
                    }
                }
            }
            self.lemma_view();
            assert forall|j: int| 0 <= j < old_s.len() implies old_s[j].0@ != n by {
                if j < i {
                    assert(lex_lt(key(old_s[j].0@), key(n)));
                } else {
                    assert(lex_lt(key(n), key(old_s[j].0@)));
                }
                lemma_lex_irreflexive(key(n));
            }
            assert(self@ =~= to_map(old_s).insert(n, v)) by {
                lemma_to_map(old_s);
                assert forall|k: Seq<char>| self@.contains_key(k) <==> to_map(old_s).insert(n, v).contains_key(k) by {
                    if self@.contains_key(k) {
                        let j = choose|j: int| 0 <= j < s.len() && #[trigger] s[j].0@ == k;
                        if j < i {
                            assert(s[j] == old_s[j]);
                        } else if j > i {
                            assert(s[j] == old_s[j - 1]);
                        }
                    }
                    if to_map(old_s).contains_key(k) {
                        let j = choose|j: int| 0 <= j < old_s.len() && #[trigger] old_s[j].0@ == k;
                        if j < i {
                            assert(s[j] == old_s[j]);
                        } else {
                            assert(s[j + 1] == old_s[j]);
                        }
                    }
                    if k == n {
                        assert(s[i as int].0@ == n);
                    }
                }
                assert forall|k: Seq<char>| #[trigger] self@.contains_key(k) implies self@[k] == to_map(old_s).insert(n, v)[k] by {
                    let j = choose|j: int| 0 <= j < s.len() && #[trigger] s[j].0@ == k;
                    if j < i {
                        assert(s[j] == old_s[j]);
                    } else if j > i {
                        assert(s[j] == old_s[j - 1]);
                    }
                }
            }
        }
    }

    fn set_at(&mut self, i: usize, v: V)
        requires
            old(self).wf(),
            i < old(self).entries@.len(),
        ensures
            final(self).wf(),
            final(self)@ == old(self)@.insert(old(self).entries@[i as int].0@, v),
            final(self).entries@.len() == old(self).entries@.len(),
    {
        let ghost old_s = self.entries@;
        let ghost n = old_s[i as int].0@;
        proof {
            self.lemma_view();
        }
        self.entries[i].1 = v;
        proof {
            let s = self.entries@;
            assert(sorted(s)) by {
                assert forall|a: int, b: int| 0 <= a < b < s.len() implies lex_lt(key(#[trigger] s[a].0@), key(#[trigger] s[b].0@)) by {
                    assert(lex_lt(key(old_s[a].0@), key(old_s[b].0@)));
                }
            }
            self.lemma_view();
            lemma_to_map(old_s);
            assert(self@ =~= to_map(old_s).insert(n, v)) by {
                assert forall|k: Seq<char>| #[trigger] self@.contains_key(k) implies self@[k] == to_map(old_s).insert(n, v)[k] by {
                    let j = choose|j: int| 0 <= j < s.len() && #[trigger] s[j].0@ == k;
                    if j != i {
                        assert(s[j] == old_s[j]);
                        assert(lex_lt(key(old_s[j].0@), key(n)) || lex_lt(key(n), key(old_s[j].0@)));
                        lemma_lex_irreflexive(key(n));
                    }
                }
                assert forall|k: Seq<char>| self@.contains_key(k) <==> to_map(old_s).insert(n, v).contains_key(k) by {
                    if to_map(old_s).contains_key(k) {
                        let j = choose|j: int| 0 <= j < old_s.len() && #[trigger] old_s[j].0@ == k;
                        assert(s[j].0@ == k);
                    }
                    if self@.contains_key(k) {
                        let j = choose|j: int| 0 <= j < s.len() && #[trigger] s[j].0@ == k;
                        assert(old_s[j].0@ == k);
                    }
                }
            }
        }
    }

    /// The value of `name`, if any.
    pub fn get(&self, name: &String) -> (r: Option<&V>)
        requires
            self.wf(),
        ensures
            match r {
                Some(v) => self@.contains_key(name@) && self@[name@] == *v,
                None => !self@.contains_key(name@),
            },
    {
        proof {
            self.lemma_view();
        }
        match self.locate(name) {
            Ok(i) => Some(&self.entries[i].1),
            Err(i) => {
                proof {
                    assert forall|j: int| 0 <= j < self.entries@.len() implies #[trigger] self.entries@[j].0@ != name@ by {
                        if j < i {
                            assert(lex_lt(key(self.entries@[j].0@), key(name@)));
                        } else {
                            assert(lex_lt(key(name@), key(self.entries@[j].0@)));
                        }
                        lemma_lex_irreflexive(key(name@));
                    }
                }
                None
            },
        }
    }

    /// Sets `name` to `v`, replacing any former value.
    pub fn insert(&mut self, name: String, v: V)
        requires
            old(self).wf(),
        ensures
            final(self).wf(),
            final(self)@ == old(self)@.insert(name@, v),
    {
        proof {
            self.lemma_view();
        }
        match self.locate(&name) {
            Ok(i) => {
                self.set_at(i, v);
            },
            Err(i) => {
                self.insert_at(i, name, v);
            },
        }
    }

    /// Removes the entry for `name`, if any.
    pub fn remove(&mut self, name: &String)
        requires
            old(self).wf(),
        ensures
            final(self).wf(),
            final(self)@ == old(self)@.remove(name@),
    {
        proof {
            self.lemma_view();
        }
        match self.locate(name) {
            Ok(i) => {
                let ghost old_s = self.entries@;
                self.entries.remove(i);
                proof {
                    let s = self.entries@;
                    assert(sorted(s)) by {
                        assert forall|a: int, b: int| 0 <= a < b < s.len() implies lex_lt(key(#[trigger] s[a].0@), key(#[trigger] s[b].0@)) by {
                            let a2 = if a < i { a } else { a + 1 };
                            let b2 = if b < i { b } else { b + 1 };
                            assert(s[a] == old_s[a2]);
                            assert(s[b] == old_s[b2]);
                            assert(lex_lt(key(old_s[a2].0@), key(old_s[b2].0@)));
                        }
                    }
                    self.lemma_view();
                    lemma_to_map(old_s);
                    assert(self@ =~= to_map(old_s).remove(name@)) by {
                        assert forall|k: Seq<char>| self@.contains_key(k) <==> to_map(old_s).remove(name@).contains_key(k) by {
                            if self@.contains_key(k) {
                                let j = choose|j: int| 0 <= j < s.len() && #[trigger] s[j].0@ == k;
                                let j2 = if j < i { j } else { j + 1 };
                                assert(s[j] == old_s[j2]);
                                assert(j2 != i);
                                if j2 < i {
                                    assert(lex_lt(key(old_s[j2].0@), key(old_s[i as int].0@)));
                                } else {
                                    assert(lex_lt(key(old_s[i as int].0@), key(old_s[j2].0@)));
                                }
                                lemma_lex_irreflexive(key(name@));
                            }
                            if to_map(old_s).remove(name@).contains_key(k) {
                                let j = choose|j: int| 0 <= j < old_s.len() && #[trigger] old_s[j].0@ == k;
                                assert(j != i);
                                if j < i {
                                    assert(s[j] == old_s[j]);
                                } else {
                                    assert(s[j - 1] == old_s[j]);
                                }
                            }
                        }
                        assert forall|k: Seq<char>| #[trigger] self@.contains_key(k) implies self@[k] == to_map(old_s).remove(name@)[k] by {
                            let j = choose|j: int| 0 <= j < s.len() && #[trigger] s[j].0@ == k;
                            let j2 = if j < i { j } else { j + 1 };
                            assert(s[j] == old_s[j2]);
                        }
                    }
                }
            },
            Err(i) => {
                proof {
                    assert forall|j: int| 0 <= j < self.entries@.len() implies #[trigger] self.entries@[j].0@ != name@ by {
                        if j < i {
                            assert(lex_lt(key(self.entries@[j].0@), key(name@)));
                        } else {
                            assert(lex_lt(key(name@), key(self.entries@[j].0@)));
                        }
                        lemma_lex_irreflexive(key(name@));
                    }
                    assert(self@ =~= self@.remove(name@));
                }
            },
        }
    }

    /// The keys, in byte order, each once.
    pub fn keys(&self) -> (r: Vec<String>)
        requires
            self.wf(),
        ensures
            r@.len() == self@.dom().len(),
            forall|k: Seq<char>| self@.contains_key(k) <==> exists|i: int| 0 <= i < r@.len() && #[trigger] r@[i]@ == k,
            forall|i: int, j: int| 0 <= i < j < r@.len() ==> lex_lt(key(#[trigger] r@[i]@), key(#[trigger] r@[j]@)),
    {
        proof {
            self.lemma_view();
        }
        let mut r: Vec<String> = Vec::new();
        let mut i: usize = 0;
        while i < self.entries.len()
            invariant
                i <= self.entries@.len(),
                r@.len() == i,
                forall|j: int| 0 <= j < i ==> #[trigger] r@[j]@ == self.entries@[j].0@,
            decreases self.entries@.len() - i,
        {
            r.push(self.entries[i].0.clone());
            i = i + 1;
        }
        proof {
            assert forall|k: Seq<char>| self@.contains_key(k) <==> exists|i: int| 0 <= i < r@.len() && #[trigger] r@[i]@ == k by {
                if self@.contains_key(k) {
                    let j = choose|j: int| 0 <= j < self.entries@.len() && #[trigger] self.entries@[j].0@ == k;
                    assert(r@[j]@ == k);
                }
                if exists|i: int| 0 <= i < r@.len() && #[trigger] r@[i]@ == k {
                    let j = choose|j: int| 0 <= j < r@.len() && #[trigger] r@[j]@ == k;
                    assert(self.entries@[j].0@ == k);
                }
            }
            assert forall|a: int, b: int| 0 <= a < b < r@.len() implies lex_lt(key(#[trigger] r@[a]@), key(#[trigger] r@[b]@)) by {
                assert(lex_lt(key(self.entries@[a].0@), key(self.entries@[b].0@)));
            }
        }
        r
    }

}

} // verus!
