//! The order of strings: lexicographic on their UTF-8 bytes, as `String`'s `Ord` does.
use vstd::prelude::*;
use vstd::utf8::encode_utf8;

verus! {

/// `a` comes before `b` in lexicographic byte order.
pub open spec fn lex_lt(a: Seq<u8>, b: Seq<u8>) -> bool
    decreases a.len(),
{
    if b.len() == 0 {
        false
    } else if a.len() == 0 {
        true
    } else if a[0] != b[0] {
        a[0] < b[0]
    } else {
        lex_lt(a.drop_first(), b.drop_first())
    }
}

/// The bytes by which a string is ordered.
pub open spec fn key(s: Seq<char>) -> Seq<u8> {
    encode_utf8(s)
}

pub proof fn lemma_lex_irreflexive(a: Seq<u8>)
    ensures
        !lex_lt(a, a),
    decreases a.len(),
{
    if a.len() > 0 {
        lemma_lex_irreflexive(a.drop_first());
    }
}

pub proof fn lemma_lex_asymmetric(a: Seq<u8>, b: Seq<u8>)
    ensures
        lex_lt(a, b) ==> !lex_lt(b, a),
    decreases a.len(),
{
    if a.len() > 0 && b.len() > 0 && a[0] == b[0] {
        lemma_lex_asymmetric(a.drop_first(), b.drop_first());
    }
}

pub proof fn lemma_lex_transitive(a: Seq<u8>, b: Seq<u8>, c: Seq<u8>)
    ensures
        lex_lt(a, b) && lex_lt(b, c) ==> lex_lt(a, c),
    decreases a.len(),
{
    if a.len() > 0 && b.len() > 0 && c.len() > 0 && a[0] == b[0] && b[0] == c[0] {
        lemma_lex_transitive(a.drop_first(), b.drop_first(), c.drop_first());
    }
}

pub proof fn lemma_lex_total(a: Seq<u8>, b: Seq<u8>)
    ensures
        a != b ==> lex_lt(a, b) || lex_lt(b, a),
    decreases a.len(),
{
    if a.len() > 0 && b.len() > 0 && a[0] == b[0] {
        lemma_lex_total(a.drop_first(), b.drop_first());
        if a.drop_first() == b.drop_first() {
            assert(a =~= b) by {
                assert forall|i: int| 0 <= i < a.len() implies a[i] == b[i] by {
                    if i > 0 {
                        assert(a[i] == a.drop_first()[i - 1]);
                        assert(b[i] == b.drop_first()[i - 1]);
                    }
                }
            }
        }
    }
    if a.len() == 0 && b.len() == 0 {
        assert(a =~= b);
    }
}

/// Distinct strings have distinct bytes.
pub proof fn lemma_key_injective(a: Seq<char>, b: Seq<char>)
    ensures
        key(a) == key(b) ==> a == b,
{
    vstd::utf8::encode_utf8_decode_utf8(a);
    vstd::utf8::encode_utf8_decode_utf8(b);
}

/// `s` holds exactly the strings of `names`, in byte order (hence each once).
pub open spec fn lists(names: Set<Seq<char>>, s: Seq<String>) -> bool {
    &&& forall|k: Seq<char>| names.contains(k) <==> exists|i: int| 0 <= i < s.len() && #[trigger] s[i]@ == k
    &&& forall|i: int, j: int| 0 <= i < j < s.len() ==> lex_lt(key(#[trigger] s[i]@), key(#[trigger] s[j]@))
}

/// A list in strict byte order holds each string once.
pub proof fn lemma_lists_distinct(names: Set<Seq<char>>, s: Seq<String>)
    requires
        lists(names, s),
    ensures
        forall|i: int, j: int| 0 <= i < j < s.len() ==> #[trigger] s[i]@ != #[trigger] s[j]@,
{
    assert forall|i: int, j: int| 0 <= i < j < s.len() implies #[trigger] s[i]@ != #[trigger] s[j]@ by {
        lemma_lex_irreflexive(key(s[i]@));
    }
}

/// At most one sequence lists a set of strings in byte order.
pub proof fn lemma_lists_unique(names: Set<Seq<char>>, a: Seq<String>, b: Seq<String>)
    requires
        lists(names, a),
        lists(names, b),
    ensures
        a.map_values(|x: String| x@) == b.map_values(|x: String| x@),
    decreases a.len(),
{
    let va = a.map_values(|x: String| x@);
    let vb = b.map_values(|x: String| x@);
    if a.len() == 0 {
        if b.len() > 0 {
            assert(names.contains(b[0]@));
        }
        assert(va =~= vb);
    } else {
        assert(names.contains(a[0]@));
        let j = choose|j: int| 0 <= j < b.len() && #[trigger] b[j]@ == a[0]@;
        assert(names.contains(b[0]@));
        let i = choose|i: int| 0 <= i < a.len() && #[trigger] a[i]@ == b[0]@;
        if a[0]@ != b[0]@ {
            assert(lex_lt(key(b[0]@), key(b[j]@)));
            assert(lex_lt(key(a[0]@), key(a[i]@)));
            lemma_lex_asymmetric(key(a[0]@), key(b[0]@));
        }
        let rest = names.remove(a[0]@);
        let a1 = a.drop_first();
        let b1 = b.drop_first();
        assert forall|k: Seq<char>| rest.contains(k) <==> exists|i: int| 0 <= i < a1.len() && #[trigger] a1[i]@ == k by {
            if rest.contains(k) {
                let i = choose|i: int| 0 <= i < a.len() && #[trigger] a[i]@ == k;
                assert(a1[i - 1]@ == k);
            }
            if exists|i: int| 0 <= i < a1.len() && #[trigger] a1[i]@ == k {
                let i = choose|i: int| 0 <= i < a1.len() && #[trigger] a1[i]@ == k;
                assert(a[i + 1]@ == k);
                assert(lex_lt(key(a[0]@), key(a[i + 1]@)));
                lemma_lex_irreflexive(key(k));
            }
        }
        assert forall|k: Seq<char>| rest.contains(k) <==> exists|i: int| 0 <= i < b1.len() && #[trigger] b1[i]@ == k by {
            if rest.contains(k) {
                let i = choose|i: int| 0 <= i < b.len() && #[trigger] b[i]@ == k;
                assert(b1[i - 1]@ == k);
            }
            if exists|i: int| 0 <= i < b1.len() && #[trigger] b1[i]@ == k {
                let i = choose|i: int| 0 <= i < b1.len() && #[trigger] b1[i]@ == k;
                assert(b[i + 1]@ == k);
                assert(lex_lt(key(b[0]@), key(b[i + 1]@)));
                lemma_lex_irreflexive(key(k));
            }
        }
        assert forall|x: int, y: int| 0 <= x < y < a1.len() implies lex_lt(key(#[trigger] a1[x]@), key(#[trigger] a1[y]@)) by {
            assert(lex_lt(key(a[x + 1]@), key(a[y + 1]@)));
        }
        assert forall|x: int, y: int| 0 <= x < y < b1.len() implies lex_lt(key(#[trigger] b1[x]@), key(#[trigger] b1[y]@)) by {
            assert(lex_lt(key(b[x + 1]@), key(b[y + 1]@)));
        }
        lemma_lists_unique(rest, a1, b1);
        let va1 = a1.map_values(|x: String| x@);
        let vb1 = b1.map_values(|x: String| x@);
        assert(va1.len() == vb1.len());
        assert(va.len() == vb.len());
        assert forall|x: int| 0 <= x < va.len() implies va[x] == vb[x] by {
            if x > 0 {
                assert(va1[x - 1] == vb1[x - 1]);
                assert(va[x] == a1[x - 1]@);
                assert(vb[x] == b1[x - 1]@);
            }
        }
        assert(va =~= vb);
    }
}

/// Whether `a` comes before `b` in lexicographic byte order.
pub fn bytes_less(a: &[u8], b: &[u8]) -> (r: bool)
    ensures
        r == lex_lt(a@, b@),
{
    let mut i: usize = 0;
    assert(a@.skip(0) =~= a@);
    assert(b@.skip(0) =~= b@);
    while i < a.len() && i < b.len()
        invariant
            i <= a@.len(),
            i <= b@.len(),
            lex_lt(a@, b@) == lex_lt(a@.skip(i as int), b@.skip(i as int)),
        decreases a@.len() - i,
    {
        let x = a[i];
        let y = b[i];
        assert(a@.skip(i as int)[0] == x);
        assert(b@.skip(i as int)[0] == y);
        if x != y {
            return x < y;
        }
        assert(a@.skip(i as int).drop_first() =~= a@.skip(i + 1));
        assert(b@.skip(i as int).drop_first() =~= b@.skip(i + 1));
        i = i + 1;
    }
    i < b.len()
}

/// Whether string `a` comes before string `b`.
pub fn string_less(a: &String, b: &String) -> (r: bool)
    ensures
        r == lex_lt(key(a@), key(b@)),
{
    bytes_less(a.as_str().as_bytes(), b.as_str().as_bytes())
}

} // verus!
