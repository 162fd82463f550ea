//! Lexicographic order on byte strings, the order in which every engine keeps its keys.

use vstd::prelude::*;

verus! {

/// `a < b` lexicographically, looking only at positions `i` and later.
/// The two strings are taken to agree before `i`.
pub open spec fn lex_lt_from(a: Seq<u8>, b: Seq<u8>, i: int) -> bool
    decreases a.len() - i,
{
    if i >= b.len() {
        false
    } else if i >= a.len() {
        true
    } else if i < 0 {
        false
    } else if a[i] != b[i] {
        a[i] < b[i]
    } else {
        lex_lt_from(a, b, i + 1)
    }
}

/// `a < b` in lexicographic byte order: at the first position where they differ `a` holds
/// the smaller byte, or `a` is a proper prefix of `b`.
pub open spec fn lex_lt(a: Seq<u8>, b: Seq<u8>) -> bool {
    lex_lt_from(a, b, 0)
}

/// `a <= b` in lexicographic byte order.
pub open spec fn lex_le(a: Seq<u8>, b: Seq<u8>) -> bool {
    a == b || lex_lt(a, b)
}

/// `a` starts with `p`.
pub open spec fn has_prefix(a: Seq<u8>, p: Seq<u8>) -> bool {
    p.len() <= a.len() && a.subrange(0, p.len() as int) == p
}

/// The two strings hold the same bytes before position `i`.
pub open spec fn agree_before(a: Seq<u8>, b: Seq<u8>, i: int) -> bool {
    &&& 0 <= i <= a.len()
    &&& i <= b.len()
    &&& forall|j: int| 0 <= j < i ==> a[j] == b[j]
}

pub proof fn lemma_lex_from_agree(a: Seq<u8>, b: Seq<u8>, i: int)
    requires
        agree_before(a, b, i),
    ensures
        lex_lt(a, b) == lex_lt_from(a, b, i),
    decreases i,
{
    if i > 0 {
        lemma_lex_from_agree(a, b, i - 1);
    }
}

proof fn lemma_irreflexive_from(a: Seq<u8>, i: int)
    requires
        0 <= i,
    ensures
        !lex_lt_from(a, a, i),
    decreases a.len() - i,
{
    if i < a.len() {
        lemma_irreflexive_from(a, i + 1);
    }
}

/// No string is below itself.
pub proof fn lemma_lex_irreflexive(a: Seq<u8>)
    ensures
        !lex_lt(a, a),
{
    lemma_irreflexive_from(a, 0);
}

proof fn lemma_total_from(a: Seq<u8>, b: Seq<u8>, i: int)
    requires
        agree_before(a, b, i),
    ensures
        lex_lt_from(a, b, i) || lex_lt_from(b, a, i) || a == b,
        !(lex_lt_from(a, b, i) && lex_lt_from(b, a, i)),
    decreases a.len() - i,
{
    if i < a.len() && i < b.len() {
        if a[i] == b[i] {
            lemma_total_from(a, b, i + 1);
        }
    } else if i == a.len() && i == b.len() {
        assert(a =~= b);
    }
}

/// Of two strings exactly one of `a < b`, `a == b`, `b < a` holds.
pub proof fn lemma_lex_total(a: Seq<u8>, b: Seq<u8>)
    ensures
        lex_lt(a, b) || lex_lt(b, a) || a == b,
        !(lex_lt(a, b) && lex_lt(b, a)),
        !(lex_lt(a, b) && a == b),
{
    lemma_total_from(a, b, 0);
    lemma_lex_irreflexive(a);
}

proof fn lemma_transitive_from(a: Seq<u8>, b: Seq<u8>, c: Seq<u8>, i: int)
    requires
        agree_before(a, b, i),
        agree_before(b, c, i),
        lex_lt_from(a, b, i),
        lex_lt_from(b, c, i),
    ensures
        lex_lt_from(a, c, i),
    decreases a.len() - i,
{
    if i < a.len() && i < b.len() && i < c.len() {
        if a[i] == b[i] && b[i] == c[i] {
            lemma_transitive_from(a, b, c, i + 1);
        }
    }
}

/// The order is transitive.
pub proof fn lemma_lex_transitive(a: Seq<u8>, b: Seq<u8>, c: Seq<u8>)
    requires
        lex_lt(a, b),
        lex_lt(b, c),
    ensures
        lex_lt(a, c),
{
    lemma_transitive_from(a, b, c, 0);
}

/// `<=` followed by `<`, and `<` followed by `<=`, give `<`.
pub proof fn lemma_lex_le_lt(a: Seq<u8>, b: Seq<u8>, c: Seq<u8>)
    requires
        (lex_le(a, b) && lex_lt(b, c)) || (lex_lt(a, b) && lex_le(b, c)),
    ensures
        lex_lt(a, c),
{
    if a != b && b != c {
        lemma_lex_transitive(a, b, c);
    }
}

proof fn lemma_shift_from(p: Seq<u8>, a: Seq<u8>, b: Seq<u8>, i: int)
    requires
        0 <= i,
    ensures
        lex_lt_from(p + a, p + b, p.len() + i) == lex_lt_from(a, b, i),
    decreases a.len() - i,
{
    if i < a.len() && i < b.len() {
        assert((p + a)[p.len() + i] == a[i]);
        assert((p + b)[p.len() + i] == b[i]);
        if a[i] == b[i] {
            lemma_shift_from(p, a, b, i + 1);
        }
    }
}

/// Behind a common prefix the order is that of the rests.
pub proof fn lemma_lex_common_prefix(p: Seq<u8>, a: Seq<u8>, b: Seq<u8>)
    ensures
        lex_lt(p + a, p + b) == lex_lt(a, b),
        lex_le(p + a, p + b) == lex_le(a, b),
{
    assert(agree_before(p + a, p + b, p.len() as int));
    lemma_lex_from_agree(p + a, p + b, p.len() as int);
    lemma_shift_from(p, a, b, 0);
    if p + a == p + b {
        assert(a =~= (p + a).subrange(p.len() as int, (p + a).len() as int));
        assert(b =~= (p + b).subrange(p.len() as int, (p + b).len() as int));
    }
}

proof fn lemma_append_keeps_from(a: Seq<u8>, b: Seq<u8>, t: Seq<u8>, i: int)
    requires
        a.len() == b.len(),
        agree_before(a, b, i),
        lex_lt_from(a, b, i),
    ensures
        lex_lt_from(a + t, b, i),
    decreases a.len() - i,
{
    if i < a.len() {
        assert((a + t)[i] == a[i]);
        if a[i] == b[i] {
            lemma_append_keeps_from(a, b, t, i + 1);
        }
    }
}

/// Of two strings of one length, the lower stays lower whatever is appended to it.
pub proof fn lemma_lex_append_lower(a: Seq<u8>, b: Seq<u8>, t: Seq<u8>)
    requires
        a.len() == b.len(),
        lex_lt(a, b),
    ensures
        lex_lt(a + t, b),
{
    lemma_append_keeps_from(a, b, t, 0);
}

/// A string is below each of its proper extensions.
pub proof fn lemma_lex_extension(a: Seq<u8>, t: Seq<u8>)
    requires
        t.len() > 0,
    ensures
        lex_lt(a, a + t),
{
    assert(agree_before(a, a + t, a.len() as int));
    lemma_lex_from_agree(a, a + t, a.len() as int);
}

/// The place at which `a`, which is below `b`, first differs from `b`: `a` holds the
/// smaller byte there, or ends there.
pub proof fn lemma_lex_first_diff(a: Seq<u8>, b: Seq<u8>) -> (i: int)
    requires
        lex_lt(a, b),
    ensures
        agree_before(a, b, i),
        i < b.len(),
        i == a.len() || (i < a.len() && a[i] < b[i]),
{
    lemma_first_diff_from(a, b, 0)
}

proof fn lemma_first_diff_from(a: Seq<u8>, b: Seq<u8>, from: int) -> (i: int)
    requires
        agree_before(a, b, from),
        lex_lt_from(a, b, from),
    ensures
        agree_before(a, b, i),
        from <= i < b.len(),
        i == a.len() || (i < a.len() && a[i] < b[i]),
    decreases a.len() - from,
{
    if from >= a.len() {
        from
    } else if a[from] != b[from] {
        from
    } else {
        lemma_first_diff_from(a, b, from + 1)
    }
}

/// Two strings that agree up to a place where `a` ends or holds the smaller byte: `a` is
/// below `b`.
pub proof fn lemma_lex_by_diff(a: Seq<u8>, b: Seq<u8>, i: int)
    requires
        agree_before(a, b, i),
        i < b.len(),
        i == a.len() || (i < a.len() && a[i] < b[i]),
    ensures
        lex_lt(a, b),
{
    lemma_lex_from_agree(a, b, i);
}

/// Where `a` is below `b` and no prefix of it, whatever is appended to the two leaves
/// `a` below `b`.
pub proof fn lemma_lex_append_both(a: Seq<u8>, b: Seq<u8>, s: Seq<u8>, t: Seq<u8>)
    requires
        lex_lt(a, b),
        !has_prefix(b, a),
    ensures
        lex_lt(a + s, b + t),
{
    let i = lemma_lex_first_diff(a, b);
    if i == a.len() {
        assert(b.subrange(0, a.len() as int) =~= a);
    }
    assert(agree_before(a + s, b + t, i));
    lemma_lex_by_diff(a + s, b + t, i);
}

/// Nothing lies between a string and the string with a zero byte more: whatever is above
/// `a` is not below `a` followed by 0.
pub proof fn lemma_lex_successor(a: Seq<u8>, b: Seq<u8>)
    requires
        lex_lt(a, b),
    ensures
        lex_le(a.push(0u8), b),
{
    let s = a.push(0u8);
    let i = lemma_lex_first_diff(a, b);
    if i < a.len() {
        assert(agree_before(s, b, i));
        lemma_lex_by_diff(s, b, i);
    } else {
        assert(agree_before(s, b, i));
        if b[i] == 0 {
            assert(agree_before(s, b, i + 1));
            if b.len() == i + 1 {
                assert(s =~= b);
            } else {
                lemma_lex_by_diff(s, b, i + 1);
            }
        } else {
            lemma_lex_by_diff(s, b, i);
        }
    }
}

/// Compares two byte strings: `true` iff `a` is below `b`.
pub fn bytes_lt(a: &[u8], b: &[u8]) -> (r: bool)
    ensures
        r == lex_lt(a@, b@),
{
    let mut i: usize = 0;
    while i < a.len() && i < b.len()
        invariant
            agree_before(a@, b@, i as int),
        decreases a.len() - i,
    {
        if a[i] != b[i] {
            proof {
                lemma_lex_from_agree(a@, b@, i as int);
            }
            return a[i] < b[i];
        }
        i += 1;
    }
    proof {
        lemma_lex_from_agree(a@, b@, i as int);
    }
    i < b.len()
}

/// `true` iff the two byte strings are equal.
pub fn bytes_eq(a: &[u8], b: &[u8]) -> (r: bool)
    ensures
        r == (a@ == b@),
{
    if a.len() != b.len() {
        return false;
    }
    let mut i: usize = 0;
    while i < a.len()
        invariant
            a@.len() == b@.len(),
            agree_before(a@, b@, i as int),
        decreases a.len() - i,
    {
        if a[i] != b[i] {
            return false;
        }
        i += 1;
    }
    assert(a@ =~= b@);
    true
}

/// `true` iff `a <= b`.
pub fn bytes_le(a: &[u8], b: &[u8]) -> (r: bool)
    ensures
        r == lex_le(a@, b@),
{
    proof {
        lemma_lex_total(a@, b@);
    }
    !bytes_lt(b, a)
}

/// `true` iff `a` starts with `p`.
pub fn bytes_has_prefix(a: &[u8], p: &[u8]) -> (r: bool)
    ensures
        r == has_prefix(a@, p@),
{
    if p.len() > a.len() {
        return false;
    }
    let mut i: usize = 0;
    while i < p.len()
        invariant
            p@.len() <= a@.len(),
            agree_before(a@, p@, i as int),
        decreases p.len() - i,
    {
        if a[i] != p[i] {
            assert(a@.subrange(0, p@.len() as int)[i as int] == a@[i as int]);
            return false;
        }
        i += 1;
    }
    assert(a@.subrange(0, p@.len() as int) =~= p@);
    true
}

/// A copy of a byte string.
pub fn copy_bytes(a: &[u8]) -> (r: Vec<u8>)
    ensures
        r@ == a@,
{
    let mut out: Vec<u8> = Vec::with_capacity(a.len());
    let mut i: usize = 0;
    while i < a.len()
        invariant
            i <= a@.len(),
            out@ == a@.subrange(0, i as int),
        decreases a.len() - i,
    {
        out.push(a[i]);
        i += 1;
        assert(out@ =~= a@.subrange(0, i as int));
    }
    assert(out@ =~= a@);
    out
}

/// A copy of the bytes of `a` from `from` up to `to`.
pub fn copy_range(a: &[u8], from: usize, to: usize) -> (r: Vec<u8>)
    requires
        from <= to <= a@.len(),
    ensures
        r@ == a@.subrange(from as int, to as int),
{
    let mut out: Vec<u8> = Vec::with_capacity(to - from);
    let mut i: usize = from;
    while i < to
        invariant
            from <= i <= to,
            to <= a@.len(),
            out@ == a@.subrange(from as int, i as int),
        decreases to - i,
    {
        out.push(a[i]);
        i += 1;
        assert(out@ =~= a@.subrange(from as int, i as int));
    }
    out
}

/// The views of a list of byte strings.
pub open spec fn keys_view(ks: Seq<Vec<u8>>) -> Seq<Seq<u8>> {
    Seq::new(ks.len(), |i: int| ks[i]@)
}

/// `s` holds the strings of `keys`, each as often, from the lowest to the highest.
pub open spec fn is_sorted_of(s: Seq<Seq<u8>>, keys: Seq<Seq<u8>>) -> bool {
    &&& s.to_multiset() == keys.to_multiset()
    &&& forall|i: int, j: int| 0 <= i <= j < s.len() ==> lex_le(#[trigger] s[i], #[trigger] s[j])
}

/// `std`'s `sort` on a vector: the elements from the lowest to the highest, each as often
/// as before. Vectors of bytes compare lexicographically.
#[verifier::external_body]
pub(crate) fn sort_keys(keys: &mut Vec<Vec<u8>>)
    ensures
        is_sorted_of(keys_view(final(keys)@), keys_view(old(keys)@)),
{
    keys.sort();
}

} // verus!
