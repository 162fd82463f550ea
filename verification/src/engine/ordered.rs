//! One column family: byte keys in lexicographic order, each with a value.

use crate::util::order::{
    bytes_eq, bytes_lt, copy_bytes, lemma_lex_irreflexive, lemma_lex_le_lt, lemma_lex_total,
    lemma_lex_transitive, lex_le, lex_lt,
};
use vstd::prelude::*;

verus! {

/// A key with its value.
pub type KvPair = (Vec<u8>, Vec<u8>);

/// The key of the `i`-th pair.
pub open spec fn key_at(es: Seq<KvPair>, i: int) -> Seq<u8> {
    es[i].0@
}

/// Every key is below the next one.
pub open spec fn strictly_sorted(es: Seq<KvPair>) -> bool {
    forall|i: int, j: int|
        0 <= i < j < es.len() ==> lex_lt(#[trigger] key_at(es, i), #[trigger] key_at(es, j))
}

/// Some pair has the key `k`.
pub open spec fn holds_key(es: Seq<KvPair>, k: Seq<u8>) -> bool {
    exists|i: int| 0 <= i < es.len() && #[trigger] key_at(es, i) == k
}

/// The place of the key `k`.
pub open spec fn index_of(es: Seq<KvPair>, k: Seq<u8>) -> int {
    choose|i: int| 0 <= i < es.len() && #[trigger] key_at(es, i) == k
}

/// The pairs as a map.
pub open spec fn map_of(es: Seq<KvPair>) -> Map<Seq<u8>, Seq<u8>> {
    Map::new(|k: Seq<u8>| holds_key(es, k), |k: Seq<u8>| es[index_of(es, k)].1@)
}

/// `k` is the first key of `m` that is not below `key`.
pub open spec fn is_first_from(m: Map<Seq<u8>, Seq<u8>>, key: Seq<u8>, k: Seq<u8>) -> bool {
    &&& m.dom().contains(k)
    &&& lex_le(key, k)
    &&& forall|x: Seq<u8>| #[trigger] m.dom().contains(x) && lex_le(key, x) ==> lex_le(k, x)
}

/// `k` is the last key of `m` that is not above `key`.
pub open spec fn is_last_upto(m: Map<Seq<u8>, Seq<u8>>, key: Seq<u8>, k: Seq<u8>) -> bool {
    &&& m.dom().contains(k)
    &&& lex_le(k, key)
    &&& forall|x: Seq<u8>| #[trigger] m.dom().contains(x) && lex_le(x, key) ==> lex_le(x, k)
}

/// `k` is the last key of `m` that is below `key`.
pub open spec fn is_last_below(m: Map<Seq<u8>, Seq<u8>>, key: Seq<u8>, k: Seq<u8>) -> bool {
    &&& m.dom().contains(k)
    &&& lex_lt(k, key)
    &&& forall|x: Seq<u8>| #[trigger] m.dom().contains(x) && lex_lt(x, key) ==> lex_le(x, k)
}

/// `m` without the keys from `start` up to, not including, `end`.
pub open spec fn without_range(m: Map<Seq<u8>, Seq<u8>>, start: Seq<u8>, end: Seq<u8>) -> Map<
    Seq<u8>,
    Seq<u8>,
> {
    m.remove_keys(Set::new(|k: Seq<u8>| lex_le(start, k) && lex_lt(k, end)))
}

/// The views of a list of pairs.
pub open spec fn pairs_view(es: Seq<KvPair>) -> Seq<(Seq<u8>, Seq<u8>)> {
    Seq::new(es.len(), |i: int| (es[i].0@, es[i].1@))
}

/// `r` lists, in key order, exactly the pairs of `m` whose keys lie from `start` up to, not
/// including, `end`.
pub open spec fn is_range_of(
    m: Map<Seq<u8>, Seq<u8>>,
    start: Seq<u8>,
    end: Seq<u8>,
    r: Seq<(Seq<u8>, Seq<u8>)>,
) -> bool {
    &&& forall|i: int, j: int| 0 <= i < j < r.len() ==> lex_lt(#[trigger] r[i].0, #[trigger] r[j].0)
    &&& forall|i: int|
        0 <= i < r.len() ==> {
            &&& m.dom().contains(#[trigger] r[i].0)
            &&& m[r[i].0] == r[i].1
            &&& lex_le(start, r[i].0)
            &&& lex_lt(r[i].0, end)
        }
    &&& forall|k: Seq<u8>|
        #[trigger] m.dom().contains(k) && lex_le(start, k) && lex_lt(k, end) ==> exists|i: int|
            0 <= i < r.len() && #[trigger] r[i].0 == k
}

/// `r` lists, in key order, exactly the pairs of `m`.
pub open spec fn is_listing_of(m: Map<Seq<u8>, Seq<u8>>, r: Seq<(Seq<u8>, Seq<u8>)>) -> bool {
    &&& forall|i: int, j: int| 0 <= i < j < r.len() ==> lex_lt(#[trigger] r[i].0, #[trigger] r[j].0)
    &&& forall|i: int| 0 <= i < r.len() ==> m.dom().contains(#[trigger] r[i].0) && m[r[i].0] == r[i].1
    &&& forall|k: Seq<u8>| #[trigger]
        m.dom().contains(k) ==> exists|i: int| 0 <= i < r.len() && #[trigger] r[i].0 == k
}

/// The size of the pairs: their keys and values together.
pub open spec fn pairs_size(r: Seq<(Seq<u8>, Seq<u8>)>) -> nat
    decreases r.len(),
{
    if r.len() == 0 {
        0
    } else {
        pairs_size(r.drop_last()) + r.last().0.len() + r.last().1.len()
    }
}

/// The pairs of `m` whose keys lie from `start` up to, not including, `end`, in key order.
pub open spec fn range_of(m: Map<Seq<u8>, Seq<u8>>, start: Seq<u8>, end: Seq<u8>) -> Seq<
    (Seq<u8>, Seq<u8>),
> {
    choose|r: Seq<(Seq<u8>, Seq<u8>)>| is_range_of(m, start, end, r)
}

/// `n` as a `u64`, `u64::MAX` where it is too large.
pub open spec fn capped(n: nat) -> u64 {
    if n > u64::MAX {
        u64::MAX
    } else {
        n as u64
    }
}

/// The keys of `r` with the size of the pairs up to and including each, capped.
pub open spec fn offsets_of(r: Seq<(Seq<u8>, Seq<u8>)>) -> Seq<(Seq<u8>, u64)> {
    Seq::new(r.len(), |i: int| (r[i].0, capped(pairs_size(r.take(i + 1)))))
}

proof fn lemma_range_climbs(
    m: Map<Seq<u8>, Seq<u8>>,
    start: Seq<u8>,
    end: Seq<u8>,
    a: Seq<(Seq<u8>, Seq<u8>)>,
    b: Seq<(Seq<u8>, Seq<u8>)>,
    i: int,
) -> (j: int)
    requires
        is_range_of(m, start, end, a),
        is_range_of(m, start, end, b),
        0 <= i < a.len(),
    ensures
        i <= j < b.len(),
        b[j].0 == a[i].0,
    decreases i,
{
    assert(m.dom().contains(a[i].0));
    let j = choose|j: int| 0 <= j < b.len() && (#[trigger] b[j]).0 == a[i].0;
    if i > 0 {
        let before = lemma_range_climbs(m, start, end, a, b, i - 1);
        assert(lex_lt(a[i - 1].0, a[i].0));
        if j <= before {
            lemma_lex_irreflexive(a[i].0);
            if j < before {
                assert(lex_lt(b[j].0, b[before].0));
                lemma_lex_transitive(a[i].0, a[i - 1].0, a[i].0);
            }
        }
    }
    j
}

/// The contents decide what a range holds: two lists of the same range are the same.
pub proof fn lemma_range_unique(
    m: Map<Seq<u8>, Seq<u8>>,
    start: Seq<u8>,
    end: Seq<u8>,
    a: Seq<(Seq<u8>, Seq<u8>)>,
    b: Seq<(Seq<u8>, Seq<u8>)>,
)
    requires
        is_range_of(m, start, end, a),
        is_range_of(m, start, end, b),
    ensures
        a == b,
        range_of(m, start, end) == a,
{
    lemma_range_unique_pair(m, start, end, a, b);
    lemma_range_unique_pair(m, start, end, range_of(m, start, end), a);
}

proof fn lemma_range_unique_pair(
    m: Map<Seq<u8>, Seq<u8>>,
    start: Seq<u8>,
    end: Seq<u8>,
    a: Seq<(Seq<u8>, Seq<u8>)>,
    b: Seq<(Seq<u8>, Seq<u8>)>,
)
    requires
        is_range_of(m, start, end, a),
        is_range_of(m, start, end, b),
    ensures
        a == b,
{
    if a.len() > 0 {
        let j = lemma_range_climbs(m, start, end, a, b, a.len() - 1);
    }
    if b.len() > 0 {
        let j = lemma_range_climbs(m, start, end, b, a, b.len() - 1);
    }
    assert forall|i: int| 0 <= i < a.len() implies a[i] == b[i] by {
        let j = lemma_range_climbs(m, start, end, a, b, i);
        let k = lemma_range_climbs(m, start, end, b, a, j);
        if k != i {
            lemma_lex_irreflexive(a[i].0);
            if k < i {
                assert(lex_lt(a[k].0, a[i].0));
            } else {
                assert(lex_lt(a[i].0, a[k].0));
            }
        }
        assert(m[a[i].0] == a[i].1);
        assert(m[b[i].0] == b[i].1);
    }
    assert(a =~= b);
}

proof fn lemma_index_unique(es: Seq<KvPair>, i: int, j: int)
    requires
        strictly_sorted(es),
        0 <= i < es.len(),
        0 <= j < es.len(),
        key_at(es, i) == key_at(es, j),
    ensures
        i == j,
{
    lemma_lex_irreflexive(key_at(es, i));
}

proof fn lemma_map_at(es: Seq<KvPair>, i: int)
    requires
        strictly_sorted(es),
        0 <= i < es.len(),
    ensures
        map_of(es).dom().contains(key_at(es, i)),
        map_of(es)[key_at(es, i)] == es[i].1@,
{
    let k = key_at(es, i);
    assert(holds_key(es, k));
    lemma_index_unique(es, i, index_of(es, k));
}

proof fn lemma_absent(es: Seq<KvPair>, key: Seq<u8>, i: int)
    requires
        strictly_sorted(es),
        0 <= i <= es.len(),
        forall|j: int| 0 <= j < i ==> lex_lt(#[trigger] key_at(es, j), key),
        i < es.len() ==> lex_lt(key, key_at(es, i)),
    ensures
        !map_of(es).dom().contains(key),
{
    if holds_key(es, key) {
        let j = index_of(es, key);
        lemma_lex_irreflexive(key);
        if j > i {
            lemma_lex_transitive(key, key_at(es, i), key_at(es, j));
        }
    }
}

proof fn lemma_from_bound(es: Seq<KvPair>, key: Seq<u8>, i: int, j: int)
    requires
        strictly_sorted(es),
        0 <= i <= j < es.len(),
        lex_le(key, key_at(es, i)),
    ensures
        lex_le(key, key_at(es, j)),
{
    if i < j {
        lemma_lex_le_lt(key, key_at(es, i), key_at(es, j));
    }
}

proof fn lemma_insert(es: Seq<KvPair>, i: int, pair: KvPair)
    requires
        strictly_sorted(es),
        0 <= i <= es.len(),
        forall|j: int| 0 <= j < i ==> lex_lt(#[trigger] key_at(es, j), pair.0@),
        i < es.len() ==> lex_lt(pair.0@, key_at(es, i)),
    ensures
        strictly_sorted(es.insert(i, pair)),
        map_of(es.insert(i, pair)) == map_of(es).insert(pair.0@, pair.1@),
{
    let es2 = es.insert(i, pair);
    let k = pair.0@;
    assert forall|a: int, b: int| 0 <= a < b < es2.len() implies lex_lt(
        #[trigger] key_at(es2, a),
        #[trigger] key_at(es2, b),
    ) by {
        if b < i {
            assert(key_at(es2, a) == key_at(es, a) && key_at(es2, b) == key_at(es, b));
        } else if b == i {
            assert(key_at(es2, a) == key_at(es, a));
        } else if a < i {
            assert(key_at(es2, a) == key_at(es, a) && key_at(es2, b) == key_at(es, b - 1));
            if i < b - 1 {
                lemma_lex_transitive(k, key_at(es, i), key_at(es, b - 1));
            }
            if a < b - 1 {
            } else {
            }
            lemma_lex_transitive(key_at(es, a), k, key_at(es, b - 1));
        } else if a == i {
            assert(key_at(es2, b) == key_at(es, b - 1));
            lemma_from_bound(es, k, i, b - 1);
            if i < b - 1 {
                lemma_lex_transitive(k, key_at(es, i), key_at(es, b - 1));
            }
        } else {
            assert(key_at(es2, a) == key_at(es, a - 1) && key_at(es2, b) == key_at(es, b - 1));
        }
    }
    let m2 = map_of(es2);
    let m1 = map_of(es).insert(k, pair.1@);
    assert forall|x: Seq<u8>| m2.dom().contains(x) == m1.dom().contains(x) by {
        if holds_key(es2, x) {
            let j = index_of(es2, x);
            if j < i {
                assert(key_at(es, j) == x);
            } else if j > i {
                assert(key_at(es, j - 1) == x);
            }
        }
        if holds_key(es, x) {
            let j = index_of(es, x);
            if j < i {
                assert(key_at(es2, j) == x);
            } else {
                assert(key_at(es2, j + 1) == x);
            }
        }
        if x == k {
            assert(key_at(es2, i) == x);
        }
    }
    assert forall|x: Seq<u8>| m2.dom().contains(x) implies m2[x] == m1[x] by {
        let j = index_of(es2, x);
        lemma_map_at(es2, j);
        if j < i {
            assert(key_at(es, j) == x);
            lemma_map_at(es, j);
            lemma_lex_irreflexive(k);
        } else if j > i {
            assert(key_at(es, j - 1) == x);
            lemma_map_at(es, j - 1);
            lemma_from_bound(es, k, i, j - 1);
            lemma_lex_irreflexive(k);
            if i < j - 1 {
                lemma_lex_transitive(k, key_at(es, i), key_at(es, j - 1));
            }
        }
    }
    assert(m2 =~= m1);
}

proof fn lemma_update(es: Seq<KvPair>, i: int, pair: KvPair)
    requires
        strictly_sorted(es),
        0 <= i < es.len(),
        key_at(es, i) == pair.0@,
    ensures
        strictly_sorted(es.update(i, pair)),
        map_of(es.update(i, pair)) == map_of(es).insert(pair.0@, pair.1@),
{
    let es2 = es.update(i, pair);
    let k = pair.0@;
    assert forall|a: int, b: int| 0 <= a < b < es2.len() implies lex_lt(
        #[trigger] key_at(es2, a),
        #[trigger] key_at(es2, b),
    ) by {
        assert(key_at(es2, a) == key_at(es, a) && key_at(es2, b) == key_at(es, b));
    }
    let m2 = map_of(es2);
    let m1 = map_of(es).insert(k, pair.1@);
    assert forall|x: Seq<u8>| m2.dom().contains(x) == m1.dom().contains(x) by {
        if holds_key(es2, x) {
            let j = index_of(es2, x);
            assert(key_at(es, j) == x);
        }
        if holds_key(es, x) {
            let j = index_of(es, x);
            assert(key_at(es2, j) == x);
        }
        if x == k {
            assert(key_at(es2, i) == x);
        }
    }
    assert forall|x: Seq<u8>| m2.dom().contains(x) implies m2[x] == m1[x] by {
        let j = index_of(es2, x);
        lemma_map_at(es2, j);
        assert(key_at(es, j) == x);
        lemma_map_at(es, j);
        if x == k {
            lemma_index_unique(es, i, j);
        }
    }
    assert(m2 =~= m1);
}

proof fn lemma_remove(es: Seq<KvPair>, i: int)
    requires
        strictly_sorted(es),
        0 <= i < es.len(),
    ensures
        strictly_sorted(es.remove(i)),
        map_of(es.remove(i)) == map_of(es).remove(key_at(es, i)),
{
    let es2 = es.remove(i);
    let k = key_at(es, i);
    assert forall|a: int| 0 <= a < es2.len() implies #[trigger] key_at(es2, a) == key_at(
        es,
        if a < i {
            a
        } else {
            a + 1
        },
    ) by {}
    assert forall|a: int, b: int| 0 <= a < b < es2.len() implies lex_lt(
        #[trigger] key_at(es2, a),
        #[trigger] key_at(es2, b),
    ) by {
        let a1 = if a < i {
            a
        } else {
            a + 1
        };
        let b1 = if b < i {
            b
        } else {
            b + 1
        };
        assert(lex_lt(key_at(es, a1), key_at(es, b1)));
    }
    let m2 = map_of(es2);
    let m1 = map_of(es).remove(k);
    assert forall|x: Seq<u8>| m2.dom().contains(x) == m1.dom().contains(x) by {
        if holds_key(es2, x) {
            let j = index_of(es2, x);
            let j1 = if j < i {
                j
            } else {
                j + 1
            };
            assert(key_at(es, j1) == x);
            if x == k {
                lemma_index_unique(es, i, j1);
            }
        }
        if holds_key(es, x) && x != k {
            let j = index_of(es, x);
            if j < i {
                assert(key_at(es2, j) == x);
            } else {
                assert(key_at(es2, j - 1) == x);
            }
        }
    }
    assert forall|x: Seq<u8>| m2.dom().contains(x) implies m2[x] == m1[x] by {
        let j = index_of(es2, x);
        lemma_map_at(es2, j);
        let j1 = if j < i {
            j
        } else {
            j + 1
        };
        assert(key_at(es, j1) == x);
        lemma_map_at(es, j1);
    }
    assert(m2 =~= m1);
}

proof fn lemma_map_finite(es: Seq<KvPair>)
    ensures
        map_of(es).dom().finite(),
    decreases es.len(),
{
    if es.len() == 0 {
        assert(map_of(es).dom() =~= Set::<Seq<u8>>::empty());
    } else {
        let shorter = es.drop_last();
        let k = key_at(es, es.len() - 1);
        lemma_map_finite(shorter);
        assert forall|x: Seq<u8>| map_of(es).dom().contains(x) == map_of(shorter).dom().insert(
            k,
        ).contains(x) by {
            if holds_key(es, x) {
                let i = index_of(es, x);
                if i < es.len() - 1 {
                    assert(key_at(shorter, i) == x);
                }
            }
            if holds_key(shorter, x) {
                let i = index_of(shorter, x);
                assert(key_at(es, i) == x);
            }
            if x == k {
                assert(key_at(es, es.len() - 1) == x);
            }
        }
        assert(map_of(es).dom() =~= map_of(shorter).dom().insert(k));
    }
}

/// A column family held in memory.
pub struct OrderedKv {
    entries: Vec<KvPair>,
}

impl View for OrderedKv {
    type V = Map<Seq<u8>, Seq<u8>>;

    closed spec fn view(&self) -> Map<Seq<u8>, Seq<u8>> {
        map_of(self.entries@)
    }
}

impl OrderedKv {
    /// The keys are kept in order, none twice.
    pub closed spec fn wf(&self) -> bool {
        strictly_sorted(self.entries@)
    }

    /// The number of pairs.
    pub closed spec fn spec_len(&self) -> nat {
        self.entries@.len()
    }

    /// A column family holds finitely many keys.
    pub proof fn lemma_finite(&self)
        ensures
            self@.dom().finite(),
    {
        lemma_map_finite(self.entries@);
    }

    /// An empty column family.
    pub fn new() -> (r: OrderedKv)
        ensures
            r.wf(),
            r@ == Map::<Seq<u8>, Seq<u8>>::empty(),
            r.spec_len() == 0,
    {
        let r = OrderedKv { entries: Vec::new() };
        assert(r@ =~= Map::<Seq<u8>, Seq<u8>>::empty());
        r
    }

    /// The number of pairs.
    pub fn len(&self) -> (n: usize)
        ensures
            n == self.spec_len(),
    {
        self.entries.len()
    }

    /// The place of the first key that is not below `key`.
    fn lower_bound(&self, key: &[u8]) -> (i: usize)
        requires
            self.wf(),
        ensures
            i <= self.entries@.len(),
            forall|j: int| 0 <= j < i ==> lex_lt(#[trigger] key_at(self.entries@, j), key@),
            forall|j: int|
                i <= j < self.entries@.len() ==> lex_le(key@, #[trigger] key_at(self.entries@, j)),
    {
        let mut lo: usize = 0;
        let mut hi: usize = self.entries.len();
        while lo < hi
            invariant
                self.wf(),
                lo <= hi <= self.entries@.len(),
                forall|j: int| 0 <= j < lo ==> lex_lt(#[trigger] key_at(self.entries@, j), key@),
                forall|j: int|
                    hi <= j < self.entries@.len() ==> lex_le(
                        key@,
                        #[trigger] key_at(self.entries@, j),
                    ),
            decreases hi - lo,
        {
            let mid: usize = lo + (hi - lo) / 2;
            let ghost es = self.entries@;
            if bytes_lt(self.entries[mid].0.as_slice(), key) {
                assert forall|j: int| 0 <= j < mid + 1 implies lex_lt(
                    #[trigger] key_at(es, j),
                    key@,
                ) by {
                    if j < mid {
                        lemma_lex_transitive(key_at(es, j), key_at(es, mid as int), key@);
                    }
                }
                lo = mid + 1;
            } else {
                proof {
                    lemma_lex_total(key_at(es, mid as int), key@);
                }
                assert forall|j: int| mid <= j < es.len() implies lex_le(
                    key@,
                    #[trigger] key_at(es, j),
                ) by {
                    lemma_from_bound(es, key@, mid as int, j);
                }
                hi = mid;
            }
        }
        lo
    }

    /// The value of `key`, if it has one.
    pub fn get(&self, key: &[u8]) -> (r: Option<Vec<u8>>)
        requires
            self.wf(),
        ensures
            self@.dom().contains(key@) ==> (r matches Some(v) && v@ == self@[key@]),
            !self@.dom().contains(key@) ==> r is None,
    {
        let i: usize = self.lower_bound(key);
        if i < self.entries.len() && bytes_eq(self.entries[i].0.as_slice(), key) {
            proof {
                lemma_map_at(self.entries@, i as int);
            }
            Some(copy_bytes(self.entries[i].1.as_slice()))
        } else {
            proof {
                if i < self.entries@.len() {
                    assert(lex_le(key@, key_at(self.entries@, i as int)));
                }
                lemma_absent(self.entries@, key@, i as int);
            }
            None
        }
    }

    /// Sets the value of `key`.
    pub fn put(&mut self, key: Vec<u8>, value: Vec<u8>)
        requires
            old(self).wf(),
        ensures
            final(self).wf(),
            final(self)@ == old(self)@.insert(key@, value@),
    {
        let i: usize = self.lower_bound(key.as_slice());
        if i < self.entries.len() && bytes_eq(self.entries[i].0.as_slice(), key.as_slice()) {
            proof {
                lemma_update(self.entries@, i as int, (key, value));
            }
            self.entries[i] = (key, value);
        } else {
            proof {
                if i < self.entries@.len() {
                    assert(lex_le(key@, key_at(self.entries@, i as int)));
                }
                lemma_insert(self.entries@, i as int, (key, value));
            }
            self.entries.insert(i, (key, value));
        }
    }

    /// Removes `key` and its value.
    pub fn delete(&mut self, key: &[u8])
        requires
            old(self).wf(),
        ensures
            final(self).wf(),
            final(self)@ == old(self)@.remove(key@),
    {
        let i: usize = self.lower_bound(key);
        if i < self.entries.len() && bytes_eq(self.entries[i].0.as_slice(), key) {
            proof {
                lemma_remove(self.entries@, i as int);
            }
            self.entries.remove(i);
        } else {
            proof {
                if i < self.entries@.len() {
                    assert(lex_le(key@, key_at(self.entries@, i as int)));
                }
                lemma_absent(self.entries@, key@, i as int);
                assert(self@.remove(key@) =~= self@);
            }
        }
    }

    /// Removes every key from `start` up to, not including, `end`.
    pub fn delete_range(&mut self, start: &[u8], end: &[u8])
        requires
            old(self).wf(),
        ensures
            final(self).wf(),
            final(self)@ == without_range(old(self)@, start@, end@),
    {
        let lo: usize = self.lower_bound(start);
        let mut n: usize = 0;
        let ghost es0 = self.entries@;
        while lo < self.entries.len() && bytes_lt(self.entries[lo].0.as_slice(), end)
            invariant
                self.wf(),
                lo <= self.entries@.len(),
                forall|j: int| 0 <= j < lo ==> lex_lt(#[trigger] key_at(self.entries@, j), start@),
                forall|j: int|
                    lo <= j < self.entries@.len() ==> lex_le(
                        start@,
                        #[trigger] key_at(self.entries@, j),
                    ),
                forall|x: Seq<u8>|
                    self@.dom().contains(x) ==> #[trigger] old(self)@.dom().contains(x) && self@[x]
                        == old(self)@[x],
                forall|x: Seq<u8>|
                    #[trigger] old(self)@.dom().contains(x) && !(lex_le(start@, x) && lex_lt(
                        x,
                        end@,
                    )) ==> self@.dom().contains(x),
            decreases self.entries@.len(),
        {
            let ghost es = self.entries@;
            proof {
                lemma_remove(es, lo as int);
                lemma_map_at(es, lo as int);
                assert forall|j: int| lo <= j < es.remove(lo as int).len() implies lex_le(
                    start@,
                    #[trigger] key_at(es.remove(lo as int), j),
                ) by {
                    assert(key_at(es.remove(lo as int), j) == key_at(es, j + 1));
                }
                assert forall|j: int| 0 <= j < lo implies lex_lt(
                    #[trigger] key_at(es.remove(lo as int), j),
                    start@,
                ) by {
                    assert(key_at(es.remove(lo as int), j) == key_at(es, j));
                }
            }
            self.entries.remove(lo);
        }
        proof {
            let es = self.entries@;
            let target = without_range(old(self)@, start@, end@);
            assert forall|x: Seq<u8>| self@.dom().contains(x) implies !(lex_le(start@, x)
                && lex_lt(x, end@)) by {
                let j = index_of(es, x);
                if j < lo {
                    lemma_lex_total(x, start@);
                } else {
                    lemma_lex_total(key_at(es, lo as int), end@);
                    lemma_from_bound(es, end@, lo as int, j);
                    lemma_lex_total(x, end@);
                }
            }
            assert(self@ =~= target);
        }
    }

    /// The first pair whose key is not below `key`.
    pub fn seek(&self, key: &[u8]) -> (r: Option<KvPair>)
        requires
            self.wf(),
        ensures
            match r {
                Some(p) => is_first_from(self@, key@, p.0@) && self@[p.0@] == p.1@,
                None => forall|x: Seq<u8>| #[trigger] self@.dom().contains(x) ==> lex_lt(x, key@),
            },
    {
        let i: usize = self.lower_bound(key);
        let ghost es = self.entries@;
        if i < self.entries.len() {
            proof {
                lemma_map_at(es, i as int);
                assert forall|x: Seq<u8>| #[trigger]
                    self@.dom().contains(x) && lex_le(key@, x) implies lex_le(
                    key_at(es, i as int),
                    x,
                ) by {
                    let j = index_of(es, x);
                    if j < i {
                        lemma_lex_total(x, key@);
                    }
                }
            }
            Some(
                (
                    copy_bytes(self.entries[i].0.as_slice()),
                    copy_bytes(self.entries[i].1.as_slice()),
                ),
            )
        } else {
            proof {
                assert forall|x: Seq<u8>| #[trigger] self@.dom().contains(x) implies lex_lt(
                    x,
                    key@,
                ) by {
                    let j = index_of(es, x);
                }
            }
            None
        }
    }

    /// The last pair whose key is below `key`.
    pub fn seek_below(&self, key: &[u8]) -> (r: Option<KvPair>)
        requires
            self.wf(),
        ensures
            match r {
                Some(p) => is_last_below(self@, key@, p.0@) && self@[p.0@] == p.1@,
                None => forall|x: Seq<u8>| #[trigger] self@.dom().contains(x) ==> lex_le(key@, x),
            },
    {
        let i: usize = self.lower_bound(key);
        let ghost es = self.entries@;
        if i > 0 {
            proof {
                lemma_map_at(es, i - 1);
                assert forall|x: Seq<u8>| #[trigger]
                    self@.dom().contains(x) && lex_lt(x, key@) implies lex_le(
                    x,
                    key_at(es, i - 1),
                ) by {
                    let j = index_of(es, x);
                    if j >= i {
                        lemma_lex_total(x, key@);
                    }
                }
            }
            Some(
                (
                    copy_bytes(self.entries[i - 1].0.as_slice()),
                    copy_bytes(self.entries[i - 1].1.as_slice()),
                ),
            )
        } else {
            proof {
                assert forall|x: Seq<u8>| #[trigger] self@.dom().contains(x) implies lex_le(
                    key@,
                    x,
                ) by {
                    let j = index_of(es, x);
                }
            }
            None
        }
    }

    /// The last pair whose key is not above `key`.
    pub fn seek_for_prev(&self, key: &[u8]) -> (r: Option<KvPair>)
        requires
            self.wf(),
        ensures
            match r {
                Some(p) => is_last_upto(self@, key@, p.0@) && self@[p.0@] == p.1@,
                None => forall|x: Seq<u8>| #[trigger] self@.dom().contains(x) ==> lex_lt(key@, x),
            },
    {
        let i: usize = self.lower_bound(key);
        let ghost es = self.entries@;
        if i < self.entries.len() && bytes_eq(self.entries[i].0.as_slice(), key) {
            proof {
                lemma_map_at(es, i as int);
            }
            return Some(
                (
                    copy_bytes(self.entries[i].0.as_slice()),
                    copy_bytes(self.entries[i].1.as_slice()),
                ),
            );
        }
        proof {
            lemma_lex_irreflexive(key@);
            assert forall|j: int| i <= j < es.len() implies lex_lt(
                key@,
                #[trigger] key_at(es, j),
            ) by {
                lemma_from_bound(es, key@, i as int, j);
                if j > i {
                    lemma_lex_le_lt(key@, key_at(es, i as int), key_at(es, j));
                }
            }
        }
        if i > 0 {
            proof {
                lemma_map_at(es, i - 1);
                assert forall|x: Seq<u8>| #[trigger]
                    self@.dom().contains(x) && lex_le(x, key@) implies lex_le(
                    x,
                    key_at(es, i - 1),
                ) by {
                    let j = index_of(es, x);
                    if j >= i {
                        lemma_lex_total(x, key@);
                    }
                }
            }
            Some(
                (
                    copy_bytes(self.entries[i - 1].0.as_slice()),
                    copy_bytes(self.entries[i - 1].1.as_slice()),
                ),
            )
        } else {
            proof {
                assert forall|x: Seq<u8>| #[trigger] self@.dom().contains(x) implies lex_lt(
                    key@,
                    x,
                ) by {
                    let j = index_of(es, x);
                }
            }
            None
        }
    }

    /// The pairs whose keys lie from `start` up to, not including, `end`, in key order.
    pub fn scan(&self, start: &[u8], end: &[u8]) -> (r: Vec<KvPair>)
        requires
            self.wf(),
        ensures
            is_range_of(self@, start@, end@, pairs_view(r@)),
    {
        let lo: usize = self.lower_bound(start);
        let ghost es = self.entries@;
        let mut out: Vec<KvPair> = Vec::new();
        let mut i: usize = lo;
        while i < self.entries.len() && bytes_lt(self.entries[i].0.as_slice(), end)
            invariant
                self.wf(),
                es == self.entries@,
                lo <= i <= es.len(),
                out@.len() == i - lo,
                forall|j: int|
                    0 <= j < out@.len() ==> (#[trigger] out@[j]).0@ == key_at(es, lo + j)
                        && out@[j].1@ == es[lo + j].1@,
                forall|j: int| lo <= j < i ==> lex_lt(#[trigger] key_at(es, j), end@),
            decreases es.len() - i,
        {
            out.push(
                (
                    copy_bytes(self.entries[i].0.as_slice()),
                    copy_bytes(self.entries[i].1.as_slice()),
                ),
            );
            i += 1;
        }
        proof {
            let r = pairs_view(out@);
            assert forall|a: int, b: int| 0 <= a < b < r.len() implies lex_lt(
                #[trigger] r[a].0,
                #[trigger] r[b].0,
            ) by {
                assert(r[a].0 == key_at(es, lo + a));
                assert(r[b].0 == key_at(es, lo + b));
            }
            assert forall|a: int| 0 <= a < r.len() implies {
                &&& self@.dom().contains(#[trigger] r[a].0)
                &&& self@[r[a].0] == r[a].1
                &&& lex_le(start@, r[a].0)
                &&& lex_lt(r[a].0, end@)
            } by {
                assert(r[a].0 == key_at(es, lo + a));
                lemma_map_at(es, lo + a);
            }
            assert forall|k: Seq<u8>| #[trigger]
                self@.dom().contains(k) && lex_le(start@, k) && lex_lt(k, end@) implies exists|
                a: int,
            |
                0 <= a < r.len() && #[trigger] r[a].0 == k by {
                let j = index_of(es, k);
                if j < lo {
                    lemma_lex_total(k, start@);
                }
                if j >= i {
                    lemma_lex_total(key_at(es, i as int), end@);
                    lemma_from_bound(es, end@, i as int, j);
                    lemma_lex_total(k, end@);
                }
                assert(r[j - lo].0 == k);
            }
        }
        out
    }

    /// All pairs, in key order.
    pub fn pairs(&self) -> (r: Vec<KvPair>)
        requires
            self.wf(),
        ensures
            is_listing_of(self@, pairs_view(r@)),
    {
        let ghost es = self.entries@;
        let mut out: Vec<KvPair> = Vec::new();
        let mut i: usize = 0;
        while i < self.entries.len()
            invariant
                es == self.entries@,
                i <= es.len(),
                out@.len() == i,
                forall|j: int|
                    0 <= j < i ==> (#[trigger] out@[j]).0@ == key_at(es, j) && out@[j].1@
                        == es[j].1@,
            decreases es.len() - i,
        {
            out.push(
                (
                    copy_bytes(self.entries[i].0.as_slice()),
                    copy_bytes(self.entries[i].1.as_slice()),
                ),
            );
            i += 1;
        }
        proof {
            let r = pairs_view(out@);
            assert forall|a: int, b: int| 0 <= a < b < r.len() implies lex_lt(
                #[trigger] r[a].0,
                #[trigger] r[b].0,
            ) by {
                assert(r[a].0 == key_at(es, a));
                assert(r[b].0 == key_at(es, b));
            }
            assert forall|a: int| 0 <= a < r.len() implies self@.dom().contains(#[trigger] r[a].0)
                && self@[r[a].0] == r[a].1 by {
                assert(r[a].0 == key_at(es, a));
                lemma_map_at(es, a);
            }
            assert forall|k: Seq<u8>| #[trigger] self@.dom().contains(k) implies exists|a: int|
                0 <= a < r.len() && #[trigger] r[a].0 == k by {
                let j = index_of(es, k);
                assert(r[j].0 == k);
            }
        }
        out
    }

    /// The size of the pairs whose keys lie from `start` up to, not including, `end`;
    /// `u64::MAX` where it is more.
    pub fn range_size(&self, start: &[u8], end: &[u8]) -> (r: u64)
        requires
            self.wf(),
        ensures
            r == capped(pairs_size(range_of(self@, start@, end@))),
    {
        let offsets = self.range_offsets(start, end);
        let n: usize = offsets.len();
        if n == 0 {
            0
        } else {
            proof {
                let r = range_of(self@, start@, end@);
                assert(r.take(n as int) =~= r);
            }
            offsets[n - 1].1
        }
    }

    /// The keys from `start` up to, not including, `end`, each with the size of the pairs
    /// of the range up to and including it; `u64::MAX` where that is more.
    pub fn range_offsets(&self, start: &[u8], end: &[u8]) -> (r: Vec<(Vec<u8>, u64)>)
        requires
            self.wf(),
        ensures
            r@.len() == range_of(self@, start@, end@).len(),
            forall|i: int|
                0 <= i < r@.len() ==> (#[trigger] r@[i]).0@ == offsets_of(
                    range_of(self@, start@, end@),
                )[i].0 && r@[i].1 == offsets_of(range_of(self@, start@, end@))[i].1,
    {
        let pairs = self.scan(start, end);
        let ghost pv = pairs_view(pairs@);
        proof {
            lemma_range_unique(self@, start@, end@, pv, pv);
        }
        let mut out: Vec<(Vec<u8>, u64)> = Vec::new();
        let mut total: u64 = 0;
        let mut i: usize = 0;
        assert(pv.take(0) =~= Seq::<(Seq<u8>, Seq<u8>)>::empty());
        while i < pairs.len()
            invariant
                i <= pairs@.len(),
                pv == pairs_view(pairs@),
                total == capped(pairs_size(pv.take(i as int))),
                out@.len() == i,
                forall|j: int|
                    0 <= j < i ==> (#[trigger] out@[j]).0@ == pv[j].0 && out@[j].1 == capped(
                        pairs_size(pv.take(j + 1)),
                    ),
            decreases pairs@.len() - i,
        {
            proof {
                assert(pv.take(i + 1).drop_last() =~= pv.take(i as int));
                assert(pv.take(i + 1).last() == pv[i as int]);
                assert(pv[i as int] == (pairs@[i as int].0@, pairs@[i as int].1@));
            }
            let klen: u64 = pairs[i].0.len() as u64;
            let vlen: u64 = pairs[i].1.len() as u64;
            let size: u64 = if klen > u64::MAX - vlen {
                u64::MAX
            } else {
                klen + vlen
            };
            total = if total > u64::MAX - size {
                u64::MAX
            } else {
                total + size
            };
            out.push((copy_bytes(pairs[i].0.as_slice()), total));
            i += 1;
        }
        out
    }

    /// A copy that later changes to `self` do not reach.
    pub fn snapshot(&self) -> (r: OrderedKv)
        requires
            self.wf(),
        ensures
            r.wf(),
            r@ == self@,
    {
        let mut out: Vec<KvPair> = Vec::new();
        let mut i: usize = 0;
        let ghost es = self.entries@;
        while i < self.entries.len()
            invariant
                es == self.entries@,
                i <= es.len(),
                out@.len() == i,
                forall|j: int|
                    0 <= j < i ==> (#[trigger] out@[j]).0@ == es[j].0@ && out@[j].1@ == es[j].1@,
            decreases es.len() - i,
        {
            out.push(
                (
                    copy_bytes(self.entries[i].0.as_slice()),
                    copy_bytes(self.entries[i].1.as_slice()),
                ),
            );
            i += 1;
        }
        let r = OrderedKv { entries: out };
        proof {
            let es2 = r.entries@;
            assert forall|a: int, b: int| 0 <= a < b < es2.len() implies lex_lt(
                #[trigger] key_at(es2, a),
                #[trigger] key_at(es2, b),
            ) by {
                assert(key_at(es2, a) == key_at(es, a) && key_at(es2, b) == key_at(es, b));
            }
            assert forall|x: Seq<u8>| r@.dom().contains(x) == self@.dom().contains(x) by {
                if holds_key(es2, x) {
                    assert(key_at(es, index_of(es2, x)) == x);
                }
                if holds_key(es, x) {
                    assert(key_at(es2, index_of(es, x)) == x);
                }
            }
            assert forall|x: Seq<u8>| r@.dom().contains(x) implies r@[x] == self@[x] by {
                let j = index_of(es2, x);
                lemma_map_at(es2, j);
                assert(key_at(es, j) == x);
                lemma_map_at(es, j);
            }
            assert(r@ =~= self@);
        }
        r
    }
}

} // verus!
