//! Locks in stripes: every key belongs to one of a fixed number of stripes, and an
//! operation holds the stripes of its keys while it runs. Stripes are taken in ascending
//! order, so two operations never wait for each other.

use vstd::prelude::*;

verus! {

/// The most stripes that a set of locks can have.
pub const MAX_SHARDS: usize = 65536;

/// The stripe of a key among `size` stripes: the bytes of the key as the digits of a
/// number to the base 31, taken modulo `size`.
pub open spec fn stripe_of(key: Seq<u8>, size: nat) -> nat
    decreases key.len(),
{
    if key.len() == 0 || size == 0 {
        0
    } else {
        (stripe_of(key.drop_last(), size) * 31 + key.last() as nat) % size
    }
}

/// The list goes up step by step: no stripe stands in it twice.
pub open spec fn ascending(s: Seq<usize>) -> bool {
    forall|i: int, j: int| 0 <= i < j < s.len() ==> s[i] < s[j]
}

/// `s` is the stripe of one of the first `n` of `keys`.
pub open spec fn stripe_used(keys: Seq<Vec<u8>>, n: int, size: nat, s: usize) -> bool {
    exists|i: int| 0 <= i < n && i < keys.len() && stripe_of(#[trigger] keys[i]@, size) == s
}

/// `r` lists the stripes of `keys`: each of them once, in ascending order, and no other.
pub open spec fn is_stripes_of(keys: Seq<Vec<u8>>, size: nat, r: Seq<usize>) -> bool {
    &&& ascending(r)
    &&& forall|i: int|
        0 <= i < keys.len() ==> r.contains(stripe_of(#[trigger] keys[i]@, size) as usize)
    &&& forall|j: int|
        0 <= j < r.len() ==> stripe_used(keys, keys.len() as int, size, #[trigger] r[j])
}

proof fn lemma_stripe_bound(key: Seq<u8>, size: nat)
    requires
        size > 0,
    ensures
        stripe_of(key, size) < size,
    decreases key.len(),
{
    if key.len() > 0 {
        lemma_stripe_bound(key.drop_last(), size);
    }
}

/// The locks of a store.
#[derive(Debug)]
pub struct ShardMutex {
    held: Vec<bool>,
}

impl ShardMutex {
    /// The number of stripes.
    pub closed spec fn size(&self) -> nat {
        self.held@.len()
    }

    /// The stripe `i` is held.
    pub closed spec fn holds(&self, i: int) -> bool {
        0 <= i < self.held@.len() && self.held@[i]
    }

    /// No stripe is held.
    pub open spec fn idle(&self) -> bool {
        forall|i: int| !#[trigger] self.holds(i)
    }

    /// There are stripes, `MAX_SHARDS` at most.
    pub closed spec fn wf(&self) -> bool {
        0 < self.held@.len() <= MAX_SHARDS
    }

    /// Locks in `size` stripes, none of them held.
    pub fn new(size: usize) -> (r: ShardMutex)
        requires
            0 < size <= MAX_SHARDS,
        ensures
            r.wf(),
            r.size() == size,
            r.idle(),
    {
        let mut held: Vec<bool> = Vec::with_capacity(size);
        let mut i: usize = 0;
        while i < size
            invariant
                i <= size,
                held@.len() == i,
                forall|j: int| 0 <= j < i ==> !held@[j],
            decreases size - i,
        {
            held.push(false);
            i += 1;
        }
        ShardMutex { held }
    }

    /// The stripe of `key`.
    pub fn shard_index(&self, key: &[u8]) -> (r: usize)
        requires
            self.wf(),
        ensures
            r == stripe_of(key@, self.size()),
            r < self.size(),
    {
        let size: u64 = self.held.len() as u64;
        let mut h: u64 = 0;
        let mut i: usize = 0;
        while i < key.len()
            invariant
                i <= key@.len(),
                0 < size <= MAX_SHARDS,
                size == self.held@.len(),
                h == stripe_of(key@.take(i as int), size as nat),
                h < size,
            decreases key@.len() - i,
        {
            proof {
                assert(key@.take(i + 1).drop_last() =~= key@.take(i as int));
            }
            h = (h * 31 + key[i] as u64) % size;
            i += 1;
        }
        assert(key@.take(i as int) =~= key@);
        h as usize
    }

    /// The stripes of `keys`, each once, in the order in which they are to be taken.
    pub fn stripes(&self, keys: &[Vec<u8>]) -> (r: Vec<usize>)
        requires
            self.wf(),
        ensures
            is_stripes_of(keys@, self.size(), r@),
            forall|j: int| 0 <= j < r@.len() ==> r@[j] < self.size(),
    {
        let mut out: Vec<usize> = Vec::new();
        let mut k: usize = 0;
        let ghost size = self.size();
        while k < keys.len()
            invariant
                k <= keys@.len(),
                self.wf(),
                size == self.size(),
                ascending(out@),
                forall|j: int| 0 <= j < out@.len() ==> out@[j] < size,
                forall|i: int|
                    0 <= i < k ==> out@.contains(stripe_of(#[trigger] keys@[i]@, size) as usize),
                forall|j: int|
                    0 <= j < out@.len() ==> stripe_used(keys@, k as int, size, #[trigger] out@[j]),
            decreases keys@.len() - k,
        {
            let s: usize = self.shard_index(keys[k].as_slice());
            let mut at: usize = 0;
            while at < out.len() && out[at] < s
                invariant
                    at <= out@.len(),
                    forall|j: int| 0 <= j < at ==> out@[j] < s,
                decreases out@.len() - at,
            {
                at += 1;
            }
            let ghost before = out@;
            if at < out.len() && out[at] == s {
                assert(out@.contains(s));
            } else {
                out.insert(at, s);
                proof {
                    assert(out@[at as int] == s);
                    assert forall|i: int, j: int| 0 <= i < j < out@.len() implies out@[i]
                        < out@[j] by {
                        let i0 = if i < at {
                            i
                        } else {
                            i - 1
                        };
                        let j0 = if j < at {
                            j
                        } else {
                            j - 1
                        };
                        if i != at && j != at {
                            assert(before[i0] < before[j0]);
                        } else if i == at {
                            assert(before[j0] >= before[at as int]);
                        }
                    }
                    assert forall|i: int| 0 <= i < k implies out@.contains(
                        stripe_of(#[trigger] keys@[i]@, size) as usize,
                    ) by {
                        let v = stripe_of(keys@[i]@, size) as usize;
                        let w = choose|w: int| 0 <= w < before.len() && before[w] == v;
                        if w < at {
                            assert(out@[w] == v);
                        } else {
                            assert(out@[w + 1] == v);
                        }
                    }
                    assert forall|j: int| 0 <= j < out@.len() implies stripe_used(
                        keys@,
                        k + 1,
                        size,
                        #[trigger] out@[j],
                    ) by {
                        if j == at {
                            assert(stripe_of(keys@[k as int]@, size) == out@[j]);
                        } else {
                            let j0 = if j < at {
                                j
                            } else {
                                j - 1
                            };
                            assert(stripe_used(keys@, k as int, size, before[j0]));
                            let i = choose|i: int|
                                0 <= i < k && i < keys@.len() && stripe_of(
                                    #[trigger] keys@[i]@,
                                    size,
                                ) == before[j0];
                            assert(stripe_of(keys@[i]@, size) == out@[j]);
                        }
                    }
                }
            }
            proof {
                assert forall|j: int| 0 <= j < out@.len() implies stripe_used(
                    keys@,
                    k + 1,
                    size,
                    #[trigger] out@[j],
                ) by {
                    if out@ == before {
                        assert(stripe_used(keys@, k as int, size, before[j]));
                        let i = choose|i: int|
                            0 <= i < k && i < keys@.len() && stripe_of(#[trigger] keys@[i]@, size)
                                == before[j];
                        assert(stripe_of(keys@[i]@, size) == out@[j]);
                    }
                }
            }
            k += 1;
        }
        out
    }

    /// Takes the stripes of `keys`, in ascending order. Returns them: the guard to hand
    /// back to `unlock`.
    pub fn lock(&mut self, keys: &[Vec<u8>]) -> (guard: Vec<usize>)
        requires
            old(self).wf(),
            old(self).idle(),
        ensures
            final(self).wf(),
            final(self).size() == old(self).size(),
            is_stripes_of(keys@, final(self).size(), guard@),
            forall|j: int| 0 <= j < guard@.len() ==> guard@[j] < final(self).size(),
            forall|i: int|
                #[trigger] final(self).holds(i) <==> 0 <= i < final(self).size() && guard@.contains(
                    i as usize,
                ),
    {
        let guard = self.stripes(keys);
        let n: usize = guard.len();
        let mut j: usize = 0;
        let ghost size = self.size();
        proof {
            assert forall|i: int| 0 <= i < size implies !#[trigger] self.held@[i] by {
                assert(!self.holds(i));
            }
        }
        while j < n
            invariant
                j <= n,
                n == guard@.len(),
                self.held@.len() == size,
                0 < size <= MAX_SHARDS,
                forall|t: int| 0 <= t < n ==> guard@[t] < size,
                forall|i: int|
                    0 <= i < size ==> ((#[trigger] self.held@[i]) <==> exists|t: int|
                        0 <= t < j && guard@[t] == i),
            decreases n - j,
        {
            let s: usize = guard[j];
            let ghost before = self.held@;
            self.held[s] = true;
            j += 1;
            proof {
                assert forall|i: int| 0 <= i < size implies ((#[trigger] self.held@[i])
                    <==> exists|t: int| 0 <= t < j && guard@[t] == i) by {
                    if before[i] {
                        let t = choose|t: int| 0 <= t < j - 1 && guard@[t] == i;
                        assert(guard@[t] == i);
                    }
                    if i == s {
                        assert(guard@[j - 1] == i);
                    }
                }
            }
        }
        proof {
            assert forall|i: int| #[trigger] self.holds(i) <==> 0 <= i < size && guard@.contains(
                i as usize,
            ) by {
                if self.holds(i) {
                    let t = choose|t: int| 0 <= t < n && guard@[t] == i;
                    assert(guard@[t] == i as usize);
                }
                if 0 <= i < size && guard@.contains(i as usize) {
                    let t = choose|t: int| 0 <= t < n && guard@[t] == i as usize;
                    assert(self.held@[i]);
                }
            }
        }
        guard
    }

    /// Lets go of the stripes that `guard` names.
    pub fn unlock(&mut self, guard: Vec<usize>)
        requires
            old(self).wf(),
            forall|i: int|
                #[trigger] old(self).holds(i) ==> 0 <= i < old(self).size() && guard@.contains(
                    i as usize,
                ),
            forall|j: int| 0 <= j < guard@.len() ==> guard@[j] < old(self).size(),
        ensures
            final(self).wf(),
            final(self).size() == old(self).size(),
            final(self).idle(),
    {
        let n: usize = guard.len();
        let mut j: usize = 0;
        let ghost size = self.size();
        proof {
            assert forall|i: int| 0 <= i < size && #[trigger] self.held@[i] implies exists|t: int|
                0 <= t < n && guard@[t] == i by {
                assert(self.holds(i));
                let t = choose|t: int| 0 <= t < n && guard@[t] == i as usize;
                assert(guard@[t] == i);
            }
        }
        while j < n
            invariant
                j <= n,
                n == guard@.len(),
                self.held@.len() == size,
                0 < size <= MAX_SHARDS,
                forall|t: int| 0 <= t < n ==> guard@[t] < size,
                forall|i: int|
                    0 <= i < size && #[trigger] self.held@[i] ==> exists|t: int|
                        j <= t < n && guard@[t] == i,
            decreases n - j,
        {
            let s: usize = guard[j];
            let ghost before = self.held@;
            self.held[s] = false;
            j += 1;
            proof {
                assert forall|i: int| 0 <= i < size && #[trigger] self.held@[i] implies exists|
                    t: int,
                | j <= t < n && guard@[t] == i by {
                    assert(before[i]);
                    let t = choose|t: int| j - 1 <= t < n && guard@[t] == i;
                    assert(guard@[t] == i);
                }
            }
        }
    }
}

} // verus!
