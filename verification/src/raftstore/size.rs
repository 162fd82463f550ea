//! Splitting a region by size: a split key wherever `split_size` bytes have gone by.

use crate::engine::db::{Cf, Db, DbView};
use crate::engine::ordered::{capped, pairs_size, range_of};
use crate::raftstore::host::{AnyChecker, Host};
use crate::raftstore::keys::{
    enc_end_key, enc_start_key, end_of, is_data_key, origin_key, public_keys, public_keys_of,
    start_of, CheckPolicy, KeyEntry, Region,
};
use crate::util::order::{copy_bytes, is_sorted_of, keys_view, sort_keys};
use vstd::prelude::*;

verus! {

/// Why no split keys can be told from the samples.
#[derive(Clone, Copy, Debug, PartialEq, Eq, Structural)]
pub enum Error {
    /// Neither the default nor the write column family holds anything.
    EmptyCfs,
    /// There are no samples, or a size of 0 where one is needed.
    Unexpected,
    /// The engine has refused.
    Engine(crate::engine::db::Error),
}

pub type Result<T> = core::result::Result<T, Error>;

/// A size checker as a mathematical value.
pub struct CheckerView {
    pub max_size: u64,
    pub split_size: u64,
    pub current_size: u64,
    pub split_keys: Seq<Seq<u8>>,
    pub batch_split_limit: u64,
    pub policy: CheckPolicy,
}

impl CheckerView {
    /// As many split keys are found as one batch takes.
    pub open spec fn over_limit(self) -> bool {
        self.split_keys.len() >= self.batch_split_limit
    }

    /// The checker after a pair of `size` bytes with the stored key `key`. Once more than
    /// `split_size` bytes have gone by since the last split key, the key becomes a split
    /// key, unless the batch is full.
    pub open spec fn on_kv(self, key: Seq<u8>, size: nat) -> CheckerView {
        let gone = self.current_size + size;
        if gone > self.split_size && !self.over_limit() {
            CheckerView {
                split_keys: self.split_keys.push(key.skip(1)),
                current_size: if gone - size == self.split_size {
                    size as u64
                } else {
                    0
                },
                ..self
            }
        } else {
            CheckerView { current_size: gone as u64, ..self }
        }
    }

    /// The scan can end: the batch is full, and what has gone by since the last split key
    /// is enough for a region of its own.
    pub open spec fn done(self) -> bool {
        self.over_limit() && self.current_size + self.split_size >= self.max_size
    }

    /// The split keys at the end of the scan: the last is dropped where the rest of the
    /// region would be too small.
    pub open spec fn final_keys(self) -> Seq<Seq<u8>> {
        if self.current_size + self.split_size < self.max_size && self.split_keys.len() > 0 {
            self.split_keys.drop_last()
        } else {
            self.split_keys
        }
    }
}

/// Looks for split keys by size.
#[derive(Debug)]
pub struct Checker {
    max_size: u64,
    split_size: u64,
    current_size: u64,
    split_keys: Vec<Vec<u8>>,
    batch_split_limit: u64,
    policy: CheckPolicy,
}

impl View for Checker {
    type V = CheckerView;

    closed spec fn view(&self) -> CheckerView {
        CheckerView {
            max_size: self.max_size,
            split_size: self.split_size,
            current_size: self.current_size,
            split_keys: keys_view(self.split_keys@),
            batch_split_limit: self.batch_split_limit,
            policy: self.policy,
        }
    }
}

impl Checker {
    pub fn new(max_size: u64, split_size: u64, batch_split_limit: u64, policy: CheckPolicy) -> (r:
        Checker)
        ensures
            r@ == (CheckerView {
                max_size,
                split_size,
                current_size: 0,
                split_keys: Seq::<Seq<u8>>::empty(),
                batch_split_limit,
                policy,
            }),
    {
        let r = Checker {
            max_size,
            split_size,
            current_size: 0,
            split_keys: Vec::with_capacity(1),
            batch_split_limit,
            policy,
        };
        assert(r@.split_keys =~= Seq::<Seq<u8>>::empty());
        r
    }

    /// Takes note of a pair of the scan. Returns `true` when the scan can end.
    pub fn on_kv(&mut self, entry: &KeyEntry) -> (r: bool)
        requires
            entry.wf(),
            is_data_key(entry.spec_key()),
            old(self)@.current_size + entry.spec_entry_size() <= u64::MAX,
        ensures
            final(self)@ == old(self)@.on_kv(entry.spec_key(), entry.spec_entry_size()),
            r == final(self)@.done(),
    {
        let size: u64 = entry.entry_size() as u64;
        self.current_size += size;
        let mut over_limit: bool = self.split_keys.len() as u64 >= self.batch_split_limit;
        if self.current_size > self.split_size && !over_limit {
            let ghost before = keys_view(self.split_keys@);
            self.split_keys.push(copy_bytes(origin_key(entry.key())));
            assert(keys_view(self.split_keys@) =~= before.push(entry.spec_key().skip(1)));
            self.current_size = if self.current_size - size == self.split_size {
                size
            } else {
                0
            };
            over_limit = self.split_keys.len() as u64 >= self.batch_split_limit;
        }
        over_limit && self.current_size as u128 + self.split_size as u128 >= self.max_size as u128
    }

    /// The split keys that the scan has found. The checker keeps none.
    pub fn split_keys(&mut self) -> (r: Vec<Vec<u8>>)
        ensures
            keys_view(r@) == old(self)@.final_keys(),
            final(self)@ == (CheckerView { split_keys: Seq::<Seq<u8>>::empty(), ..old(self)@ }),
    {
        let ghost before = keys_view(self.split_keys@);
        if (self.current_size as u128 + self.split_size as u128) < self.max_size as u128 {
            self.split_keys.pop();
            assert(keys_view(self.split_keys@) =~= if before.len() > 0 {
                before.drop_last()
            } else {
                before
            });
        }
        let mut out: Vec<Vec<u8>> = Vec::new();
        core::mem::swap(&mut self.split_keys, &mut out);
        assert(keys_view(self.split_keys@) =~= Seq::<Seq<u8>>::empty());
        out
    }

    pub fn policy(&self) -> (r: CheckPolicy)
        ensures
            r == self@.policy,
    {
        self.policy
    }

    /// The split keys that the samples of the engine tell of, in their public form.
    pub fn approximate_split_keys(&mut self, region: &Region, engine: &Db) -> (r: Result<
        Vec<Vec<u8>>,
    >)
        requires
            engine.wf(),
        ensures
            final(self)@ == old(self)@,
            exists|stored: Result<Vec<Vec<u8>>>|
                #[trigger] region_split_keys_spec(
                    engine@,
                    region,
                    old(self)@.split_size,
                    old(self)@.max_size,
                    old(self)@.batch_split_limit,
                    stored,
                ) && is_public_form(stored, r),
    {
        let stored = get_approximate_split_keys(
            engine,
            region,
            self.split_size,
            self.max_size,
            self.batch_split_limit,
        );
        let ghost found = stored;
        let r = match stored {
            Ok(keys) => Ok(public_keys(keys)),
            Err(e) => Err(e),
        };
        proof {
            assert(region_split_keys_spec(
                engine@,
                region,
                self@.split_size,
                self@.max_size,
                self@.batch_split_limit,
                found,
            ));
            assert(is_public_form(found, r));
        }
        r
    }
}

/// `r` is the result `stored` with its keys in their public form.
pub open spec fn is_public_form(stored: Result<Vec<Vec<u8>>>, r: Result<Vec<Vec<u8>>>) -> bool {
    match stored {
        Ok(keys) => r matches Ok(v) && keys_view(v@) == public_keys_of(keys_view(keys@)),
        Err(e) => r == Err::<Vec<Vec<u8>>, Error>(e),
    }
}

/// Adds a size checker to the checks of a region that is large enough to need one.
#[derive(Clone, Copy, Debug, PartialEq, Eq, Structural)]
pub struct SizeCheckObserver {
    pub region_max_size: u64,
    pub split_size: u64,
    pub split_limit: u64,
}

impl SizeCheckObserver {
    pub fn new(region_max_size: u64, split_size: u64, split_limit: u64) -> (r: SizeCheckObserver)
        ensures
            r == (SizeCheckObserver { region_max_size, split_size, split_limit }),
    {
        SizeCheckObserver { region_max_size, split_size, split_limit }
    }

    /// The region needs a size checker: its size is unknown, or `region_max_size` at
    /// least.
    pub open spec fn needs_check(&self, region_size: Option<u64>) -> bool {
        match region_size {
            None => true,
            Some(size) => size >= self.region_max_size,
        }
    }

    /// The policy of the checker: a region that is known to be very large is not walked
    /// through.
    pub open spec fn policy_for(&self, region_size: Option<u64>, policy: CheckPolicy) -> CheckPolicy {
        match region_size {
            Some(size) if size >= self.region_max_size * self.split_limit * 2 => CheckPolicy::APPROXIMATE,
            _ => policy,
        }
    }

    /// The checks of a region after the decision on its size check: with a size checker
    /// behind the others where the region needs one.
    pub open spec fn decided(
        &self,
        before: &Host,
        after: &Host,
        region_size: Option<u64>,
        policy: CheckPolicy,
    ) -> bool {
        &&& after.spec_auto_split() == before.spec_auto_split()
        &&& !self.needs_check(region_size) ==> after.checkers() == before.checkers()
        &&& self.needs_check(region_size) ==> {
            &&& after.checkers().len() == before.checkers().len() + 1
            &&& after.checkers().take(before.checkers().len() as int) == before.checkers()
            &&& after.checkers().last() is Size
            &&& after.checkers().last()->Size_0@ == (CheckerView {
                max_size: self.region_max_size,
                split_size: self.split_size,
                current_size: 0,
                split_keys: Seq::<Seq<u8>>::empty(),
                batch_split_limit: self.split_limit,
                policy: self.policy_for(region_size, policy),
            })
        }
    }

    /// Decides on the size check of a region of which the engine tells the approximate
    /// size `region_size`, or nothing.
    pub fn decide(&self, host: &mut Host, region_size: Option<u64>, policy: CheckPolicy)
        ensures
            self.decided(old(host), final(host), region_size, policy),
    {
        let region_size = match region_size {
            Some(size) => size,
            None => {
                host.add_checker(
                    AnyChecker::Size(
                        Checker::new(
                            self.region_max_size,
                            self.split_size,
                            self.split_limit,
                            policy,
                        ),
                    ),
                );
                assert(host.checkers().take(old(host).checkers().len() as int) =~= old(host).checkers());
                return ;
            },
        };
        if region_size >= self.region_max_size {
            let mut policy = policy;
            proof {
                lemma_mul_fits(self.region_max_size, self.split_limit);
            }
            let product: u128 = self.region_max_size as u128 * self.split_limit as u128;
            if product <= (region_size / 2) as u128 {
                policy = CheckPolicy::APPROXIMATE;
            }
            host.add_checker(
                AnyChecker::Size(
                    Checker::new(self.region_max_size, self.split_size, self.split_limit, policy),
                ),
            );
            assert(host.checkers().take(old(host).checkers().len() as int) =~= old(host).checkers());
        }
    }

    /// Decides on the size check of `region`, by its approximate size in `engine`. A
    /// region whose size the engine cannot tell is checked. Returns the size that is to
    /// be told to the store for the region, if it is known.
    pub fn add_checker(&self, region: &Region, host: &mut Host, engine: &Db, policy: CheckPolicy) -> (r:
        Option<u64>)
        requires
            engine.wf(),
        ensures
            r == region_size_of(engine@, region),
            self.decided(old(host), final(host), r, policy),
    {
        let region_size = match get_region_approximate_size(engine, region) {
            Ok(size) => Some(size),
            Err(_) => None,
        };
        self.decide(host, region_size, policy);
        region_size
    }
}

/// The product of two `u64` fits into a `u128`, with room for a `u64` more.
pub proof fn lemma_mul_fits(a: u64, b: u64)
    ensures
        a * b + u64::MAX <= u128::MAX,
{
    assert(a * b <= 0xFFFF_FFFF_FFFF_FFFF * 0xFFFF_FFFF_FFFF_FFFF) by (nonlinear_arith)
        requires
            0 <= a <= 0xFFFF_FFFF_FFFF_FFFF,
            0 <= b <= 0xFFFF_FFFF_FFFF_FFFF,
    ;
}

/// What the engine knows of one column family of a region: its approximate size, the keys
/// that its files sample inside the region, and the size that the samples stand for.
#[derive(Debug)]
pub struct CfSamples {
    /// The approximate size of the column family inside the region.
    pub size: u64,
    /// The sampled keys inside the region, in any order.
    pub keys: Vec<Vec<u8>>,
    /// The size that the files with these samples have inside the region.
    pub total_size: u64,
}

/// Samples as a mathematical value.
pub struct CfSamplesView {
    pub size: u64,
    pub keys: Seq<Seq<u8>>,
    pub total_size: u64,
}

impl CfSamples {
    pub open spec fn view(&self) -> CfSamplesView {
        CfSamplesView { size: self.size, keys: keys_view(self.keys@), total_size: self.total_size }
    }
}

/// The column family by which a region is split: the larger one, the default one if both
/// are of a size.
pub open spec fn larger_cf(default_cf_size: u64, write_cf_size: u64) -> Cf {
    if default_cf_size >= write_cf_size {
        Cf::Default
    } else {
        Cf::Write
    }
}

/// The part of `split_size` that falls to the larger column family, the sizes of the keys
/// being taken to be spread alike in both.
pub open spec fn cf_split_size(default_cf_size: u64, write_cf_size: u64, split_size: u64) -> int {
    let larger: int = if default_cf_size >= write_cf_size {
        default_cf_size as int
    } else {
        write_cf_size as int
    };
    split_size * larger / (default_cf_size + write_cf_size)
}

/// After how many samples a split key is due: `split_size` over the size that one sample
/// stands for, rounded up.
pub open spec fn stride(len: int, total_size: int, split_size: int) -> int {
    (split_size * len + total_size - 1) / total_size
}

/// Every `n`-th key of `keys`, from place `from` on.
pub open spec fn every_nth(keys: Seq<Seq<u8>>, n: int, from: int) -> Seq<Seq<u8>>
    decreases
            (if from < keys.len() {
                keys.len() - from
            } else {
                0
            }),
{
    if from < 0 || from >= keys.len() || n <= 0 {
        Seq::<Seq<u8>>::empty()
    } else {
        seq![keys[from]] + every_nth(keys, n, from + n)
    }
}

/// The split keys that sorted samples tell of: every `n`-th sample, `n` being the stride.
/// No more than `batch_split_limit` are kept; where fewer are found, the last is dropped
/// if the rest of the region would be smaller than `max_size` less `split_size`.
pub open spec fn split_keys_of(
    s: Seq<Seq<u8>>,
    total_size: u64,
    split_size: u64,
    max_size: u64,
    batch_split_limit: u64,
) -> Seq<Seq<u8>> {
    let n = stride(s.len() as int, total_size as int, split_size as int);
    let picked = every_nth(s, n, n - 1);
    if picked.len() > batch_split_limit {
        picked.take(batch_split_limit as int)
    } else if (s.len() as int % n) * (total_size as int / s.len() as int) + split_size < max_size
        && picked.len() > 0 {
        picked.drop_last()
    } else {
        picked
    }
}

/// What the samples of one column family tell: no split key where there is one sample, an
/// error where there is none or a size is 0, else the split keys of the sorted samples.
pub open spec fn split_keys_cf_spec(
    keys: Seq<Seq<u8>>,
    total_size: u64,
    split_size: u64,
    max_size: u64,
    batch_split_limit: u64,
    r: Result<Vec<Vec<u8>>>,
) -> bool {
    if keys.len() == 1 {
        r matches Ok(v) && v@.len() == 0
    } else if keys.len() == 0 || total_size == 0 || split_size == 0 {
        r == Err::<Vec<Vec<u8>>, Error>(Error::Unexpected)
    } else {
        r matches Ok(v) && exists|s: Seq<Seq<u8>>|
            is_sorted_of(s, keys) && keys_view(v@) == #[trigger] split_keys_of(
                s,
                total_size,
                split_size,
                max_size,
                batch_split_limit,
            )
    }
}

/// What the samples of a region tell: an error where both column families are empty, else
/// what the samples of the larger one tell for its part of `split_size`.
pub open spec fn approximate_split_keys_spec(
    default_cf: CfSamplesView,
    write_cf: CfSamplesView,
    split_size: u64,
    max_size: u64,
    batch_split_limit: u64,
    r: Result<Vec<Vec<u8>>>,
) -> bool {
    if default_cf.size + write_cf.size == 0 {
        r == Err::<Vec<Vec<u8>>, Error>(Error::EmptyCfs)
    } else {
        let part = cf_split_size(default_cf.size, write_cf.size, split_size) as u64;
        let by = if larger_cf(default_cf.size, write_cf.size) == Cf::Default {
            default_cf
        } else {
            write_cf
        };
        split_keys_cf_spec(by.keys, by.total_size, part, max_size, batch_split_limit, r)
    }
}

/// The split keys that the samples of the two column families of a region tell of.
pub fn split_keys_from_samples(
    default_cf: CfSamples,
    write_cf: CfSamples,
    split_size: u64,
    max_size: u64,
    batch_split_limit: u64,
) -> (r: Result<Vec<Vec<u8>>>)
    ensures
        approximate_split_keys_spec(
            default_cf.view(),
            write_cf.view(),
            split_size,
            max_size,
            batch_split_limit,
            r,
        ),
{
    let default_cf_size: u64 = default_cf.size;
    let write_cf_size: u64 = write_cf.size;
    let sum: u128 = default_cf_size as u128 + write_cf_size as u128;
    if sum == 0 {
        return Err(Error::EmptyCfs);
    }
    proof {
        lemma_mul_fits(split_size, default_cf_size);
        lemma_mul_fits(split_size, write_cf_size);
    }
    if default_cf_size >= write_cf_size {
        let part: u128 = split_size as u128 * default_cf_size as u128 / sum;
        assert(part <= split_size) by (nonlinear_arith)
            requires
                part == (split_size as int * default_cf_size as int) / (sum as int),
                default_cf_size as u128 <= sum,
                sum > 0,
        ;
        split_keys_from_keys(
            default_cf.keys,
            default_cf.total_size,
            part as u64,
            max_size,
            batch_split_limit,
        )
    } else {
        let part: u128 = split_size as u128 * write_cf_size as u128 / sum;
        assert(part <= split_size) by (nonlinear_arith)
            requires
                part == (split_size as int * write_cf_size as int) / (sum as int),
                write_cf_size as u128 <= sum,
                sum > 0,
        ;
        split_keys_from_keys(
            write_cf.keys,
            write_cf.total_size,
            part as u64,
            max_size,
            batch_split_limit,
        )
    }
}

/// The split keys that the sampled keys of one column family tell of.
pub fn split_keys_from_keys(
    keys: Vec<Vec<u8>>,
    total_size: u64,
    split_size: u64,
    max_size: u64,
    batch_split_limit: u64,
) -> (r: Result<Vec<Vec<u8>>>)
    ensures
        split_keys_cf_spec(
            keys_view(keys@),
            total_size,
            split_size,
            max_size,
            batch_split_limit,
            r,
        ),
{
    let mut keys = keys;
    if keys.len() == 1 {
        return Ok(Vec::new());
    }
    if keys.len() == 0 || total_size == 0 || split_size == 0 {
        return Err(Error::Unexpected);
    }
    let ghost unsorted = keys_view(keys@);
    sort_keys(&mut keys);
    let ghost s = keys_view(keys@);
    proof {
        s.to_multiset_ensures();
        unsorted.to_multiset_ensures();
    }
    let len: usize = keys.len();
    proof {
        lemma_mul_fits(split_size, len as u64);
    }
    assert(split_size as u128 * len as u128 + total_size as u128 - 1 <= u128::MAX
        && split_size as u128 * len as u128 + total_size as u128 - 1 >= total_size as u128)
        by (nonlinear_arith)
        requires
            1 <= split_size <= u64::MAX,
            1 <= len <= usize::MAX,
            usize::MAX <= u64::MAX,
            0 < total_size <= u64::MAX,
    ;
    let n: u128 = (split_size as u128 * len as u128 + total_size as u128 - 1)
        / total_size as u128;
    assert(n >= 1) by (nonlinear_arith)
        requires
            n == (split_size as int * len as int + total_size as int - 1) / (total_size as int),
            split_size as u128 * len as u128 + total_size as u128 - 1 >= total_size as u128,
            total_size > 0,
    ;
    assert(n == stride(len as int, total_size as int, split_size as int));
    let mut split_keys: Vec<Vec<u8>> = Vec::new();
    assert(keys_view(split_keys@) + every_nth(s, n as int, n - 1) =~= every_nth(s, n as int, n - 1));
    if n <= len as u128 {
        let mut j: u128 = n - 1;
        while j < len as u128
            invariant
                1 <= n <= len,
                len == s.len(),
                len == keys@.len(),
                s == keys_view(keys@),
                j < len + n,
                every_nth(s, n as int, n - 1) == keys_view(split_keys@) + every_nth(
                    s,
                    n as int,
                    j as int,
                ),
            decreases len + n - j,
        {
            let ghost before = keys_view(split_keys@);
            split_keys.push(copy_bytes(keys[j as usize].as_slice()));
            proof {
                assert(keys_view(split_keys@) =~= before.push(s[j as int]));
                assert(before + (seq![s[j as int]] + every_nth(s, n as int, j + n)) =~= keys_view(
                    split_keys@,
                ) + every_nth(s, n as int, j + n));
            }
            j += n;
        }
    }
    let ghost picked = keys_view(split_keys@);
    assert(picked =~= every_nth(s, n as int, n - 1));
    if split_keys.len() as u64 > batch_split_limit {
        split_keys.truncate(batch_split_limit as usize);
        assert(keys_view(split_keys@) =~= picked.take(batch_split_limit as int));
    } else {
        let rest: u128 = (len as u128) % n;
        let distance: u64 = total_size / (len as u64);
        assert(rest <= len) by (nonlinear_arith)
            requires
                rest == (len as int) % (n as int),
                n >= 1,
                len >= 0,
        ;
        proof {
            lemma_mul_fits(rest as u64, distance);
        }
        if rest * distance as u128 + (split_size as u128) < max_size as u128 {
            split_keys.pop();
            assert(keys_view(split_keys@) =~= if picked.len() > 0 {
                picked.drop_last()
            } else {
                picked
            });
        }
    }
    assert(keys_view(split_keys@) == split_keys_of(
        s,
        total_size,
        split_size,
        max_size,
        batch_split_limit,
    ));
    Ok(split_keys)
}

/// The size of one column family of a region, as the engine tells it.
pub open spec fn region_size_cf(db: DbView, cf: Cf, region: &Region) -> u64 {
    capped(pairs_size(range_of(db.cf(cf), start_of(region), end_of(region))))
}

/// The size of a region, as the engine tells it: that of its default and its write column
/// family, `u64::MAX` where it is more. Nothing where the engine lacks the write column
/// family.
pub open spec fn region_size_of(db: DbView, region: &Region) -> Option<u64> {
    if db.has_cf(Cf::Write) {
        Some(
            capped(
                (region_size_cf(db, Cf::Default, region) + region_size_cf(db, Cf::Write, region)) as nat,
            ),
        )
    } else {
        None
    }
}

/// The keys of `r` that are not `start`.
pub open spec fn inner_keys(r: Seq<(Seq<u8>, Seq<u8>)>, start: Seq<u8>) -> Seq<Seq<u8>> {
    if r.len() > 0 && r[0].0 == start {
        Seq::new((r.len() - 1) as nat, |i: int| r[i + 1].0)
    } else {
        Seq::new(r.len(), |i: int| r[i].0)
    }
}

/// What the engine knows of one column family of a region: every key behind the start of
/// the region is a sample.
pub open spec fn samples_of(db: DbView, cf: Cf, region: &Region) -> CfSamplesView {
    CfSamplesView {
        size: region_size_cf(db, cf, region),
        keys: inner_keys(range_of(db.cf(cf), start_of(region), end_of(region)), start_of(region)),
        total_size: region_size_cf(db, cf, region),
    }
}

/// The approximate size of one column family of the region.
pub fn get_region_approximate_size_cf(db: &Db, cf: Cf, region: &Region) -> (r: Result<u64>)
    requires
        db.wf(),
    ensures
        !db@.has_cf(cf) ==> r == Err::<u64, Error>(
            Error::Engine(crate::engine::db::Error::CfNotFound(cf)),
        ),
        db@.has_cf(cf) ==> r == Ok::<u64, Error>(region_size_cf(db@, cf, region)),
{
    let start_key = enc_start_key(region);
    let end_key = enc_end_key(region);
    match db.approximate_range_size(cf, start_key.as_slice(), end_key.as_slice()) {
        Ok(size) => Ok(size),
        Err(e) => Err(Error::Engine(e)),
    }
}

/// The approximate size of the region: that of the column families that hold the data.
pub fn get_region_approximate_size(db: &Db, region: &Region) -> (r: Result<u64>)
    requires
        db.wf(),
    ensures
        match region_size_of(db@, region) {
            Some(size) => r == Ok::<u64, Error>(size),
            None => r == Err::<u64, Error>(
                Error::Engine(crate::engine::db::Error::CfNotFound(Cf::Write)),
            ),
        },
{
    let default_size: u64 = match get_region_approximate_size_cf(db, Cf::Default, region) {
        Ok(size) => size,
        Err(e) => {
            return Err(e);
        },
    };
    let write_size: u64 = match get_region_approximate_size_cf(db, Cf::Write, region) {
        Ok(size) => size,
        Err(e) => {
            return Err(e);
        },
    };
    if default_size > u64::MAX - write_size {
        Ok(u64::MAX)
    } else {
        Ok(default_size + write_size)
    }
}

/// What the engine knows of one column family of the region.
pub fn region_samples(db: &Db, cf: Cf, region: &Region) -> (r: Result<CfSamples>)
    requires
        db.wf(),
    ensures
        !db@.has_cf(cf) ==> (r matches Err(Error::Engine(crate::engine::db::Error::CfNotFound(c)))
            && c == cf),
        db@.has_cf(cf) ==> (r matches Ok(s) && s.view() == samples_of(db@, cf, region)),
{
    let start_key = enc_start_key(region);
    let end_key = enc_end_key(region);
    let offsets = match db.approximate_range_offsets(
        cf,
        start_key.as_slice(),
        end_key.as_slice(),
    ) {
        Ok(v) => v,
        Err(e) => {
            return Err(Error::Engine(e));
        },
    };
    let ghost range = range_of(db@.cf(cf), start_of(region), end_of(region));
    let n: usize = offsets.len();
    let size: u64 = if n == 0 {
        0
    } else {
        proof {
            assert(range.take(n as int) =~= range);
        }
        offsets[n - 1].1
    };
    let skip: usize = if n > 0 && crate::util::order::bytes_eq(
        offsets[0].0.as_slice(),
        start_key.as_slice(),
    ) {
        1
    } else {
        0
    };
    let mut keys: Vec<Vec<u8>> = Vec::new();
    let mut i: usize = skip;
    while i < n
        invariant
            skip <= i <= n,
            n == offsets@.len(),
            n == range.len(),
            keys@.len() == i - skip,
            forall|j: int| 0 <= j < n ==> (#[trigger] offsets@[j]).0@ == range[j].0,
            forall|j: int| 0 <= j < keys@.len() ==> (#[trigger] keys@[j])@ == range[j + skip].0,
        decreases n - i,
    {
        keys.push(copy_bytes(offsets[i].0.as_slice()));
        i += 1;
    }
    let samples = CfSamples { size, keys, total_size: size };
    assert(samples.view().keys =~= inner_keys(range, start_of(region)));
    Ok(samples)
}

/// What the samples of the engine tell of the region: an error where the engine lacks the
/// write column family, else what the samples of the two column families tell.
pub open spec fn region_split_keys_spec(
    db: DbView,
    region: &Region,
    split_size: u64,
    max_size: u64,
    batch_split_limit: u64,
    r: Result<Vec<Vec<u8>>>,
) -> bool {
    if !db.has_cf(Cf::Write) {
        r == Err::<Vec<Vec<u8>>, Error>(
            Error::Engine(crate::engine::db::Error::CfNotFound(Cf::Write)),
        )
    } else {
        approximate_split_keys_spec(
            samples_of(db, Cf::Default, region),
            samples_of(db, Cf::Write, region),
            split_size,
            max_size,
            batch_split_limit,
            r,
        )
    }
}

/// Get region approximate split keys based on default and write cf.
pub fn get_approximate_split_keys(
    db: &Db,
    region: &Region,
    split_size: u64,
    max_size: u64,
    batch_split_limit: u64,
) -> (r: Result<Vec<Vec<u8>>>)
    requires
        db.wf(),
    ensures
        region_split_keys_spec(db@, region, split_size, max_size, batch_split_limit, r),
{
    let default_cf = match region_samples(db, Cf::Default, region) {
        Ok(s) => s,
        Err(e) => {
            return Err(e);
        },
    };
    let write_cf = match region_samples(db, Cf::Write, region) {
        Ok(s) => s,
        Err(e) => {
            return Err(e);
        },
    };
    split_keys_from_samples(default_cf, write_cf, split_size, max_size, batch_split_limit)
}

/// The split keys that the samples of one column family of the region tell of.
pub fn get_approximate_split_keys_cf(
    db: &Db,
    cf: Cf,
    region: &Region,
    split_size: u64,
    max_size: u64,
    batch_split_limit: u64,
) -> (r: Result<Vec<Vec<u8>>>)
    requires
        db.wf(),
    ensures
        !db@.has_cf(cf) ==> r == Err::<Vec<Vec<u8>>, Error>(
            Error::Engine(crate::engine::db::Error::CfNotFound(cf)),
        ),
        db@.has_cf(cf) ==> split_keys_cf_spec(
            samples_of(db@, cf, region).keys,
            samples_of(db@, cf, region).total_size,
            split_size,
            max_size,
            batch_split_limit,
            r,
        ),
{
    let samples = match region_samples(db, cf, region) {
        Ok(s) => s,
        Err(e) => {
            return Err(e);
        },
    };
    split_keys_from_keys(samples.keys, samples.total_size, split_size, max_size, batch_split_limit)
}

} // verus!
