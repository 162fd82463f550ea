//! Splitting a region in half: one split key, at the middle of the region.

use crate::engine::db::{Cf, Db, DbView};
use crate::raftstore::host::{AnyChecker, Host};
use crate::raftstore::keys::{
    is_data_key, origin_key, public_key_of, public_keys, CheckPolicy, KeyEntry, Region,
};
use crate::raftstore::size::{
    larger_cf, region_samples, samples_of, CfSamples, CfSamplesView, Error,
};
use crate::util::order::{copy_bytes, is_sorted_of, keys_view, sort_keys};
use vstd::prelude::*;

verus! {

/// The most buckets that a region is cut into.
pub const BUCKET_NUMBER_LIMIT: usize = 1024;

/// The largest size of a bucket, in MiB.
pub const BUCKET_SIZE_LIMIT_MB: u64 = 512;

/// The number of bytes in a MiB.
pub const MB: u64 = 1048576;

/// A half checker as a mathematical value.
pub struct CheckerView {
    /// The stored keys at which the buckets start.
    pub buckets: Seq<Seq<u8>>,
    pub cur_bucket_size: u64,
    pub each_bucket_size: u64,
    pub policy: CheckPolicy,
}

impl CheckerView {
    /// The checker after a pair of `size` bytes with the stored key `key`: the pair starts
    /// a bucket where there is none or the running one is full.
    pub open spec fn on_kv(self, key: Seq<u8>, size: nat) -> CheckerView {
        if self.buckets.len() == 0 || self.cur_bucket_size >= self.each_bucket_size {
            CheckerView { buckets: self.buckets.push(key), cur_bucket_size: size as u64, ..self }
        } else {
            CheckerView { cur_bucket_size: (self.cur_bucket_size + size) as u64, ..self }
        }
    }

    /// The place of the bucket in the middle.
    pub open spec fn mid(self) -> int {
        self.buckets.len() as int / 2
    }

    /// The split key: the data key at which the bucket in the middle starts. None where
    /// there is one bucket or none.
    pub open spec fn final_keys(self) -> Seq<Seq<u8>> {
        if self.mid() == 0 {
            Seq::<Seq<u8>>::empty()
        } else {
            seq![self.buckets[self.mid()].skip(1)]
        }
    }

    /// The checker once its split key is taken: the bucket in the middle is gone, the last
    /// one stands in its place.
    pub open spec fn taken(self) -> CheckerView {
        if self.mid() == 0 {
            self
        } else {
            CheckerView {
                buckets: self.buckets.update(self.mid(), self.buckets.last()).drop_last(),
                ..self
            }
        }
    }

    /// Every bucket starts at a stored data key.
    pub open spec fn wf(self) -> bool {
        forall|i: int| 0 <= i < self.buckets.len() ==> is_data_key(#[trigger] self.buckets[i])
    }
}

/// Looks for the key in the middle of a region.
#[derive(Debug)]
pub struct Checker {
    buckets: Vec<Vec<u8>>,
    cur_bucket_size: u64,
    each_bucket_size: u64,
    policy: CheckPolicy,
}

impl View for Checker {
    type V = CheckerView;

    closed spec fn view(&self) -> CheckerView {
        CheckerView {
            buckets: keys_view(self.buckets@),
            cur_bucket_size: self.cur_bucket_size,
            each_bucket_size: self.each_bucket_size,
            policy: self.policy,
        }
    }
}

impl Checker {
    pub fn new(each_bucket_size: u64, policy: CheckPolicy) -> (r: Checker)
        ensures
            r@ == (CheckerView {
                buckets: Seq::<Seq<u8>>::empty(),
                cur_bucket_size: 0,
                each_bucket_size,
                policy,
            }),
            r@.wf(),
    {
        let r = Checker { each_bucket_size, cur_bucket_size: 0, buckets: Vec::new(), policy };
        assert(r@.buckets =~= Seq::<Seq<u8>>::empty());
        r
    }

    /// Takes note of a pair of the scan. The scan never ends early.
    pub fn on_kv(&mut self, entry: &KeyEntry) -> (r: bool)
        requires
            entry.wf(),
            old(self)@.wf(),
            is_data_key(entry.spec_key()),
            old(self)@.cur_bucket_size + entry.spec_entry_size() <= u64::MAX,
        ensures
            final(self)@ == old(self)@.on_kv(entry.spec_key(), entry.spec_entry_size()),
            final(self)@.wf(),
            !r,
    {
        if self.buckets.len() == 0 || self.cur_bucket_size >= self.each_bucket_size {
            let ghost before = keys_view(self.buckets@);
            self.buckets.push(copy_bytes(entry.key()));
            assert(keys_view(self.buckets@) =~= before.push(entry.spec_key()));
            self.cur_bucket_size = 0;
        }
        self.cur_bucket_size += entry.entry_size() as u64;
        false
    }

    /// The split key that the scan has found, if it has found one.
    pub fn split_keys(&mut self) -> (r: Vec<Vec<u8>>)
        requires
            old(self)@.wf(),
        ensures
            keys_view(r@) == old(self)@.final_keys(),
            final(self)@ == old(self)@.taken(),
            final(self)@.wf(),
    {
        let mid: usize = self.buckets.len() / 2;
        if mid == 0 {
            let r: Vec<Vec<u8>> = Vec::new();
            assert(keys_view(r@) =~= Seq::<Seq<u8>>::empty());
            r
        } else {
            let ghost before = keys_view(self.buckets@);
            assert(is_data_key(before[mid as int]));
            let data_key = self.buckets.swap_remove(mid);
            proof {
                assert(keys_view(self.buckets@) =~= before.update(
                    mid as int,
                    before.last(),
                ).drop_last());
                assert forall|i: int| 0 <= i < self@.buckets.len() implies is_data_key(
                    #[trigger] self@.buckets[i],
                ) by {
                    if i == mid {
                        assert(is_data_key(before[before.len() - 1]));
                    } else {
                        assert(is_data_key(before[i]));
                    }
                }
            }
            let key = copy_bytes(origin_key(data_key.as_slice()));
            let r: Vec<Vec<u8>> = vec![key];
            assert(keys_view(r@) =~= seq![before[mid as int].skip(1)]);
            r
        }
    }

    /// The split key that the samples of the engine tell of: the middle one, in its public
    /// form.
    pub fn approximate_split_keys(&mut self, region: &Region, engine: &Db) -> (r: Result<
        Vec<Vec<u8>>,
        Error,
    >)
        requires
            engine.wf(),
        ensures
            final(self)@ == old(self)@,
            !engine@.has_cf(Cf::Write) ==> r == Err::<Vec<Vec<u8>>, Error>(
                Error::Engine(crate::engine::db::Error::CfNotFound(Cf::Write)),
            ),
            engine@.has_cf(Cf::Write) ==> (r matches Ok(v) && v@.len() <= 1 && exists|
                middle: Option<Seq<u8>>,
            |
                #[trigger] is_middle_of(region_middle_samples(engine@, region), middle) && (
                match middle {
                    Some(k) => v@.len() == 1 && v@[0]@ == public_key_of(k),
                    None => v@.len() == 0,
                })),
    {
        match get_region_approximate_middle(engine, region) {
            Ok(Some(key)) => {
                let ghost stored = key@;
                let one: Vec<Vec<u8>> = vec![key];
                assert(keys_view(one@)[0] == stored);
                let keys = public_keys(one);
                proof {
                    assert(is_middle_of(region_middle_samples(engine@, region), Some(stored)));
                    assert(keys_view(keys@).len() == 1);
                    assert(keys_view(keys@)[0] == public_key_of(stored));
                    assert(keys@[0]@ == keys_view(keys@)[0]);
                }
                Ok(keys)
            },
            Ok(None) => {
                assert(is_middle_of(region_middle_samples(engine@, region), None::<Seq<u8>>));
                Ok(Vec::new())
            },
            Err(e) => Err(e),
        }
    }

    pub fn policy(&self) -> (r: CheckPolicy)
        ensures
            r == self@.policy,
    {
        self.policy
    }
}

/// Adds a half checker to the checks of a region that is to be split by hand.
#[derive(Clone, Copy, Debug, PartialEq, Eq, Structural)]
pub struct HalfCheckObserver {
    pub half_split_bucket_size: u64,
}

/// The size of the buckets for a region of `region_size_limit` bytes at most: the
/// `BUCKET_NUMBER_LIMIT`-th part of it, 1 byte at least and `BUCKET_SIZE_LIMIT_MB` MiB at
/// most.
pub open spec fn bucket_size_for(region_size_limit: u64) -> u64 {
    let part = region_size_limit / (BUCKET_NUMBER_LIMIT as u64);
    if part == 0 {
        1
    } else if part > BUCKET_SIZE_LIMIT_MB * MB {
        (BUCKET_SIZE_LIMIT_MB * MB) as u64
    } else {
        part
    }
}

/// The largest size of a bucket, in bytes.
pub fn bucket_limit_bytes() -> (r: u64)
    ensures
        r == BUCKET_SIZE_LIMIT_MB * MB,
{
    BUCKET_SIZE_LIMIT_MB * MB
}

impl HalfCheckObserver {
    pub fn new(region_size_limit: u64) -> (r: HalfCheckObserver)
        ensures
            r.half_split_bucket_size == bucket_size_for(region_size_limit),
    {
        let mut half_split_bucket_size: u64 = region_size_limit / BUCKET_NUMBER_LIMIT as u64;
        let bucket_size_limit: u64 = BUCKET_SIZE_LIMIT_MB * MB;
        if half_split_bucket_size == 0 {
            half_split_bucket_size = 1;
        } else if half_split_bucket_size > bucket_size_limit {
            half_split_bucket_size = bucket_size_limit;
        }
        HalfCheckObserver { half_split_bucket_size }
    }

    /// The checks of a region after the decision on its half check: with a half checker
    /// behind the others, unless the region is checked for splitting of itself.
    pub open spec fn decided(&self, before: &Host, after: &Host, policy: CheckPolicy) -> bool {
        &&& after.spec_auto_split() == before.spec_auto_split()
        &&& before.spec_auto_split() ==> after.checkers() == before.checkers()
        &&& !before.spec_auto_split() ==> {
            &&& after.checkers().len() == before.checkers().len() + 1
            &&& after.checkers().take(before.checkers().len() as int) == before.checkers()
            &&& after.checkers().last() is Half
            &&& after.checkers().last()->Half_0@ == (CheckerView {
                buckets: Seq::<Seq<u8>>::empty(),
                cur_bucket_size: 0,
                each_bucket_size: self.half_split_bucket_size,
                policy,
            })
        }
    }

    /// Adds a half checker, unless the region is checked for splitting of itself.
    pub fn add_checker(&self, host: &mut Host, policy: CheckPolicy)
        ensures
            self.decided(old(host), final(host), policy),
    {
        if host.auto_split() {
            return ;
        }
        host.add_checker(AnyChecker::Half(Checker::new(self.half_split_bucket_size, policy)));
        assert(host.checkers().take(old(host).checkers().len() as int) =~= old(host).checkers());
    }
}

/// The samples by which the middle of a region is found: those of the larger column
/// family.
pub open spec fn middle_samples(default_cf: CfSamplesView, write_cf: CfSamplesView) -> Seq<Seq<u8>> {
    if larger_cf(default_cf.size, write_cf.size) == Cf::Default {
        default_cf.keys
    } else {
        write_cf.keys
    }
}

/// `r` is the middle one of `keys`: with the keys in order, the one at the place
/// `(len - 1) / 2`, which is the left one of the two in the middle where their number is
/// even. There is none where there are no keys.
pub open spec fn is_middle_of(keys: Seq<Seq<u8>>, r: Option<Seq<u8>>) -> bool {
    if keys.len() == 0 {
        r is None
    } else {
        r is Some && exists|s: Seq<Seq<u8>>|
            #[trigger] is_sorted_of(s, keys) && s[(s.len() - 1) / 2] == r->Some_0
    }
}

/// The key in the middle of a region, by the samples of its larger column family.
pub fn middle_from_samples(default_cf: CfSamples, write_cf: CfSamples) -> (r: Option<Vec<u8>>)
    ensures
        is_middle_of(
            middle_samples(default_cf.view(), write_cf.view()),
            match r {
                Some(k) => Some(k@),
                None => None,
            },
        ),
{
    if default_cf.size >= write_cf.size {
        middle_of_keys(default_cf.keys)
    } else {
        middle_of_keys(write_cf.keys)
    }
}

/// The middle one of the sampled keys of a column family.
pub fn middle_of_keys(keys: Vec<Vec<u8>>) -> (r: Option<Vec<u8>>)
    ensures
        is_middle_of(
            keys_view(keys@),
            match r {
                Some(k) => Some(k@),
                None => None,
            },
        ),
{
    let mut keys = keys;
    if keys.len() == 0 {
        return None;
    }
    let ghost unsorted = keys_view(keys@);
    sort_keys(&mut keys);
    let ghost s = keys_view(keys@);
    proof {
        s.to_multiset_ensures();
        unsorted.to_multiset_ensures();
    }
    let middle: usize = (keys.len() - 1) / 2;
    assert(s[middle as int] == keys@[middle as int]@);
    Some(keys.swap_remove(middle))
}

/// The samples by which the engine finds the middle of the region.
pub open spec fn region_middle_samples(db: DbView, region: &Region) -> Seq<Seq<u8>> {
    middle_samples(samples_of(db, Cf::Default, region), samples_of(db, Cf::Write, region))
}

/// Get region approximate middle key based on default and write cf size.
pub fn get_region_approximate_middle(db: &Db, region: &Region) -> (r: Result<
    Option<Vec<u8>>,
    Error,
>)
    requires
        db.wf(),
    ensures
        !db@.has_cf(Cf::Write) ==> r == Err::<Option<Vec<u8>>, Error>(
            Error::Engine(crate::engine::db::Error::CfNotFound(Cf::Write)),
        ),
        db@.has_cf(Cf::Write) ==> (r matches Ok(k) && is_middle_of(
            region_middle_samples(db@, region),
            match k {
                Some(k) => Some(k@),
                None => None,
            },
        )),
{
    let default_cf = match region_samples(db, Cf::Default, region) {
        Ok(s) => s,
        Err(e) => {
            return Err(e);
        },
    };
    let write_cf = match region_samples(db, Cf::Write, region) {
        Ok(s) => s,
        Err(e) => {
            return Err(e);
        },
    };
    Ok(middle_from_samples(default_cf, write_cf))
}

/// Get the approximate middle key of the region, by the samples of one column family. If
/// we suppose the region is stored on disk as a plain file, "middle key" means the key
/// whose position is in the middle of the file.
pub fn get_region_approximate_middle_cf(db: &Db, cf: Cf, region: &Region) -> (r: Result<
    Option<Vec<u8>>,
    Error,
>)
    requires
        db.wf(),
    ensures
        !db@.has_cf(cf) ==> r == Err::<Option<Vec<u8>>, Error>(
            Error::Engine(crate::engine::db::Error::CfNotFound(cf)),
        ),
        db@.has_cf(cf) ==> (r matches Ok(k) && is_middle_of(
            samples_of(db@, cf, region).keys,
            match k {
                Some(k) => Some(k@),
                None => None,
            },
        )),
{
    let samples = match region_samples(db, cf, region) {
        Ok(s) => s,
        Err(e) => {
            return Err(e);
        },
    };
    Ok(middle_of_keys(samples.keys))
}

} // verus!
