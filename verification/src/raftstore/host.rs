//! The checks of one region: the checkers that were added, asked in the order in which
//! they were added.

use crate::raftstore::keys::{is_data_key, CheckPolicy, KeyEntry};
use crate::util::order::keys_view;
use vstd::prelude::*;

verus! {

/// One of the checkers.
#[derive(Debug)]
pub enum AnyChecker {
    Size(crate::raftstore::size::Checker),
    Half(crate::raftstore::half::Checker),
}

impl AnyChecker {
    /// The checker can take a pair of `size` bytes.
    pub open spec fn takes(&self, size: nat) -> bool {
        match self {
            AnyChecker::Size(c) => c@.current_size + size <= u64::MAX,
            AnyChecker::Half(c) => c@.wf() && c@.cur_bucket_size + size <= u64::MAX,
        }
    }

    /// The checker has taken the pair with the stored key `key` and `size` bytes.
    pub open spec fn took(&self, before: &AnyChecker, key: Seq<u8>, size: nat) -> bool {
        match (before, self) {
            (AnyChecker::Size(b), AnyChecker::Size(a)) => a@ == b@.on_kv(key, size),
            (AnyChecker::Half(b), AnyChecker::Half(a)) => a@ == b@.on_kv(key, size),
            _ => false,
        }
    }

    /// The scan can end as far as the checker goes.
    pub open spec fn done(&self) -> bool {
        match self {
            AnyChecker::Size(c) => c@.done(),
            AnyChecker::Half(c) => false,
        }
    }

    /// The split keys that the checker has found.
    pub open spec fn final_keys(&self) -> Seq<Seq<u8>> {
        match self {
            AnyChecker::Size(c) => c@.final_keys(),
            AnyChecker::Half(c) => c@.final_keys(),
        }
    }

    pub open spec fn spec_policy(&self) -> CheckPolicy {
        match self {
            AnyChecker::Size(c) => c@.policy,
            AnyChecker::Half(c) => c@.policy,
        }
    }

    /// The checker can be asked for its split keys.
    pub open spec fn wf(&self) -> bool {
        match self {
            AnyChecker::Size(c) => true,
            AnyChecker::Half(c) => c@.wf(),
        }
    }
}

/// The checks of a region.
#[derive(Debug)]
pub struct Host {
    checkers: Vec<AnyChecker>,
    auto_split: bool,
}

impl Host {
    /// The checkers, in the order in which they were added.
    pub closed spec fn checkers(&self) -> Seq<AnyChecker> {
        self.checkers@
    }

    pub closed spec fn spec_auto_split(&self) -> bool {
        self.auto_split
    }

    /// The checks of a region without checkers. `auto_split` tells whether the region is
    /// checked of itself or at somebody's request.
    pub fn new(auto_split: bool) -> (r: Host)
        ensures
            r.checkers().len() == 0,
            r.spec_auto_split() == auto_split,
    {
        Host { auto_split, checkers: Vec::new() }
    }

    pub fn auto_split(&self) -> (r: bool)
        ensures
            r == self.spec_auto_split(),
    {
        self.auto_split
    }

    /// `true` iff there is nothing to check.
    pub fn skip(&self) -> (r: bool)
        ensures
            r == (self.checkers().len() == 0),
    {
        self.checkers.len() == 0
    }

    /// How the split keys are to be looked for: by the samples of the engine if one of
    /// the checkers asks for that, else by a scan.
    pub fn policy(&self) -> (r: CheckPolicy)
        ensures
            r == CheckPolicy::APPROXIMATE <==> exists|i: int|
                0 <= i < self.checkers().len() && (#[trigger] self.checkers()[i]).spec_policy()
                    == CheckPolicy::APPROXIMATE,
            r == CheckPolicy::APPROXIMATE || r == CheckPolicy::SCAN,
    {
        let mut i: usize = 0;
        while i < self.checkers.len()
            invariant
                i <= self.checkers@.len(),
                forall|j: int|
                    0 <= j < i ==> (#[trigger] self.checkers@[j]).spec_policy()
                        != CheckPolicy::APPROXIMATE,
            decreases self.checkers@.len() - i,
        {
            let p = match &self.checkers[i] {
                AnyChecker::Size(c) => c.policy(),
                AnyChecker::Half(c) => c.policy(),
            };
            if p == CheckPolicy::APPROXIMATE {
                return CheckPolicy::APPROXIMATE;
            }
            i += 1;
        }
        CheckPolicy::SCAN
    }

    /// Adds a checker behind those that are there.
    pub fn add_checker(&mut self, checker: AnyChecker)
        ensures
            final(self).checkers() == old(self).checkers().push(checker),
            final(self).spec_auto_split() == old(self).spec_auto_split(),
    {
        self.checkers.push(checker);
    }

    /// The place of the first checker for which the scan can end after the pair;
    /// the number of checkers if there is none.
    pub open spec fn stops_at(&self, key: Seq<u8>, size: nat, from: int) -> int
        decreases self.checkers().len() - from,
    {
        if from < 0 || from >= self.checkers().len() {
            self.checkers().len() as int
        } else if match self.checkers()[from] {
            AnyChecker::Size(c) => c@.on_kv(key, size).done(),
            AnyChecker::Half(c) => false,
        } {
            from
        } else {
            self.stops_at(key, size, from + 1)
        }
    }

    /// Shows a pair of the scan to the checkers, one after the other, up to the first for
    /// which the scan can end. Returns whether there is such a checker.
    pub fn on_kv(&mut self, entry: &KeyEntry) -> (r: bool)
        requires
            entry.wf(),
            is_data_key(entry.spec_key()),
            forall|i: int|
                0 <= i < old(self).checkers().len() ==> (#[trigger] old(self).checkers()[i]).takes(
                    entry.spec_entry_size(),
                ),
        ensures
            final(self).spec_auto_split() == old(self).spec_auto_split(),
            final(self).checkers().len() == old(self).checkers().len(),
            r == (old(self).stops_at(entry.spec_key(), entry.spec_entry_size(), 0) < old(self).checkers().len()),
            forall|i: int|
                0 <= i < old(self).checkers().len() ==> if i <= old(self).stops_at(
                    entry.spec_key(),
                    entry.spec_entry_size(),
                    0,
                ) {
                    (#[trigger] final(self).checkers()[i]).took(
                        &old(self).checkers()[i],
                        entry.spec_key(),
                        entry.spec_entry_size(),
                    )
                } else {
                    final(self).checkers()[i] == old(self).checkers()[i]
                },
    {
        let n: usize = self.checkers.len();
        let mut i: usize = 0;
        let ghost key = entry.spec_key();
        let ghost size = entry.spec_entry_size();
        proof {
            assert forall|j: int| 0 <= j < n implies (#[trigger] old(self).checkers@[j]).takes(
                size,
            ) by {
                assert(old(self).checkers()[j].takes(size));
            }
        }
        while i < n
            invariant
                i <= n,
                n == self.checkers@.len(),
                n == old(self).checkers@.len(),
                self.auto_split == old(self).auto_split,
                entry.wf(),
                is_data_key(entry.spec_key()),
                key == entry.spec_key(),
                size == entry.spec_entry_size(),
                forall|j: int|
                    0 <= j < n ==> (#[trigger] old(self).checkers@[j]).takes(size),
                old(self).stops_at(key, size, 0) == old(self).stops_at(key, size, i as int),
                forall|j: int|
                    0 <= j < i ==> (#[trigger] self.checkers@[j]).took(
                        &old(self).checkers@[j],
                        key,
                        size,
                    ),
                forall|j: int| i <= j < n ==> (#[trigger] self.checkers@[j]) == old(self).checkers@[j],
            decreases n - i,
        {
            assert(old(self).checkers@[i as int].takes(size));
            let ghost before = self.checkers@;
            let done: bool = match &mut self.checkers[i] {
                AnyChecker::Size(c) => c.on_kv(entry),
                AnyChecker::Half(c) => c.on_kv(entry),
            };
            proof {
                assert forall|j: int| 0 <= j < n && j != i implies (#[trigger] self.checkers@[j])
                    == before[j] by {}
            }
            if done {
                return true;
            }
            i += 1;
        }
        false
    }

    /// The place of the first checker that has found split keys; the number of checkers if
    /// there is none.
    pub open spec fn first_with_keys(&self, from: int) -> int
        decreases self.checkers().len() - from,
    {
        if from < 0 || from >= self.checkers().len() {
            self.checkers().len() as int
        } else if self.checkers()[from].final_keys().len() > 0 {
            from
        } else {
            self.first_with_keys(from + 1)
        }
    }

    /// The split keys of the first checker that has found any.
    pub fn split_keys(&mut self) -> (r: Vec<Vec<u8>>)
        requires
            forall|i: int|
                0 <= i < old(self).checkers().len() ==> (#[trigger] old(self).checkers()[i]).wf(),
        ensures
            final(self).spec_auto_split() == old(self).spec_auto_split(),
            final(self).checkers().len() == old(self).checkers().len(),
            keys_view(r@) == if old(self).first_with_keys(0) < old(self).checkers().len() {
                old(self).checkers()[old(self).first_with_keys(0)].final_keys()
            } else {
                Seq::<Seq<u8>>::empty()
            },
    {
        let n: usize = self.checkers.len();
        let mut i: usize = 0;
        proof {
            assert forall|j: int| 0 <= j < n implies (#[trigger] old(self).checkers@[j]).wf() by {
                assert(old(self).checkers()[j].wf());
            }
        }
        while i < n
            invariant
                i <= n,
                n == self.checkers@.len(),
                n == old(self).checkers@.len(),
                self.auto_split == old(self).auto_split,
                old(self).first_with_keys(0) == old(self).first_with_keys(i as int),
                forall|j: int| 0 <= j < n ==> (#[trigger] old(self).checkers@[j]).wf(),
                forall|j: int| i <= j < n ==> (#[trigger] self.checkers@[j]) == old(self).checkers@[j],
            decreases n - i,
        {
            assert(old(self).checkers@[i as int].wf());
            let ghost before = self.checkers@;
            let keys: Vec<Vec<u8>> = match &mut self.checkers[i] {
                AnyChecker::Size(c) => c.split_keys(),
                AnyChecker::Half(c) => c.split_keys(),
            };
            proof {
                assert forall|j: int| 0 <= j < n && j != i implies (#[trigger] self.checkers@[j])
                    == before[j] by {}
            }
            if keys.len() > 0 {
                return keys;
            }
            i += 1;
        }
        let r: Vec<Vec<u8>> = Vec::new();
        assert(keys_view(r@) =~= Seq::<Seq<u8>>::empty());
        r
    }
}

} // verus!
