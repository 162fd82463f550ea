//! Regions and the keys under which their data is stored.

use crate::util::order::{copy_bytes, copy_range, keys_view};
use vstd::prelude::*;

verus! {

/// The byte that every stored data key starts with.
pub const DATA_PREFIX: u8 = 122;

/// The version of a region: `version` counts splits and merges, `conf_ver` changes of
/// membership.
#[derive(Clone, Copy, Debug, PartialEq, Eq, Structural)]
pub struct RegionEpoch {
    pub conf_ver: u64,
    pub version: u64,
}

/// A member of a region: a peer on a store.
#[derive(Clone, Copy, Debug, PartialEq, Eq, Structural)]
pub struct Peer {
    pub id: u64,
    pub store_id: u64,
}

/// A range of keys with the group that replicates it. The range runs from `start_key` up
/// to, not including, `end_key`; an empty `end_key` stands for "no end".
#[derive(Debug)]
pub struct Region {
    pub id: u64,
    pub start_key: Vec<u8>,
    pub end_key: Vec<u8>,
    pub region_epoch: RegionEpoch,
    pub peers: Vec<Peer>,
}

impl Region {
    /// The region with the id 0 that covers every key and has no members.
    pub fn new() -> (r: Region)
        ensures
            r.id == 0,
            r.start_key@.len() == 0,
            r.end_key@.len() == 0,
            r.region_epoch == (RegionEpoch { conf_ver: 0, version: 0 }),
            r.peers@.len() == 0,
    {
        Region {
            id: 0,
            start_key: Vec::new(),
            end_key: Vec::new(),
            region_epoch: RegionEpoch { conf_ver: 0, version: 0 },
            peers: Vec::new(),
        }
    }
}

/// How split keys are looked for.
#[derive(Clone, Copy, Debug, PartialEq, Eq, Structural)]
pub enum CheckPolicy {
    /// Walk through the region.
    SCAN,
    /// Go by the samples that the engine keeps of its files.
    APPROXIMATE,
}

/// The stored form of a data key.
pub open spec fn data_key_of(key: Seq<u8>) -> Seq<u8> {
    seq![DATA_PREFIX] + key
}

/// The key is the stored form of a data key.
pub open spec fn is_data_key(key: Seq<u8>) -> bool {
    key.len() > 0 && key[0] == DATA_PREFIX
}

/// The first stored key of the region.
pub open spec fn start_of(region: &Region) -> Seq<u8> {
    data_key_of(region.start_key@)
}

/// The stored key at which the region ends: behind every data key where the region has
/// no end.
pub open spec fn end_of(region: &Region) -> Seq<u8> {
    if region.end_key@.len() == 0 {
        seq![(DATA_PREFIX + 1) as u8]
    } else {
        data_key_of(region.end_key@)
    }
}

/// The stored form of the data key `key`.
pub fn data_key(key: &[u8]) -> (r: Vec<u8>)
    ensures
        r@ == data_key_of(key@),
{
    let mut v: Vec<u8> = Vec::with_capacity(1);
    v.push(DATA_PREFIX);
    let mut i: usize = 0;
    while i < key.len()
        invariant
            i <= key@.len(),
            v@ == seq![DATA_PREFIX] + key@.take(i as int),
        decreases key@.len() - i,
    {
        v.push(key[i]);
        i += 1;
        assert(v@ =~= seq![DATA_PREFIX] + key@.take(i as int));
    }
    assert(key@.take(i as int) =~= key@);
    v
}

/// The data key whose stored form `key` is.
pub fn origin_key(key: &[u8]) -> (r: &[u8])
    requires
        is_data_key(key@),
    ensures
        r@ == key@.skip(1),
        key@ == data_key_of(r@),
{
    let r = vstd::slice::slice_subrange(key, 1, key.len());
    assert(r@ =~= key@.skip(1));
    assert(key@ =~= data_key_of(r@));
    r
}

/// The public form of a key: a stored data key without its prefix, any other key as it
/// is.
pub open spec fn public_key_of(key: Seq<u8>) -> Seq<u8> {
    if is_data_key(key) {
        key.skip(1)
    } else {
        key
    }
}

/// The public forms of keys.
pub open spec fn public_keys_of(keys: Seq<Seq<u8>>) -> Seq<Seq<u8>> {
    Seq::new(keys.len(), |i: int| public_key_of(keys[i]))
}

/// The public forms of keys: stored data keys lose their prefix.
pub fn public_keys(keys: Vec<Vec<u8>>) -> (r: Vec<Vec<u8>>)
    ensures
        keys_view(r@) == public_keys_of(keys_view(keys@)),
{
    let mut out: Vec<Vec<u8>> = Vec::with_capacity(keys.len());
    let mut i: usize = 0;
    while i < keys.len()
        invariant
            i <= keys@.len(),
            out@.len() == i,
            forall|j: int| 0 <= j < i ==> (#[trigger] out@[j])@ == public_key_of(keys@[j]@),
        decreases keys@.len() - i,
    {
        let k = &keys[i];
        if k.len() > 0 && k[0] == DATA_PREFIX {
            let stripped = copy_range(k.as_slice(), 1, k.len());
            assert(stripped@ =~= k@.skip(1));
            out.push(stripped);
        } else {
            out.push(copy_bytes(k.as_slice()));
        }
        i += 1;
    }
    assert(keys_view(out@) =~= public_keys_of(keys_view(keys@)));
    out
}

/// The first stored key of the region.
pub fn enc_start_key(region: &Region) -> (r: Vec<u8>)
    ensures
        r@ == start_of(region),
{
    data_key(region.start_key.as_slice())
}

/// The stored key at which the region ends.
pub fn enc_end_key(region: &Region) -> (r: Vec<u8>)
    ensures
        r@ == end_of(region),
{
    if region.end_key.len() == 0 {
        let mut v: Vec<u8> = Vec::with_capacity(1);
        v.push(DATA_PREFIX + 1);
        v
    } else {
        data_key(region.end_key.as_slice())
    }
}

/// A pair of a region as a scan meets it: the stored key, and the size of the value.
#[derive(Debug)]
pub struct KeyEntry {
    key: Vec<u8>,
    pos: usize,
    value_size: usize,
    cf: crate::engine::db::CfName,
}

impl KeyEntry {
    pub closed spec fn spec_key(&self) -> Seq<u8> {
        self.key@
    }

    pub closed spec fn spec_value_size(&self) -> nat {
        self.value_size as nat
    }

    pub closed spec fn spec_cf(&self) -> crate::engine::db::CfName {
        self.cf
    }

    /// The place of the pair in its scan.
    pub closed spec fn spec_pos(&self) -> usize {
        self.pos
    }

    /// The size of the pair: key and value.
    pub open spec fn spec_entry_size(&self) -> nat {
        self.spec_key().len() + self.spec_value_size()
    }

    pub closed spec fn wf(&self) -> bool {
        self.key@.len() + self.value_size <= usize::MAX
    }

    pub fn new(key: Vec<u8>, pos: usize, value_size: usize, cf: crate::engine::db::CfName) -> (r:
        KeyEntry)
        requires
            key@.len() + value_size <= usize::MAX,
        ensures
            r.wf(),
            r.spec_key() == key@,
            r.spec_value_size() == value_size,
            r.spec_cf() == cf,
            r.spec_pos() == pos,
    {
        KeyEntry { key, pos, value_size, cf }
    }

    pub fn key(&self) -> (r: &[u8])
        ensures
            r@ == self.spec_key(),
    {
        self.key.as_slice()
    }

    pub fn cf(&self) -> (r: crate::engine::db::CfName)
        ensures
            r == self.spec_cf(),
    {
        self.cf
    }

    /// The place of the pair in its scan.
    pub fn pos(&self) -> (r: usize)
        ensures
            r == self.spec_pos(),
    {
        self.pos
    }

    pub fn entry_size(&self) -> (r: usize)
        requires
            self.wf(),
        ensures
            r == self.spec_entry_size(),
    {
        self.value_size + self.key.len()
    }
}

/// The pairs of a scan as entries.
pub fn entries_of(pairs: &[(Vec<u8>, Vec<u8>)], cf: crate::engine::db::CfName) -> (r: Vec<
    KeyEntry,
>)
    requires
        forall|i: int|
            0 <= i < pairs@.len() ==> (#[trigger] pairs@[i]).0@.len() + pairs@[i].1@.len()
                <= usize::MAX,
    ensures
        r@.len() == pairs@.len(),
        forall|i: int|
            0 <= i < r@.len() ==> (#[trigger] r@[i]).wf() && r@[i].spec_key() == pairs@[i].0@
                && r@[i].spec_value_size() == pairs@[i].1@.len(),
{
    let mut out: Vec<KeyEntry> = Vec::new();
    let mut i: usize = 0;
    while i < pairs.len()
        invariant
            i <= pairs@.len(),
            out@.len() == i,
            forall|j: int|
                0 <= j < pairs@.len() ==> (#[trigger] pairs@[j]).0@.len() + pairs@[j].1@.len()
                    <= usize::MAX,
            forall|j: int|
                0 <= j < i ==> (#[trigger] out@[j]).wf() && out@[j].spec_key() == pairs@[j].0@
                    && out@[j].spec_value_size() == pairs@[j].1@.len(),
        decreases pairs@.len() - i,
    {
        let vlen: usize = pairs[i].1.len();
        assert(pairs@[i as int].0@.len() + pairs@[i as int].1@.len() <= usize::MAX);
        out.push(KeyEntry::new(copy_bytes(pairs[i].0.as_slice()), i, vlen, cf));
        i += 1;
    }
    out
}

} // verus!
