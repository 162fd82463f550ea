//! A database of column families, the batches that change it and the pair of databases
//! that a store holds.

use crate::engine::ordered::{
    capped, is_first_from, is_listing_of, is_last_below, is_last_upto, is_range_of, offsets_of,
    pairs_size, pairs_view, range_of, without_range, KvPair, OrderedKv,
};
use crate::util::codec::{be_bytes, be_u64, decode_u64, encode_u64};
use crate::util::order::{copy_bytes, lex_le, lex_lt};
use vstd::prelude::*;

verus! {

/// The column families.
#[derive(Clone, Copy, Debug, PartialEq, Eq, Structural)]
pub enum Cf {
    Default,
    Lock,
    Write,
    Raft,
}

/// Name of a column family.
pub type CfName = Cf;

pub const CF_DEFAULT: CfName = Cf::Default;

pub const CF_LOCK: CfName = Cf::Lock;

pub const CF_WRITE: CfName = Cf::Write;

pub const CF_RAFT: CfName = Cf::Raft;

/// Length of the prefix that marks a data key.
pub const DATA_KEY_PREFIX_LEN: usize = 1;

/// What an engine can refuse.
#[derive(Clone, Copy, Debug, PartialEq, Eq, Structural)]
pub enum Error {
    /// The database has no such column family.
    CfNotFound(Cf),
    /// A number was asked for where the value has not the eight bytes of one, but so
    /// many.
    NotANumber(usize),
}

/// The number that an unsigned number stands for when its bits are read as signed.
pub open spec fn as_signed(n: u64) -> i64 {
    if n <= i64::MAX {
        n as i64
    } else {
        (n - 0x1_0000_0000_0000_0000) as i64
    }
}

/// The unsigned number with the bits of a signed one.
pub open spec fn as_unsigned(n: i64) -> u64 {
    if n >= 0 {
        n as u64
    } else {
        (n + 0x1_0000_0000_0000_0000) as u64
    }
}

/// The number that an unsigned number stands for when its bits are read as signed.
pub fn to_signed(n: u64) -> (r: i64)
    ensures
        r == as_signed(n),
        as_unsigned(r) == n,
{
    if n <= 0x7FFF_FFFF_FFFF_FFFFu64 {
        n as i64
    } else {
        let below: u64 = u64::MAX - n;
        -1i64 - (below as i64)
    }
}

/// The unsigned number with the bits of a signed one.
pub fn to_unsigned(n: i64) -> (r: u64)
    ensures
        r == as_unsigned(n),
        as_signed(r) == n,
{
    if n >= 0 {
        n as u64
    } else {
        let below: u64 = (-1i64 - n) as u64;
        u64::MAX - below
    }
}

/// The name under which a column family is stored.
pub fn cf_name(cf: Cf) -> (r: &'static str)
    ensures
        r@ == match cf {
            Cf::Default => "default"@,
            Cf::Lock => "lock"@,
            Cf::Write => "write"@,
            Cf::Raft => "raft"@,
        },
{
    match cf {
        Cf::Default => "default",
        Cf::Lock => "lock",
        Cf::Write => "write",
        Cf::Raft => "raft",
    }
}

/// One change of a batch.
pub enum BatchOp {
    Put(Cf, Vec<u8>, Vec<u8>),
    Delete(Cf, Vec<u8>),
    DeleteRange(Cf, Vec<u8>, Vec<u8>),
}

/// A change as a mathematical value.
pub enum BatchOpView {
    Put(Cf, Seq<u8>, Seq<u8>),
    Delete(Cf, Seq<u8>),
    DeleteRange(Cf, Seq<u8>, Seq<u8>),
}

impl BatchOpView {
    /// The column family that the change goes to.
    pub open spec fn cf(self) -> Cf {
        match self {
            BatchOpView::Put(cf, _, _) => cf,
            BatchOpView::Delete(cf, _) => cf,
            BatchOpView::DeleteRange(cf, _, _) => cf,
        }
    }
}

impl View for BatchOp {
    type V = BatchOpView;

    open spec fn view(&self) -> BatchOpView {
        match self {
            BatchOp::Put(cf, k, v) => BatchOpView::Put(*cf, k@, v@),
            BatchOp::Delete(cf, k) => BatchOpView::Delete(*cf, k@),
            BatchOp::DeleteRange(cf, s, e) => BatchOpView::DeleteRange(*cf, s@, e@),
        }
    }
}

impl BatchOp {
    /// The column family that the change goes to.
    pub fn cf(&self) -> (r: Cf)
        ensures
            r == self@.cf(),
    {
        match self {
            BatchOp::Put(cf, _, _) => *cf,
            BatchOp::Delete(cf, _) => *cf,
            BatchOp::DeleteRange(cf, _, _) => *cf,
        }
    }
}

/// The views of a list of changes.
pub open spec fn ops_view(ops: Seq<BatchOp>) -> Seq<BatchOpView> {
    Seq::new(ops.len(), |i: int| ops[i]@)
}

/// Changes that reach a database together or not at all.
pub struct WriteBatch {
    pub ops: Vec<BatchOp>,
}

impl View for WriteBatch {
    type V = Seq<BatchOpView>;

    open spec fn view(&self) -> Seq<BatchOpView> {
        ops_view(self.ops@)
    }
}

impl WriteBatch {
    /// An empty batch.
    pub fn new() -> (r: WriteBatch)
        ensures
            r@ == Seq::<BatchOpView>::empty(),
    {
        let r = WriteBatch { ops: Vec::new() };
        assert(r@ =~= Seq::<BatchOpView>::empty());
        r
    }

    /// The number of changes.
    pub fn count(&self) -> (n: usize)
        ensures
            n == self@.len(),
    {
        self.ops.len()
    }

    /// `true` iff the batch holds no change.
    pub fn is_empty(&self) -> (r: bool)
        ensures
            r == (self@.len() == 0),
    {
        self.ops.len() == 0
    }

    fn add(&mut self, op: BatchOp)
        ensures
            final(self)@ == old(self)@.push(op@),
    {
        self.ops.push(op);
        assert(self@ =~= old(self)@.push(op@));
    }

    /// Adds a write to the default column family.
    pub fn put(&mut self, key: &[u8], value: &[u8])
        ensures
            final(self)@ == old(self)@.push(BatchOpView::Put(Cf::Default, key@, value@)),
    {
        self.add(BatchOp::Put(Cf::Default, copy_bytes(key), copy_bytes(value)));
    }

    /// Adds a write to `cf`.
    pub fn put_cf(&mut self, cf: Cf, key: &[u8], value: &[u8])
        ensures
            final(self)@ == old(self)@.push(BatchOpView::Put(cf, key@, value@)),
    {
        self.add(BatchOp::Put(cf, copy_bytes(key), copy_bytes(value)));
    }

    /// Adds a removal from the default column family.
    pub fn delete(&mut self, key: &[u8])
        ensures
            final(self)@ == old(self)@.push(BatchOpView::Delete(Cf::Default, key@)),
    {
        self.add(BatchOp::Delete(Cf::Default, copy_bytes(key)));
    }

    /// Adds a removal from `cf`.
    pub fn delete_cf(&mut self, cf: Cf, key: &[u8])
        ensures
            final(self)@ == old(self)@.push(BatchOpView::Delete(cf, key@)),
    {
        self.add(BatchOp::Delete(cf, copy_bytes(key)));
    }

    /// Adds the removal of the keys of `cf` from `start` up to, not including, `end`.
    pub fn delete_range_cf(&mut self, cf: Cf, start: &[u8], end: &[u8])
        ensures
            final(self)@ == old(self)@.push(BatchOpView::DeleteRange(cf, start@, end@)),
    {
        self.add(BatchOp::DeleteRange(cf, copy_bytes(start), copy_bytes(end)));
    }
}

/// How a batch is written.
#[derive(Clone, Copy, Debug, PartialEq, Eq, Structural)]
pub struct WriteOptions {
    /// Wait until the write is durable.
    pub sync: bool,
}

/// A database as a mathematical value: the contents of each column family it has.
pub struct DbView {
    pub default: Map<Seq<u8>, Seq<u8>>,
    pub lock: Option<Map<Seq<u8>, Seq<u8>>>,
    pub write: Option<Map<Seq<u8>, Seq<u8>>>,
    pub raft: Option<Map<Seq<u8>, Seq<u8>>>,
}

impl DbView {
    /// The database has the column family.
    pub open spec fn has_cf(self, cf: Cf) -> bool {
        match cf {
            Cf::Default => true,
            Cf::Lock => self.lock is Some,
            Cf::Write => self.write is Some,
            Cf::Raft => self.raft is Some,
        }
    }

    /// The contents of a column family.
    pub open spec fn cf(self, cf: Cf) -> Map<Seq<u8>, Seq<u8>> {
        match cf {
            Cf::Default => self.default,
            Cf::Lock => self.lock->Some_0,
            Cf::Write => self.write->Some_0,
            Cf::Raft => self.raft->Some_0,
        }
    }

    /// The database with other contents in one column family.
    pub open spec fn with_cf(self, cf: Cf, m: Map<Seq<u8>, Seq<u8>>) -> DbView {
        match cf {
            Cf::Default => DbView { default: m, ..self },
            Cf::Lock => DbView { lock: Some(m), ..self },
            Cf::Write => DbView { write: Some(m), ..self },
            Cf::Raft => DbView { raft: Some(m), ..self },
        }
    }

    /// The database after one change.
    pub open spec fn apply(self, op: BatchOpView) -> DbView {
        match op {
            BatchOpView::Put(cf, k, v) => self.with_cf(cf, self.cf(cf).insert(k, v)),
            BatchOpView::Delete(cf, k) => self.with_cf(cf, self.cf(cf).remove(k)),
            BatchOpView::DeleteRange(cf, s, e) => self.with_cf(cf, without_range(self.cf(cf), s, e)),
        }
    }

    /// The database after the changes of `ops`, first to last.
    pub open spec fn apply_all(self, ops: Seq<BatchOpView>) -> DbView
        decreases ops.len(),
    {
        if ops.len() == 0 {
            self
        } else {
            self.apply_all(ops.drop_last()).apply(ops.last())
        }
    }

    /// Every change of `ops` goes to a column family that the database has.
    pub open spec fn accepts(self, ops: Seq<BatchOpView>) -> bool {
        forall|i: int| 0 <= i < ops.len() ==> self.has_cf(#[trigger] ops[i].cf())
    }

    /// The column family of the first change that the database cannot take.
    pub open spec fn first_missing(self, ops: Seq<BatchOpView>) -> Cf
        decreases ops.len(),
    {
        if ops.len() == 0 {
            Cf::Default
        } else if !self.accepts(ops.drop_last()) {
            self.first_missing(ops.drop_last())
        } else {
            ops.last().cf()
        }
    }
}

/// A change keeps the set of column families.
pub proof fn lemma_apply_keeps_cfs(db: DbView, op: BatchOpView, cf: Cf)
    ensures
        db.apply(op).has_cf(cf) == (db.has_cf(cf) || cf == op.cf()),
{
}

/// A database with its column families, held in memory.
pub struct Db {
    default: OrderedKv,
    lock: OrderedKv,
    write: OrderedKv,
    raft: OrderedKv,
    has_lock: bool,
    has_write: bool,
    has_raft: bool,
}

impl View for Db {
    type V = DbView;

    closed spec fn view(&self) -> DbView {
        DbView {
            default: self.default@,
            lock: if self.has_lock {
                Some(self.lock@)
            } else {
                None
            },
            write: if self.has_write {
                Some(self.write@)
            } else {
                None
            },
            raft: if self.has_raft {
                Some(self.raft@)
            } else {
                None
            },
        }
    }
}

impl Db {
    /// Each column family keeps its keys in order.
    pub closed spec fn wf(&self) -> bool {
        &&& self.default.wf()
        &&& self.lock.wf()
        &&& self.write.wf()
        &&& self.raft.wf()
    }

    /// Every column family holds finitely many keys.
    pub proof fn lemma_finite(&self, cf: Cf)
        requires
            self@.has_cf(cf),
        ensures
            self@.cf(cf).dom().finite(),
    {
        self.default.lemma_finite();
        self.lock.lemma_finite();
        self.write.lemma_finite();
        self.raft.lemma_finite();
    }

    /// An empty database with the default column family and those of `cfs`.
    pub fn new(cfs: &[Cf]) -> (r: Db)
        ensures
            r.wf(),
            forall|cf: Cf|
                r@.has_cf(cf) == (cf == Cf::Default || exists|i: int|
                    0 <= i < cfs@.len() && cfs@[i] == cf),
            forall|cf: Cf| #[trigger]
                r@.has_cf(cf) ==> r@.cf(cf) == Map::<Seq<u8>, Seq<u8>>::empty(),
    {
        let mut r = Db {
            default: OrderedKv::new(),
            lock: OrderedKv::new(),
            write: OrderedKv::new(),
            raft: OrderedKv::new(),
            has_lock: false,
            has_write: false,
            has_raft: false,
        };
        let mut i: usize = 0;
        while i < cfs.len()
            invariant
                i <= cfs@.len(),
                r.wf(),
                r.default@ == Map::<Seq<u8>, Seq<u8>>::empty(),
                r.lock@ == Map::<Seq<u8>, Seq<u8>>::empty(),
                r.write@ == Map::<Seq<u8>, Seq<u8>>::empty(),
                r.raft@ == Map::<Seq<u8>, Seq<u8>>::empty(),
                r.has_lock == exists|j: int| 0 <= j < i && cfs@[j] == Cf::Lock,
                r.has_write == exists|j: int| 0 <= j < i && cfs@[j] == Cf::Write,
                r.has_raft == exists|j: int| 0 <= j < i && cfs@[j] == Cf::Raft,
            decreases cfs@.len() - i,
        {
            match cfs[i] {
                Cf::Default => {},
                Cf::Lock => {
                    r.has_lock = true;
                },
                Cf::Write => {
                    r.has_write = true;
                },
                Cf::Raft => {
                    r.has_raft = true;
                },
            }
            i += 1;
        }
        r
    }

    /// `true` iff the database has the column family.
    pub fn has_cf(&self, cf: Cf) -> (r: bool)
        ensures
            r == self@.has_cf(cf),
    {
        match cf {
            Cf::Default => true,
            Cf::Lock => self.has_lock,
            Cf::Write => self.has_write,
            Cf::Raft => self.has_raft,
        }
    }

    /// The value of `key` in the default column family.
    pub fn get(&self, key: &[u8]) -> (r: Option<Vec<u8>>)
        requires
            self.wf(),
        ensures
            self@.default.dom().contains(key@) ==> (r matches Some(v) && v@ == self@.default[key@]),
            !self@.default.dom().contains(key@) ==> r is None,
    {
        self.default.get(key)
    }

    /// The value of `key` in `cf`, or the error that the database has no such column family.
    pub fn get_cf(&self, cf: Cf, key: &[u8]) -> (r: Result<Option<Vec<u8>>, Error>)
        requires
            self.wf(),
        ensures
            !self@.has_cf(cf) ==> r == Err::<Option<Vec<u8>>, Error>(Error::CfNotFound(cf)),
            self@.has_cf(cf) && self@.cf(cf).dom().contains(key@) ==> (r matches Ok(Some(v)) && v@
                == self@.cf(cf)[key@]),
            self@.has_cf(cf) && !self@.cf(cf).dom().contains(key@) ==> r matches Ok(None),
    {
        if !self.has_cf(cf) {
            return Err(Error::CfNotFound(cf));
        }
        Ok(
            match cf {
                Cf::Default => self.default.get(key),
                Cf::Lock => self.lock.get(key),
                Cf::Write => self.write.get(key),
                Cf::Raft => self.raft.get(key),
            },
        )
    }

    /// What a read of a number from the value `v` gives: nothing where there is no value,
    /// an error where the value has not eight bytes, else the big-endian number.
    pub open spec fn number_of(v: Option<Seq<u8>>) -> Result<Option<u64>, Error> {
        match v {
            None => Ok(None),
            Some(b) => if b.len() != 8 {
                Err(Error::NotANumber(b.len() as usize))
            } else {
                Ok(Some(be_u64(b)))
            },
        }
    }

    /// The value of `key` in the default column family, if there is one.
    pub open spec fn value_of(&self, key: Seq<u8>) -> Option<Seq<u8>> {
        if self@.default.dom().contains(key) {
            Some(self@.default[key])
        } else {
            None
        }
    }

    /// The value of `key` in the default column family as an unsigned number.
    pub fn get_u64(&self, key: &[u8]) -> (r: Result<Option<u64>, Error>)
        requires
            self.wf(),
        ensures
            r == Self::number_of(self.value_of(key@)),
    {
        let value = match self.get(key) {
            Some(v) => v,
            None => {
                return Ok(None);
            },
        };
        if value.len() != 8 {
            return Err(Error::NotANumber(value.len()));
        }
        assert(value@.subrange(0, 8) =~= value@);
        match decode_u64(value.as_slice()) {
            Ok(n) => Ok(Some(n)),
            Err(_) => Err(Error::NotANumber(value.len())),
        }
    }

    /// The value of `key` in the default column family as a signed number.
    pub fn get_i64(&self, key: &[u8]) -> (r: Result<Option<i64>, Error>)
        requires
            self.wf(),
        ensures
            match Self::number_of(self.value_of(key@)) {
                Ok(Some(n)) => r == Ok::<Option<i64>, Error>(Some(as_signed(n))),
                Ok(None) => r == Ok::<Option<i64>, Error>(None),
                Err(e) => r == Err::<Option<i64>, Error>(e),
            },
    {
        match self.get_u64(key) {
            Ok(None) => Ok(None),
            Ok(Some(n)) => Ok(Some(to_signed(n))),
            Err(e) => Err(e),
        }
    }

    /// Sets the value of `key` in the default column family to the big-endian form of
    /// `n`.
    pub fn put_u64(&mut self, key: &[u8], n: u64)
        requires
            old(self).wf(),
        ensures
            final(self).wf(),
            final(self)@ == old(self)@.apply(BatchOpView::Put(Cf::Default, key@, be_bytes(n))),
    {
        let value = encode_u64(n);
        let op = BatchOp::Put(Cf::Default, copy_bytes(key), value);
        self.apply(&op);
    }

    /// Sets the value of `key` in the default column family to the big-endian form of the
    /// bits of `n`.
    pub fn put_i64(&mut self, key: &[u8], n: i64)
        requires
            old(self).wf(),
        ensures
            final(self).wf(),
            final(self)@ == old(self)@.apply(
                BatchOpView::Put(Cf::Default, key@, be_bytes(as_unsigned(n))),
            ),
    {
        self.put_u64(key, to_unsigned(n))
    }

    /// Removes `key` from the default column family.
    pub fn del(&mut self, key: &[u8])
        requires
            old(self).wf(),
        ensures
            final(self).wf(),
            final(self)@ == old(self)@.apply(BatchOpView::Delete(Cf::Default, key@)),
    {
        let op = BatchOp::Delete(Cf::Default, copy_bytes(key));
        self.apply(&op);
    }

    /// The first pair of `cf` whose key is not below `key`.
    pub fn seek_cf(&self, cf: Cf, key: &[u8]) -> (r: Option<KvPair>)
        requires
            self.wf(),
            self@.has_cf(cf),
        ensures
            match r {
                Some(p) => is_first_from(self@.cf(cf), key@, p.0@) && self@.cf(cf)[p.0@] == p.1@,
                None => forall|x: Seq<u8>| #[trigger]
                    self@.cf(cf).dom().contains(x) ==> lex_lt(x, key@),
            },
    {
        match cf {
            Cf::Default => self.default.seek(key),
            Cf::Lock => self.lock.seek(key),
            Cf::Write => self.write.seek(key),
            Cf::Raft => self.raft.seek(key),
        }
    }

    /// The last pair of `cf` whose key is not above `key`.
    pub fn seek_for_prev_cf(&self, cf: Cf, key: &[u8]) -> (r: Option<KvPair>)
        requires
            self.wf(),
            self@.has_cf(cf),
        ensures
            match r {
                Some(p) => is_last_upto(self@.cf(cf), key@, p.0@) && self@.cf(cf)[p.0@] == p.1@,
                None => forall|x: Seq<u8>| #[trigger]
                    self@.cf(cf).dom().contains(x) ==> lex_lt(key@, x),
            },
    {
        match cf {
            Cf::Default => self.default.seek_for_prev(key),
            Cf::Lock => self.lock.seek_for_prev(key),
            Cf::Write => self.write.seek_for_prev(key),
            Cf::Raft => self.raft.seek_for_prev(key),
        }
    }

    /// The last pair of `cf` whose key is below `key`.
    pub fn seek_below_cf(&self, cf: Cf, key: &[u8]) -> (r: Option<KvPair>)
        requires
            self.wf(),
            self@.has_cf(cf),
        ensures
            match r {
                Some(p) => is_last_below(self@.cf(cf), key@, p.0@) && self@.cf(cf)[p.0@] == p.1@,
                None => forall|x: Seq<u8>| #[trigger]
                    self@.cf(cf).dom().contains(x) ==> lex_le(key@, x),
            },
    {
        match cf {
            Cf::Default => self.default.seek_below(key),
            Cf::Lock => self.lock.seek_below(key),
            Cf::Write => self.write.seek_below(key),
            Cf::Raft => self.raft.seek_below(key),
        }
    }

    /// The pairs of `cf` with keys from `start` up to, not including, `end`, in key order.
    pub fn scan_cf(&self, cf: Cf, start: &[u8], end: &[u8]) -> (r: Vec<KvPair>)
        requires
            self.wf(),
            self@.has_cf(cf),
        ensures
            is_range_of(self@.cf(cf), start@, end@, pairs_view(r@)),
    {
        match cf {
            Cf::Default => self.default.scan(start, end),
            Cf::Lock => self.lock.scan(start, end),
            Cf::Write => self.write.scan(start, end),
            Cf::Raft => self.raft.scan(start, end),
        }
    }

    /// All pairs of `cf`, in key order.
    pub fn pairs_cf(&self, cf: Cf) -> (r: Vec<KvPair>)
        requires
            self.wf(),
            self@.has_cf(cf),
        ensures
            is_listing_of(self@.cf(cf), pairs_view(r@)),
    {
        match cf {
            Cf::Default => self.default.pairs(),
            Cf::Lock => self.lock.pairs(),
            Cf::Write => self.write.pairs(),
            Cf::Raft => self.raft.pairs(),
        }
    }

    /// The size of the pairs of `cf` with keys from `start` up to, not including, `end`;
    /// `u64::MAX` where it is more. In memory the size is known to the byte.
    pub fn approximate_range_size(&self, cf: Cf, start: &[u8], end: &[u8]) -> (r: Result<
        u64,
        Error,
    >)
        requires
            self.wf(),
        ensures
            !self@.has_cf(cf) ==> r == Err::<u64, Error>(Error::CfNotFound(cf)),
            self@.has_cf(cf) ==> r == Ok::<u64, Error>(
                capped(pairs_size(range_of(self@.cf(cf), start@, end@))),
            ),
    {
        if !self.has_cf(cf) {
            return Err(Error::CfNotFound(cf));
        }
        Ok(
            match cf {
                Cf::Default => self.default.range_size(start, end),
                Cf::Lock => self.lock.range_size(start, end),
                Cf::Write => self.write.range_size(start, end),
                Cf::Raft => self.raft.range_size(start, end),
            },
        )
    }

    /// The keys of `cf` from `start` up to, not including, `end`, each with the size of
    /// the pairs of the range up to and including it. In memory every key is a sample.
    pub fn approximate_range_offsets(&self, cf: Cf, start: &[u8], end: &[u8]) -> (r: Result<
        Vec<(Vec<u8>, u64)>,
        Error,
    >)
        requires
            self.wf(),
        ensures
            !self@.has_cf(cf) ==> (r matches Err(Error::CfNotFound(c)) && c == cf),
            self@.has_cf(cf) ==> (r matches Ok(v) && v@.len() == range_of(
                self@.cf(cf),
                start@,
                end@,
            ).len() && forall|i: int|
                0 <= i < v@.len() ==> (#[trigger] v@[i]).0@ == offsets_of(
                    range_of(self@.cf(cf), start@, end@),
                )[i].0 && v@[i].1 == offsets_of(range_of(self@.cf(cf), start@, end@))[i].1),
    {
        if !self.has_cf(cf) {
            return Err(Error::CfNotFound(cf));
        }
        Ok(
            match cf {
                Cf::Default => self.default.range_offsets(start, end),
                Cf::Lock => self.lock.range_offsets(start, end),
                Cf::Write => self.write.range_offsets(start, end),
                Cf::Raft => self.raft.range_offsets(start, end),
            },
        )
    }

    /// Makes one change.
    pub fn apply(&mut self, op: &BatchOp)
        requires
            old(self).wf(),
            old(self)@.has_cf(op@.cf()),
        ensures
            final(self).wf(),
            final(self)@ == old(self)@.apply(op@),
    {
        match op {
            BatchOp::Put(cf, k, v) => {
                let key = copy_bytes(k.as_slice());
                let value = copy_bytes(v.as_slice());
                match cf {
                    Cf::Default => self.default.put(key, value),
                    Cf::Lock => self.lock.put(key, value),
                    Cf::Write => self.write.put(key, value),
                    Cf::Raft => self.raft.put(key, value),
                }
            },
            BatchOp::Delete(cf, k) => {
                match cf {
                    Cf::Default => self.default.delete(k.as_slice()),
                    Cf::Lock => self.lock.delete(k.as_slice()),
                    Cf::Write => self.write.delete(k.as_slice()),
                    Cf::Raft => self.raft.delete(k.as_slice()),
                }
            },
            BatchOp::DeleteRange(cf, s, e) => {
                match cf {
                    Cf::Default => self.default.delete_range(s.as_slice(), e.as_slice()),
                    Cf::Lock => self.lock.delete_range(s.as_slice(), e.as_slice()),
                    Cf::Write => self.write.delete_range(s.as_slice(), e.as_slice()),
                    Cf::Raft => self.raft.delete_range(s.as_slice(), e.as_slice()),
                }
            },
        }
    }

    /// Writes a batch: all of its changes in order, or none where one of them goes to a
    /// column family that the database lacks.
    pub fn write(&mut self, wb: &WriteBatch) -> (r: Result<(), Error>)
        requires
            old(self).wf(),
        ensures
            final(self).wf(),
            old(self)@.accepts(wb@) ==> r is Ok && final(self)@ == old(self)@.apply_all(wb@),
            !old(self)@.accepts(wb@) ==> r == Err::<(), Error>(
                Error::CfNotFound(old(self)@.first_missing(wb@)),
            ) && final(self)@ == old(self)@,
    {
        let n: usize = wb.ops.len();
        let mut i: usize = 0;
        while i < n
            invariant
                i <= n,
                n == wb.ops@.len(),
                self@ == old(self)@,
                self.wf(),
                old(self)@.accepts(wb@.take(i as int)),
            decreases n - i,
        {
            let cf = wb.ops[i].cf();
            if !self.has_cf(cf) {
                proof {
                    lemma_first_missing(self@, wb@, i as int);
                }
                return Err(Error::CfNotFound(cf));
            }
            i += 1;
            assert forall|j: int| 0 <= j < i implies self@.has_cf(
                #[trigger] wb@.take(i as int)[j].cf(),
            ) by {
                if j < i - 1 {
                    assert(wb@.take(i - 1)[j] == wb@.take(i as int)[j]);
                }
            }
        }
        assert(wb@.take(n as int) =~= wb@);
        let mut i: usize = 0;
        while i < n
            invariant
                i <= n,
                n == wb.ops@.len(),
                self.wf(),
                old(self)@.accepts(wb@),
                self@ == old(self)@.apply_all(wb@.take(i as int)),
                forall|cf: Cf| old(self)@.has_cf(cf) ==> self@.has_cf(cf),
            decreases n - i,
        {
            let ghost before = self@;
            assert(old(self)@.has_cf(wb@[i as int].cf()));
            self.apply(&wb.ops[i]);
            i += 1;
            proof {
                assert(wb@.take(i as int).drop_last() =~= wb@.take(i - 1));
                assert(wb@.take(i as int).last() == wb@[i - 1]);
                assert forall|cf: Cf| old(self)@.has_cf(cf) implies self@.has_cf(cf) by {
                    lemma_apply_keeps_cfs(before, wb@[i - 1], cf);
                }
            }
        }
        assert(wb@.take(n as int) =~= wb@);
        Ok(())
    }

    /// Sets the value of `key` in `cf`.
    pub fn put_cf(&mut self, cf: Cf, key: &[u8], value: &[u8]) -> (r: Result<(), Error>)
        requires
            old(self).wf(),
        ensures
            final(self).wf(),
            old(self)@.has_cf(cf) ==> r is Ok && final(self)@ == old(self)@.apply(
                BatchOpView::Put(cf, key@, value@),
            ),
            !old(self)@.has_cf(cf) ==> r == Err::<(), Error>(Error::CfNotFound(cf)) && final(self)@
                == old(self)@,
    {
        if !self.has_cf(cf) {
            return Err(Error::CfNotFound(cf));
        }
        let op = BatchOp::Put(cf, copy_bytes(key), copy_bytes(value));
        self.apply(&op);
        Ok(())
    }

    /// A copy that later writes do not reach.
    pub fn snapshot(&self) -> (r: Db)
        requires
            self.wf(),
        ensures
            r.wf(),
            r@ == self@,
    {
        Db {
            default: self.default.snapshot(),
            lock: self.lock.snapshot(),
            write: self.write.snapshot(),
            raft: self.raft.snapshot(),
            has_lock: self.has_lock,
            has_write: self.has_write,
            has_raft: self.has_raft,
        }
    }
}

/// The first change that goes to a column family that the database lacks decides the
/// error.
pub proof fn lemma_first_missing(db: DbView, ops: Seq<BatchOpView>, i: int)
    requires
        0 <= i < ops.len(),
        db.accepts(ops.take(i)),
        !db.has_cf(ops[i].cf()),
    ensures
        !db.accepts(ops),
        db.first_missing(ops) == ops[i].cf(),
    decreases ops.len(),
{
    if i == ops.len() - 1 {
        assert(ops.take(i) =~= ops.drop_last());
    } else {
        let shorter = ops.drop_last();
        assert(shorter.take(i) =~= ops.take(i));
        lemma_first_missing(db, shorter, i);
        assert(db.first_missing(ops) == db.first_missing(shorter));
    }
}

/// The two databases of a store: one for data, one for the replication log.
pub struct Engines {
    pub kv: Db,
    pub raft: Db,
}

impl Engines {
    /// Both databases are well formed.
    pub open spec fn wf(&self) -> bool {
        self.kv.wf() && self.raft.wf()
    }

    pub fn new(kv_engine: Db, raft_engine: Db) -> (r: Engines)
        ensures
            r.kv == kv_engine,
            r.raft == raft_engine,
    {
        Engines { kv: kv_engine, raft: raft_engine }
    }

    /// Writes a batch to the data database.
    pub fn write_kv(&mut self, wb: &WriteBatch) -> (r: Result<(), Error>)
        requires
            old(self).wf(),
        ensures
            final(self).wf(),
            final(self).raft == old(self).raft,
            old(self).kv@.accepts(wb@) ==> r is Ok && final(self).kv@ == old(self).kv@.apply_all(
                wb@,
            ),
            !old(self).kv@.accepts(wb@) ==> r == Err::<(), Error>(
                Error::CfNotFound(old(self).kv@.first_missing(wb@)),
            ) && final(self).kv@ == old(self).kv@,
    {
        self.kv.write(wb)
    }

    /// Writes a batch to the data database. In memory every write is durable at once, so
    /// the options change nothing.
    pub fn write_kv_opt(&mut self, wb: &WriteBatch, opts: &WriteOptions) -> (r: Result<
        (),
        Error,
    >)
        requires
            old(self).wf(),
        ensures
            final(self).wf(),
            final(self).raft == old(self).raft,
            old(self).kv@.accepts(wb@) ==> r is Ok && final(self).kv@ == old(self).kv@.apply_all(
                wb@,
            ),
            !old(self).kv@.accepts(wb@) ==> r == Err::<(), Error>(
                Error::CfNotFound(old(self).kv@.first_missing(wb@)),
            ) && final(self).kv@ == old(self).kv@,
    {
        self.kv.write(wb)
    }

    /// Makes the writes to the data database durable: in memory they are.
    pub fn sync_kv(&self) -> (r: Result<(), Error>)
        ensures
            r is Ok,
    {
        Ok(())
    }

    /// Writes a batch to the log database.
    pub fn write_raft(&mut self, wb: &WriteBatch) -> (r: Result<(), Error>)
        requires
            old(self).wf(),
        ensures
            final(self).wf(),
            final(self).kv == old(self).kv,
            old(self).raft@.accepts(wb@) ==> r is Ok && final(self).raft@
                == old(self).raft@.apply_all(wb@),
            !old(self).raft@.accepts(wb@) ==> r == Err::<(), Error>(
                Error::CfNotFound(old(self).raft@.first_missing(wb@)),
            ) && final(self).raft@ == old(self).raft@,
    {
        self.raft.write(wb)
    }

    /// Writes a batch to the log database. In memory every write is durable at once, so
    /// the options change nothing.
    pub fn write_raft_opt(&mut self, wb: &WriteBatch, opts: &WriteOptions) -> (r: Result<
        (),
        Error,
    >)
        requires
            old(self).wf(),
        ensures
            final(self).wf(),
            final(self).kv == old(self).kv,
            old(self).raft@.accepts(wb@) ==> r is Ok && final(self).raft@
                == old(self).raft@.apply_all(wb@),
            !old(self).raft@.accepts(wb@) ==> r == Err::<(), Error>(
                Error::CfNotFound(old(self).raft@.first_missing(wb@)),
            ) && final(self).raft@ == old(self).raft@,
    {
        self.raft.write(wb)
    }

    /// Makes the writes to the log database durable: in memory they are.
    pub fn sync_raft(&self) -> (r: Result<(), Error>)
        ensures
            r is Ok,
    {
        Ok(())
    }
}

} // verus!
