//! Transactions over versions of keys.
//!
//! Three column families hold the state. The lock column family maps a key in its stored
//! form to the lock that an open transaction holds on it. The write column family maps the
//! stored key followed by a commit timestamp to the record of that commit. The default
//! column family maps the stored key followed by a start timestamp to the value that the
//! transaction wrote.

use crate::engine::db::{BatchOpView, Cf, Db, DbView};
use crate::engine::ordered::{is_listing_of, is_range_of, pairs_view, KvPair};
use crate::storage::types::{modifies_view, Modify, Mutation, MutationView};
use crate::util::codec::{
    append_u64, be_bytes, be_u64, decode_bytes, decode_u64_tail, decoded_bytes, encode_bytes,
    encoded_bytes, lemma_be_bytes_of_value, lemma_be_order, lemma_be_roundtrip, lemma_decode_encode,
    lemma_encode_decode, lemma_encode_injective, lemma_encoded_len,
};
use crate::util::order::{
    bytes_has_prefix, copy_bytes, copy_range, has_prefix, lemma_lex_append_lower,
    lemma_lex_common_prefix, lemma_lex_extension, lemma_lex_le_lt, lemma_lex_total, lex_le, lex_lt,
};
use vstd::prelude::*;

verus! {

/// What a lock is for.
#[derive(Clone, Copy, Debug, PartialEq, Eq, Structural)]
pub enum LockType {
    Put,
    Delete,
    Lock,
}

/// What a commit did.
#[derive(Clone, Copy, Debug, PartialEq, Eq, Structural)]
pub enum WriteType {
    Put,
    Delete,
    Lock,
    /// The transaction was given up: the record marks its start timestamp as used.
    Rollback,
}

/// The lock that an open transaction holds on a key.
#[derive(Debug)]
pub struct Lock {
    pub lock_type: LockType,
    /// The key whose lock decides the fate of the transaction.
    pub primary: Vec<u8>,
    /// The start timestamp of the transaction.
    pub ts: u64,
    /// How long the lock may be held before others may ask for its resolution.
    pub ttl: u64,
}

/// A lock as a mathematical value.
pub struct LockView {
    pub lock_type: LockType,
    pub primary: Seq<u8>,
    pub ts: u64,
    pub ttl: u64,
}

impl View for Lock {
    type V = LockView;

    open spec fn view(&self) -> LockView {
        LockView { lock_type: self.lock_type, primary: self.primary@, ts: self.ts, ttl: self.ttl }
    }
}

/// The record of a commit.
#[derive(Clone, Copy, Debug, PartialEq, Eq, Structural)]
pub struct Write {
    pub write_type: WriteType,
    pub start_ts: u64,
}

/// What a transaction can fail with.
#[derive(Debug)]
pub enum Error {
    /// Another transaction holds a lock on the key.
    KeyIsLocked { key: Vec<u8>, primary: Vec<u8>, ts: u64, ttl: u64 },
    /// Somebody committed to the key at or after the start of the transaction.
    WriteConflict,
    /// The transaction holds no lock on the key and has not committed it.
    TxnLockNotFound,
    /// The transaction has committed the key and cannot take that back.
    Committed,
}

/// An error as a mathematical value.
pub enum ErrorView {
    KeyIsLocked { key: Seq<u8>, primary: Seq<u8>, ts: u64, ttl: u64 },
    WriteConflict,
    TxnLockNotFound,
    Committed,
}

impl View for Error {
    type V = ErrorView;

    open spec fn view(&self) -> ErrorView {
        match self {
            Error::KeyIsLocked { key, primary, ts, ttl } => ErrorView::KeyIsLocked {
                key: key@,
                primary: primary@,
                ts: *ts,
                ttl: *ttl,
            },
            Error::WriteConflict => ErrorView::WriteConflict,
            Error::TxnLockNotFound => ErrorView::TxnLockNotFound,
            Error::Committed => ErrorView::Committed,
        }
    }
}

pub const FLAG_PUT: u8 = 80;

pub const FLAG_DELETE: u8 = 68;

pub const FLAG_LOCK: u8 = 76;

pub const FLAG_ROLLBACK: u8 = 82;

/// The stored form of a lock: a byte for its kind, the start timestamp and the time to
/// live as big-endian numbers, and the primary key.
pub open spec fn lock_bytes(l: LockView) -> Seq<u8> {
    seq![
        match l.lock_type {
            LockType::Put => FLAG_PUT,
            LockType::Delete => FLAG_DELETE,
            LockType::Lock => FLAG_LOCK,
        },
    ] + be_bytes(l.ts) + be_bytes(l.ttl) + l.primary
}

/// The lock that `b` is the stored form of, if it is one.
pub open spec fn parse_lock(b: Seq<u8>) -> Option<LockView> {
    if b.len() < 17 || !(b[0] == FLAG_PUT || b[0] == FLAG_DELETE || b[0] == FLAG_LOCK) {
        None
    } else {
        Some(
            LockView {
                lock_type: if b[0] == FLAG_PUT {
                    LockType::Put
                } else if b[0] == FLAG_DELETE {
                    LockType::Delete
                } else {
                    LockType::Lock
                },
                ts: be_u64(b.subrange(1, 9)),
                ttl: be_u64(b.subrange(9, 17)),
                primary: b.subrange(17, b.len() as int),
            },
        )
    }
}

/// The stored form of a commit record: a byte for its kind and the start timestamp as a
/// big-endian number.
pub open spec fn write_bytes(w: Write) -> Seq<u8> {
    seq![
        match w.write_type {
            WriteType::Put => FLAG_PUT,
            WriteType::Delete => FLAG_DELETE,
            WriteType::Lock => FLAG_LOCK,
            WriteType::Rollback => FLAG_ROLLBACK,
        },
    ] + be_bytes(w.start_ts)
}

/// The commit record that `b` is the stored form of, if it is one.
pub open spec fn parse_write(b: Seq<u8>) -> Option<Write> {
    if b.len() != 9 || !(b[0] == FLAG_PUT || b[0] == FLAG_DELETE || b[0] == FLAG_LOCK || b[0]
        == FLAG_ROLLBACK) {
        None
    } else {
        Some(
            Write {
                write_type: if b[0] == FLAG_PUT {
                    WriteType::Put
                } else if b[0] == FLAG_DELETE {
                    WriteType::Delete
                } else if b[0] == FLAG_LOCK {
                    WriteType::Lock
                } else {
                    WriteType::Rollback
                },
                start_ts: be_u64(b.subrange(1, 9)),
            },
        )
    }
}

/// Reading a stored lock gives the lock back.
pub proof fn lemma_lock_roundtrip(l: LockView)
    ensures
        parse_lock(lock_bytes(l)) == Some(l),
{
    let b = lock_bytes(l);
    lemma_be_roundtrip(l.ts);
    lemma_be_roundtrip(l.ttl);
    assert(b.subrange(1, 9) =~= be_bytes(l.ts));
    assert(b.subrange(9, 17) =~= be_bytes(l.ttl));
    assert(b.subrange(17, b.len() as int) =~= l.primary);
    assert(be_bytes(l.ts).subrange(0, 8) =~= be_bytes(l.ts));
    assert(be_bytes(l.ttl).subrange(0, 8) =~= be_bytes(l.ttl));
}

/// Reading a stored commit record gives the record back.
pub proof fn lemma_write_roundtrip(w: Write)
    ensures
        parse_write(write_bytes(w)) == Some(w),
{
    let b = write_bytes(w);
    lemma_be_roundtrip(w.start_ts);
    assert(b.subrange(1, 9) =~= be_bytes(w.start_ts));
}

impl Lock {
    /// The stored form of the lock.
    pub fn to_bytes(&self) -> (r: Vec<u8>)
        ensures
            r@ == lock_bytes(self@),
    {
        let mut out: Vec<u8> = Vec::new();
        out.push(
            match self.lock_type {
                LockType::Put => FLAG_PUT,
                LockType::Delete => FLAG_DELETE,
                LockType::Lock => FLAG_LOCK,
            },
        );
        append_u64(&mut out, self.ts);
        append_u64(&mut out, self.ttl);
        let ghost head = out@;
        let mut i: usize = 0;
        while i < self.primary.len()
            invariant
                i <= self.primary@.len(),
                out@ == head + self.primary@.subrange(0, i as int),
            decreases self.primary@.len() - i,
        {
            out.push(self.primary[i]);
            i += 1;
            assert(out@ =~= head + self.primary@.subrange(0, i as int));
        }
        assert(self.primary@.subrange(0, i as int) =~= self.primary@);
        assert(out@ =~= lock_bytes(self@));
        out
    }

    /// Reads a stored lock.
    pub fn parse(b: &[u8]) -> (r: Option<Lock>)
        ensures
            match parse_lock(b@) {
                Some(l) => r matches Some(x) && x@ == l,
                None => r is None,
            },
    {
        if b.len() < 17 {
            return None;
        }
        let lock_type = if b[0] == FLAG_PUT {
            LockType::Put
        } else if b[0] == FLAG_DELETE {
            LockType::Delete
        } else if b[0] == FLAG_LOCK {
            LockType::Lock
        } else {
            return None;
        };
        let ts_part = vstd::slice::slice_subrange(b, 1, 9);
        let ttl_part = vstd::slice::slice_subrange(b, 9, 17);
        assert(ts_part@.subrange(0, 8) =~= b@.subrange(1, 9));
        assert(ttl_part@.subrange(0, 8) =~= b@.subrange(9, 17));
        let ts: u64 = decode_u64_tail(ts_part);
        let ttl: u64 = decode_u64_tail(ttl_part);
        assert(ts_part@.subrange(ts_part@.len() - 8, ts_part@.len() as int) =~= b@.subrange(1, 9));
        assert(ttl_part@.subrange(ttl_part@.len() - 8, ttl_part@.len() as int) =~= b@.subrange(
            9,
            17,
        ));
        assert(b@.subrange(1, 9).subrange(0, 8) =~= b@.subrange(1, 9));
        assert(b@.subrange(9, 17).subrange(0, 8) =~= b@.subrange(9, 17));
        Some(Lock { lock_type, primary: copy_range(b, 17, b.len()), ts, ttl })
    }
}

impl Write {
    /// The stored form of the record.
    pub fn to_bytes(&self) -> (r: Vec<u8>)
        ensures
            r@ == write_bytes(*self),
    {
        let mut out: Vec<u8> = Vec::new();
        out.push(
            match self.write_type {
                WriteType::Put => FLAG_PUT,
                WriteType::Delete => FLAG_DELETE,
                WriteType::Lock => FLAG_LOCK,
                WriteType::Rollback => FLAG_ROLLBACK,
            },
        );
        append_u64(&mut out, self.start_ts);
        assert(out@ =~= write_bytes(*self));
        out
    }

    /// Reads a stored record.
    pub fn parse(b: &[u8]) -> (r: Option<Write>)
        ensures
            r == parse_write(b@),
    {
        if b.len() != 9 {
            return None;
        }
        let write_type = if b[0] == FLAG_PUT {
            WriteType::Put
        } else if b[0] == FLAG_DELETE {
            WriteType::Delete
        } else if b[0] == FLAG_LOCK {
            WriteType::Lock
        } else if b[0] == FLAG_ROLLBACK {
            WriteType::Rollback
        } else {
            return None;
        };
        assert(b@.subrange(b@.len() - 8, b@.len() as int) =~= b@.subrange(1, 9));
        assert(b@.subrange(1, 9).subrange(0, 8) =~= b@.subrange(1, 9));
        let start_ts: u64 = decode_u64_tail(b);
        Some(Write { write_type, start_ts })
    }
}

/// The stored key of the version `ts` of the stored key `p`.
pub open spec fn versioned(p: Seq<u8>, ts: u64) -> Seq<u8> {
    p + be_bytes(ts)
}

/// The lock on `key`, if there is one.
pub open spec fn lock_of(db: DbView, key: Seq<u8>) -> Option<LockView> {
    let p = encoded_bytes(key);
    if db.cf(Cf::Lock).dom().contains(p) {
        parse_lock(db.cf(Cf::Lock)[p])
    } else {
        None
    }
}

/// The record of the commit to the stored key `p` at `commit_ts`, if there was one.
pub open spec fn record_at(db: DbView, p: Seq<u8>, commit_ts: u64) -> Option<Write> {
    let x = versioned(p, commit_ts);
    if db.cf(Cf::Write).dom().contains(x) {
        parse_write(db.cf(Cf::Write)[x])
    } else {
        None
    }
}

/// The record of the commit to `key` at `commit_ts`, if there was one.
pub open spec fn write_at(db: DbView, key: Seq<u8>, commit_ts: u64) -> Option<Write> {
    record_at(db, encoded_bytes(key), commit_ts)
}

/// The value that the transaction that started at `start_ts` wrote to `key`, if it wrote
/// one.
pub open spec fn value_at(db: DbView, key: Seq<u8>, start_ts: u64) -> Option<Seq<u8>> {
    let x = versioned(encoded_bytes(key), start_ts);
    if db.cf(Cf::Default).dom().contains(x) {
        Some(db.cf(Cf::Default)[x])
    } else {
        None
    }
}

/// The record is of a commit that set or removed the key.
pub open spec fn is_data(w: Option<Write>) -> bool {
    w matches Some(x) && (x.write_type == WriteType::Put || x.write_type == WriteType::Delete)
}

/// `c` is the highest commit timestamp, `ts` at most, at which `key` was set or removed.
pub open spec fn is_latest(db: DbView, key: Seq<u8>, ts: u64, c: u64) -> bool {
    &&& c <= ts
    &&& is_data(write_at(db, key, c))
    &&& forall|d: u64| c < d <= ts ==> !is_data(#[trigger] write_at(db, key, d))
}

/// What a reader sees of the commit at `c`: the value that a put wrote, nothing after a
/// removal.
pub open spec fn outcome(db: DbView, key: Seq<u8>, c: u64) -> Option<Seq<u8>> {
    let w = write_at(db, key, c)->Some_0;
    if w.write_type == WriteType::Put {
        value_at(db, key, w.start_ts)
    } else {
        None
    }
}

/// What a reader at `ts` sees of `key`: the outcome of the latest commit that set or
/// removed it, `ts` at most; nothing if there is none.
pub open spec fn read(db: DbView, key: Seq<u8>, ts: u64) -> Option<Seq<u8>> {
    if exists|c: u64| is_latest(db, key, ts, c) {
        outcome(db, key, choose|c: u64| is_latest(db, key, ts, c))
    } else {
        None
    }
}

/// A lock on `key` stands in the way of a reader at `ts`: it is of a transaction that
/// started at `ts` or before.
pub open spec fn blocked(db: DbView, key: Seq<u8>, ts: u64) -> bool {
    lock_of(db, key) matches Some(l) && l.ts <= ts
}

/// The error that tells of the lock `l` on `key`.
pub open spec fn locked_error(key: Seq<u8>, l: LockView) -> ErrorView {
    ErrorView::KeyIsLocked { key, primary: l.primary, ts: l.ts, ttl: l.ttl }
}

/// The answer to a reader at `ts` that asks for `key`.
pub open spec fn get(db: DbView, key: Seq<u8>, ts: u64) -> Result<Option<Seq<u8>>, ErrorView> {
    if blocked(db, key, ts) {
        Err(locked_error(key, lock_of(db, key)->Some_0))
    } else {
        Ok(read(db, key, ts))
    }
}

/// The commit timestamp that ends the stored key of a commit record.
pub open spec fn commit_ts_of(x: Seq<u8>) -> u64 {
    be_u64(x.subrange(x.len() - 8, x.len() as int))
}

/// `x` is the stored form of a key.
pub open spec fn is_stored_key(x: Seq<u8>) -> bool {
    decoded_bytes(x) is Ok && decoded_bytes(x)->Ok_0.1 == x.len()
}

/// `x` is the stored form of a key followed by a timestamp.
pub open spec fn is_version_key(x: Seq<u8>) -> bool {
    decoded_bytes(x) is Ok && decoded_bytes(x)->Ok_0.1 + 8 == x.len()
}

/// The key that the stored key `x`, or the version key `x`, is of.
pub open spec fn user_key_of(x: Seq<u8>) -> Seq<u8> {
    decoded_bytes(x)->Ok_0.0
}

/// The bytes `v` under the key `x` are a commit record under a version of the stored form
/// of a key, and the commit is later than the start of its transaction unless it marks a
/// rollback.
pub open spec fn record_sound(x: Seq<u8>, v: Seq<u8>) -> bool {
    &&& x.len() >= 8
    &&& is_version_key(x)
    &&& parse_write(v) is Some
    &&& parse_write(v)->Some_0.write_type != WriteType::Rollback ==> parse_write(v)->Some_0.start_ts
        < commit_ts_of(x)
}

/// The three column families hold what transactions write: every lock stands under the
/// stored form of a key and is a lock, every commit record stands under a version of the
/// stored form of a key and is a record, and every commit but a rollback mark is later
/// than the start of its transaction.
pub open spec fn mvcc_wf(db: DbView) -> bool {
    &&& db.has_cf(Cf::Lock)
    &&& db.has_cf(Cf::Write)
    &&& forall|x: Seq<u8>| #[trigger]
        db.cf(Cf::Lock).dom().contains(x) ==> is_stored_key(x) && parse_lock(db.cf(Cf::Lock)[x])
            is Some
    &&& forall|x: Seq<u8>| #[trigger]
        db.cf(Cf::Write).dom().contains(x) ==> record_sound(x, db.cf(Cf::Write)[x])
}

/// `true` iff the column families of `db` hold what transactions write.
#[verifier::loop_isolation(false)]
pub fn is_sound(db: &Db) -> (r: bool)
    requires
        db.wf(),
    ensures
        r == mvcc_wf(db@),
{
    if !db.has_cf(Cf::Lock) || !db.has_cf(Cf::Write) {
        return false;
    }
    let locks = db.pairs_cf(Cf::Lock);
    let ghost lv = pairs_view(locks@);
    let ghost lm = db@.cf(Cf::Lock);
    let mut i: usize = 0;
    while i < locks.len()
        invariant
            i <= locks@.len(),
            lv == pairs_view(locks@),
            is_listing_of(lm, lv),
            forall|j: int|
                0 <= j < i ==> is_stored_key((#[trigger] lv[j]).0) && parse_lock(lv[j].1) is Some,
        decreases locks@.len() - i,
    {
        assert(lv[i as int] == (locks@[i as int].0@, locks@[i as int].1@));
        assert(lm.dom().contains(lv[i as int].0));
        let stored: bool = match decode_bytes(locks[i].0.as_slice()) {
            Ok((_, used)) => used == locks[i].0.len(),
            Err(_) => false,
        };
        if !stored || Lock::parse(locks[i].1.as_slice()).is_none() {
            return false;
        }
        i += 1;
    }
    let writes = db.pairs_cf(Cf::Write);
    let ghost wv = pairs_view(writes@);
    let ghost wm = db@.cf(Cf::Write);
    let mut k: usize = 0;
    while k < writes.len()
        invariant
            k <= writes@.len(),
            wv == pairs_view(writes@),
            is_listing_of(wm, wv),
            forall|j: int| 0 <= j < k ==> record_sound((#[trigger] wv[j]).0, wv[j].1),
        decreases writes@.len() - k,
    {
        assert(wv[k as int] == (writes@[k as int].0@, writes@[k as int].1@));
        assert(wm.dom().contains(wv[k as int].0));
        let x = &writes[k].0;
        if x.len() < 8 {
            return false;
        }
        let versioned: bool = match decode_bytes(x.as_slice()) {
            Ok((_, used)) => used <= x.len() && x.len() - used == 8,
            Err(_) => false,
        };
        if !versioned {
            return false;
        }
        match Write::parse(writes[k].1.as_slice()) {
            Some(w) => {
                if w.write_type != WriteType::Rollback && w.start_ts >= decode_u64_tail(
                    x.as_slice(),
                ) {
                    return false;
                }
            },
            None => {
                return false;
            },
        }
        k += 1;
    }
    proof {
        assert forall|x: Seq<u8>| #[trigger] lm.dom().contains(x) implies is_stored_key(x)
            && parse_lock(lm[x]) is Some by {
            let j = choose|j: int| 0 <= j < lv.len() && (#[trigger] lv[j]).0 == x;
            assert(is_stored_key(lv[j].0));
        }
        assert forall|x: Seq<u8>| #[trigger] wm.dom().contains(x) implies record_sound(x, wm[x]) by {
            let j = choose|j: int| 0 <= j < wv.len() && (#[trigger] wv[j]).0 == x;
            assert(record_sound(wv[j].0, wv[j].1));
        }
    }
    true
}

/// Somebody committed to `key` at `ts` or later.
pub open spec fn has_conflict(db: DbView, key: Seq<u8>, ts: u64) -> bool {
    exists|c: u64| c >= ts && #[trigger] write_at(db, key, c) is Some
}

/// The transaction that started at `start_ts` has committed `key`.
pub open spec fn committed_by(db: DbView, key: Seq<u8>, start_ts: u64) -> bool {
    exists|c: u64|
        (#[trigger] write_at(db, key, c)) matches Some(w) && w.start_ts == start_ts
            && w.write_type != WriteType::Rollback
}

/// The stored form of a key is one, and each of its versions is a version key.
pub proof fn lemma_stored_forms(key: Seq<u8>, ts: u64)
    ensures
        is_stored_key(encoded_bytes(key)),
        user_key_of(encoded_bytes(key)) == key,
        is_version_key(versioned(encoded_bytes(key), ts)),
        user_key_of(versioned(encoded_bytes(key), ts)) == key,
{
    lemma_encode_decode(key, Seq::<u8>::empty());
    assert(encoded_bytes(key) + Seq::<u8>::empty() =~= encoded_bytes(key));
    lemma_encode_decode(key, be_bytes(ts));
    lemma_encoded_len(key);
    lemma_be_roundtrip(ts);
}

/// The version `c` of a stored key ends with `c`.
pub proof fn lemma_versioned(p: Seq<u8>, c: u64)
    ensures
        versioned(p, c).len() == p.len() + 8,
        commit_ts_of(versioned(p, c)) == c,
        has_prefix(versioned(p, c), p),
{
    lemma_be_roundtrip(c);
    let x = versioned(p, c);
    assert(x.subrange(x.len() - 8, x.len() as int) =~= be_bytes(c));
    assert(be_bytes(c).subrange(0, 8) =~= be_bytes(c));
    assert(x.subrange(0, p.len() as int) =~= p);
}

/// A stored key that starts with `p` and has eight bytes more is a version of `p`.
pub proof fn lemma_is_version(p: Seq<u8>, x: Seq<u8>)
    requires
        has_prefix(x, p),
        x.len() == p.len() + 8,
    ensures
        x == versioned(p, commit_ts_of(x)),
{
    let tail = x.subrange(x.len() - 8, x.len() as int);
    lemma_be_bytes_of_value(tail);
    assert(tail.subrange(0, 8) =~= tail);
    assert(x =~= p + tail);
}

/// The versions of a stored key are ordered as their timestamps.
pub proof fn lemma_version_order(p: Seq<u8>, a: u64, b: u64)
    ensures
        lex_lt(versioned(p, a), versioned(p, b)) == (a < b),
        lex_le(versioned(p, a), versioned(p, b)) == (a <= b),
        (versioned(p, a) == versioned(p, b)) == (a == b),
{
    lemma_lex_common_prefix(p, be_bytes(a), be_bytes(b));
    lemma_be_order(a, b);
    lemma_versioned(p, a);
    lemma_versioned(p, b);
}

/// Every commit but a rollback mark is later than the start of its transaction.
pub proof fn lemma_commit_after_start(db: DbView, key: Seq<u8>, commit_ts: u64)
    requires
        mvcc_wf(db),
        write_at(db, key, commit_ts) is Some,
        write_at(db, key, commit_ts)->Some_0.write_type != WriteType::Rollback,
    ensures
        write_at(db, key, commit_ts)->Some_0.start_ts < commit_ts,
{
    lemma_versioned(encoded_bytes(key), commit_ts);
}

/// A key has one lock at most: two entries of the lock column family that are of the same
/// key are the same entry.
pub proof fn lemma_one_lock_per_key(db: DbView, x: Seq<u8>, y: Seq<u8>)
    requires
        mvcc_wf(db),
        db.cf(Cf::Lock).dom().contains(x),
        db.cf(Cf::Lock).dom().contains(y),
        user_key_of(x) == user_key_of(y),
    ensures
        x == y,
        x == encoded_bytes(user_key_of(x)),
        lock_of(db, user_key_of(x)) == parse_lock(db.cf(Cf::Lock)[x]),
{
    lemma_decode_encode(x);
    lemma_decode_encode(y);
    assert(x.take(x.len() as int) =~= x);
    assert(y.take(y.len() as int) =~= y);
}

/// Keys that differ have stored locks that differ: no lock stands for two keys.
pub proof fn lemma_lock_keys_distinct(a: Seq<u8>, b: Seq<u8>)
    requires
        a != b,
    ensures
        encoded_bytes(a) != encoded_bytes(b),
{
    if encoded_bytes(a) == encoded_bytes(b) {
        lemma_encode_injective(a, b);
    }
}

/// What a read returns: where `c` is the highest commit timestamp, `ts` at most, at which
/// the key was set or removed, the value written by the transaction that committed at `c`
/// if it set the key, and nothing if it removed it; nothing where there is no such commit.
pub proof fn lemma_read_latest(db: DbView, key: Seq<u8>, ts: u64, c: u64)
    ensures
        is_latest(db, key, ts, c) ==> read(db, key, ts) == outcome(db, key, c),
        (forall|d: u64| d <= ts ==> !is_data(#[trigger] write_at(db, key, d))) ==> read(db, key, ts)
            is None,
{
    if is_latest(db, key, ts, c) {
        let d = choose|d: u64| is_latest(db, key, ts, d);
        assert(is_latest(db, key, ts, d));
        if d < c {
            assert(!is_data(write_at(db, key, c)));
        } else if c < d {
            assert(!is_data(write_at(db, key, d)));
        }
    }
    if forall|d: u64| d <= ts ==> !is_data(#[trigger] write_at(db, key, d)) {
        if exists|d: u64| is_latest(db, key, ts, d) {
            let d = choose|d: u64| is_latest(db, key, ts, d);
            assert(is_data(write_at(db, key, d)));
        }
    }
}

/// The commit records of `p` with timestamps from `from` to `to`, by ascending timestamp.
pub open spec fn is_versions_of(db: DbView, p: Seq<u8>, from: u64, to: u64, r: Seq<(u64, Write)>) -> bool {
    &&& forall|i: int, j: int| 0 <= i < j < r.len() ==> (#[trigger] r[i]).0 < (#[trigger] r[j]).0
    &&& forall|i: int|
        0 <= i < r.len() ==> from <= (#[trigger] r[i]).0 <= to && record_at(db, p, r[i].0) == Some(
            r[i].1,
        )
    &&& forall|c: u64|
        from <= c <= to && #[trigger] record_at(db, p, c) is Some ==> exists|i: int|
            0 <= i < r.len() && (#[trigger] r[i]).0 == c
}

/// The change keeps the column families sound: a lock it stores is a lock, a commit
/// record it stores is one, and is later than the start of its transaction unless it marks
/// a rollback.
pub open spec fn op_sound(op: BatchOpView) -> bool {
    op.cf() != Cf::Raft && match op {
        BatchOpView::Put(Cf::Lock, k, v) => is_stored_key(k) && parse_lock(v) is Some,
        BatchOpView::Put(Cf::Write, x, v) => record_sound(x, v),
        _ => true,
    }
}

/// A sound change leaves sound column families sound.
pub proof fn lemma_apply_sound(db: DbView, op: BatchOpView)
    requires
        mvcc_wf(db),
        op_sound(op),
    ensures
        mvcc_wf(db.apply(op)),
{
    let next = db.apply(op);
    assert forall|x: Seq<u8>| #[trigger] next.cf(Cf::Lock).dom().contains(x) implies is_stored_key(
        x,
    ) && parse_lock(next.cf(Cf::Lock)[x]) is Some by {
        if db.cf(Cf::Lock).dom().contains(x) {
        }
    }
    assert forall|x: Seq<u8>| #[trigger] next.cf(Cf::Write).dom().contains(x) implies record_sound(
        x,
        next.cf(Cf::Write)[x],
    ) by {
        if db.cf(Cf::Write).dom().contains(x) {
        }
    }
}

/// Sound changes leave sound column families sound, and the database takes them.
pub proof fn lemma_apply_all_sound(db: DbView, ops: Seq<BatchOpView>)
    requires
        mvcc_wf(db),
        forall|i: int| 0 <= i < ops.len() ==> op_sound(#[trigger] ops[i]),
    ensures
        mvcc_wf(db.apply_all(ops)),
        db.accepts(ops),
    decreases ops.len(),
{
    if ops.len() > 0 {
        lemma_apply_all_sound(db, ops.drop_last());
        lemma_apply_sound(db.apply_all(ops.drop_last()), ops.last());
    }
}

/// The kind of lock that a mutation takes.
pub open spec fn lock_kind(m: MutationView) -> LockType {
    match m {
        MutationView::Put(_, _) => LockType::Put,
        MutationView::Delete(_) => LockType::Delete,
        MutationView::Lock(_) => LockType::Lock,
    }
}

/// The kind of commit that a lock leads to.
pub open spec fn write_kind(t: LockType) -> WriteType {
    match t {
        LockType::Put => WriteType::Put,
        LockType::Delete => WriteType::Delete,
        LockType::Lock => WriteType::Lock,
    }
}

/// The transaction that started at `ts` holds the lock on `key`.
pub open spec fn holds_lock(db: DbView, key: Seq<u8>, ts: u64) -> bool {
    lock_of(db, key) matches Some(l) && l.ts == ts
}

/// Why the transaction that started at `ts` cannot lock `key`, if it cannot: somebody
/// committed to the key at `ts` or later, or another transaction holds the lock.
pub open spec fn prewrite_error(db: DbView, key: Seq<u8>, ts: u64) -> Option<ErrorView> {
    if has_conflict(db, key, ts) {
        Some(ErrorView::WriteConflict)
    } else if lock_of(db, key) is Some && lock_of(db, key)->Some_0.ts != ts {
        Some(locked_error(key, lock_of(db, key)->Some_0))
    } else {
        None
    }
}

/// The changes that lock a key for a mutation: the lock, and behind it the value where
/// the mutation sets one.
pub open spec fn prewrite_mods(m: MutationView, primary: Seq<u8>, ts: u64, ttl: u64) -> Seq<
    BatchOpView,
> {
    let p = encoded_bytes(m.key());
    let lock = BatchOpView::Put(
        Cf::Lock,
        p,
        lock_bytes(LockView { lock_type: lock_kind(m), primary, ts, ttl }),
    );
    match m {
        MutationView::Put(_, v) => seq![lock, BatchOpView::Put(Cf::Default, versioned(p, ts), v)],
        _ => seq![lock],
    }
}

/// Why the transaction that started at `ts` cannot commit `key`, if it cannot: it neither
/// holds the lock nor has committed the key before.
pub open spec fn commit_error(db: DbView, key: Seq<u8>, ts: u64) -> Option<ErrorView> {
    if holds_lock(db, key, ts) || committed_by(db, key, ts) {
        None
    } else {
        Some(ErrorView::TxnLockNotFound)
    }
}

/// The changes that commit a key at `commit_ts`: the commit record, and the end of the
/// lock. None where the key was committed before.
pub open spec fn commit_mods(db: DbView, key: Seq<u8>, ts: u64, commit_ts: u64) -> Seq<BatchOpView> {
    let p = encoded_bytes(key);
    if holds_lock(db, key, ts) {
        seq![
            BatchOpView::Put(
                Cf::Write,
                versioned(p, commit_ts),
                write_bytes(
                    Write {
                        write_type: write_kind(lock_of(db, key)->Some_0.lock_type),
                        start_ts: ts,
                    },
                ),
            ),
            BatchOpView::Delete(Cf::Lock, p),
        ]
    } else {
        Seq::<BatchOpView>::empty()
    }
}

/// Why the transaction that started at `ts` cannot give up `key`, if it cannot: it has
/// committed the key.
pub open spec fn rollback_error(db: DbView, key: Seq<u8>, ts: u64) -> Option<ErrorView> {
    if !holds_lock(db, key, ts) && committed_by(db, key, ts) {
        Some(ErrorView::Committed)
    } else {
        None
    }
}

/// The place of the rollback mark is free: no commit stands at the timestamp `ts`.
pub open spec fn can_mark(db: DbView, key: Seq<u8>, ts: u64) -> bool {
    !(write_at(db, key, ts) is Some && write_at(db, key, ts)->Some_0.write_type
        != WriteType::Rollback)
}

/// The changes that give up a key: the end of the lock if the transaction holds it, the
/// end of the value it wrote, and a rollback mark at its start timestamp, which keeps the
/// transaction from locking the key again.
pub open spec fn rollback_mods(db: DbView, key: Seq<u8>, ts: u64) -> Seq<BatchOpView> {
    let p = encoded_bytes(key);
    let unlock = if holds_lock(db, key, ts) {
        seq![BatchOpView::Delete(Cf::Lock, p)]
    } else {
        Seq::<BatchOpView>::empty()
    };
    let mark = if can_mark(db, key, ts) {
        seq![
            BatchOpView::Put(
                Cf::Write,
                versioned(p, ts),
                write_bytes(Write { write_type: WriteType::Rollback, start_ts: ts }),
            ),
        ]
    } else {
        Seq::<BatchOpView>::empty()
    };
    unlock + seq![BatchOpView::Delete(Cf::Default, versioned(p, ts))] + mark
}

/// What locking the key of `m` asks for: the changes, or the reason why the key cannot be
/// locked.
pub open spec fn prewrite_step(db: DbView, m: MutationView, primary: Seq<u8>, ts: u64, ttl: u64) -> Result<
    Seq<BatchOpView>,
    ErrorView,
> {
    match prewrite_error(db, m.key(), ts) {
        Some(e) => Err(e),
        None => Ok(prewrite_mods(m, primary, ts, ttl)),
    }
}

/// What committing `key` asks for: the changes, or the reason why it cannot be committed.
pub open spec fn commit_step(db: DbView, key: Seq<u8>, ts: u64, commit_ts: u64) -> Result<
    Seq<BatchOpView>,
    ErrorView,
> {
    match commit_error(db, key, ts) {
        Some(e) => Err(e),
        None => Ok(commit_mods(db, key, ts, commit_ts)),
    }
}

/// What giving up `key` asks for: the changes, or the reason why it cannot be given up.
pub open spec fn rollback_step(db: DbView, key: Seq<u8>, ts: u64) -> Result<
    Seq<BatchOpView>,
    ErrorView,
> {
    match rollback_error(db, key, ts) {
        Some(e) => Err(e),
        None => Ok(rollback_mods(db, key, ts)),
    }
}

/// What a transaction asks for in all: the changes of its steps one after the other, or
/// the error of the first step that fails.
pub open spec fn gather(steps: Seq<Result<Seq<BatchOpView>, ErrorView>>) -> Result<
    Seq<BatchOpView>,
    ErrorView,
>
    decreases steps.len(),
{
    if steps.len() == 0 {
        Ok(Seq::<BatchOpView>::empty())
    } else {
        match gather(steps.drop_last()) {
            Err(e) => Err(e),
            Ok(ops) => match steps.last() {
                Err(e) => Err(e),
                Ok(more) => Ok(ops + more),
            },
        }
    }
}

/// The first step that fails decides.
pub proof fn lemma_gather_fails(steps: Seq<Result<Seq<BatchOpView>, ErrorView>>, j: int)
    requires
        0 <= j <= steps.len(),
        gather(steps.take(j)) is Err,
    ensures
        gather(steps) == gather(steps.take(j)),
    decreases steps.len() - j,
{
    if j < steps.len() {
        assert(steps.take(j + 1).drop_last() =~= steps.take(j));
        lemma_gather_fails(steps, j + 1);
    } else {
        assert(steps.take(j) =~= steps);
    }
}

/// One more step that succeeds adds its changes.
pub proof fn lemma_gather_next(steps: Seq<Result<Seq<BatchOpView>, ErrorView>>, j: int)
    requires
        0 <= j < steps.len(),
    ensures
        gather(steps.take(j + 1)) == match gather(steps.take(j)) {
            Err(e) => Err::<Seq<BatchOpView>, ErrorView>(e),
            Ok(ops) => match steps[j] {
                Err(e) => Err::<Seq<BatchOpView>, ErrorView>(e),
                Ok(more) => Ok::<Seq<BatchOpView>, ErrorView>(ops + more),
            },
        },
{
    assert(steps.take(j + 1).drop_last() =~= steps.take(j));
}

/// The view of a value that may be missing.
pub open spec fn value_view(v: Option<Vec<u8>>) -> Option<Seq<u8>> {
    match v {
        Some(x) => Some(x@),
        None => None,
    }
}

/// A transaction: it reads a snapshot and gathers the changes it wants made.
pub struct MvccTxn<'a> {
    db: &'a Db,
    start_ts: u64,
    writes: Vec<Modify>,
}

impl<'a> MvccTxn<'a> {
    /// The snapshot that the transaction reads.
    pub closed spec fn snapshot(&self) -> DbView {
        self.db@
    }

    pub closed spec fn spec_start_ts(&self) -> u64 {
        self.start_ts
    }

    /// The changes gathered so far.
    pub closed spec fn modifies(&self) -> Seq<BatchOpView> {
        modifies_view(self.writes@)
    }

    /// The snapshot is sound, and so is every change gathered.
    pub closed spec fn wf(&self) -> bool {
        &&& self.db.wf()
        &&& mvcc_wf(self.db@)
        &&& forall|i: int| 0 <= i < self.writes@.len() ==> op_sound(#[trigger] self.writes@[i]@)
    }

    /// A transaction that starts at `start_ts` on the snapshot `db`.
    pub fn new(db: &'a Db, start_ts: u64) -> (r: MvccTxn<'a>)
        requires
            db.wf(),
            mvcc_wf(db@),
        ensures
            r.wf(),
            r.snapshot() == db@,
            r.spec_start_ts() == start_ts,
            r.modifies() == Seq::<BatchOpView>::empty(),
    {
        let r = MvccTxn { db, start_ts, writes: Vec::new() };
        assert(r.modifies() =~= Seq::<BatchOpView>::empty());
        r
    }

    /// The changes that the transaction wants made, in the order in which it asked.
    pub fn into_modifies(self) -> (r: Vec<Modify>)
        requires
            self.wf(),
        ensures
            modifies_view(r@) == self.modifies(),
            forall|i: int| 0 <= i < r@.len() ==> op_sound(#[trigger] modifies_view(r@)[i]),
    {
        self.writes
    }

    /// The commit records of the stored key `p` with timestamps from `from` to `to`.
    fn versions(&self, p: &[u8], from: u64, to: u64) -> (r: Vec<(u64, Write)>)
        requires
            self.wf(),
        ensures
            is_versions_of(self.snapshot(), p@, from, to, r@),
    {
        let mut start: Vec<u8> = copy_bytes(p);
        append_u64(&mut start, from);
        let mut end: Vec<u8> = copy_bytes(p);
        append_u64(&mut end, to);
        end.push(0u8);
        let ghost db = self.db@;
        let ghost m = db.cf(Cf::Write);
        let raw: Vec<KvPair> = self.db.scan_cf(Cf::Write, start.as_slice(), end.as_slice());
        let ghost rv = pairs_view(raw@);
        let mut out: Vec<(u64, Write)> = Vec::new();
        let n: usize = raw.len();
        let mut i: usize = 0;
        proof {
            assert(end@ =~= versioned(p@, to) + seq![0u8]);
            lemma_lex_extension(versioned(p@, to), seq![0u8]);
        }
        while i < n
            invariant
                i <= n,
                n == raw@.len(),
                rv == pairs_view(raw@),
                db == self.db@,
                m == db.cf(Cf::Write),
                mvcc_wf(db),
                start@ == versioned(p@, from),
                end@ == versioned(p@, to) + seq![0u8],
                is_range_of(m, start@, end@, rv),
                forall|a: int, b: int|
                    0 <= a < b < out@.len() ==> (#[trigger] out@[a]).0 < (#[trigger] out@[b]).0,
                forall|a: int|
                    0 <= a < out@.len() ==> from <= (#[trigger] out@[a]).0 <= to && record_at(
                        db,
                        p@,
                        out@[a].0,
                    ) == Some(out@[a].1) && (i > 0 && lex_le(
                        versioned(p@, out@[a].0),
                        rv[i - 1].0,
                    )),
                forall|j: int|
                    0 <= j < i && has_prefix((#[trigger] rv[j]).0, p@) && rv[j].0.len() == p@.len()
                        + 8 ==> exists|a: int|
                        0 <= a < out@.len() && (#[trigger] out@[a]).0 == commit_ts_of(rv[j].0),
            decreases n - i,
        {
            let x = &raw[i].0;
            let v = &raw[i].1;
            assert(rv[i as int] == (x@, v@));
            assert(m.dom().contains(rv[i as int].0));
            let ghost old_out = out@;
            if bytes_has_prefix(x.as_slice(), p) && x.len() - p.len() == 8 {
                let c: u64 = decode_u64_tail(x.as_slice());
                proof {
                    lemma_is_version(p@, x@);
                    lemma_version_order(p@, from, c);
                    lemma_version_order(p@, c, to);
                    lemma_lex_total(versioned(p@, to), x@);
                    if lex_lt(versioned(p@, to), x@) {
                        lemma_versioned(p@, to);
                        lemma_lex_append_lower(versioned(p@, to), x@, seq![0u8]);
                        lemma_lex_total(end@, x@);
                    }
                }
                match Write::parse(v.as_slice()) {
                    Some(w) => {
                        proof {
                            assert forall|a: int| 0 <= a < old_out.len() implies (
                            #[trigger] old_out[a]).0 < c by {
                                lemma_version_order(p@, old_out[a].0, c);
                                lemma_lex_le_lt(versioned(p@, old_out[a].0), rv[i - 1].0, x@);
                            }
                        }
                        out.push((c, w));
                        proof {
                            assert(out@[out@.len() - 1].0 == c);
                        }
                    },
                    None => {},
                }
            }
            i += 1;
            proof {
                assert forall|a: int| 0 <= a < out@.len() implies lex_le(
                    versioned(p@, (#[trigger] out@[a]).0),
                    rv[i - 1].0,
                ) by {
                    if a < old_out.len() {
                        assert(out@[a] == old_out[a]);
                        if i > 1 {
                            lemma_lex_le_lt(versioned(p@, old_out[a].0), rv[i - 2].0, rv[i - 1].0);
                        }
                    }
                }
                assert forall|j: int|
                    0 <= j < i && has_prefix((#[trigger] rv[j]).0, p@) && rv[j].0.len() == p@.len()
                        + 8 implies exists|a: int|
                    0 <= a < out@.len() && (#[trigger] out@[a]).0 == commit_ts_of(rv[j].0) by {
                    if j < i - 1 {
                        let a = choose|a: int|
                            0 <= a < old_out.len() && (#[trigger] old_out[a]).0 == commit_ts_of(
                                rv[j].0,
                            );
                        assert(out@[a] == old_out[a]);
                    } else {
                        assert(out@[out@.len() - 1].0 == commit_ts_of(rv[j].0));
                    }
                }
            }
        }
        proof {
            assert forall|c: u64| from <= c <= to && #[trigger] record_at(db, p@, c) is Some implies exists|
                a: int,
            |
                0 <= a < out@.len() && (#[trigger] out@[a]).0 == c by {
                let x = versioned(p@, c);
                lemma_versioned(p@, c);
                lemma_version_order(p@, from, c);
                lemma_version_order(p@, c, to);
                lemma_lex_le_lt(x, versioned(p@, to), end@);
                assert(m.dom().contains(x));
                let j = choose|j: int| 0 <= j < rv.len() && (#[trigger] rv[j]).0 == x;
                assert(has_prefix(rv[j].0, p@));
            }
        }
        out
    }
}

impl<'a> MvccTxn<'a> {
    pub fn start_ts(&self) -> (r: u64)
        ensures
            r == self.spec_start_ts(),
    {
        self.start_ts
    }

    /// The lock on the stored key `p`.
    fn load_lock(&self, key: &[u8], p: &[u8]) -> (r: Option<Lock>)
        requires
            self.wf(),
            p@ == encoded_bytes(key@),
        ensures
            match lock_of(self.snapshot(), key@) {
                Some(l) => r matches Some(x) && x@ == l,
                None => r is None,
            },
    {
        match self.db.get_cf(Cf::Lock, p) {
            Ok(Some(bytes)) => Lock::parse(bytes.as_slice()),
            _ => None,
        }
    }

    fn add(&mut self, m: Modify)
        requires
            old(self).wf(),
            op_sound(m@),
        ensures
            final(self).wf(),
            final(self).snapshot() == old(self).snapshot(),
            final(self).spec_start_ts() == old(self).spec_start_ts(),
            final(self).modifies() == old(self).modifies().push(m@),
    {
        self.writes.push(m);
        assert(self.modifies() =~= old(self).modifies().push(m@));
    }

    /// Reads `key` as of the start of the transaction. A lock of a transaction that
    /// started no later stands in the way; else the answer is what the latest commit that
    /// set or removed the key, no later than the start, has left.
    #[verifier::loop_isolation(false)]
    pub fn get(&self, key: &[u8]) -> (r: Result<Option<Vec<u8>>, Error>)
        requires
            self.wf(),
        ensures
            match get(self.snapshot(), key@, self.spec_start_ts()) {
                Ok(v) => r matches Ok(x) && value_view(x) == v,
                Err(e) => r matches Err(x) && x@ == e,
            },
    {
        let p = encode_bytes(key);
        let ghost db = self.db@;
        match self.load_lock(key, p.as_slice()) {
            Some(l) => {
                if l.ts <= self.start_ts {
                    return Err(
                        Error::KeyIsLocked {
                            key: copy_bytes(key),
                            primary: l.primary,
                            ts: l.ts,
                            ttl: l.ttl,
                        },
                    );
                }
            },
            None => {},
        }
        let vs = self.versions(p.as_slice(), 0, self.start_ts);
        let mut i: usize = vs.len();
        while i > 0
            invariant
                i <= vs@.len(),
                self.wf(),
                db == self.db@,
                p@ == encoded_bytes(key@),
                is_versions_of(db, p@, 0, self.start_ts, vs@),
                forall|j: int| i <= j < vs@.len() ==> !is_data(Some((#[trigger] vs@[j]).1)),
            decreases i,
        {
            i -= 1;
            let c: u64 = vs[i].0;
            let w: Write = vs[i].1;
            if w.write_type == WriteType::Put || w.write_type == WriteType::Delete {
                proof {
                    assert(write_at(db, key@, c) == Some(w));
                    assert forall|d: u64| c < d <= self.start_ts implies !is_data(
                        #[trigger] write_at(db, key@, d),
                    ) by {
                        if record_at(db, p@, d) is Some {
                            let j = choose|j: int| 0 <= j < vs@.len() && (#[trigger] vs@[j]).0 == d;
                            if j <= i {
                                assert(vs@[j].0 <= vs@[i as int].0);
                            }
                        }
                    }
                    lemma_read_latest(db, key@, self.start_ts, c);
                }
                if w.write_type == WriteType::Put {
                    let mut at: Vec<u8> = copy_bytes(p.as_slice());
                    append_u64(&mut at, w.start_ts);
                    return match self.db.get_cf(Cf::Default, at.as_slice()) {
                        Ok(v) => Ok(v),
                        Err(_) => Ok(None),
                    };
                }
                return Ok(None);
            }
        }
        proof {
            assert forall|d: u64| d <= self.start_ts implies !is_data(
                #[trigger] write_at(db, key@, d),
            ) by {
                if record_at(db, p@, d) is Some {
                    let j = choose|j: int| 0 <= j < vs@.len() && (#[trigger] vs@[j]).0 == d;
                    assert(!is_data(Some(vs@[j].1)));
                }
            }
            lemma_read_latest(db, key@, self.start_ts, 0);
        }
        Ok(None)
    }

    /// Locks the key of `mutation` for the transaction, with `primary` as the key that
    /// decides its fate and `ttl` as the time the lock may be held. Nothing is gathered
    /// where the key cannot be locked.
    pub fn prewrite(&mut self, mutation: &Mutation, primary: &[u8], ttl: u64) -> (r: Result<
        (),
        Error,
    >)
        requires
            old(self).wf(),
        ensures
            final(self).wf(),
            final(self).snapshot() == old(self).snapshot(),
            final(self).spec_start_ts() == old(self).spec_start_ts(),
            match prewrite_error(old(self).snapshot(), mutation@.key(), old(self).spec_start_ts()) {
                Some(e) => r matches Err(x) && x@ == e && final(self).modifies() == old(self).modifies(),
                None => r is Ok && final(self).modifies() == old(self).modifies() + prewrite_mods(
                    mutation@,
                    primary@,
                    old(self).spec_start_ts(),
                    ttl,
                ),
            },
    {
        let ghost db = self.db@;
        let ghost key = mutation@.key();
        let p = encode_bytes(mutation.key().as_slice());
        let later = self.versions(p.as_slice(), self.start_ts, u64::MAX);
        if later.len() > 0 {
            proof {
                assert(write_at(db, key, later@[0].0) is Some);
            }
            return Err(Error::WriteConflict);
        }
        proof {
            assert forall|c: u64| c >= self.start_ts implies !(#[trigger] write_at(db, key, c)
                is Some) by {}
        }
        match self.load_lock(mutation.key().as_slice(), p.as_slice()) {
            Some(l) => {
                if l.ts != self.start_ts {
                    return Err(
                        Error::KeyIsLocked {
                            key: copy_bytes(mutation.key().as_slice()),
                            primary: l.primary,
                            ts: l.ts,
                            ttl: l.ttl,
                        },
                    );
                }
            },
            None => {},
        }
        let lock_type = match mutation {
            Mutation::Put(_) => LockType::Put,
            Mutation::Delete(_) => LockType::Delete,
            Mutation::Lock(_) => LockType::Lock,
        };
        let lock = Lock { lock_type, primary: copy_bytes(primary), ts: self.start_ts, ttl };
        proof {
            lemma_lock_roundtrip(lock@);
            lemma_stored_forms(key, self.start_ts);
        }
        let ghost before = self.modifies();
        self.add(Modify::Put(Cf::Lock, copy_bytes(p.as_slice()), lock.to_bytes()));
        match mutation {
            Mutation::Put(kv) => {
                let mut at: Vec<u8> = p;
                append_u64(&mut at, self.start_ts);
                self.add(Modify::Put(Cf::Default, at, copy_bytes(kv.1.as_slice())));
                assert(self.modifies() =~= before + prewrite_mods(
                    mutation@,
                    primary@,
                    self.start_ts,
                    ttl,
                ));
            },
            _ => {
                assert(self.modifies() =~= before + prewrite_mods(
                    mutation@,
                    primary@,
                    self.start_ts,
                    ttl,
                ));
            },
        }
        Ok(())
    }

    /// `true` iff the transaction has committed the stored key `p`.
    #[verifier::loop_isolation(false)]
    fn has_committed(&self, key: &[u8], p: &[u8]) -> (r: bool)
        requires
            self.wf(),
            p@ == encoded_bytes(key@),
        ensures
            r == committed_by(self.snapshot(), key@, self.spec_start_ts()),
    {
        let ghost db = self.db@;
        let vs = self.versions(p, 0, u64::MAX);
        let mut i: usize = 0;
        while i < vs.len()
            invariant
                i <= vs@.len(),
                forall|j: int|
                    0 <= j < i ==> !((#[trigger] vs@[j]).1.start_ts == self.start_ts
                        && vs@[j].1.write_type != WriteType::Rollback),
            decreases vs@.len() - i,
        {
            if vs[i].1.start_ts == self.start_ts && vs[i].1.write_type != WriteType::Rollback {
                proof {
                    assert(write_at(db, key@, vs@[i as int].0) == Some(vs@[i as int].1));
                }
                return true;
            }
            i += 1;
        }
        proof {
            if committed_by(db, key@, self.start_ts) {
                let c = choose|c: u64|
                    (#[trigger] write_at(db, key@, c)) matches Some(w) && w.start_ts
                        == self.start_ts && w.write_type != WriteType::Rollback;
                let j = choose|j: int| 0 <= j < vs@.len() && (#[trigger] vs@[j]).0 == c;
                assert(vs@[j].1 == write_at(db, key@, c)->Some_0);
            }
        }
        false
    }

    /// Commits `key` at `commit_ts`. A key that the transaction has committed before is
    /// left as it is.
    pub fn commit(&mut self, key: &[u8], commit_ts: u64) -> (r: Result<(), Error>)
        requires
            old(self).wf(),
            old(self).spec_start_ts() < commit_ts,
        ensures
            final(self).wf(),
            final(self).snapshot() == old(self).snapshot(),
            final(self).spec_start_ts() == old(self).spec_start_ts(),
            match commit_error(old(self).snapshot(), key@, old(self).spec_start_ts()) {
                Some(e) => r matches Err(x) && x@ == e && final(self).modifies() == old(self).modifies(),
                None => r is Ok && final(self).modifies() == old(self).modifies() + commit_mods(
                    old(self).snapshot(),
                    key@,
                    old(self).spec_start_ts(),
                    commit_ts,
                ),
            },
    {
        let p = encode_bytes(key);
        let ghost before = self.modifies();
        match self.load_lock(key, p.as_slice()) {
            Some(l) => {
                if l.ts == self.start_ts {
                    let write_type = match l.lock_type {
                        LockType::Put => WriteType::Put,
                        LockType::Delete => WriteType::Delete,
                        LockType::Lock => WriteType::Lock,
                    };
                    let w = Write { write_type, start_ts: self.start_ts };
                    let mut at: Vec<u8> = copy_bytes(p.as_slice());
                    append_u64(&mut at, commit_ts);
                    proof {
                        lemma_write_roundtrip(w);
                        lemma_versioned(p@, commit_ts);
                        lemma_stored_forms(key@, commit_ts);
                    }
                    self.add(Modify::Put(Cf::Write, at, w.to_bytes()));
                    self.add(Modify::Delete(Cf::Lock, p));
                    assert(self.modifies() =~= before + commit_mods(
                        old(self).snapshot(),
                        key@,
                        self.start_ts,
                        commit_ts,
                    ));
                    return Ok(());
                }
            },
            None => {},
        }
        if self.has_committed(key, p.as_slice()) {
            assert(self.modifies() =~= before + Seq::<BatchOpView>::empty());
            Ok(())
        } else {
            Err(Error::TxnLockNotFound)
        }
    }

    /// Gives up `key`: whatever the transaction has locked or written there goes, and a
    /// mark keeps it from locking the key again. A key that the transaction has committed
    /// cannot be given up.
    pub fn rollback(&mut self, key: &[u8]) -> (r: Result<(), Error>)
        requires
            old(self).wf(),
        ensures
            final(self).wf(),
            final(self).snapshot() == old(self).snapshot(),
            final(self).spec_start_ts() == old(self).spec_start_ts(),
            match rollback_error(old(self).snapshot(), key@, old(self).spec_start_ts()) {
                Some(e) => r matches Err(x) && x@ == e && final(self).modifies() == old(self).modifies(),
                None => r is Ok && final(self).modifies() == old(self).modifies() + rollback_mods(
                    old(self).snapshot(),
                    key@,
                    old(self).spec_start_ts(),
                ),
            },
    {
        let p = encode_bytes(key);
        let ghost before = self.modifies();
        let ghost db = self.db@;
        let ours: bool = match self.load_lock(key, p.as_slice()) {
            Some(l) => l.ts == self.start_ts,
            None => false,
        };
        if !ours && self.has_committed(key, p.as_slice()) {
            return Err(Error::Committed);
        }
        if ours {
            self.add(Modify::Delete(Cf::Lock, copy_bytes(p.as_slice())));
        }
        let mut at: Vec<u8> = p;
        append_u64(&mut at, self.start_ts);
        let free: bool = match self.db.get_cf(Cf::Write, at.as_slice()) {
            Ok(Some(bytes)) => match Write::parse(bytes.as_slice()) {
                Some(w) => w.write_type == WriteType::Rollback,
                None => true,
            },
            _ => true,
        };
        self.add(Modify::Delete(Cf::Default, copy_bytes(at.as_slice())));
        if free {
            let w = Write { write_type: WriteType::Rollback, start_ts: self.start_ts };
            proof {
                lemma_write_roundtrip(w);
                lemma_versioned(encoded_bytes(key@), self.start_ts);
                lemma_stored_forms(key@, self.start_ts);
            }
            self.add(Modify::Put(Cf::Write, at, w.to_bytes()));
        }
        assert(self.modifies() =~= before + rollback_mods(db, key@, self.start_ts));
        Ok(())
    }
}

} // verus!
