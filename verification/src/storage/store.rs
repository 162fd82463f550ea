//! The store of transactions: each operation holds the stripes of its keys, reads a
//! snapshot, and writes what it has gathered in one batch.

use crate::engine::db::{BatchOpView, Cf, DbView};
use crate::engine::ordered::is_first_from;
use crate::storage::mvcc::{
    commit_step, gather, lemma_apply_all_sound, lemma_gather_fails, lemma_gather_next, mvcc_wf,
    prewrite_step, rollback_step, value_view, MvccTxn,
};
use crate::util::codec::{lemma_decode_encode, lemma_encode_keeps_order};
use crate::util::order::{
    lemma_lex_append_both, lemma_lex_extension, lemma_lex_le_lt, lemma_lex_transitive, lex_lt,
};
use crate::storage::rocksdb_engine::RocksEngine;
use crate::storage::shard_mutex::ShardMutex;
use crate::storage::types::{
    keys_view, modifies_view, mutations_view, Key, KvPair, Mutation, MutationView, Value,
};
use crate::util::codec::{decode_bytes, decoded_bytes, encode_bytes, encoded_bytes};
use crate::util::order::{bytes_le, copy_bytes, lemma_lex_total, lex_le};
use vstd::prelude::*;

verus! {

/// What an operation of the store can fail with.
#[derive(Debug)]
pub enum Error {
    /// The transaction cannot go on.
    Mvcc(crate::storage::mvcc::Error),
    /// The engine has refused.
    Engine(crate::storage::rocksdb_engine::Error),
    /// A stored key is no encoded key.
    Codec(crate::util::codec::Error),
}

/// An error as a mathematical value.
pub enum ErrorView {
    Mvcc(crate::storage::mvcc::ErrorView),
    Engine(crate::storage::rocksdb_engine::Error),
    Codec(crate::util::codec::Error),
}

impl View for Error {
    type V = ErrorView;

    open spec fn view(&self) -> ErrorView {
        match self {
            Error::Mvcc(e) => ErrorView::Mvcc(e@),
            Error::Engine(e) => ErrorView::Engine(*e),
            Error::Codec(e) => ErrorView::Codec(*e),
        }
    }
}

pub type Result<T> = core::result::Result<T, Error>;

/// The number of stripes of the locks of a store.
pub const SHARD_MUTEX_SIZE: usize = 256;

/// How long a lock may be held before others may ask for its resolution, in milliseconds.
pub const DEFAULT_LOCK_TTL: u64 = 3000;

/// An item of a scan as a mathematical value: a key with its value, or the reason why the
/// key cannot be read.
pub type ScanItem = core::result::Result<(Seq<u8>, Seq<u8>), ErrorView>;

/// The view of an item of a scan.
pub open spec fn item_view(r: Result<KvPair>) -> ScanItem {
    match r {
        Ok(kv) => Ok((kv.0@, kv.1@)),
        Err(e) => Err(e@),
    }
}

/// The views of the items of a scan.
pub open spec fn items_view(rs: Seq<Result<KvPair>>) -> Seq<ScanItem> {
    Seq::new(rs.len(), |i: int| item_view(rs[i]))
}

/// The view of the answer to a read.
pub open spec fn answer_view(r: Result<Option<Value>>) -> core::result::Result<
    Option<Seq<u8>>,
    ErrorView,
> {
    match r {
        Ok(v) => Ok(value_view(v)),
        Err(e) => Err(e@),
    }
}

/// What a reader at `ts` is told of `key`.
pub open spec fn get(db: DbView, key: Seq<u8>, ts: u64) -> core::result::Result<
    Option<Seq<u8>>,
    ErrorView,
> {
    match crate::storage::mvcc::get(db, key, ts) {
        Ok(v) => Ok(v),
        Err(e) => Err(ErrorView::Mvcc(e)),
    }
}

/// The first key of `m` that is not below `x`, if there is one.
pub open spec fn first_from(m: Map<Seq<u8>, Seq<u8>>, x: Seq<u8>) -> Option<Seq<u8>> {
    if exists|k: Seq<u8>| is_first_from(m, x, k) {
        Some(choose|k: Seq<u8>| is_first_from(m, x, k))
    } else {
        None
    }
}

/// The first stored key, not below `x`, of a key that is locked or was committed to.
pub open spec fn next_stored(db: DbView, x: Seq<u8>) -> Option<Seq<u8>> {
    match (first_from(db.cf(Cf::Lock), x), first_from(db.cf(Cf::Write), x)) {
        (None, None) => None,
        (Some(a), None) => Some(a),
        (None, Some(b)) => Some(b),
        (Some(a), Some(b)) => if lex_le(a, b) {
            Some(a)
        } else {
            Some(b)
        },
    }
}

/// What a reader at `ts` is shown of `key` in a scan: nothing where the key has no value.
pub open spec fn scan_item(db: DbView, key: Seq<u8>, ts: u64) -> Option<ScanItem> {
    match get(db, key, ts) {
        Ok(Some(v)) => Some(Ok((key, v))),
        Ok(None) => None,
        Err(e) => Some(Err(e)),
    }
}

/// The items behind `head`, or the error that ended the scan.
pub open spec fn behind(
    head: Seq<ScanItem>,
    rest: core::result::Result<Seq<ScanItem>, ErrorView>,
) -> core::result::Result<Seq<ScanItem>, ErrorView> {
    match rest {
        Ok(r) => Ok(head + r),
        Err(e) => Err(e),
    }
}

/// The keys of `m` that are not below `x`.
pub open spec fn keys_from(m: Map<Seq<u8>, Seq<u8>>, x: Seq<u8>) -> Set<Seq<u8>> {
    m.dom().filter(|k: Seq<u8>| lex_le(x, k))
}

/// The number of stored keys, not below `x`, of keys that are locked or were committed to.
pub open spec fn remaining(db: DbView, x: Seq<u8>) -> nat {
    keys_from(db.cf(Cf::Lock), x).len() + keys_from(db.cf(Cf::Write), x).len()
}

/// The column families hold what transactions write, and finitely much of it.
pub open spec fn scannable(db: DbView) -> bool {
    &&& mvcc_wf(db)
    &&& db.cf(Cf::Lock).dom().finite()
    &&& db.cf(Cf::Write).dom().finite()
}

/// What a scan from `from` shows a reader at `ts`: the keys that are locked or were
/// committed to, one after the other in the order of their stored keys, each with what the
/// reader is told of it, up to `limit` items. A stored key that is no encoded key ends the
/// scan with an error.
pub open spec fn scan(db: DbView, from: Seq<u8>, limit: nat, ts: u64) -> core::result::Result<
    Seq<ScanItem>,
    ErrorView,
>
    decreases remaining(db, encoded_bytes(from)),
    when scannable(db)
{
    if limit == 0 {
        Ok(Seq::<ScanItem>::empty())
    } else {
        match next_stored(db, encoded_bytes(from)) {
            None => Ok(Seq::<ScanItem>::empty()),
            Some(x) => match decoded_bytes(x) {
                Err(e) => Err(ErrorView::Codec(e)),
                Ok((user, used)) => {
                    proof {
                        lemma_scan_progress(db, from);
                    }
                    match scan_item(db, user, ts) {
                        Some(item) => behind(
                            seq![item],
                            scan(db, user.push(0u8), (limit - 1) as nat, ts),
                        ),
                        None => scan(db, user.push(0u8), limit, ts),
                    }
                },
            },
        }
    }
}

/// What `next_stored` finds: a stored key that is not below `x`, and not above any other
/// such of a key that is locked or was committed to.
pub proof fn lemma_next_stored_is_first(db: DbView, x: Seq<u8>)
    requires
        db.cf(Cf::Lock).dom().finite(),
        db.cf(Cf::Write).dom().finite(),
        next_stored(db, x) is Some,
    ensures
        lex_le(x, next_stored(db, x)->Some_0),
        db.cf(Cf::Lock).dom().contains(next_stored(db, x)->Some_0) || db.cf(
            Cf::Write,
        ).dom().contains(next_stored(db, x)->Some_0),
        forall|k: Seq<u8>|
            #[trigger] db.cf(Cf::Lock).dom().contains(k) && lex_le(x, k) ==> lex_le(
                next_stored(db, x)->Some_0,
                k,
            ),
        forall|k: Seq<u8>|
            #[trigger] db.cf(Cf::Write).dom().contains(k) && lex_le(x, k) ==> lex_le(
                next_stored(db, x)->Some_0,
                k,
            ),
{
    let lock = db.cf(Cf::Lock);
    let write = db.cf(Cf::Write);
    let a = first_from(lock, x);
    let b = first_from(write, x);
    let found = next_stored(db, x)->Some_0;
    if a is Some {
        assert(is_first_from(lock, x, a->Some_0));
    }
    if b is Some {
        assert(is_first_from(write, x, b->Some_0));
    }
    assert forall|k: Seq<u8>| #[trigger] lock.dom().contains(k) && lex_le(x, k) implies lex_le(
        found,
        k,
    ) by {
        lemma_first_exists(lock, x, k);
        if b is Some {
            lemma_lex_total(a->Some_0, b->Some_0);
        }
        lemma_le_transitive(found, a->Some_0, k);
    }
    assert forall|k: Seq<u8>| #[trigger] write.dom().contains(k) && lex_le(x, k) implies lex_le(
        found,
        k,
    ) by {
        lemma_first_exists(write, x, k);
        if a is Some {
            lemma_lex_total(a->Some_0, b->Some_0);
        }
        lemma_le_transitive(found, b->Some_0, k);
    }
}

proof fn lemma_le_transitive(a: Seq<u8>, b: Seq<u8>, c: Seq<u8>)
    requires
        lex_le(a, b),
        lex_le(b, c),
    ensures
        lex_le(a, c),
{
    if a != b && b != c {
        lemma_lex_transitive(a, b, c);
    }
}

/// Where `m` holds `k`, which is not below `x`, `first_from` finds a key.
proof fn lemma_first_exists(m: Map<Seq<u8>, Seq<u8>>, x: Seq<u8>, k: Seq<u8>)
    requires
        m.dom().finite(),
        m.dom().contains(k),
        lex_le(x, k),
    ensures
        first_from(m, x) is Some,
        is_first_from(m, x, first_from(m, x)->Some_0),
{
    if !exists|c: Seq<u8>| is_first_from(m, x, c) {
        lemma_no_first(m, x, k);
    }
}

/// The step of a scan: behind the key that it has found there are fewer stored keys than
/// from where it looked.
pub proof fn lemma_scan_progress(db: DbView, from: Seq<u8>)
    requires
        scannable(db),
        next_stored(db, encoded_bytes(from)) is Some,
        decoded_bytes(next_stored(db, encoded_bytes(from))->Some_0) is Ok,
    ensures
        remaining(
            db,
            encoded_bytes(
                decoded_bytes(next_stored(db, encoded_bytes(from))->Some_0)->Ok_0.0.push(0u8),
            ),
        ) < remaining(db, encoded_bytes(from)),
{
    let here = encoded_bytes(from);
    let x = next_stored(db, here)->Some_0;
    let user = decoded_bytes(x)->Ok_0.0;
    let next = user.push(0u8);
    let there = encoded_bytes(next);
    lemma_next_stored_is_first(db, here);
    lemma_decode_encode(x);
    let t = x.skip(decoded_bytes(x)->Ok_0.1);
    assert(x =~= encoded_bytes(user) + t);
    assert(next =~= user + seq![0u8]);
    lemma_lex_extension(user, seq![0u8]);
    lemma_encode_keeps_order(user, next);
    lemma_lex_append_both(encoded_bytes(user), there, t, Seq::<u8>::empty());
    assert(there + Seq::<u8>::empty() =~= there);
    assert(lex_lt(x, there));
    lemma_lex_total(x, there);
    let lock = db.cf(Cf::Lock);
    let write = db.cf(Cf::Write);
    lemma_keys_from_shrink(lock, here, there, x);
    lemma_keys_from_shrink(write, here, there, x);
}

proof fn lemma_keys_from_shrink(m: Map<Seq<u8>, Seq<u8>>, here: Seq<u8>, there: Seq<u8>, x: Seq<u8>)
    requires
        m.dom().finite(),
        lex_le(here, x),
        lex_lt(x, there),
    ensures
        keys_from(m, here).finite(),
        keys_from(m, there).len() <= keys_from(m, here).len(),
        m.dom().contains(x) ==> keys_from(m, there).len() < keys_from(m, here).len(),
{
    let big = keys_from(m, here);
    let small = keys_from(m, there);
    m.dom().lemma_len_filter(|k: Seq<u8>| lex_le(here, k));
    assert forall|k: Seq<u8>| small.contains(k) implies big.contains(k) && k != x by {
        lemma_lex_le_lt(x, there, k);
        lemma_lex_total(x, k);
        lemma_le_transitive(here, x, k);
    }
    if m.dom().contains(x) {
        assert(big.contains(x));
        assert(small.subset_of(big.remove(x)));
        vstd::set_lib::lemma_len_subset(small, big.remove(x));
        vstd::set::axiom_set_remove_len(big, x);
    } else {
        assert(small.subset_of(big));
        vstd::set_lib::lemma_len_subset(small, big);
    }
}

/// A finite set of keys with a key that is not below `x` has a first such key.
proof fn lemma_no_first(m: Map<Seq<u8>, Seq<u8>>, x: Seq<u8>, k: Seq<u8>)
    requires
        m.dom().contains(k),
        lex_le(x, k),
        !exists|c: Seq<u8>| is_first_from(m, x, c),
    ensures
        !m.dom().finite(),
{
    if m.dom().finite() {
        lemma_least_from(keys_from(m, x), m, x, k);
    }
}

proof fn lemma_least_from(s: Set<Seq<u8>>, m: Map<Seq<u8>, Seq<u8>>, x: Seq<u8>, k: Seq<u8>)
    requires
        s.finite(),
        s.contains(k),
        s.subset_of(keys_from(m, x)),
        forall|c: Seq<u8>| keys_from(m, x).contains(c) && !s.contains(c) ==> lex_le(k, c) || exists|
            d: Seq<u8>,
        | s.contains(d) && lex_le(d, c),
    ensures
        exists|c: Seq<u8>| is_first_from(m, x, c),
    decreases s.len(),
{
    // `k` is the first, or some key of `s` is below it: look among those
    if forall|c: Seq<u8>| s.contains(c) ==> lex_le(k, c) {
        assert forall|c: Seq<u8>| #[trigger] m.dom().contains(c) && lex_le(x, c) implies lex_le(
            k,
            c,
        ) by {
            assert(keys_from(m, x).contains(c));
            if !s.contains(c) && !lex_le(k, c) {
                let d = choose|d: Seq<u8>| s.contains(d) && lex_le(d, c);
                lemma_le_transitive(k, d, c);
            }
        }
        assert(keys_from(m, x).contains(k));
        assert(is_first_from(m, x, k));
    } else {
        let lower = choose|c: Seq<u8>| s.contains(c) && !lex_le(k, c);
        lemma_lex_total(k, lower);
        let rest = s.remove(k);
        vstd::set::axiom_set_remove_len(s, k);
        assert forall|c: Seq<u8>| keys_from(m, x).contains(c) && !rest.contains(c) implies lex_le(
            lower,
            c,
        ) || exists|d: Seq<u8>| rest.contains(d) && lex_le(d, c) by {
            if c == k {
            } else if lex_le(k, c) {
                lemma_le_transitive(lower, k, c);
            } else {
                let d = choose|d: Seq<u8>| s.contains(d) && lex_le(d, c);
                if d == k {
                    lemma_le_transitive(lower, k, c);
                } else {
                    assert(rest.contains(d));
                }
            }
        }
        lemma_least_from(rest, m, x, lower);
    }
}

/// The key that an item of a scan is about.
pub open spec fn item_key(item: ScanItem) -> Seq<u8> {
    match item {
        Ok((k, _)) => k,
        Err(ErrorView::Mvcc(crate::storage::mvcc::ErrorView::KeyIsLocked { key, .. })) => key,
        _ => Seq::<u8>::empty(),
    }
}

/// The key that a scan finds is not below the key from which it looks.
proof fn lemma_found_key(db: DbView, from: Seq<u8>)
    requires
        scannable(db),
        next_stored(db, encoded_bytes(from)) is Some,
        decoded_bytes(next_stored(db, encoded_bytes(from))->Some_0) is Ok,
    ensures
        lex_le(from, decoded_bytes(next_stored(db, encoded_bytes(from))->Some_0)->Ok_0.0),
{
    let x = next_stored(db, encoded_bytes(from))->Some_0;
    lemma_next_stored_is_first(db, encoded_bytes(from));
    let user = decoded_bytes(x)->Ok_0.0;
    let n = decoded_bytes(x)->Ok_0.1;
    lemma_decode_encode(x);
    let t = x.skip(n);
    assert(x =~= encoded_bytes(user) + t);
    lemma_lex_total(user, from);
    if lex_lt(user, from) {
        lemma_encode_keeps_order(user, from);
        lemma_lex_append_both(encoded_bytes(user), encoded_bytes(from), t, Seq::<u8>::empty());
        assert(encoded_bytes(from) + Seq::<u8>::empty() =~= encoded_bytes(from));
        lemma_lex_total(x, encoded_bytes(from));
    }
}

/// A scan shows each key once, from the lowest to the highest, none below the key it
/// starts from, and `limit` items at most.
pub proof fn lemma_scan_ascending(db: DbView, from: Seq<u8>, limit: nat, ts: u64)
    requires
        scannable(db),
    ensures
        scan(db, from, limit, ts) matches Ok(items) ==> {
            &&& items.len() <= limit
            &&& forall|i: int| 0 <= i < items.len() ==> lex_le(from, item_key(#[trigger] items[i]))
            &&& forall|i: int, j: int|
                0 <= i < j < items.len() ==> lex_lt(
                    item_key(#[trigger] items[i]),
                    item_key(#[trigger] items[j]),
                )
        },
    decreases remaining(db, encoded_bytes(from)),
{
    if limit == 0 {
    } else {
        match next_stored(db, encoded_bytes(from)) {
            None => {},
            Some(x) => match decoded_bytes(x) {
                Err(e) => {},
                Ok((user, used)) => {
                    lemma_found_key(db, from);
                    lemma_scan_progress(db, from);
                    let next = user.push(0u8);
                    assert(next =~= user + seq![0u8]);
                    lemma_lex_extension(user, seq![0u8]);
                    let item = scan_item(db, user, ts);
                    let less: nat = if item is Some {
                        (limit - 1) as nat
                    } else {
                        limit
                    };
                    lemma_scan_ascending(db, next, less, ts);
                    match scan(db, next, less, ts) {
                        Err(e) => {},
                        Ok(rest) => {
                            assert forall|i: int| 0 <= i < rest.len() implies lex_lt(
                                user,
                                item_key(#[trigger] rest[i]),
                            ) && lex_le(from, item_key(rest[i])) by {
                                lemma_lex_le_lt(user, next, item_key(rest[i]));
                                lemma_lex_le_lt(from, user, item_key(rest[i]));
                            }
                            if item is Some {
                                let items = seq![item->Some_0] + rest;
                                assert(item_key(item->Some_0) == user);
                                assert forall|i: int| 0 <= i < items.len() implies lex_le(
                                    from,
                                    item_key(#[trigger] items[i]),
                                ) by {
                                    if i > 0 {
                                        assert(items[i] == rest[i - 1]);
                                    }
                                }
                                assert forall|i: int, j: int|
                                    0 <= i < j < items.len() implies lex_lt(
                                    item_key(#[trigger] items[i]),
                                    item_key(#[trigger] items[j]),
                                ) by {
                                    assert(items[j] == rest[j - 1]);
                                    if i > 0 {
                                        assert(items[i] == rest[i - 1]);
                                    }
                                }
                            }
                        },
                    }
                },
            },
        }
    }
}

/// A stored key of `key`: that of its lock, or that of one of its commits.
pub open spec fn is_stored_of(db: DbView, key: Seq<u8>, y: Seq<u8>) -> bool {
    ||| y == encoded_bytes(key) && db.cf(Cf::Lock).dom().contains(y)
    ||| exists|c: u64|
        y == #[trigger] crate::storage::mvcc::versioned(encoded_bytes(key), c) && db.cf(
            Cf::Write,
        ).dom().contains(y)
}

/// A key of which a reader is told something is locked or was committed to.
proof fn lemma_item_is_stored(db: DbView, key: Seq<u8>, ts: u64) -> (y: Seq<u8>)
    requires
        scan_item(db, key, ts) is Some,
    ensures
        is_stored_of(db, key, y),
{
    if crate::storage::mvcc::blocked(db, key, ts) {
        encoded_bytes(key)
    } else {
        let c = choose|c: u64| crate::storage::mvcc::is_latest(db, key, ts, c);
        crate::storage::mvcc::versioned(encoded_bytes(key), c)
    }
}

/// What a scan finds when it looks from `from` is not above the stored keys of `key`, a
/// key that is not below `from`; and it is a stored key of `key` or of a key below it.
proof fn lemma_found_not_above(db: DbView, from: Seq<u8>, key: Seq<u8>, y: Seq<u8>)
    requires
        scannable(db),
        is_stored_of(db, key, y),
        lex_le(from, key),
    ensures
        next_stored(db, encoded_bytes(from)) is Some,
        decoded_bytes(next_stored(db, encoded_bytes(from))->Some_0) is Ok,
        lex_le(decoded_bytes(next_stored(db, encoded_bytes(from))->Some_0)->Ok_0.0, key),
{
    let here = encoded_bytes(from);
    crate::util::codec::lemma_encode_order(from, key);
    let tail = y.skip(encoded_bytes(key).len() as int);
    assert(y =~= encoded_bytes(key) + tail);
    assert(lex_le(here, y)) by {
        if tail.len() > 0 {
            lemma_lex_extension(encoded_bytes(key), tail);
            lemma_lex_le_lt(here, encoded_bytes(key), y);
        }
    }
    if db.cf(Cf::Lock).dom().contains(y) {
        lemma_first_exists(db.cf(Cf::Lock), here, y);
    } else {
        lemma_first_exists(db.cf(Cf::Write), here, y);
    }
    let x = next_stored(db, here)->Some_0;
    lemma_next_stored_is_first(db, here);
    assert(lex_le(x, y));
    let user = decoded_bytes(x)->Ok_0.0;
    lemma_decode_encode(x);
    let t = x.skip(decoded_bytes(x)->Ok_0.1);
    assert(x =~= encoded_bytes(user) + t);
    lemma_lex_total(user, key);
    if lex_lt(key, user) {
        lemma_encode_keeps_order(key, user);
        lemma_lex_append_both(encoded_bytes(key), encoded_bytes(user), tail, t);
        lemma_lex_total(x, y);
    }
}

/// A scan leaves nothing out. Where it shows fewer than `limit` items, it shows every key
/// from `from` on of which a reader is told something: the value that it has, or that it
/// is locked.
pub proof fn lemma_scan_complete(db: DbView, from: Seq<u8>, limit: nat, ts: u64, key: Seq<u8>)
    requires
        scannable(db),
        scan(db, from, limit, ts) is Ok,
        scan(db, from, limit, ts)->Ok_0.len() < limit,
        lex_le(from, key),
        scan_item(db, key, ts) is Some,
    ensures
        scan(db, from, limit, ts)->Ok_0.contains(scan_item(db, key, ts)->Some_0),
    decreases remaining(db, encoded_bytes(from)),
{
    let y = lemma_item_is_stored(db, key, ts);
    lemma_found_not_above(db, from, key, y);
    let x = next_stored(db, encoded_bytes(from))->Some_0;
    let user = decoded_bytes(x)->Ok_0.0;
    lemma_scan_progress(db, from);
    let next = user.push(0u8);
    let item = scan_item(db, user, ts);
    let less: nat = if item is Some {
        (limit - 1) as nat
    } else {
        limit
    };
    let rest = scan(db, next, less, ts)->Ok_0;
    let wanted = scan_item(db, key, ts)->Some_0;
    if user == key {
        assert((seq![item->Some_0] + rest)[0] == wanted);
    } else {
        crate::util::order::lemma_lex_successor(user, key);
        lemma_scan_complete(db, next, less, ts, key);
        let i = choose|i: int| 0 <= i < rest.len() && rest[i] == wanted;
        if item is Some {
            assert((seq![item->Some_0] + rest)[i + 1] == wanted);
        }
    }
}

/// What each mutation asks for when its key is locked.
pub open spec fn prewrite_steps(
    db: DbView,
    ms: Seq<MutationView>,
    primary: Seq<u8>,
    ts: u64,
    ttl: u64,
) -> Seq<core::result::Result<Seq<BatchOpView>, crate::storage::mvcc::ErrorView>> {
    Seq::new(ms.len(), |i: int| prewrite_step(db, ms[i], primary, ts, ttl))
}

/// What each key asks for when it is committed.
pub open spec fn commit_steps(db: DbView, keys: Seq<Seq<u8>>, ts: u64, commit_ts: u64) -> Seq<
    core::result::Result<Seq<BatchOpView>, crate::storage::mvcc::ErrorView>,
> {
    Seq::new(keys.len(), |i: int| commit_step(db, keys[i], ts, commit_ts))
}

/// What each key asks for when it is given up.
pub open spec fn rollback_steps(db: DbView, keys: Seq<Seq<u8>>, ts: u64) -> Seq<
    core::result::Result<Seq<BatchOpView>, crate::storage::mvcc::ErrorView>,
> {
    Seq::new(keys.len(), |i: int| rollback_step(db, keys[i], ts))
}

/// The keys of the mutations.
pub open spec fn keys_of(ms: Seq<MutationView>) -> Seq<Seq<u8>> {
    Seq::new(ms.len(), |i: int| ms[i].key())
}

proof fn lemma_first_unique(m: Map<Seq<u8>, Seq<u8>>, x: Seq<u8>, k: Seq<u8>)
    requires
        is_first_from(m, x, k),
    ensures
        first_from(m, x) == Some(k),
{
    let c = choose|c: Seq<u8>| is_first_from(m, x, c);
    lemma_lex_total(c, k);
}

proof fn lemma_first_none(m: Map<Seq<u8>, Seq<u8>>, x: Seq<u8>)
    requires
        forall|k: Seq<u8>| #[trigger] m.dom().contains(k) ==> crate::util::order::lex_lt(k, x),
    ensures
        first_from(m, x) is None,
{
    if exists|k: Seq<u8>| is_first_from(m, x, k) {
        let c = choose|c: Seq<u8>| is_first_from(m, x, c);
        lemma_lex_total(c, x);
    }
}

/// The store.
pub struct TxnStore {
    engine: RocksEngine,
    shard_mutex: ShardMutex,
}

impl View for TxnStore {
    type V = DbView;

    closed spec fn view(&self) -> DbView {
        self.engine@
    }
}

impl TxnStore {
    /// The column families hold what transactions write, and no stripe is held.
    pub closed spec fn wf(&self) -> bool {
        &&& self.engine.wf()
        &&& mvcc_wf(self.engine@)
        &&& self.shard_mutex.wf()
        &&& self.shard_mutex.idle()
    }

    /// A store on `engine`.
    pub fn new(engine: RocksEngine) -> (r: TxnStore)
        requires
            engine.wf(),
            mvcc_wf(engine@),
        ensures
            r.wf(),
            r@ == engine@,
    {
        TxnStore { engine, shard_mutex: ShardMutex::new(SHARD_MUTEX_SIZE) }
    }

    /// A store on `engine`, if the engine holds what transactions write and nothing else
    /// where they write.
    pub fn open(engine: RocksEngine) -> (r: Option<TxnStore>)
        requires
            engine.wf(),
        ensures
            mvcc_wf(engine@) ==> (r matches Some(s) && s.wf() && s@ == engine@),
            !mvcc_wf(engine@) ==> r is None,
    {
        if crate::storage::mvcc::is_sound(engine.get_rocksdb()) {
            Some(TxnStore::new(engine))
        } else {
            None
        }
    }

    /// Reads `key` as of `start_ts`.
    pub fn get(&mut self, key: &[u8], start_ts: u64) -> (r: Result<Option<Value>>)
        requires
            old(self).wf(),
        ensures
            final(self).wf(),
            final(self)@ == old(self)@,
            answer_view(r) == get(old(self)@, key@, start_ts),
    {
        let keys: Vec<Key> = vec![copy_bytes(key)];
        let guard = self.shard_mutex.lock(keys.as_slice());
        let txn = MvccTxn::new(self.engine.get_rocksdb(), start_ts);
        let r = match txn.get(key) {
            Ok(v) => Ok(v),
            Err(e) => Err(Error::Mvcc(e)),
        };
        self.shard_mutex.unlock(guard);
        r
    }

    /// Reads each of `keys` as of `start_ts`.
    pub fn batch_get(&mut self, keys: &[Key], start_ts: u64) -> (r: Vec<Result<Option<Value>>>)
        requires
            old(self).wf(),
        ensures
            final(self).wf(),
            final(self)@ == old(self)@,
            r@.len() == keys@.len(),
            forall|i: int|
                0 <= i < keys@.len() ==> answer_view(#[trigger] r@[i]) == get(
                    old(self)@,
                    keys@[i]@,
                    start_ts,
                ),
    {
        let mut results: Vec<Result<Option<Value>>> = Vec::with_capacity(keys.len());
        let mut i: usize = 0;
        while i < keys.len()
            invariant
                i <= keys@.len(),
                self.wf(),
                self@ == old(self)@,
                results@.len() == i,
                forall|j: int|
                    0 <= j < i ==> answer_view(#[trigger] results@[j]) == get(
                        old(self)@,
                        keys@[j]@,
                        start_ts,
                    ),
            decreases keys@.len() - i,
        {
            let guard = self.shard_mutex.lock(keys);
            let txn = MvccTxn::new(self.engine.get_rocksdb(), start_ts);
            let r = match txn.get(keys[i].as_slice()) {
                Ok(v) => Ok(v),
                Err(e) => Err(Error::Mvcc(e)),
            };
            self.shard_mutex.unlock(guard);
            results.push(r);
            i += 1;
        }
        results
    }

    /// The first stored key, not below `x`, of a key that is locked or was committed to.
    fn seek_stored(&self, x: &[u8]) -> (r: Option<Vec<u8>>)
        requires
            self.wf(),
        ensures
            value_view(r) == next_stored(self@, x@),
    {
        let db = self.engine.get_rocksdb();
        let a = db.seek_cf(Cf::Lock, x);
        let b = db.seek_cf(Cf::Write, x);
        proof {
            if a is Some {
                lemma_first_unique(db@.cf(Cf::Lock), x@, a->Some_0.0@);
            } else {
                lemma_first_none(db@.cf(Cf::Lock), x@);
            }
            if b is Some {
                lemma_first_unique(db@.cf(Cf::Write), x@, b->Some_0.0@);
            } else {
                lemma_first_none(db@.cf(Cf::Write), x@);
            }
        }
        match (a, b) {
            (None, None) => None,
            (Some(p), None) => Some(p.0),
            (None, Some(q)) => Some(q.0),
            (Some(p), Some(q)) => if bytes_le(p.0.as_slice(), q.0.as_slice()) {
                Some(p.0)
            } else {
                Some(q.0)
            },
        }
    }

    /// Reads the keys from `key` on as of `start_ts`, up to `limit` of them that have a
    /// value or cannot be read.
    pub fn scan(&mut self, key: &[u8], limit: usize, start_ts: u64) -> (r: Result<
        Vec<Result<KvPair>>,
    >)
        requires
            old(self).wf(),
        ensures
            final(self).wf(),
            final(self)@ == old(self)@,
            scannable(old(self)@),
            match scan(old(self)@, key@, limit as nat, start_ts) {
                Ok(items) => r matches Ok(v) && items_view(v@) == items,
                Err(e) => r matches Err(x) && x@ == e,
            },
    {
        let mut results: Vec<Result<KvPair>> = Vec::new();
        let mut cur: Vec<u8> = copy_bytes(key);
        let ghost db = self@;
        proof {
            self.engine.lemma_finite(Cf::Lock);
            self.engine.lemma_finite(Cf::Write);
        }
        let ghost goal = scan(db, key@, limit as nat, start_ts);
        proof {
            assert(items_view(results@) =~= Seq::<ScanItem>::empty());
            match goal {
                Ok(r) => {
                    assert(items_view(results@) + r =~= r);
                },
                Err(e) => {},
            }
        }
        while results.len() < limit
            invariant
                self.wf(),
                self@ == db,
                db == old(self)@,
                scannable(db),
                results@.len() <= limit,
                goal == scan(db, key@, limit as nat, start_ts),
                goal == behind(
                    items_view(results@),
                    scan(db, cur@, (limit - results@.len()) as nat, start_ts),
                ),
            decreases remaining(db, encoded_bytes(cur@)),
        {
            let stored = match self.seek_stored(encode_bytes(cur.as_slice()).as_slice()) {
                Some(x) => x,
                None => {
                    proof {
                        assert(items_view(results@) + Seq::<ScanItem>::empty() =~= items_view(
                            results@,
                        ));
                    }
                    return Ok(results);
                },
            };
            let mut next_key: Vec<u8> = match decode_bytes(stored.as_slice()) {
                Ok((k, _)) => k,
                Err(e) => {
                    return Err(Error::Codec(e));
                },
            };
            let ghost user = next_key@;
            let ghost before = items_view(results@);
            let ghost rest = scan(
                db,
                user.push(0u8),
                if scan_item(db, user, start_ts) is Some {
                    (limit - results@.len() - 1) as nat
                } else {
                    (limit - results@.len()) as nat
                },
                start_ts,
            );
            proof {
                lemma_scan_progress(db, cur@);
            }
            let keys: Vec<Key> = vec![copy_bytes(next_key.as_slice())];
            let guard = self.shard_mutex.lock(keys.as_slice());
            let txn = MvccTxn::new(self.engine.get_rocksdb(), start_ts);
            let got = txn.get(next_key.as_slice());
            self.shard_mutex.unlock(guard);
            match got {
                Ok(Some(value)) => {
                    results.push(Ok((copy_bytes(next_key.as_slice()), value)));
                },
                Ok(None) => {},
                Err(e) => {
                    results.push(Err(Error::Mvcc(e)));
                },
            }
            proof {
                match scan_item(db, user, start_ts) {
                    Some(item) => {
                        assert(items_view(results@) =~= before.push(item));
                        match rest {
                            Ok(r) => {
                                assert(before + (seq![item] + r) =~= items_view(results@) + r);
                            },
                            Err(e) => {},
                        }
                    },
                    None => {
                        assert(items_view(results@) =~= before);
                    },
                }
            }
            next_key.push(0u8);
            cur = next_key;
        }
        proof {
            assert(items_view(results@) + Seq::<ScanItem>::empty() =~= items_view(results@));
        }
        Ok(results)
    }

    /// Ends an operation: writes what the transaction has gathered, if anything.
    fn submit(&mut self, mods: Vec<crate::storage::types::Modify>) -> (r: Result<()>)
        requires
            old(self).engine.wf(),
            mvcc_wf(old(self).engine@),
            old(self).shard_mutex.wf(),
            forall|i: int| 0 <= i < mods@.len() ==> crate::storage::mvcc::op_sound(
                #[trigger] modifies_view(mods@)[i],
            ),
        ensures
            r is Ok,
            final(self).engine.wf(),
            mvcc_wf(final(self).engine@),
            final(self).shard_mutex == old(self).shard_mutex,
            final(self)@ == old(self)@.apply_all(modifies_view(mods@)),
    {
        proof {
            lemma_apply_all_sound(self.engine@, modifies_view(mods@));
        }
        if mods.len() == 0 {
            return Ok(());
        }
        match self.engine.write(mods) {
            Ok(()) => Ok(()),
            Err(e) => Err(Error::Engine(e)),
        }
    }

    /// Locks the keys of `writes` for the transaction that starts at `start_ts`, with
    /// `primary` as the key that decides its fate. All keys are locked, or none where one
    /// of them cannot be. Returns the keys.
    pub fn prewrite(&mut self, writes: Vec<Mutation>, primary: Key, start_ts: u64) -> (r: Result<
        Vec<Key>,
    >)
        requires
            old(self).wf(),
        ensures
            final(self).wf(),
            match gather(
                prewrite_steps(
                    old(self)@,
                    mutations_view(writes@),
                    primary@,
                    start_ts,
                    DEFAULT_LOCK_TTL,
                ),
            ) {
                Ok(ops) => r matches Ok(keys) && keys_view(keys@) == keys_of(
                    mutations_view(writes@),
                ) && final(self)@ == old(self)@.apply_all(ops),
                Err(e) => r matches Err(x) && x@ == ErrorView::Mvcc(e) && final(self)@ == old(self)@,
            },
    {
        let ghost db = self@;
        let ghost ms = mutations_view(writes@);
        let ghost steps = prewrite_steps(db, ms, primary@, start_ts, DEFAULT_LOCK_TTL);
        let n: usize = writes.len();
        let mut locked_keys: Vec<Key> = Vec::with_capacity(n);
        let mut k: usize = 0;
        while k < n
            invariant
                k <= n,
                n == writes@.len(),
                ms == mutations_view(writes@),
                locked_keys@.len() == k,
                forall|j: int| 0 <= j < k ==> (#[trigger] locked_keys@[j])@ == ms[j].key(),
            decreases n - k,
        {
            assert(ms[k as int] == writes@[k as int]@);
            locked_keys.push(copy_bytes(writes[k].key().as_slice()));
            k += 1;
        }
        assert(keys_view(locked_keys@) =~= keys_of(ms));
        let guard = self.shard_mutex.lock(locked_keys.as_slice());
        let mut txn = MvccTxn::new(self.engine.get_rocksdb(), start_ts);
        let mut failure: Option<crate::storage::mvcc::Error> = None;
        let mut i: usize = 0;
        assert(steps.take(0) =~= Seq::empty());
        while i < n && failure.is_none()
            invariant
                i <= n,
                n == writes@.len(),
                ms == mutations_view(writes@),
                steps == prewrite_steps(db, ms, primary@, start_ts, DEFAULT_LOCK_TTL),
                txn.wf(),
                txn.snapshot() == db,
                txn.spec_start_ts() == start_ts,
                match failure {
                    Some(e) => gather(steps.take(i as int)) == Err::<
                        Seq<BatchOpView>,
                        crate::storage::mvcc::ErrorView,
                    >(e@),
                    None => gather(steps.take(i as int)) == Ok::<
                        Seq<BatchOpView>,
                        crate::storage::mvcc::ErrorView,
                    >(txn.modifies()),
                },
            decreases n - i, (if failure is None { 1int } else { 0int }),
        {
            proof {
                lemma_gather_next(steps, i as int);
                assert(ms[i as int] == writes@[i as int]@);
            }
            match txn.prewrite(&writes[i], primary.as_slice(), DEFAULT_LOCK_TTL) {
                Ok(()) => {},
                Err(e) => {
                    failure = Some(e);
                },
            }
            i += 1;
        }
        proof {
            if failure is Some {
                lemma_gather_fails(steps, i as int);
            } else {
                assert(steps.take(n as int) =~= steps);
            }
        }
        match failure {
            Some(e) => {
                self.shard_mutex.unlock(guard);
                Err(Error::Mvcc(e))
            },
            None => {
                let mods = txn.into_modifies();
                let r = self.submit(mods);
                self.shard_mutex.unlock(guard);
                match r {
                    Ok(()) => Ok(locked_keys),
                    Err(e) => Err(e),
                }
            },
        }
    }

    /// Commits `keys` at `commit_ts` for the transaction that started at `start_ts`. All
    /// keys are committed, or none where one of them cannot be.
    pub fn commit(&mut self, keys: Vec<Key>, start_ts: u64, commit_ts: u64) -> (r: Result<()>)
        requires
            old(self).wf(),
            start_ts < commit_ts,
        ensures
            final(self).wf(),
            match gather(commit_steps(old(self)@, keys_view(keys@), start_ts, commit_ts)) {
                Ok(ops) => r is Ok && final(self)@ == old(self)@.apply_all(ops),
                Err(e) => r matches Err(x) && x@ == ErrorView::Mvcc(e) && final(self)@ == old(self)@,
            },
    {
        let ghost db = self@;
        let ghost ks = keys_view(keys@);
        let ghost steps = commit_steps(db, ks, start_ts, commit_ts);
        let n: usize = keys.len();
        let guard = self.shard_mutex.lock(keys.as_slice());
        let mut txn = MvccTxn::new(self.engine.get_rocksdb(), start_ts);
        let mut failure: Option<crate::storage::mvcc::Error> = None;
        let mut i: usize = 0;
        assert(steps.take(0) =~= Seq::empty());
        while i < n && failure.is_none()
            invariant
                i <= n,
                n == keys@.len(),
                ks == keys_view(keys@),
                steps == commit_steps(db, ks, start_ts, commit_ts),
                start_ts < commit_ts,
                txn.wf(),
                txn.snapshot() == db,
                txn.spec_start_ts() == start_ts,
                match failure {
                    Some(e) => gather(steps.take(i as int)) == Err::<
                        Seq<BatchOpView>,
                        crate::storage::mvcc::ErrorView,
                    >(e@),
                    None => gather(steps.take(i as int)) == Ok::<
                        Seq<BatchOpView>,
                        crate::storage::mvcc::ErrorView,
                    >(txn.modifies()),
                },
            decreases n - i, (if failure is None { 1int } else { 0int }),
        {
            proof {
                lemma_gather_next(steps, i as int);
                assert(ks[i as int] == keys@[i as int]@);
            }
            match txn.commit(keys[i].as_slice(), commit_ts) {
                Ok(()) => {},
                Err(e) => {
                    failure = Some(e);
                },
            }
            i += 1;
        }
        proof {
            if failure is Some {
                lemma_gather_fails(steps, i as int);
            } else {
                assert(steps.take(n as int) =~= steps);
            }
        }
        match failure {
            Some(e) => {
                self.shard_mutex.unlock(guard);
                Err(Error::Mvcc(e))
            },
            None => {
                let mods = txn.into_modifies();
                let r = self.submit(mods);
                self.shard_mutex.unlock(guard);
                r
            },
        }
    }

    /// Gives up `keys` for the transaction that started at `start_ts`. All keys are given
    /// up, or none where one of them cannot be.
    pub fn rollback(&mut self, keys: Vec<Key>, start_ts: u64) -> (r: Result<()>)
        requires
            old(self).wf(),
        ensures
            final(self).wf(),
            match gather(rollback_steps(old(self)@, keys_view(keys@), start_ts)) {
                Ok(ops) => r is Ok && final(self)@ == old(self)@.apply_all(ops),
                Err(e) => r matches Err(x) && x@ == ErrorView::Mvcc(e) && final(self)@ == old(self)@,
            },
    {
        let ghost db = self@;
        let ghost ks = keys_view(keys@);
        let ghost steps = rollback_steps(db, ks, start_ts);
        let n: usize = keys.len();
        let guard = self.shard_mutex.lock(keys.as_slice());
        let mut txn = MvccTxn::new(self.engine.get_rocksdb(), start_ts);
        let mut failure: Option<crate::storage::mvcc::Error> = None;
        let mut i: usize = 0;
        assert(steps.take(0) =~= Seq::empty());
        while i < n && failure.is_none()
            invariant
                i <= n,
                n == keys@.len(),
                ks == keys_view(keys@),
                steps == rollback_steps(db, ks, start_ts),
                txn.wf(),
                txn.snapshot() == db,
                txn.spec_start_ts() == start_ts,
                match failure {
                    Some(e) => gather(steps.take(i as int)) == Err::<
                        Seq<BatchOpView>,
                        crate::storage::mvcc::ErrorView,
                    >(e@),
                    None => gather(steps.take(i as int)) == Ok::<
                        Seq<BatchOpView>,
                        crate::storage::mvcc::ErrorView,
                    >(txn.modifies()),
                },
            decreases n - i, (if failure is None { 1int } else { 0int }),
        {
            proof {
                lemma_gather_next(steps, i as int);
                assert(ks[i as int] == keys@[i as int]@);
            }
            match txn.rollback(keys[i].as_slice()) {
                Ok(()) => {},
                Err(e) => {
                    failure = Some(e);
                },
            }
            i += 1;
        }
        proof {
            if failure is Some {
                lemma_gather_fails(steps, i as int);
            } else {
                assert(steps.take(n as int) =~= steps);
            }
        }
        match failure {
            Some(e) => {
                self.shard_mutex.unlock(guard);
                Err(Error::Mvcc(e))
            },
            None => {
                let mods = txn.into_modifies();
                let r = self.submit(mods);
                self.shard_mutex.unlock(guard);
                r
            },
        }
    }
}

} // verus!
