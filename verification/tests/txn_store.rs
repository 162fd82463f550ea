use tikv::engine::db::Cf;
use tikv::storage::mvcc::Error as MvccError;
use tikv::storage::mvcc::{Lock, LockType, Write, WriteType};
use tikv::storage::rocksdb_engine::{RocksEngine, TestEngineBuilder};
use tikv::storage::store::{Error, TxnStore};
use tikv::storage::types::{Key, KvPair, Mutation};

fn new_store() -> TxnStore {
    let engine = TestEngineBuilder::new().build().unwrap();
    TxnStore::new(engine)
}

fn get_none(store: &mut TxnStore, key: &[u8], ts: u64) {
    assert_eq!(store.get(key, ts).unwrap(), None);
}

fn get_err(store: &mut TxnStore, key: &[u8], ts: u64) {
    assert!(store.get(key, ts).is_err());
}

fn get_ok(store: &mut TxnStore, key: &[u8], ts: u64, expect: &[u8]) {
    assert_eq!(store.get(key, ts).unwrap().unwrap(), expect);
}

fn put_ok(store: &mut TxnStore, key: &[u8], value: &[u8], start_ts: u64, commit_ts: u64) {
    store
        .prewrite(vec![Mutation::Put((key.to_vec(), value.to_vec()))], key.to_vec(), start_ts)
        .unwrap();
    store.commit(vec![key.to_vec()], start_ts, commit_ts).unwrap();
}

fn delete_ok(store: &mut TxnStore, key: &[u8], start_ts: u64, commit_ts: u64) {
    store.prewrite(vec![Mutation::Delete(key.to_vec())], key.to_vec(), start_ts).unwrap();
    store.commit(vec![key.to_vec()], start_ts, commit_ts).unwrap();
}

fn scan_ok(
    store: &mut TxnStore,
    start_key: &[u8],
    limit: usize,
    ts: u64,
    expect: Vec<Option<(&'static [u8], &'static [u8])>>,
) {
    let result = store.scan(start_key, limit, ts).unwrap();
    let result: Vec<Option<KvPair>> = result.into_iter().map(Result::ok).collect();
    let expect: Vec<Option<KvPair>> =
        expect.into_iter().map(|x| x.map(|(k, v)| (k.to_vec(), v.to_vec()))).collect();
    assert_eq!(result, expect);
}

#[test]
fn test_txn_store_get() {
    let mut store = new_store();

    // not exist
    get_none(&mut store, b"x", 10);
    // after put
    put_ok(&mut store, b"x", b"x", 5, 10);
    get_none(&mut store, b"x", 9);
    get_ok(&mut store, b"x", 10, b"x");
    get_ok(&mut store, b"x", 11, b"x");
}

#[test]
fn test_txn_store_delete() {
    let mut store = new_store();

    put_ok(&mut store, b"x", b"x5-10", 5, 10);
    delete_ok(&mut store, b"x", 15, 20);
    get_none(&mut store, b"x", 5);
    get_none(&mut store, b"x", 9);
    get_ok(&mut store, b"x", 10, b"x5-10");
    get_ok(&mut store, b"x", 19, b"x5-10");
    get_none(&mut store, b"x", 20);
    get_none(&mut store, b"x", 21);
}

fn check_v10(store: &mut TxnStore) {
    scan_ok(store, b"", 0, 10, vec![]);
    scan_ok(store, b"", 1, 10, vec![Some((b"A", b"A10"))]);
    scan_ok(store, b"", 2, 10, vec![Some((b"A", b"A10")), Some((b"C", b"C10"))]);
    scan_ok(
        store,
        b"",
        3,
        10,
        vec![Some((b"A", b"A10")), Some((b"C", b"C10")), Some((b"E", b"E10"))],
    );
    scan_ok(
        store,
        b"",
        4,
        10,
        vec![Some((b"A", b"A10")), Some((b"C", b"C10")), Some((b"E", b"E10"))],
    );
    scan_ok(
        store,
        b"A",
        3,
        10,
        vec![Some((b"A", b"A10")), Some((b"C", b"C10")), Some((b"E", b"E10"))],
    );
    scan_ok(store, b"A\x00", 3, 10, vec![Some((b"C", b"C10")), Some((b"E", b"E10"))]);
    scan_ok(store, b"C", 4, 10, vec![Some((b"C", b"C10")), Some((b"E", b"E10"))]);
    scan_ok(store, b"F", 1, 10, vec![]);
}

fn check_v20(store: &mut TxnStore) {
    scan_ok(
        store,
        b"",
        5,
        20,
        vec![
            Some((b"A", b"A10")),
            Some((b"B", b"B20")),
            Some((b"C", b"C10")),
            Some((b"D", b"D20")),
            Some((b"E", b"E10")),
        ],
    );
    scan_ok(
        store,
        b"C",
        5,
        20,
        vec![Some((b"C", b"C10")), Some((b"D", b"D20")), Some((b"E", b"E10"))],
    );
    scan_ok(store, b"D\x00", 1, 20, vec![Some((b"E", b"E10"))]);
}

fn check_v30(store: &mut TxnStore) {
    scan_ok(
        store,
        b"",
        5,
        30,
        vec![Some((b"B", b"B20")), Some((b"C", b"C10")), Some((b"E", b"E10"))],
    );
    scan_ok(store, b"A", 1, 30, vec![Some((b"B", b"B20"))]);
    scan_ok(store, b"C\x00", 5, 30, vec![Some((b"E", b"E10"))]);
}

fn check_v40(store: &mut TxnStore) {
    scan_ok(
        store,
        b"",
        5,
        40,
        vec![Some((b"C", b"C40")), Some((b"D", b"D40")), Some((b"E", b"E10"))],
    );
    scan_ok(
        store,
        b"",
        5,
        100,
        vec![Some((b"C", b"C40")), Some((b"D", b"D40")), Some((b"E", b"E10"))],
    );
}

#[test]
fn test_txn_store_scan() {
    let mut store = new_store();

    // ver10: A(10) - B(_) - C(10) - D(_) - E(10)
    put_ok(&mut store, b"A", b"A10", 5, 10);
    put_ok(&mut store, b"C", b"C10", 5, 10);
    put_ok(&mut store, b"E", b"E10", 5, 10);
    check_v10(&mut store);

    // ver20: A(10) - B(20) - C(10) - D(20) - E(10)
    put_ok(&mut store, b"B", b"B20", 15, 20);
    put_ok(&mut store, b"D", b"D20", 15, 20);
    check_v10(&mut store);
    check_v20(&mut store);

    // ver30: A(_) - B(20) - C(10) - D(_) - E(10)
    delete_ok(&mut store, b"A", 25, 30);
    delete_ok(&mut store, b"D", 25, 30);
    check_v10(&mut store);
    check_v20(&mut store);
    check_v30(&mut store);

    // ver40: A(_) - B(_) - C(40) - D(40) - E(10)
    delete_ok(&mut store, b"B", 35, 40);
    put_ok(&mut store, b"C", b"C40", 35, 40);
    put_ok(&mut store, b"D", b"D40", 35, 40);
    check_v10(&mut store);
    check_v20(&mut store);
    check_v30(&mut store);
    check_v40(&mut store);
}

#[test]
fn test_single_region_put_get() {
    let mut store = new_store();
    put_ok(&mut store, b"x", b"v", 5, 10);
    get_none(&mut store, b"x", 9);
    get_ok(&mut store, b"x", 10, b"v");
    get_ok(&mut store, b"x", 11, b"v");
}

#[test]
fn test_delete_visibility() {
    let mut store = new_store();
    put_ok(&mut store, b"x", b"v5", 5, 10);
    delete_ok(&mut store, b"x", 15, 20);
    get_ok(&mut store, b"x", 19, b"v5");
    get_none(&mut store, b"x", 20);
}

#[test]
fn test_prewrite_conflict() {
    let mut store = new_store();
    store.prewrite(vec![Mutation::Put((b"a".to_vec(), b"1".to_vec()))], b"a".to_vec(), 5).unwrap();
    let r = store.prewrite(vec![Mutation::Put((b"a".to_vec(), b"2".to_vec()))], b"a".to_vec(), 7);
    match r {
        Err(Error::Mvcc(MvccError::KeyIsLocked { key, primary, ts, ttl })) => {
            assert_eq!(key, b"a".to_vec());
            assert_eq!(primary, b"a".to_vec());
            assert_eq!(ts, 5);
            assert_eq!(ttl, 3000);
        }
        other => panic!("expect KeyIsLocked, but got {:?}", other),
    }
}

#[test]
fn test_read_blocked_by_lock() {
    let mut store = new_store();
    put_ok(&mut store, b"k", b"v1", 1, 2);
    store.prewrite(vec![Mutation::Put((b"k".to_vec(), b"v2".to_vec()))], b"k".to_vec(), 10).unwrap();
    // a reader before the lock is not held up
    get_ok(&mut store, b"k", 9, b"v1");
    // a reader at or after the start of the lock is
    get_err(&mut store, b"k", 10);
    get_err(&mut store, b"k", 11);
    assert!(matches!(
        store.get(b"k", 12),
        Err(Error::Mvcc(MvccError::KeyIsLocked { ts: 10, .. }))
    ));
    store.commit(vec![b"k".to_vec()], 10, 15).unwrap();
    get_ok(&mut store, b"k", 14, b"v1");
    get_ok(&mut store, b"k", 15, b"v2");
}

#[test]
fn test_write_conflict() {
    let mut store = new_store();
    put_ok(&mut store, b"k", b"v1", 5, 10);
    // somebody committed at or after our start
    let r = store.prewrite(vec![Mutation::Put((b"k".to_vec(), b"v2".to_vec()))], b"k".to_vec(), 8);
    assert!(matches!(r, Err(Error::Mvcc(MvccError::WriteConflict))));
    let r = store.prewrite(vec![Mutation::Put((b"k".to_vec(), b"v2".to_vec()))], b"k".to_vec(), 10);
    assert!(matches!(r, Err(Error::Mvcc(MvccError::WriteConflict))));
    store.prewrite(vec![Mutation::Put((b"k".to_vec(), b"v2".to_vec()))], b"k".to_vec(), 11).unwrap();
}

#[test]
fn test_commit_without_lock() {
    let mut store = new_store();
    let r = store.commit(vec![b"k".to_vec()], 5, 10);
    assert!(matches!(r, Err(Error::Mvcc(MvccError::TxnLockNotFound))));
    put_ok(&mut store, b"k", b"v", 5, 10);
    // committing again changes nothing and is no error
    store.commit(vec![b"k".to_vec()], 5, 10).unwrap();
    get_ok(&mut store, b"k", 10, b"v");
    // another transaction has no lock there
    let r = store.commit(vec![b"k".to_vec()], 6, 12);
    assert!(matches!(r, Err(Error::Mvcc(MvccError::TxnLockNotFound))));
}

#[test]
fn test_rollback() {
    let mut store = new_store();
    put_ok(&mut store, b"k", b"v1", 1, 2);
    store.prewrite(vec![Mutation::Put((b"k".to_vec(), b"v2".to_vec()))], b"k".to_vec(), 5).unwrap();
    get_err(&mut store, b"k", 6);
    store.rollback(vec![b"k".to_vec()], 5).unwrap();
    get_ok(&mut store, b"k", 6, b"v1");
    // the mark keeps the transaction from locking the key again
    let r = store.prewrite(vec![Mutation::Put((b"k".to_vec(), b"v2".to_vec()))], b"k".to_vec(), 5);
    assert!(matches!(r, Err(Error::Mvcc(MvccError::WriteConflict))));
    // and from committing
    let r = store.commit(vec![b"k".to_vec()], 5, 8);
    assert!(matches!(r, Err(Error::Mvcc(MvccError::TxnLockNotFound))));
    // what is committed cannot be given up
    let r = store.rollback(vec![b"k".to_vec()], 1);
    assert!(matches!(r, Err(Error::Mvcc(MvccError::Committed))));
    get_ok(&mut store, b"k", 6, b"v1");
}

#[test]
fn test_prewrite_is_all_or_nothing() {
    let mut store = new_store();
    store.prewrite(vec![Mutation::Lock(b"b".to_vec())], b"b".to_vec(), 3).unwrap();
    let r = store.prewrite(
        vec![
            Mutation::Put((b"a".to_vec(), b"1".to_vec())),
            Mutation::Put((b"b".to_vec(), b"2".to_vec())),
        ],
        b"a".to_vec(),
        7,
    );
    assert!(matches!(r, Err(Error::Mvcc(MvccError::KeyIsLocked { ts: 3, .. }))));
    // "a" was not locked
    get_none(&mut store, b"a", 100);
    let keys = store
        .prewrite(vec![Mutation::Put((b"a".to_vec(), b"1".to_vec()))], b"a".to_vec(), 8)
        .unwrap();
    assert_eq!(keys, vec![b"a".to_vec()]);
}

#[test]
fn test_batch_get() {
    let mut store = new_store();
    put_ok(&mut store, b"a", b"1", 1, 2);
    put_ok(&mut store, b"c", b"3", 3, 4);
    let keys: Vec<Key> = vec![b"a".to_vec(), b"b".to_vec(), b"c".to_vec()];
    let r = store.batch_get(&keys, 3);
    assert_eq!(r.len(), 3);
    assert_eq!(r[0].as_ref().unwrap(), &Some(b"1".to_vec()));
    assert_eq!(r[1].as_ref().unwrap(), &None);
    assert_eq!(r[2].as_ref().unwrap(), &None);
    let r = store.batch_get(&keys, 4);
    assert_eq!(r[2].as_ref().unwrap(), &Some(b"3".to_vec()));
}

#[test]
fn test_scan_shows_locked_keys() {
    let mut store = new_store();
    put_ok(&mut store, b"a", b"1", 1, 2);
    store.prewrite(vec![Mutation::Put((b"b".to_vec(), b"2".to_vec()))], b"b".to_vec(), 5).unwrap();
    put_ok(&mut store, b"c", b"3", 3, 4);
    let r = store.scan(b"", 10, 9).unwrap();
    assert_eq!(r.len(), 3);
    assert_eq!(r[0].as_ref().unwrap(), &(b"a".to_vec(), b"1".to_vec()));
    assert!(matches!(r[1], Err(Error::Mvcc(MvccError::KeyIsLocked { ts: 5, .. }))));
    assert_eq!(r[2].as_ref().unwrap(), &(b"c".to_vec(), b"3".to_vec()));
}

#[test]
fn test_engine_builder() {
    let engine: RocksEngine =
        TestEngineBuilder::new().path("somewhere").cfs(&[Cf::Lock, Cf::Write]).build().unwrap();
    let db = engine.get_rocksdb();
    assert!(db.has_cf(Cf::Default));
    assert!(db.has_cf(Cf::Lock));
    assert!(db.has_cf(Cf::Write));
    assert!(!db.has_cf(Cf::Raft));
}

#[test]
fn test_open_checks_the_engine() {
    // an empty engine is sound
    let engine = TestEngineBuilder::new().build().unwrap();
    assert!(TxnStore::open(engine).is_some());
    // an engine without the lock column family is not
    let engine = TestEngineBuilder::new().cfs(&[Cf::Write]).build().unwrap();
    assert!(TxnStore::open(engine).is_none());
    // what a store has written is sound
    let mut store = new_store();
    put_ok(&mut store, b"a", b"1", 1, 2);
    store.prewrite(vec![Mutation::Lock(b"b".to_vec())], b"b".to_vec(), 5).unwrap();
    store.rollback(vec![b"c".to_vec()], 7).unwrap();
    // bytes under a key of the lock column family that are no lock are not
    let mut engine = TestEngineBuilder::new().build().unwrap();
    engine
        .write(vec![tikv::storage::types::Modify::Put(Cf::Lock, b"k".to_vec(), b"junk".to_vec())])
        .unwrap();
    assert!(!tikv::storage::mvcc::is_sound(engine.get_rocksdb()));
    assert!(TxnStore::open(engine).is_none());
    // nor is a commit record that is not later than the start of its transaction
    let mut engine = TestEngineBuilder::new().build().unwrap();
    let mut key = tikv::util::codec::encode_bytes(b"k");
    key.extend(tikv::util::codec::encode_u64(5));
    let record = tikv::storage::mvcc::Write {
        write_type: tikv::storage::mvcc::WriteType::Put,
        start_ts: 5,
    };
    engine
        .write(vec![tikv::storage::types::Modify::Put(Cf::Write, key.clone(), record.to_bytes())])
        .unwrap();
    assert!(!tikv::storage::mvcc::is_sound(engine.get_rocksdb()));
    let mark = tikv::storage::mvcc::Write {
        write_type: tikv::storage::mvcc::WriteType::Rollback,
        start_ts: 5,
    };
    engine.write(vec![tikv::storage::types::Modify::Put(Cf::Write, key, mark.to_bytes())]).unwrap();
    assert!(tikv::storage::mvcc::is_sound(engine.get_rocksdb()));
}

#[test]
fn test_lock_and_write_records() {
    let lock = Lock { lock_type: LockType::Delete, primary: b"pk".to_vec(), ts: 258, ttl: 3 };
    let bytes = lock.to_bytes();
    assert_eq!(
        bytes,
        vec![b'D', 0, 0, 0, 0, 0, 0, 1, 2, 0, 0, 0, 0, 0, 0, 0, 3, b'p', b'k']
    );
    let back = Lock::parse(&bytes).unwrap();
    assert_eq!(back.lock_type, LockType::Delete);
    assert_eq!(back.primary, b"pk".to_vec());
    assert_eq!(back.ts, 258);
    assert_eq!(back.ttl, 3);
    assert!(Lock::parse(&bytes[..16]).is_none());
    assert!(Lock::parse(b"X0000000000000000").is_none());
    let w = Write { write_type: WriteType::Rollback, start_ts: 7 };
    assert_eq!(w.to_bytes(), vec![b'R', 0, 0, 0, 0, 0, 0, 0, 7]);
    assert_eq!(Write::parse(&w.to_bytes()), Some(w));
    assert_eq!(Write::parse(b"Pabcdefg"), None);
    assert_eq!(Write::parse(b"Z12345678"), None);
}
