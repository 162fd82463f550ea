use tikv::engine::db::{cf_name, BatchOp, Cf, Db, Engines, Error, WriteBatch, WriteOptions};
use tikv::engine::event_listener::{tag_write_stall_condition, EventListener, WriteStallCondition};
use tikv::engine::ordered::OrderedKv;
use tikv::server::readpool::Config;
use tikv::storage::rocksdb_engine::{write_modifies, Error as KvError, TestEngineBuilder};
use tikv::storage::shard_mutex::ShardMutex;
use tikv::storage::types::Modify;
use tikv::util::config::ReadableSize;
use tikv::util::metrics::monitor_threads;

#[test]
fn test_ordered_kv() {
    let mut kv = OrderedKv::new();
    assert_eq!(kv.len(), 0);
    kv.put(b"b".to_vec(), b"2".to_vec());
    kv.put(b"a".to_vec(), b"1".to_vec());
    kv.put(b"c".to_vec(), b"3".to_vec());
    kv.put(b"b".to_vec(), b"22".to_vec());
    assert_eq!(kv.len(), 3);
    assert_eq!(kv.get(b"b"), Some(b"22".to_vec()));
    assert_eq!(kv.get(b"bb"), None);
    assert_eq!(kv.seek(b"aa"), Some((b"b".to_vec(), b"22".to_vec())));
    assert_eq!(kv.seek(b"b"), Some((b"b".to_vec(), b"22".to_vec())));
    assert_eq!(kv.seek(b"d"), None);
    assert_eq!(kv.seek_for_prev(b"b"), Some((b"b".to_vec(), b"22".to_vec())));
    assert_eq!(kv.seek_for_prev(b"bz"), Some((b"b".to_vec(), b"22".to_vec())));
    assert_eq!(kv.seek_for_prev(b""), None);
    assert_eq!(kv.seek_below(b"b"), Some((b"a".to_vec(), b"1".to_vec())));
    assert_eq!(kv.seek_below(b"a"), None);
    assert_eq!(
        kv.scan(b"a", b"c"),
        vec![(b"a".to_vec(), b"1".to_vec()), (b"b".to_vec(), b"22".to_vec())]
    );
    let snap = kv.snapshot();
    kv.delete(b"a");
    kv.delete(b"zz");
    assert_eq!(kv.get(b"a"), None);
    assert_eq!(snap.get(b"a"), Some(b"1".to_vec()));
    kv.put(b"d".to_vec(), b"4".to_vec());
    kv.delete_range(b"b", b"d");
    assert_eq!(kv.scan(b"", b"\xff"), vec![(b"d".to_vec(), b"4".to_vec())]);
}

#[test]
fn test_peekable() {
    let mut engine = Db::new(&[Cf::Write]);

    engine.put_cf(Cf::Default, b"k1", b"v1").unwrap();
    engine.put_cf(Cf::Write, b"k1", b"v2").unwrap();

    assert_eq!(&*engine.get(b"k1").unwrap(), b"v1");
    assert!(engine.get_cf(Cf::Lock, b"k1").is_err());
    assert_eq!(engine.get_cf(Cf::Lock, b"k1"), Err(Error::CfNotFound(Cf::Lock)));
    assert_eq!(&*engine.get_cf(Cf::Write, b"k1").unwrap().unwrap(), b"v2");
    assert_eq!(engine.put_cf(Cf::Raft, b"k", b"v"), Err(Error::CfNotFound(Cf::Raft)));
}

#[test]
fn test_scan() {
    let mut engine = Db::new(&[]);

    engine.put_cf(Cf::Default, b"a1", b"v1").unwrap();
    engine.put_cf(Cf::Default, b"a2", b"v2").unwrap();

    let data = engine.scan_cf(Cf::Default, b"", &[0xFF, 0xFF]);
    assert_eq!(data.len(), 2);
    let pair = engine.seek_cf(Cf::Default, b"a1").unwrap();
    assert_eq!(pair, (b"a1".to_vec(), b"v1".to_vec()));
    assert!(engine.seek_cf(Cf::Default, b"a3").is_none());

    let snap = engine.snapshot();

    engine.put_cf(Cf::Default, b"a3", b"v3").unwrap();
    assert!(engine.seek_cf(Cf::Default, b"a3").is_some());

    let pair = snap.seek_cf(Cf::Default, b"a1").unwrap();
    assert_eq!(pair, (b"a1".to_vec(), b"v1".to_vec()));
    assert!(snap.seek_cf(Cf::Default, b"a3").is_none());

    let data = snap.scan_cf(Cf::Default, b"", &[0xFF, 0xFF]);
    assert_eq!(data.len(), 2);
}

#[test]
fn test_write_batch_is_all_or_nothing() {
    let mut engines = Engines::new(Db::new(&[Cf::Lock]), Db::new(&[]));
    let mut wb = WriteBatch::new();
    assert!(wb.is_empty());
    wb.put(b"a", b"1");
    wb.put_cf(Cf::Lock, b"b", b"2");
    wb.delete(b"zz");
    assert_eq!(wb.count(), 3);
    engines.write_kv(&wb).unwrap();
    assert_eq!(engines.kv.get(b"a"), Some(b"1".to_vec()));
    assert_eq!(engines.kv.get_cf(Cf::Lock, b"b"), Ok(Some(b"2".to_vec())));
    assert_eq!(engines.raft.get(b"a"), None);

    // one change goes to a column family that is not there: nothing is written
    let mut wb = WriteBatch::new();
    wb.put(b"c", b"3");
    wb.put_cf(Cf::Write, b"d", b"4");
    wb.delete_cf(Cf::Raft, b"e");
    assert_eq!(engines.write_kv(&wb), Err(Error::CfNotFound(Cf::Write)));
    assert_eq!(engines.kv.get(b"c"), None);
    assert_eq!(engines.write_kv_opt(&wb, &WriteOptions { sync: true }), Err(Error::CfNotFound(Cf::Write)));

    let mut wb = WriteBatch::new();
    wb.put(b"x", b"1");
    wb.put(b"y", b"2");
    wb.delete_range_cf(Cf::Default, b"a", b"y");
    engines.write_raft(&wb).unwrap();
    assert_eq!(engines.raft.get(b"x"), None);
    assert_eq!(engines.raft.get(b"y"), Some(b"2".to_vec()));
    engines.write_raft_opt(&wb, &WriteOptions { sync: false }).unwrap();
    assert!(engines.sync_kv().is_ok());
    assert!(engines.sync_raft().is_ok());
    assert!(matches!(wb.ops[0], BatchOp::Put(Cf::Default, _, _)));
}

#[test]
fn test_write_modifies() {
    let engine = TestEngineBuilder::new().cfs(&[Cf::Lock]).build().unwrap();
    let mut engines = Engines::new(engine.snapshot(), Db::new(&[]));
    write_modifies(
        &mut engines,
        vec![
            Modify::Put(Cf::Default, b"a".to_vec(), b"1".to_vec()),
            Modify::Put(Cf::Lock, b"a".to_vec(), b"l".to_vec()),
            Modify::Put(Cf::Default, b"b".to_vec(), b"2".to_vec()),
            Modify::Delete(Cf::Default, b"a".to_vec()),
            Modify::DeleteRange(Cf::Lock, b"a".to_vec(), b"b".to_vec()),
        ],
    )
    .unwrap();
    assert_eq!(engines.kv.get(b"a"), None);
    assert_eq!(engines.kv.get(b"b"), Some(b"2".to_vec()));
    assert_eq!(engines.kv.get_cf(Cf::Lock, b"a"), Ok(None));
    let r = write_modifies(
        &mut engines,
        vec![
            Modify::Put(Cf::Default, b"c".to_vec(), b"3".to_vec()),
            Modify::Delete(Cf::Raft, b"a".to_vec()),
        ],
    );
    assert_eq!(r, Err(KvError::Engine(Error::CfNotFound(Cf::Raft))));
    assert_eq!(engines.kv.get(b"c"), None);

    let mut engine = TestEngineBuilder::new().build().unwrap();
    assert_eq!(engine.write(vec![]), Err(KvError::EmptyRequest));
    engine.write(vec![Modify::Put(Cf::Raft, b"r".to_vec(), b"1".to_vec())]).unwrap();
    assert_eq!(engine.get_rocksdb().get_cf(Cf::Raft, b"r"), Ok(Some(b"1".to_vec())));
    engine.stop();
}

#[test]
fn test_cf_names_and_tags() {
    assert_eq!(cf_name(Cf::Default), "default");
    assert_eq!(cf_name(Cf::Lock), "lock");
    assert_eq!(cf_name(Cf::Write), "write");
    assert_eq!(cf_name(Cf::Raft), "raft");
    assert_eq!(tag_write_stall_condition(WriteStallCondition::Normal), "normal");
    assert_eq!(tag_write_stall_condition(WriteStallCondition::Delayed), "delayed");
    assert_eq!(tag_write_stall_condition(WriteStallCondition::Stopped), "stopped");
    let l = EventListener::new("kv");
    assert_eq!(l.db_name(), "kv");
    assert_eq!(
        l.on_stall_conditions_changed(WriteStallCondition::Stopped, WriteStallCondition::Normal),
        ("stopped", "normal")
    );
    assert!(monitor_threads("tikv").is_ok());
}

#[test]
fn test_readpool_config() {
    let c = Config::default_with_concurrency(7);
    assert_eq!(c.high_concurrency, 7);
    assert_eq!(c.normal_concurrency, 7);
    assert_eq!(c.low_concurrency, 7);
    assert_eq!(c.max_tasks_per_worker_high, 2000);
    assert_eq!(c.max_tasks_per_worker_normal, 2000);
    assert_eq!(c.max_tasks_per_worker_low, 2000);
    assert_eq!(c.stack_size, ReadableSize(10 * 1024 * 1024));
    assert_eq!(Config::default_for_test(), Config::default_with_concurrency(2));
    assert_eq!(ReadableSize::kb(3).0, 3072);
    assert_eq!(ReadableSize::gb(2).0, 2 * 1024 * 1024 * 1024);
    assert_eq!(ReadableSize::mb(5).as_mb(), 5);
}

#[test]
fn test_shard_mutex_stripes() {
    let mut m = ShardMutex::new(256);
    // "a" is 97, "ab" is 97 * 31 + 98 = 3105 = 12 * 256 + 33
    assert_eq!(m.shard_index(b""), 0);
    assert_eq!(m.shard_index(b"a"), 97);
    assert_eq!(m.shard_index(b"ab"), 33);
    let keys = vec![b"ab".to_vec(), b"a".to_vec(), b"ab".to_vec(), b"".to_vec()];
    assert_eq!(m.stripes(&keys), vec![0, 33, 97]);
    let guard = m.lock(&keys);
    assert_eq!(guard, vec![0, 33, 97]);
    m.unlock(guard);
    assert_eq!(m.lock(&[b"a".to_vec()]), vec![97]);
}

#[test]
fn test_numbers_in_the_engine() {
    let mut engine = Db::new(&[]);
    let key = b"key";

    engine.put_i64(key, -1);
    assert_eq!(engine.get_i64(key).unwrap(), Some(-1));
    assert!(engine.get_i64(b"missing_key").unwrap().is_none());
    assert_eq!(engine.get(key), Some(vec![0xff; 8]));
    assert_eq!(engine.get_u64(key).unwrap(), Some(u64::MAX));

    let snap = engine.snapshot();
    assert_eq!(snap.get_i64(key).unwrap(), Some(-1));
    assert!(snap.get_i64(b"missing_key").unwrap().is_none());

    engine.put_u64(key, 1);
    assert_eq!(engine.get_u64(key).unwrap(), Some(1));
    assert_eq!(engine.get(key), Some(vec![0, 0, 0, 0, 0, 0, 0, 1]));
    assert_eq!(snap.get_i64(key).unwrap(), Some(-1));

    engine.put_i64(key, i64::MIN);
    assert_eq!(engine.get_i64(key).unwrap(), Some(i64::MIN));
    assert_eq!(engine.get_u64(key).unwrap(), Some(1 << 63));

    // a value that is no number
    engine.put_cf(Cf::Default, b"text", b"hello").unwrap();
    assert_eq!(engine.get_u64(b"text"), Err(Error::NotANumber(5)));
    assert_eq!(engine.get_i64(b"text"), Err(Error::NotANumber(5)));
    engine.del(key);
    assert_eq!(engine.get_u64(key), Ok(None));
    assert_eq!(tikv::engine::db::to_signed(u64::MAX - 1), -2);
    assert_eq!(tikv::engine::db::to_unsigned(-2), u64::MAX - 1);
}

#[test]
fn test_seek_backwards_in_a_column_family() {
    let mut db = Db::new(&[Cf::Write]);
    db.put_cf(Cf::Write, b"k1", b"v1").unwrap();
    db.put_cf(Cf::Write, b"k3", b"v3").unwrap();
    assert_eq!(db.seek_for_prev_cf(Cf::Write, b"k3"), Some((b"k3".to_vec(), b"v3".to_vec())));
    assert_eq!(db.seek_for_prev_cf(Cf::Write, b"k2"), Some((b"k1".to_vec(), b"v1".to_vec())));
    assert_eq!(db.seek_for_prev_cf(Cf::Write, b"k0"), None);
    assert_eq!(db.seek_below_cf(Cf::Write, b"k3"), Some((b"k1".to_vec(), b"v1".to_vec())));
    assert_eq!(db.seek_below_cf(Cf::Write, b"k9"), Some((b"k3".to_vec(), b"v3".to_vec())));
    assert_eq!(db.seek_below_cf(Cf::Write, b"k1"), None);
    // the default column family holds nothing of this
    assert_eq!(db.seek_for_prev_cf(Cf::Default, b"k9"), None);
}

#[test]
fn test_base() {
    let mut engine = Db::new(&[]);

    // a message is stored as its bytes; here the bytes of a region with the id 10
    let mut r: Vec<u8> = tikv::util::codec::encode_u64(10);

    let key = b"key";
    engine.put_cf(Cf::Default, key, &r).unwrap();

    let snap = engine.snapshot();

    let mut r1: Vec<u8> = engine.get(key).unwrap();
    assert_eq!(r, r1);

    let mut r2: Vec<u8> = snap.get(key).unwrap();
    assert_eq!(r, r2);

    r = tikv::util::codec::encode_u64(11);
    engine.put_cf(Cf::Default, key, &r).unwrap();
    r1 = engine.get(key).unwrap();
    r2 = snap.get(key).unwrap();
    assert!(r1 != r2);

    let b: Option<Vec<u8>> = engine.get(b"missing_key");
    assert!(b.is_none());

    engine.put_i64(key, -1);
    assert_eq!(engine.get_i64(key).unwrap(), Some(-1));
    assert!(engine.get_i64(b"missing_key").unwrap().is_none());

    let snap = engine.snapshot();
    assert_eq!(snap.get_i64(key).unwrap(), Some(-1));
    assert!(snap.get_i64(b"missing_key").unwrap().is_none());

    engine.put_u64(key, 1);
    assert_eq!(engine.get_u64(key).unwrap(), Some(1));
    assert_eq!(snap.get_i64(key).unwrap(), Some(-1));
}
