use tikv::engine::db::{Cf, Db};
use tikv::raftstore::half::{
    bucket_limit_bytes, get_region_approximate_middle, get_region_approximate_middle_cf,
    middle_from_samples, middle_of_keys, HalfCheckObserver, BUCKET_NUMBER_LIMIT,
};
use tikv::raftstore::host::{AnyChecker, Host};
use tikv::raftstore::keys::{
    data_key, enc_end_key, enc_start_key, entries_of, origin_key, public_keys, CheckPolicy,
    KeyEntry, Peer, Region,
};
use tikv::raftstore::size::{
    get_approximate_split_keys, get_approximate_split_keys_cf, get_region_approximate_size,
    get_region_approximate_size_cf, region_samples, split_keys_from_keys,
    split_keys_from_samples, CfSamples, Checker, Error, SizeCheckObserver,
};
use tikv::raftserver::{check_key_in_region, other, Error as StoreError};
use tikv::util::codec::encode_bytes;

fn make_region(id: u64, start_key: Vec<u8>, end_key: Vec<u8>) -> Region {
    let mut region = Region::new();
    region.id = id;
    region.start_key = start_key;
    region.end_key = end_key;
    region.peers.push(Peer { id, store_id: id });
    region
}

/// Walks through the region as the split check does and returns the split keys.
fn scan_split_keys(db: &Db, region: &Region, host: &mut Host) -> Vec<Vec<u8>> {
    let start = enc_start_key(region);
    let end = enc_end_key(region);
    let pairs = db.scan_cf(Cf::Default, &start, &end);
    for e in entries_of(&pairs, Cf::Default) {
        if host.on_kv(&e) {
            break;
        }
    }
    host.split_keys()
}

fn run_size_check(db: &Db, region: &Region, observer: &SizeCheckObserver) -> Vec<Vec<u8>> {
    let start = enc_start_key(region);
    let end = enc_end_key(region);
    let size: u64 =
        db.scan_cf(Cf::Default, &start, &end).iter().map(|(k, v)| (k.len() + v.len()) as u64).sum();
    let mut host = Host::new(true);
    assert_eq!(observer.add_checker(region, &mut host, db, CheckPolicy::SCAN), Some(size));
    if host.skip() {
        return vec![];
    }
    assert_eq!(host.policy(), CheckPolicy::SCAN);
    scan_split_keys(db, region, &mut host)
}

fn put_keys(db: &mut Db, from: usize, to: usize) {
    for i in from..to {
        let s = data_key(format!("{:04}", i).as_bytes());
        db.put_cf(Cf::Default, &s, &s).unwrap();
    }
}

#[test]
fn size_test_split_check() {
    let mut db = Db::new(&[Cf::Default, Cf::Lock, Cf::Write, Cf::Raft]);
    let mut region = make_region(1, vec![], vec![]);
    region.region_epoch.version = 2;
    region.region_epoch.conf_ver = 5;
    let observer = SizeCheckObserver::new(100, 60, 5);

    // so split key will be [z0006]
    put_keys(&mut db, 0, 7);
    // size has not reached the max_size 100 yet.
    assert!(run_size_check(&db, &region, &observer).is_empty());

    put_keys(&mut db, 7, 11);
    assert_eq!(run_size_check(&db, &region, &observer), vec![b"0006".to_vec()]);

    // so split keys will be [z0006, z0012]
    put_keys(&mut db, 11, 19);
    assert_eq!(
        run_size_check(&db, &region, &observer),
        vec![b"0006".to_vec(), b"0012".to_vec()]
    );

    // for test batch_split_limit
    // so split kets will be [z0006, z0012, z0018, z0024, z0030]
    put_keys(&mut db, 19, 51);
    assert_eq!(
        run_size_check(&db, &region, &observer),
        vec![
            b"0006".to_vec(),
            b"0012".to_vec(),
            b"0018".to_vec(),
            b"0024".to_vec(),
            b"0030".to_vec(),
        ]
    );
}

#[test]
fn test_size_based_split_of_ten_keys() {
    let mut db = Db::new(&[Cf::Default, Cf::Write]);
    // ten pairs of ten bytes each: 100 bytes in all
    put_keys(&mut db, 0, 10);
    let region = make_region(1, vec![], vec![]);
    let observer = SizeCheckObserver::new(100, 60, 5);
    let keys = run_size_check(&db, &region, &observer);
    // exactly one split: once more than 60 bytes have gone by
    assert_eq!(keys, vec![b"0006".to_vec()]);
}

#[test]
fn test_checker_with_same_max_and_split_size() {
    let mut checker = Checker::new(24, 24, 1, CheckPolicy::SCAN);
    loop {
        let data = KeyEntry::new(b"zxxxx".to_vec(), 0, 4, Cf::Write);
        if checker.on_kv(&data) {
            break;
        }
    }

    assert!(!checker.split_keys().is_empty());
}

#[test]
fn test_checker_with_max_twice_bigger_than_split_size() {
    let mut checker = Checker::new(20, 10, 1, CheckPolicy::SCAN);
    for _ in 0..2 {
        let data = KeyEntry::new(b"zxxxx".to_vec(), 0, 5, Cf::Write);
        if checker.on_kv(&data) {
            break;
        }
    }

    assert!(!checker.split_keys().is_empty());
}

#[test]
fn test_checker_counts_sizes() {
    let mut checker = Checker::new(100, 25, 2, CheckPolicy::SCAN);
    let e = |k: &[u8]| KeyEntry::new(k.to_vec(), 0, 7, Cf::Default);
    // each pair has 3 + 7 = 10 bytes
    assert!(!checker.on_kv(&e(b"za1")));
    assert!(!checker.on_kv(&e(b"za2")));
    // 30 > 25: a split key, and the count starts over
    assert!(!checker.on_kv(&e(b"za3")));
    assert!(!checker.on_kv(&e(b"za4")));
    assert!(!checker.on_kv(&e(b"za5")));
    // the batch is full with the second key, but the rest is too small to end the scan
    assert!(!checker.on_kv(&e(b"za6")));
    for _ in 0..8 {
        assert!(!checker.on_kv(&e(b"zb")));
    }
    // 8 * 9 = 72 bytes have gone by, and 72 + 9 + 25 >= 100
    assert!(checker.on_kv(&e(b"zc")));
    assert_eq!(checker.policy(), CheckPolicy::SCAN);
    assert_eq!(checker.split_keys(), vec![b"a3".to_vec(), b"a6".to_vec()]);
    assert!(checker.split_keys().is_empty());
}

#[test]
fn test_size_observer_policy() {
    let observer = SizeCheckObserver::new(100, 60, 5);
    // a region of unknown size is checked
    let mut host = Host::new(true);
    observer.decide(&mut host, None, CheckPolicy::SCAN);
    assert!(!host.skip());
    assert_eq!(host.policy(), CheckPolicy::SCAN);
    // the engine cannot tell the size without the write column family
    let region = make_region(1, vec![], vec![]);
    let mut host = Host::new(true);
    let db = Db::new(&[Cf::Default]);
    assert_eq!(observer.add_checker(&region, &mut host, &db, CheckPolicy::SCAN), None);
    assert!(!host.skip());
    // a small region is not checked
    let mut host = Host::new(true);
    observer.decide(&mut host, Some(99), CheckPolicy::SCAN);
    assert!(host.skip());
    // a very large region is not walked through: 100 * 5 * 2 = 1000
    let mut host = Host::new(true);
    observer.decide(&mut host, Some(999), CheckPolicy::SCAN);
    assert_eq!(host.policy(), CheckPolicy::SCAN);
    let mut host = Host::new(true);
    observer.decide(&mut host, Some(1000), CheckPolicy::SCAN);
    assert_eq!(host.policy(), CheckPolicy::APPROXIMATE);
    // no overflow with the largest numbers
    let observer = SizeCheckObserver::new(u64::MAX, 60, u64::MAX);
    let mut host = Host::new(true);
    observer.decide(&mut host, Some(u64::MAX), CheckPolicy::SCAN);
    assert_eq!(host.policy(), CheckPolicy::SCAN);
}

fn samples(n: usize, entry_size: u64) -> CfSamples {
    let keys: Vec<Vec<u8>> = (0..n)
        .rev()
        .map(|i| data_key(&encode_bytes(format!("key_{:03}", i).as_bytes())))
        .collect();
    CfSamples { size: n as u64 * entry_size, keys, total_size: n as u64 * entry_size }
}

fn no_samples() -> CfSamples {
    CfSamples { size: 0, keys: vec![], total_size: 0 }
}

fn raw_keys(keys: Vec<Vec<u8>>) -> Vec<Vec<u8>> {
    keys.into_iter()
        .map(|k| tikv::util::codec::decode_bytes(origin_key(&k)).unwrap().0)
        .collect()
}

fn put_big_values(db: &mut Db, from: usize, to: usize) {
    let mut big_value = Vec::with_capacity(256);
    big_value.extend(std::iter::repeat(b'v').take(256));
    for i in from..to {
        let k = format!("key_{:03}", i).into_bytes();
        let k = data_key(&encode_bytes(&k));
        db.put_cf(Cf::Default, &k, &big_value).unwrap();
    }
}

#[test]
fn test_get_approximate_split_keys_error() {
    let engine = Db::new(&[Cf::Default, Cf::Write]);

    let region = make_region(1, vec![], vec![]);
    assert_eq!(get_approximate_split_keys(&engine, &region, 3, 5, 1).is_err(), true);
    assert_eq!(get_approximate_split_keys(&engine, &region, 3, 5, 1), Err(Error::EmptyCfs));

    // a column family with data of which the engine keeps no samples
    let unsampled = CfSamples { size: 100 * 265, keys: vec![], total_size: 0 };
    assert_eq!(split_keys_from_samples(unsampled, no_samples(), 3, 5, 1).is_err(), true);
    assert_eq!(split_keys_from_samples(no_samples(), no_samples(), 3, 5, 1), Err(Error::EmptyCfs));
    assert_eq!(split_keys_from_keys(vec![], 10, 3, 5, 1), Err(Error::Unexpected));
    assert_eq!(
        split_keys_from_keys(vec![b"a".to_vec(), b"b".to_vec()], 0, 3, 5, 1),
        Err(Error::Unexpected)
    );
    assert_eq!(
        split_keys_from_keys(vec![b"a".to_vec(), b"b".to_vec()], 10, 0, 5, 1),
        Err(Error::Unexpected)
    );
    assert_eq!(split_keys_from_keys(vec![b"a".to_vec()], 0, 0, 5, 1), Ok(vec![]));

    // an engine without the write column family cannot tell
    let engine = Db::new(&[]);
    assert_eq!(
        get_approximate_split_keys(&engine, &region, 3, 5, 1),
        Err(Error::Engine(tikv::engine::db::Error::CfNotFound(Cf::Write)))
    );
    assert_eq!(
        get_approximate_split_keys_cf(&engine, Cf::Lock, &region, 3, 5, 1),
        Err(Error::Engine(tikv::engine::db::Error::CfNotFound(Cf::Lock)))
    );
}

#[test]
fn test_get_approximate_split_keys() {
    let mut engine = Db::new(&[Cf::Default, Cf::Write]);

    // total size for one key and value
    const ENTRY_SIZE: u64 = 256 + 10;

    put_big_values(&mut engine, 0, 4);
    let region = make_region(1, vec![], vec![]);
    let split_keys = raw_keys(
        get_approximate_split_keys(&engine, &region, 3 * ENTRY_SIZE, 5 * ENTRY_SIZE, 1).unwrap(),
    );

    assert_eq!(split_keys.is_empty(), true);

    put_big_values(&mut engine, 4, 5);
    let split_keys = raw_keys(
        get_approximate_split_keys(&engine, &region, 3 * ENTRY_SIZE, 5 * ENTRY_SIZE, 5).unwrap(),
    );

    assert_eq!(split_keys, vec![b"key_002".to_vec()]);

    put_big_values(&mut engine, 5, 10);
    let split_keys = raw_keys(
        get_approximate_split_keys(&engine, &region, 3 * ENTRY_SIZE, 5 * ENTRY_SIZE, 5).unwrap(),
    );

    assert_eq!(split_keys, vec![b"key_002".to_vec(), b"key_005".to_vec()]);

    put_big_values(&mut engine, 10, 20);
    let split_keys = raw_keys(
        get_approximate_split_keys(&engine, &region, 3 * ENTRY_SIZE, 5 * ENTRY_SIZE, 5).unwrap(),
    );

    assert_eq!(
        split_keys,
        vec![
            b"key_002".to_vec(),
            b"key_005".to_vec(),
            b"key_008".to_vec(),
            b"key_011".to_vec(),
            b"key_014".to_vec(),
        ]
    );
    let mut checker = Checker::new(5 * ENTRY_SIZE, 3 * ENTRY_SIZE, 5, CheckPolicy::APPROXIMATE);
    let public: Vec<Vec<u8>> = checker
        .approximate_split_keys(&region, &engine)
        .unwrap()
        .into_iter()
        .map(|k| tikv::util::codec::decode_bytes(&k).unwrap().0)
        .collect();
    assert_eq!(public.len(), 5);
    assert_eq!(public[0], b"key_002".to_vec());
    assert_eq!(public_keys(vec![b"zab".to_vec(), b"ab".to_vec(), vec![]]), vec![
        b"ab".to_vec(),
        b"ab".to_vec(),
        vec![]
    ]);
    let by_cf = raw_keys(
        get_approximate_split_keys_cf(
            &engine,
            Cf::Default,
            &region,
            3 * ENTRY_SIZE,
            5 * ENTRY_SIZE,
            2,
        )
        .unwrap(),
    );
    assert_eq!(by_cf, vec![b"key_002".to_vec(), b"key_005".to_vec()]);
}

#[test]
fn test_split_keys_from_samples() {
    const ENTRY_SIZE: u64 = 256 + 9;
    let keys = |n| {
        raw_keys(
            split_keys_from_samples(
                samples(n, ENTRY_SIZE),
                no_samples(),
                3 * ENTRY_SIZE,
                5 * ENTRY_SIZE,
                5,
            )
            .unwrap(),
        )
    };
    assert_eq!(keys(5), vec![b"key_002".to_vec()]);
    assert_eq!(keys(10), vec![b"key_002".to_vec(), b"key_005".to_vec()]);
    assert_eq!(keys(20).len(), 5);
}

#[test]
fn test_region_approximate_size() {
    let mut db = Db::new(&[Cf::Default, Cf::Write]);

    let cases = [("a", 1024), ("b", 2048), ("c", 4096)];
    let cf_size = 2 + 1024 + 2 + 2048 + 2 + 4096;
    for &(key, vlen) in &cases {
        for cfname in [Cf::Default, Cf::Write] {
            let k1 = data_key(key.as_bytes());
            let v1 = vec![0; vlen as usize];
            assert_eq!(k1.len(), 2);
            db.put_cf(cfname, &k1, &v1).unwrap();
        }
    }

    let region = make_region(1, vec![], vec![]);
    let size = get_region_approximate_size(&db, &region).unwrap();
    assert_eq!(size, cf_size * 2);
    for cfname in [Cf::Default, Cf::Write] {
        let size = get_region_approximate_size_cf(&db, cfname, &region).unwrap();
        assert_eq!(size, cf_size);
    }
    // the samples carry the size up to each key
    let offsets = db.approximate_range_offsets(Cf::Default, b"z", b"{").unwrap();
    assert_eq!(
        offsets,
        vec![(b"za".to_vec(), 1026), (b"zb".to_vec(), 3076), (b"zc".to_vec(), 7174)]
    );
    assert_eq!(db.approximate_range_size(Cf::Default, b"zb", b"zc"), Ok(2050));
}

#[test]
fn test_region_maybe_inaccurate_approximate_size() {
    let mut db = Db::new(&[Cf::Default, Cf::Write]);

    let mut cf_size = 0;
    for i in 0..100 {
        let k1 = data_key(format!("k1{}", i).as_bytes());
        let k2 = data_key(format!("k9{}", i).as_bytes());
        let v = vec![0; 4096];
        cf_size += k1.len() + k2.len() + v.len() * 2;
        db.put_cf(Cf::Default, &k1, &v).unwrap();
        db.put_cf(Cf::Default, &k2, &v).unwrap();
    }

    let region = make_region(1, vec![], vec![]);
    let size = get_region_approximate_size(&db, &region).unwrap();
    assert_eq!(size, cf_size as u64);

    let region = make_region(1, b"k2".to_vec(), b"k8".to_vec());
    let size = get_region_approximate_size(&db, &region).unwrap();
    assert_eq!(size, 0);
}

#[test]
fn test_region_samples_leave_out_the_start() {
    let mut db = Db::new(&[Cf::Default, Cf::Write]);
    for k in [&b"za"[..], b"zb", b"zc", b"zd"] {
        db.put_cf(Cf::Write, k, b"12345678").unwrap();
    }
    let region = make_region(1, b"b".to_vec(), b"d".to_vec());
    let s = region_samples(&db, Cf::Write, &region).unwrap();
    assert_eq!(s.size, 20);
    assert_eq!(s.total_size, 20);
    assert_eq!(s.keys, vec![b"zc".to_vec()]);
}

#[test]
fn test_split_keys_by_write_cf() {
    // the write column family is the larger one: it decides, for its part of the split size
    let default_cf = CfSamples { size: 100, keys: vec![b"zx".to_vec()], total_size: 100 };
    let write_cf = CfSamples {
        size: 300,
        keys: vec![b"zd".to_vec(), b"zb".to_vec(), b"zc".to_vec(), b"za".to_vec()],
        total_size: 300,
    };
    // part = 200 * 300 / 400 = 150; one sample stands for 75 bytes: every second is a split key
    let keys = split_keys_from_samples(default_cf, write_cf, 200, 100, 5).unwrap();
    assert_eq!(keys, vec![b"zb".to_vec(), b"zd".to_vec()]);
}

#[test]
fn half_test_split_check() {
    let mut db = Db::new(&[Cf::Default, Cf::Lock, Cf::Write, Cf::Raft]);
    let mut region = make_region(1, vec![], vec![]);
    region.region_epoch.version = 2;
    region.region_epoch.conf_ver = 5;
    let observer = HalfCheckObserver::new(BUCKET_NUMBER_LIMIT as u64);
    assert_eq!(observer.half_split_bucket_size, 1);

    // so split key will be z0005
    for i in 0..11 {
        let k = format!("{:04}", i).into_bytes();
        let k = data_key(&encode_bytes(&k));
        db.put_cf(Cf::Default, &k, &k).unwrap();
    }
    let split_key = encode_bytes(b"0005");

    let mut host = Host::new(false);
    observer.add_checker(&mut host, CheckPolicy::SCAN);
    assert_eq!(host.policy(), CheckPolicy::SCAN);
    assert_eq!(scan_split_keys(&db, &region, &mut host), vec![split_key.clone()]);

    let mut host = Host::new(false);
    observer.add_checker(&mut host, CheckPolicy::APPROXIMATE);
    assert_eq!(host.policy(), CheckPolicy::APPROXIMATE);
    let middle = get_region_approximate_middle(&db, &region).unwrap().unwrap();
    assert_eq!(origin_key(&middle).to_vec(), split_key);
    // the checker hands out the public form: the key without the prefix of stored keys
    let mut checker = tikv::raftstore::half::Checker::new(1, CheckPolicy::APPROXIMATE);
    let keys = checker.approximate_split_keys(&region, &db).unwrap();
    assert_eq!(keys, vec![split_key.clone()]);

    // a region that is checked of itself gets no half checker
    let mut host = Host::new(true);
    observer.add_checker(&mut host, CheckPolicy::SCAN);
    assert!(host.skip());
}

#[test]
fn test_get_region_approximate_middle_cf() {
    let mut engine = Db::new(&[Cf::Default, Cf::Write]);

    let mut big_value = Vec::with_capacity(256);
    big_value.extend(std::iter::repeat(b'v').take(256));
    for i in 0..100 {
        let k = format!("key_{:03}", i).into_bytes();
        let k = data_key(&encode_bytes(&k));
        engine.put_cf(Cf::Default, &k, &big_value).unwrap();
    }

    let mut region = Region::new();
    region.peers.push(Peer { id: 0, store_id: 0 });
    let middle_key =
        get_region_approximate_middle_cf(&engine, Cf::Default, &region).unwrap().unwrap();

    let middle_key = tikv::util::codec::decode_bytes(origin_key(&middle_key)).unwrap().0;
    assert_eq!(String::from_utf8(middle_key).unwrap(), "key_049");
}

#[test]
fn test_middle_of_keys() {
    let keys: Vec<Vec<u8>> = vec![b"d".to_vec(), b"a".to_vec(), b"c".to_vec(), b"b".to_vec()];
    // of four keys the left one of the two in the middle
    assert_eq!(middle_of_keys(keys), Some(b"b".to_vec()));
    assert_eq!(middle_of_keys(vec![b"x".to_vec()]), Some(b"x".to_vec()));
    assert_eq!(middle_of_keys(vec![]), None);
    let default_cf = CfSamples { size: 1, keys: vec![b"d1".to_vec()], total_size: 1 };
    let write_cf = CfSamples { size: 2, keys: vec![b"w1".to_vec()], total_size: 2 };
    assert_eq!(middle_from_samples(default_cf, write_cf), Some(b"w1".to_vec()));
}

#[test]
fn test_half_bucket_size() {
    assert_eq!(HalfCheckObserver::new(0).half_split_bucket_size, 1);
    assert_eq!(HalfCheckObserver::new(1023).half_split_bucket_size, 1);
    assert_eq!(HalfCheckObserver::new(4096).half_split_bucket_size, 4);
    assert_eq!(bucket_limit_bytes(), 512 * 1024 * 1024);
    assert_eq!(HalfCheckObserver::new(u64::MAX).half_split_bucket_size, 512 * 1024 * 1024);
}

#[test]
fn test_host_asks_in_order() {
    let mut host = Host::new(false);
    host.add_checker(AnyChecker::Half(tikv::raftstore::half::Checker::new(1, CheckPolicy::SCAN)));
    host.add_checker(AnyChecker::Size(Checker::new(20, 10, 1, CheckPolicy::SCAN)));
    for i in 0..5u8 {
        host.on_kv(&KeyEntry::new(vec![b'z', b'a' + i], 0, 9, Cf::Default));
    }
    // both have found a key: the checker that was added first is heard
    assert_eq!(host.split_keys(), vec![vec![b'c']]);
    // its bucket in the middle is gone and the last one stands in its place
    assert_eq!(host.split_keys(), vec![vec![b'e']]);
}

#[test]
fn test_region_keys() {
    assert_eq!(data_key(b"abc"), b"zabc".to_vec());
    assert_eq!(origin_key(b"zabc"), b"abc");
    let region = make_region(1, b"b".to_vec(), b"d".to_vec());
    assert_eq!(enc_start_key(&region), b"zb".to_vec());
    assert_eq!(enc_end_key(&region), b"zd".to_vec());
    let open = make_region(1, vec![], vec![]);
    assert_eq!(enc_start_key(&open), b"z".to_vec());
    assert_eq!(enc_end_key(&open), vec![b'z' + 1]);

    assert!(check_key_in_region(b"b", &region).is_ok());
    assert!(check_key_in_region(b"c\xff", &region).is_ok());
    assert!(check_key_in_region(b"a", &region).is_err());
    match check_key_in_region(b"d", &region) {
        Err(StoreError::KeyNotInRegion(k, r)) => {
            assert_eq!(k, b"d".to_vec());
            assert_eq!(r.id, 1);
            assert_eq!(r.end_key, b"d".to_vec());
        }
        o => panic!("expect KeyNotInRegion, but got {:?}", o),
    }
    assert!(check_key_in_region(b"zzz", &open).is_ok());
    match other("boom".to_string()) {
        StoreError::Other(s) => assert_eq!(s, "boom"),
        o => panic!("expect Other, but got {:?}", o),
    }
}
