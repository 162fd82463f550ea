use tikv::util::codec::{decode_bytes, decode_u64, encode_bytes, encode_u64, Error};

#[test]
fn test_u64_big_endian() {
    assert_eq!(encode_u64(1), vec![0, 0, 0, 0, 0, 0, 0, 1]);
    assert_eq!(encode_u64(0x0102030405060708), vec![1, 2, 3, 4, 5, 6, 7, 8]);
    assert_eq!(decode_u64(&[0, 0, 0, 0, 0, 0, 1, 0]), Ok(256));
    assert_eq!(decode_u64(&[1, 2, 3]), Err(Error::KeyLength));
    assert_eq!(decode_u64(&encode_u64(u64::MAX)), Ok(u64::MAX));
}

#[test]
fn test_encode_bytes_groups() {
    assert_eq!(encode_bytes(b""), vec![0, 0, 0, 0, 0, 0, 0, 0, 247]);
    assert_eq!(encode_bytes(&[1, 2, 3]), vec![1, 2, 3, 0, 0, 0, 0, 0, 250]);
    assert_eq!(
        encode_bytes(&[1, 2, 3, 4, 5, 6, 7, 8]),
        vec![1, 2, 3, 4, 5, 6, 7, 8, 255, 0, 0, 0, 0, 0, 0, 0, 0, 247]
    );
    let (key, used) = decode_bytes(&encode_bytes(b"hello world")).unwrap();
    assert_eq!(key, b"hello world".to_vec());
    assert_eq!(used, 18);
    assert_eq!(decode_bytes(&[1, 2, 3]), Err(Error::KeyLength));
    assert_eq!(decode_bytes(&[1, 2, 3, 0, 0, 0, 0, 1, 250]), Err(Error::KeyPadding));
}

#[test]
fn test_encode_bytes_keeps_order() {
    let keys: Vec<&[u8]> = vec![b"", b"a", b"a\x00", b"ab", b"abcdefgh", b"abcdefgh\x00", b"b"];
    for i in 0..keys.len() {
        for j in 0..keys.len() {
            assert_eq!(keys[i] < keys[j], encode_bytes(keys[i]) < encode_bytes(keys[j]));
        }
    }
}
