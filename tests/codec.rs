use mmap_kv::codec::{CodecError, KV};
use mmap_kv::workload::{kv, record_for};

#[test]
fn test_kv() {
    let kv = kv();

    let mut buf = [0u8; 64];
    kv.write(&mut buf, 0).unwrap();

    let (r, _) = KV::read(&buf, 0).unwrap();
    assert_eq!(r, kv);
}

#[test]
fn write_lays_out_big_endian_header_then_fields() {
    let r = KV { key: b"ab".to_vec(), val: b"xyz".to_vec() };
    let mut buf = [0xeeu8; 16];
    let end = r.write(&mut buf, 1).unwrap();
    assert_eq!(end, 14);
    assert_eq!(
        buf,
        [0xee, 0, 0, 0, 2, 0, 0, 0, 3, b'a', b'b', b'x', b'y', b'z', 0xee, 0xee]
    );
}

#[test]
fn read_decodes_big_endian_lengths() {
    let buf = [0u8, 0, 0, 1, 0, 0, 0, 2, b'k', b'v', b'w', 9, 9];
    let (r, end) = KV::read(&buf, 0).unwrap();
    assert_eq!(r.key, b"k".to_vec());
    assert_eq!(r.val, b"vw".to_vec());
    assert_eq!(end, 11);
}

#[test]
fn round_trip_at_an_offset() {
    let r = KV { key: b"key=1700000000".to_vec(), val: b"val=1700000000".to_vec() };
    let mut buf = vec![7u8; 50];
    let end = r.write(&mut buf, 5).unwrap();
    assert_eq!(end, 5 + 36);
    let (back, p) = KV::read(&buf, 5).unwrap();
    assert_eq!(back, r);
    assert_eq!(p, end);
}

#[test]
fn encoding_twice_gives_the_same_bytes() {
    let r = record_for(42);
    let mut a = [1u8; 32];
    let mut b = [1u8; 32];
    r.write(&mut a, 0).unwrap();
    r.write(&mut b, 0).unwrap();
    assert_eq!(a, b);
}

#[test]
fn empty_fields_take_only_the_header() {
    let r = KV::default();
    let mut buf = [0xffu8; 8];
    assert_eq!(r.write(&mut buf, 0), Ok(8));
    assert_eq!(buf, [0u8; 8]);
    let (back, p) = KV::read(&buf, 0).unwrap();
    assert!(back.key.is_empty());
    assert!(back.val.is_empty());
    assert_eq!(p, 8);
}

#[test]
fn empty_key_with_value() {
    let r = KV { key: Vec::new(), val: b"v".to_vec() };
    let mut buf = [0u8; 9];
    assert_eq!(r.write(&mut buf, 0), Ok(9));
    assert_eq!(buf, [0, 0, 0, 0, 0, 0, 0, 1, b'v']);
    let (back, p) = KV::read(&buf, 0).unwrap();
    assert_eq!(back, r);
    assert_eq!(p, 9);
}

#[test]
fn zero_bytes_decode_as_an_empty_record() {
    let buf = [0u8; 20];
    let (r, p) = KV::read(&buf, 4).unwrap();
    assert_eq!(r, KV::default());
    assert_eq!(p, 12);
}

#[test]
fn out_of_space_writes_nothing() {
    let r = record_for(100);
    let mut buf = [9u8; 21];
    assert_eq!(r.write(&mut buf, 0), Err(CodecError::OutOfSpace));
    assert_eq!(buf, [9u8; 21]);
    let mut buf = [9u8; 30];
    assert_eq!(r.write(&mut buf, 9), Err(CodecError::OutOfSpace));
    assert_eq!(buf, [9u8; 30]);
    assert_eq!(r.write(&mut buf, 8), Ok(30));
}

#[test]
fn every_proper_prefix_is_truncated() {
    let r = record_for(100);
    let mut buf = [0u8; 22];
    r.write(&mut buf, 0).unwrap();
    for m in 0..22 {
        assert_eq!(KV::read(&buf[..m], 0), Err(CodecError::Truncated));
    }
    assert_eq!(KV::read(&buf, 0), Ok((r, 22)));
}

#[test]
fn truncated_header_and_truncated_body() {
    assert_eq!(KV::read(&[0u8, 0, 0], 0), Err(CodecError::Truncated));
    assert_eq!(KV::read(&[0u8, 0, 0, 0, 0, 0, 0], 0), Err(CodecError::Truncated));
    let buf = [0u8, 0, 0, 2, 0, 0, 0, 1, b'a', b'b'];
    assert_eq!(KV::read(&buf, 0), Err(CodecError::Truncated));
    let buf = [0xffu8, 0xff, 0xff, 0xff, 0xff, 0xff, 0xff, 0xff, 1];
    assert_eq!(KV::read(&buf, 0), Err(CodecError::Truncated));
    assert_eq!(KV::read(&[1u8, 2], 2), Err(CodecError::Truncated));
}

#[test]
fn encoded_len_is_header_plus_fields() {
    assert_eq!(record_for(100).encoded_len(), 22);
    assert_eq!(KV::default().encoded_len(), 8);
    assert_eq!(record_for(1_700_000_000).encoded_len(), 36);
}
