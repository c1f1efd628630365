use mmap_kv::codec::{CodecError, KV};
use mmap_kv::segment::{count_matches, read_records, write_records};
use mmap_kv::workload::{generate_records, millis, record_for};

fn digits_after(prefix: &[u8], s: &[u8]) -> bool {
    s.len() > prefix.len()
        && &s[..prefix.len()] == prefix
        && s[prefix.len()..].iter().all(|c| c.is_ascii_digit())
}

#[test]
fn four_records_of_stride_22_fill_88_bytes() {
    let written: Vec<KV> = (100..104).map(record_for).collect();
    assert_eq!(written[0].key, b"key=100".to_vec());
    assert_eq!(written[3].val, b"val=103".to_vec());
    for r in &written {
        assert_eq!(r.encoded_len(), 22);
    }
    let mut file = vec![0u8; 88];
    let wp = write_records(&written, &mut file).unwrap();
    let (read, rp) = read_records(&file, 4).unwrap();
    assert_eq!(wp, 88);
    assert_eq!(rp, 88);
    for r in &read {
        assert!(digits_after(b"key=", &r.key));
        assert!(digits_after(b"val=", &r.val));
    }
    let eq = count_matches(&read, &written);
    assert!(eq <= 4);
    assert_eq!(eq, 4);
}

#[test]
fn reader_ahead_of_writer_sees_empty_records() {
    let written: Vec<KV> = (100..104).map(record_for).collect();
    let file = vec![0u8; 88];
    let (read, rp) = read_records(&file, 4).unwrap();
    assert_eq!(rp, 32);
    assert_eq!(read.len(), 4);
    assert_eq!(count_matches(&read, &written), 0);
}

#[test]
fn partly_written_region_matches_a_prefix() {
    let written: Vec<KV> = (100..104).map(record_for).collect();
    let mut file = vec![0u8; 88];
    let first_two: Vec<KV> = (100..102).map(record_for).collect();
    write_records(&first_two, &mut file).unwrap();
    let (read, _) = read_records(&file, 4).unwrap();
    let eq = count_matches(&read, &written);
    assert!(eq <= 4);
    assert_eq!(eq, 2);
}

#[test]
fn writer_stops_at_the_record_that_does_not_fit() {
    let written: Vec<KV> = (100..104).map(record_for).collect();
    let mut file = vec![5u8; 80];
    assert_eq!(write_records(&written, &mut file), Err(CodecError::OutOfSpace));
    let (read, p) = read_records(&file[..66], 3).unwrap();
    assert_eq!(p, 66);
    assert_eq!(count_matches(&read, &written), 3);
    assert_eq!(&file[66..], &[5u8; 14][..]);
}

#[test]
fn reader_reports_truncation() {
    let written: Vec<KV> = (100..104).map(record_for).collect();
    let mut file = vec![0u8; 88];
    write_records(&written, &mut file).unwrap();
    assert_eq!(read_records(&file[..87], 4), Err(CodecError::Truncated));
    assert_eq!(read_records(&file[..87], 3).map(|(v, p)| (v.len(), p)), Ok((3, 66)));
    assert_eq!(read_records(&[], 0), Ok((Vec::new(), 0)));
}

#[test]
fn count_matches_compares_common_positions() {
    let a: Vec<KV> = (1..6).map(record_for).collect();
    let b: Vec<KV> = vec![record_for(1), record_for(9), record_for(3)];
    assert_eq!(count_matches(&a, &b), 2);
    assert_eq!(count_matches(&b, &a), 2);
    assert_eq!(count_matches(&a, &Vec::new()), 0);
    assert_eq!(count_matches(&a, &a), 5);
}

#[test]
fn record_for_writes_the_time_in_decimal() {
    let r = record_for(0);
    assert_eq!(r.key, b"key=0".to_vec());
    assert_eq!(r.val, b"val=0".to_vec());
    let r = record_for(1_700_000_009);
    assert_eq!(r.key, b"key=1700000009".to_vec());
    assert_eq!(r.val, b"val=1700000009".to_vec());
    let r = record_for(u64::MAX);
    assert_eq!(r.key, b"key=18446744073709551615".to_vec());
}

#[test]
fn generated_records_carry_the_clock() {
    let before = millis();
    let rs = generate_records(3);
    let after = millis();
    assert_eq!(rs.len(), 3);
    for r in &rs {
        assert!(digits_after(b"key=", &r.key));
        assert_eq!(r.key[4..], r.val[4..]);
        let t: u64 = String::from_utf8(r.key[4..].to_vec()).unwrap().parse().unwrap();
        assert!(before <= t && t <= after);
    }
    assert!(before > 1_000_000_000);
}
