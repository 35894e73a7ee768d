use bdb_rs::entry::Entry;
use bdb_rs::error::BdbError;
use bdb_rs::order::{bytes_eq, bytes_le};

#[test]
fn byte_order_is_lexicographic() {
    assert!(bytes_le(b"", b""));
    assert!(bytes_le(b"", b"a"));
    assert!(!bytes_le(b"a", b""));
    assert!(bytes_le(b"abc", b"abc"));
    assert!(bytes_le(b"ab", b"abc"));
    assert!(!bytes_le(b"abc", b"ab"));
    assert!(bytes_le(b"abc", b"abd"));
    assert!(!bytes_le(b"abd", b"abc"));
    assert!(bytes_le(b"a\xff", b"b"));
    assert!(bytes_le(b"m", b"p"));
    assert!(!bytes_le(b"t", b"p"));
}

#[test]
fn byte_order_agrees_with_slices() {
    let keys: [&[u8]; 8] = [b"", b"a", b"aa", b"ab", b"b", b"\x00", b"\xff", b"a\x00"];
    for a in keys {
        for b in keys {
            assert_eq!(bytes_le(a, b), a <= b);
            assert_eq!(bytes_eq(a, b), a == b);
        }
    }
}

#[test]
fn keydata_payload_ends_at_declared_length() {
    let buf: Vec<u8> = vec![6, 0, 1, b'b', b'b', b'b', 0xff];
    let entry = Entry::new_keydata(&buf).unwrap();
    assert_eq!(entry, Entry::KeyData { data: b"bbb" });
    assert_eq!(entry.data(), b"bbb");
}

#[test]
fn keydata_with_empty_payload() {
    let buf: Vec<u8> = vec![3, 0, 1, 9, 9];
    assert_eq!(Entry::new_keydata(&buf), Ok(Entry::KeyData { data: b"" }));
}

#[test]
fn keydata_that_fills_the_buffer() {
    let buf: Vec<u8> = vec![5, 0, 1, b'x', b'y'];
    assert_eq!(Entry::new_keydata(&buf), Ok(Entry::KeyData { data: b"xy" }));
}

#[test]
fn keydata_shorter_than_header_is_truncated() {
    assert_eq!(Entry::new_keydata(&[]), Err(BdbError::Truncated));
    assert_eq!(Entry::new_keydata(&[3, 0]), Err(BdbError::Truncated));
}

#[test]
fn keydata_with_wrong_marker_is_rejected() {
    assert_eq!(Entry::new_keydata(&[3, 0, 0]), Err(BdbError::BadRecordMarker));
    assert_eq!(Entry::new_keydata(&[4, 0, 2, b'a']), Err(BdbError::BadRecordMarker));
    // The marker is looked at before the length.
    assert_eq!(Entry::new_keydata(&[0xff, 0xff, 3]), Err(BdbError::BadRecordMarker));
}

#[test]
fn keydata_that_ends_outside_the_buffer_is_truncated() {
    assert_eq!(Entry::new_keydata(&[5, 0, 1, b'a']), Err(BdbError::Truncated));
    assert_eq!(Entry::new_keydata(&[0, 1, 1, b'a']), Err(BdbError::Truncated));
}

#[test]
fn keydata_that_ends_before_its_payload_is_truncated() {
    assert_eq!(Entry::new_keydata(&[2, 0, 1, b'a']), Err(BdbError::Truncated));
    assert_eq!(Entry::new_keydata(&[0, 0, 1]), Err(BdbError::Truncated));
}

#[test]
fn internal_record_fields() {
    let mut buf: Vec<u8> = vec![2, 0, 7, 0xee];
    buf.extend_from_slice(&0x0102_0304u32.to_le_bytes());
    buf.extend_from_slice(&99u32.to_le_bytes());
    buf.extend_from_slice(b"mn-and-more");
    let entry = Entry::new_internal(&buf).unwrap();
    assert_eq!(entry, Entry::Internal { ty: 7, pgno: 0x0102_0304, nrecs: 99, data: b"mn" });
    assert_eq!(entry.data(), b"mn");
}

#[test]
fn internal_record_with_empty_key() {
    let buf: Vec<u8> = vec![0, 0, 1, 0, 3, 0, 0, 0, 5, 0, 0, 0];
    assert_eq!(
        Entry::new_internal(&buf),
        Ok(Entry::Internal { ty: 1, pgno: 3, nrecs: 5, data: b"" })
    );
}

#[test]
fn internal_record_shorter_than_header_is_truncated() {
    assert_eq!(Entry::new_internal(&[0u8; 11]), Err(BdbError::Truncated));
    assert_eq!(Entry::new_internal(&[]), Err(BdbError::Truncated));
}

#[test]
fn internal_record_whose_key_ends_outside_is_truncated() {
    let mut buf: Vec<u8> = vec![3, 0, 1, 0, 3, 0, 0, 0, 5, 0, 0, 0];
    buf.extend_from_slice(b"ab");
    assert_eq!(Entry::new_internal(&buf), Err(BdbError::Truncated));
    buf.push(b'c');
    assert_eq!(
        Entry::new_internal(&buf),
        Ok(Entry::Internal { ty: 1, pgno: 3, nrecs: 5, data: b"abc" })
    );
}

#[test]
fn internal_record_with_longest_key_length_is_truncated() {
    let mut buf: Vec<u8> = vec![0xff, 0xff, 1, 0, 3, 0, 0, 0, 5, 0, 0, 0];
    buf.extend_from_slice(&[0u8; 100]);
    assert_eq!(Entry::new_internal(&buf), Err(BdbError::Truncated));
}
