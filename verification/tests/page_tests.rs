use bdb_rs::entry::Entry;
use bdb_rs::error::BdbError;
use bdb_rs::page::{Page, PageHeader};

const PAGE: usize = 4096;

fn put_u16(page: &mut [u8], at: usize, value: u16) {
    page[at..at + 2].copy_from_slice(&value.to_le_bytes());
}

fn put_u32(page: &mut [u8], at: usize, value: u32) {
    page[at..at + 4].copy_from_slice(&value.to_le_bytes());
}

/// A B-tree page that holds `records`, slot 0 at the end of the frame.
fn btree_page(pgno: u32, prev: u32, next: u32, level: u8, ty: u8, records: &[Vec<u8>]) -> Vec<u8> {
    let mut page = vec![0u8; PAGE];
    put_u32(&mut page, 8, pgno);
    put_u32(&mut page, 12, prev);
    put_u32(&mut page, 16, next);
    put_u16(&mut page, 20, records.len() as u16);
    page[24] = level;
    page[25] = ty;
    let mut end = PAGE;
    for (slot, record) in records.iter().enumerate() {
        let start = end - record.len();
        page[start..end].copy_from_slice(record);
        put_u16(&mut page, 26 + 2 * slot, start as u16);
        end = start;
    }
    put_u16(&mut page, 22, end as u16);
    page
}

/// A key/data record: the length field holds the offset at which the payload ends.
fn keydata(payload: &[u8]) -> Vec<u8> {
    let mut record = Vec::new();
    record.extend_from_slice(&((payload.len() + 3) as u16).to_le_bytes());
    record.push(1);
    record.extend_from_slice(payload);
    record
}

/// An internal record: the length field holds the length of the separator key.
fn internal(key: &[u8], child: u32, nrecs: u32) -> Vec<u8> {
    let mut record = Vec::new();
    record.extend_from_slice(&(key.len() as u16).to_le_bytes());
    record.push(1);
    record.push(0);
    record.extend_from_slice(&child.to_le_bytes());
    record.extend_from_slice(&nrecs.to_le_bytes());
    record.extend_from_slice(key);
    record
}

/// A leaf that holds the pairs `pairs`, each key followed by its value.
fn leaf_page(pgno: u32, prev: u32, next: u32, pairs: &[(&[u8], &[u8])]) -> Vec<u8> {
    let mut records = Vec::new();
    for (key, value) in pairs {
        records.push(keydata(key));
        records.push(keydata(value));
    }
    btree_page(pgno, prev, next, 1, 5, &records)
}

/// An internal page at `level` that holds one record for each of `children`.
fn internal_page(pgno: u32, level: u8, children: &[(&[u8], u32)]) -> Vec<u8> {
    let records: Vec<Vec<u8>> =
        children.iter().map(|(key, child)| internal(key, *child, 0)).collect();
    btree_page(pgno, 0, 0, level, 3, &records)
}

/// A frame that carries a distinct value in every field of the metadata page.
fn full_metadata_page() -> Vec<u8> {
    let mut page = vec![0u8; PAGE];
    page[0..8].copy_from_slice(&0x1122_3344_5566_7788u64.to_le_bytes());
    put_u32(&mut page, 8, 0);
    put_u32(&mut page, 12, 0x0005_3162);
    put_u32(&mut page, 16, 9);
    put_u32(&mut page, 20, 4096);
    page[24] = 1;
    page[25] = 9;
    page[26] = 2;
    put_u32(&mut page, 28, 17);
    put_u32(&mut page, 32, 18);
    put_u32(&mut page, 36, 19);
    put_u32(&mut page, 40, 20);
    put_u32(&mut page, 44, 21);
    put_u32(&mut page, 48, 22);
    for i in 0..20 {
        page[52 + i] = 0xa0 + i as u8;
    }
    put_u32(&mut page, 76, 23);
    put_u32(&mut page, 80, 24);
    put_u32(&mut page, 84, 25);
    put_u32(&mut page, 88, 26);
    put_u32(&mut page, 460, 27);
    for i in 0..16 {
        page[476 + i] = i as u8 + 1;
    }
    for i in 0..20 {
        page[492 + i] = 0xc0 + i as u8;
    }
    page
}

#[test]
fn metadata_header_fields() {
    let page = full_metadata_page();
    let uid: Vec<u8> = (0..20).map(|i| 0xa0 + i as u8).collect();
    let chksum: Vec<u8> = (0..20).map(|i| 0xc0 + i as u8).collect();
    let expected = PageHeader::Metadata {
        lsn: 0x1122_3344_5566_7788,
        pgno: 0,
        magic: 0x0005_3162,
        version: 9,
        datasize: 4096,
        ec: 1,
        ty: 9,
        mf: 2,
        free: 17,
        last_pgno: 18,
        nparts: 19,
        key_count: 20,
        record_count: 21,
        flags: 22,
        uid: &uid,
        minkey: 23,
        re_len: 24,
        re_pad: 25,
        root: 26,
        crypto_magic: 27,
        iv: 0x100f_0e0d_0c0b_0a09_0807_0605_0403_0201,
        chksum: &chksum,
    };
    assert_eq!(PageHeader::new(&page), Ok(expected));
    assert_eq!(PageHeader::new_metadata(&page), Ok(expected));
    assert!(expected.is_metadata());
    assert!(!expected.is_b_tree());
}

#[test]
fn btree_header_fields() {
    let mut page = vec![0u8; PAGE];
    page[0..8].copy_from_slice(&0x0102_0304_0506_0708u64.to_le_bytes());
    put_u32(&mut page, 8, 7);
    put_u32(&mut page, 12, 6);
    put_u32(&mut page, 16, 8);
    put_u16(&mut page, 20, 0x0203);
    put_u16(&mut page, 22, 0x0f00);
    page[24] = 1;
    page[25] = 5;
    let expected = PageHeader::BTree {
        lsn: 0x0102_0304_0506_0708,
        pgno: 7,
        prev_pgno: 6,
        next_pgno: 8,
        entries: 0x0203,
        hf_offset: 0x0f00,
        level: 1,
        ty: 5,
    };
    assert_eq!(PageHeader::new(&page), Ok(expected));
    assert_eq!(PageHeader::new_btree(&page), Ok(expected));
    assert!(expected.is_b_tree());
    assert!(!expected.is_metadata());
}

#[test]
fn magic_alone_decides_between_metadata_and_btree() {
    let mut page = full_metadata_page();
    assert!(PageHeader::new(&page).unwrap().is_metadata());
    // One byte of the magic off: the frame is read as a page of the tree,
    // whose previous-page field then holds those four bytes.
    page[12] = 0x63;
    page[25] = 5;
    match PageHeader::new(&page) {
        Ok(PageHeader::BTree { prev_pgno, .. }) => assert_eq!(prev_pgno, 0x0005_3163),
        other => panic!("{:?}", other),
    }
    // A metadata type byte without the magic makes no metadata page.
    page[25] = 9;
    assert!(PageHeader::new(&page).unwrap().is_b_tree());
    // With the magic the type byte is not looked at.
    page[12] = 0x62;
    page[25] = 0;
    assert!(PageHeader::new(&page).unwrap().is_metadata());
}

#[test]
fn magic_is_little_endian() {
    let mut page = leaf_page(1, 0, 0, &[]);
    page[12..16].copy_from_slice(&0x0005_3162u32.to_be_bytes());
    assert!(PageHeader::new(&page).unwrap().is_b_tree());
    page[12..16].copy_from_slice(&[0x62, 0x31, 0x05, 0x00]);
    assert!(PageHeader::new(&page).unwrap().is_metadata());
}

#[test]
fn btree_type_byte_must_be_known() {
    let mut page = leaf_page(1, 0, 0, &[]);
    for ty in 0..=255u8 {
        page[25] = ty;
        let decoded = PageHeader::new(&page);
        if ty == 9 || ty == 3 || ty == 5 {
            assert!(decoded.unwrap().is_b_tree());
            assert!(Page::new(&page).is_ok());
        } else {
            assert_eq!(decoded, Err(BdbError::BadMagicOrType));
            assert_eq!(PageHeader::new_btree(&page), Err(BdbError::BadMagicOrType));
            assert_eq!(Page::new(&page).err(), Some(BdbError::BadMagicOrType));
        }
    }
}

#[test]
fn short_frame_is_truncated() {
    let page = full_metadata_page();
    assert_eq!(PageHeader::new(&page[..4095]), Err(BdbError::Truncated));
    assert_eq!(PageHeader::new_metadata(&page[..4095]), Err(BdbError::Truncated));
    assert_eq!(PageHeader::new_btree(&page[..4095]), Err(BdbError::Truncated));
    assert_eq!(Page::new(&page[..4095]).err(), Some(BdbError::Truncated));
    assert_eq!(Page::new(&[]).err(), Some(BdbError::Truncated));
}

#[test]
fn page_keeps_the_first_frame_of_longer_data() {
    let mut data = leaf_page(1, 0, 0, &[(b"k", b"v")]);
    data.extend_from_slice(&[0xffu8; 50]);
    let page = Page::new(&data).unwrap();
    assert_eq!(page.data().len(), PAGE);
    assert_eq!(page.data(), &data[..PAGE]);
    assert_eq!(page.get_entry(0), Ok(Some(Entry::KeyData { data: b"k" })));
}

#[test]
fn page_header_is_that_of_its_frame() {
    let data = full_metadata_page();
    let page = Page::new(&data).unwrap();
    assert_eq!(Ok(*page.header()), PageHeader::new(&data));
}

#[test]
fn metadata_page_has_no_entries() {
    let data = full_metadata_page();
    let page = Page::new(&data).unwrap();
    assert_eq!(page.entry_count(), 0);
    assert_eq!(page.get_entry(0), Ok(None));
    assert_eq!(page.get_entry(7), Ok(None));
    assert_eq!(page.entries().next(), Ok(None));
}

#[test]
fn leaf_entries_by_slot() {
    let data = leaf_page(1, 0, 0, &[(b"bbb", b"BBB"), (b"ccc", b"CCCC")]);
    let page = Page::new(&data).unwrap();
    assert_eq!(page.entry_count(), 4);
    assert_eq!(page.get_entry(0), Ok(Some(Entry::KeyData { data: b"bbb" })));
    assert_eq!(page.get_entry(1), Ok(Some(Entry::KeyData { data: b"BBB" })));
    assert_eq!(page.get_entry(2), Ok(Some(Entry::KeyData { data: b"ccc" })));
    assert_eq!(page.get_entry(3), Ok(Some(Entry::KeyData { data: b"CCCC" })));
    assert_eq!(page.get_entry(4), Ok(None));
    assert_eq!(page.get_entry(usize::MAX), Ok(None));
}

#[test]
fn slot_offsets_run_backwards_from_the_end() {
    let data = leaf_page(1, 0, 0, &[(b"bbb", b"BBB"), (b"ccc", b"CCCC")]);
    let page = Page::new(&data).unwrap();
    assert_eq!(page.get_offset(0), Ok(4090));
    assert_eq!(page.get_offset(1), Ok(4084));
    assert_eq!(page.get_offset(2), Ok(4078));
    assert_eq!(page.get_offset(3), Ok(4071));
    let mut boundary = PAGE;
    for slot in 0..page.entry_count() {
        let offset = page.get_offset(slot).unwrap();
        assert!(offset < boundary);
        boundary = offset;
    }
}

#[test]
fn slot_outside_the_frame_is_truncated() {
    let data = leaf_page(1, 0, 0, &[]);
    let page = Page::new(&data).unwrap();
    assert_eq!(page.get_offset(2034), Ok(0));
    assert_eq!(page.get_offset(2035), Err(BdbError::Truncated));
    assert_eq!(page.get_offset(usize::MAX), Err(BdbError::Truncated));
}

#[test]
fn entry_whose_slot_lies_outside_the_frame_is_truncated() {
    let mut data = leaf_page(1, 0, 0, &[]);
    put_u16(&mut data, 20, 3000);
    let page = Page::new(&data).unwrap();
    assert_eq!(page.entry_count(), 3000);
    assert_eq!(page.get_entry(2035), Err(BdbError::Truncated));
    assert_eq!(page.get_entry(2999), Err(BdbError::Truncated));
    assert_eq!(page.get_entry(3000), Ok(None));
}

#[test]
fn entry_whose_offsets_do_not_decrease_is_truncated() {
    let mut data = leaf_page(1, 0, 0, &[(b"a", b"A")]);
    // Slot 1 starts behind the start of slot 0.
    put_u16(&mut data, 28, 4095);
    let page = Page::new(&data).unwrap();
    assert!(page.get_entry(0).is_ok());
    assert_eq!(page.get_entry(1), Err(BdbError::Truncated));
    // Slot 1 starts where slot 0 starts: its range is empty.
    let start = page.get_offset(0).unwrap();
    let mut data = data.clone();
    put_u16(&mut data, 28, start as u16);
    assert_eq!(Page::new(&data).unwrap().get_entry(1), Err(BdbError::Truncated));
}

#[test]
fn entry_whose_boundary_lies_outside_the_frame_is_truncated() {
    let mut data = leaf_page(1, 0, 0, &[(b"a", b"A")]);
    put_u16(&mut data, 26, 5000);
    let page = Page::new(&data).unwrap();
    assert_eq!(page.get_entry(0), Err(BdbError::Truncated));
    assert_eq!(page.get_entry(1), Err(BdbError::Truncated));
}

#[test]
fn entry_with_wrong_marker_on_leaf() {
    let mut data = leaf_page(1, 0, 0, &[(b"a", b"A")]);
    let page = Page::new(&data).unwrap();
    let at = page.get_offset(1).unwrap();
    data[at + 2] = 0;
    let page = Page::new(&data).unwrap();
    assert_eq!(page.get_entry(0), Ok(Some(Entry::KeyData { data: b"a" })));
    assert_eq!(page.get_entry(1), Err(BdbError::BadRecordMarker));
}

#[test]
fn internal_entries_by_slot() {
    let data = internal_page(1, 2, &[(b"m", 3), (b"t", 4)]);
    let page = Page::new(&data).unwrap();
    assert_eq!(page.entry_count(), 2);
    assert_eq!(
        page.get_entry(0),
        Ok(Some(Entry::Internal { ty: 1, pgno: 3, nrecs: 0, data: b"m" }))
    );
    assert_eq!(
        page.get_entry(1),
        Ok(Some(Entry::Internal { ty: 1, pgno: 4, nrecs: 0, data: b"t" }))
    );
    assert_eq!(page.get_entry(2), Ok(None));
}

#[test]
fn level_decides_how_records_are_read() {
    // A page at level 0 is no leaf: its records are read as internal records.
    let data = btree_page(1, 0, 0, 0, 5, &[internal(b"k", 9, 1)]);
    let page = Page::new(&data).unwrap();
    assert!(page.is_internal());
    assert_eq!(
        page.get_entry(0),
        Ok(Some(Entry::Internal { ty: 1, pgno: 9, nrecs: 1, data: b"k" }))
    );
    // At level 1 the type byte does not matter: the records are key/data.
    let data = btree_page(1, 0, 0, 1, 3, &[keydata(b"k")]);
    let page = Page::new(&data).unwrap();
    assert!(page.is_leaf());
    assert_eq!(page.get_entry(0), Ok(Some(Entry::KeyData { data: b"k" })));
}

#[test]
fn cursor_runs_over_all_entries() {
    let data = leaf_page(1, 0, 0, &[(b"a", b"A"), (b"b", b"B")]);
    let page = Page::new(&data).unwrap();
    let mut cursor = page.entries();
    assert_eq!(cursor.next(), Ok(Some(Entry::KeyData { data: b"a" })));
    assert_eq!(cursor.next(), Ok(Some(Entry::KeyData { data: b"A" })));
    assert_eq!(cursor.next(), Ok(Some(Entry::KeyData { data: b"b" })));
    assert_eq!(cursor.next(), Ok(Some(Entry::KeyData { data: b"B" })));
    assert_eq!(cursor.next(), Ok(None));
    assert_eq!(cursor.next(), Ok(None));
    // A second cursor starts over.
    assert_eq!(page.entries().next(), Ok(Some(Entry::KeyData { data: b"a" })));
}

#[test]
fn cursor_passes_over_a_record_that_fails() {
    let mut data = leaf_page(1, 0, 0, &[(b"a", b"A"), (b"b", b"B")]);
    let at = Page::new(&data).unwrap().get_offset(1).unwrap();
    data[at + 2] = 9;
    let page = Page::new(&data).unwrap();
    let mut cursor = page.entries();
    assert_eq!(cursor.next(), Ok(Some(Entry::KeyData { data: b"a" })));
    assert_eq!(cursor.next(), Err(BdbError::BadRecordMarker));
    assert_eq!(cursor.next(), Ok(Some(Entry::KeyData { data: b"b" })));
    assert_eq!(cursor.next(), Ok(Some(Entry::KeyData { data: b"B" })));
    assert_eq!(cursor.next(), Ok(None));
}

#[test]
fn kinds_of_pages() {
    let meta = full_metadata_page();
    let meta = Page::new(&meta).unwrap();
    assert!(meta.is_metadata() && !meta.is_leaf() && !meta.is_internal() && !meta.is_last_page());
    assert_eq!(meta.next_page_number(), None);

    let leaf = leaf_page(1, 0, 2, &[]);
    let leaf = Page::new(&leaf).unwrap();
    assert!(!leaf.is_metadata() && leaf.is_leaf() && !leaf.is_internal() && !leaf.is_last_page());
    assert_eq!(leaf.next_page_number(), Some(2));

    let last = leaf_page(2, 1, 0, &[]);
    let last = Page::new(&last).unwrap();
    assert!(last.is_leaf() && last.is_last_page());
    assert_eq!(last.next_page_number(), None);

    let inner = btree_page(3, 0, 0, 2, 3, &[]);
    let inner = Page::new(&inner).unwrap();
    assert!(!inner.is_metadata() && !inner.is_leaf() && inner.is_internal());
    assert!(!inner.is_last_page());
    assert_eq!(inner.next_page_number(), None);

    let linked = btree_page(3, 0, 9, 2, 3, &[]);
    let linked = Page::new(&linked).unwrap();
    assert!(linked.is_internal() && !linked.is_last_page());
    assert_eq!(linked.next_page_number(), Some(9));
}
