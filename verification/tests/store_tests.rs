use bdb_rs::database::DB;
use bdb_rs::entry::Entry;
use bdb_rs::error::BdbError;
use bdb_rs::lookup::{find_child, find_root, find_value};
use bdb_rs::page::Page;
use bdb_rs::walk::{way_down, LoneRecord, Walk};

const PAGE: usize = 4096;

fn put_u16(page: &mut [u8], at: usize, value: u16) {
    page[at..at + 2].copy_from_slice(&value.to_le_bytes());
}

fn put_u32(page: &mut [u8], at: usize, value: u32) {
    page[at..at + 4].copy_from_slice(&value.to_le_bytes());
}

/// The metadata page of a file whose tree starts at `root`.
fn metadata_page(root: u32) -> Vec<u8> {
    let mut page = vec![0u8; PAGE];
    put_u32(&mut page, 12, 0x0005_3162);
    put_u32(&mut page, 16, 9);
    put_u32(&mut page, 20, PAGE as u32);
    page[25] = 9;
    put_u32(&mut page, 88, root);
    page
}

/// A B-tree page that holds `records`, slot 0 at the end of the frame.
fn btree_page(pgno: u32, prev: u32, next: u32, level: u8, ty: u8, records: &[Vec<u8>]) -> Vec<u8> {
    let mut page = vec![0u8; PAGE];
    put_u32(&mut page, 8, pgno);
    put_u32(&mut page, 12, prev);
    put_u32(&mut page, 16, next);
    put_u16(&mut page, 20, records.len() as u16);
    page[24] = level;
    page[25] = ty;
    let mut end = PAGE;
    for (slot, record) in records.iter().enumerate() {
        let start = end - record.len();
        page[start..end].copy_from_slice(record);
        put_u16(&mut page, 26 + 2 * slot, start as u16);
        end = start;
    }
    put_u16(&mut page, 22, end as u16);
    page
}

/// A key/data record: the length field holds the offset at which the payload ends.
fn keydata(payload: &[u8]) -> Vec<u8> {
    let mut record = Vec::new();
    record.extend_from_slice(&((payload.len() + 3) as u16).to_le_bytes());
    record.push(1);
    record.extend_from_slice(payload);
    record
}

/// An internal record: the length field holds the length of the separator key.
fn internal(key: &[u8], child: u32, nrecs: u32) -> Vec<u8> {
    let mut record = Vec::new();
    record.extend_from_slice(&(key.len() as u16).to_le_bytes());
    record.push(1);
    record.push(0);
    record.extend_from_slice(&child.to_le_bytes());
    record.extend_from_slice(&nrecs.to_le_bytes());
    record.extend_from_slice(key);
    record
}

/// A leaf that holds the pairs `pairs`, each key followed by its value.
fn leaf_page(pgno: u32, prev: u32, next: u32, pairs: &[(&[u8], &[u8])]) -> Vec<u8> {
    let mut records = Vec::new();
    for (key, value) in pairs {
        records.push(keydata(key));
        records.push(keydata(value));
    }
    btree_page(pgno, prev, next, 1, 5, &records)
}

/// An internal page at `level` that holds one record for each of `children`.
fn internal_page(pgno: u32, level: u8, children: &[(&[u8], u32)]) -> Vec<u8> {
    let records: Vec<Vec<u8>> =
        children.iter().map(|(key, child)| internal(key, *child, 0)).collect();
    btree_page(pgno, 0, 0, level, 3, &records)
}

fn file_of(pages: &[Vec<u8>]) -> Vec<u8> {
    pages.concat()
}

fn pair<'a>(key: &'a [u8], value: &'a [u8]) -> (Entry<'a>, Entry<'a>) {
    (Entry::KeyData { data: key }, Entry::KeyData { data: value })
}

/// Metadata, then two leaves linked as siblings; the root is the first leaf.
fn two_leaf_file() -> Vec<u8> {
    file_of(&[
        metadata_page(1),
        leaf_page(1, 0, 2, &[(b"bbb", b"BBB")]),
        leaf_page(2, 1, 0, &[(b"ccc", b"CCC")]),
    ])
}

/// Metadata, an internal root over two leaves, and a page outside the tree.
fn two_level_file() -> Vec<u8> {
    file_of(&[
        metadata_page(1),
        internal_page(1, 2, &[(b"m", 3), (b"t", 4)]),
        leaf_page(2, 0, 0, &[(b"p", b"outside")]),
        leaf_page(3, 0, 4, &[(b"m", b"M"), (b"p", b"P")]),
        leaf_page(4, 3, 0, &[(b"t", b"T"), (b"w", b"W")]),
    ])
}

#[test]
fn walk_follows_the_leaf_chain() {
    let db = DB::open(Some(two_leaf_file())).unwrap();
    let pairs = db.walk().unwrap();
    assert_eq!(pairs, vec![pair(b"bbb", b"BBB"), pair(b"ccc", b"CCC")]);
}

#[test]
fn lookup_in_root_leaf() {
    let db = DB::open(Some(two_leaf_file())).unwrap();
    assert_eq!(db.get(b"bbb"), Ok(Some(&b"BBB"[..])));
    assert_eq!(db.get(b"zzz"), Ok(None));
}

#[test]
fn lookup_does_not_follow_siblings() {
    // "ccc" is stored on the sibling of the root leaf, which no descent reaches.
    let db = DB::open(Some(two_leaf_file())).unwrap();
    assert_eq!(db.get(b"ccc"), Ok(None));
}

#[test]
fn lookup_descends_into_last_child_at_most_key() {
    let db = DB::open(Some(two_level_file())).unwrap();
    assert_eq!(db.get(b"p"), Ok(Some(&b"P"[..])));
    assert_eq!(db.get(b"m"), Ok(Some(&b"M"[..])));
    assert_eq!(db.get(b"t"), Ok(Some(&b"T"[..])));
    assert_eq!(db.get(b"w"), Ok(Some(&b"W"[..])));
    assert_eq!(db.get(b"q"), Ok(None));
}

#[test]
fn lookup_fails_before_first_separator() {
    let db = DB::open(Some(two_level_file())).unwrap();
    assert_eq!(db.get(b"a"), Ok(None));
}

#[test]
fn find_child_picks_last_separator_at_most_key() {
    let db = DB::open(Some(two_level_file())).unwrap();
    let root = db.page(1).unwrap().unwrap();
    assert_eq!(find_child(&root, b"p"), Ok(Some(3)));
    assert_eq!(find_child(&root, b"m"), Ok(Some(3)));
    assert_eq!(find_child(&root, b"t"), Ok(Some(4)));
    assert_eq!(find_child(&root, b"zz"), Ok(Some(4)));
    assert_eq!(find_child(&root, b"a"), Ok(None));
    assert_eq!(find_child(&root, b""), Ok(None));
}

#[test]
fn find_child_scans_every_record() {
    // The separators are out of order: the last one at most the key decides.
    let file = file_of(&[metadata_page(1), internal_page(1, 2, &[(b"t", 7), (b"m", 8)])]);
    let db = DB::open(Some(file)).unwrap();
    let root = db.page(1).unwrap().unwrap();
    assert_eq!(find_child(&root, b"p"), Ok(Some(8)));
    assert_eq!(find_child(&root, b"z"), Ok(Some(8)));
}

#[test]
fn walk_of_two_level_file_is_sorted() {
    let db = DB::open(Some(two_level_file())).unwrap();
    let pairs = db.walk().unwrap();
    assert_eq!(
        pairs,
        vec![pair(b"m", b"M"), pair(b"p", b"P"), pair(b"t", b"T"), pair(b"w", b"W")]
    );
}

#[test]
fn lookup_agrees_with_walk_on_well_formed_file() {
    let db = DB::open(Some(two_level_file())).unwrap();
    let pairs = db.walk().unwrap();
    for (key, value) in pairs.iter() {
        assert_eq!(db.get(key.data()), Ok(Some(value.data())));
    }
    for key in [&b"a"[..], b"n", b"s", b"u", b"x"] {
        assert!(pairs.iter().all(|(k, _)| k.data() != key));
        assert_eq!(db.get(key), Ok(None));
    }
}

#[test]
fn find_root_reads_first_metadata_page() {
    let file = file_of(&[leaf_page(0, 0, 0, &[]), metadata_page(7), metadata_page(9)]);
    assert_eq!(find_root(&DB::open(Some(file)).unwrap()), Ok(Some(7)));
}

#[test]
fn find_root_without_metadata_page() {
    let file = file_of(&[leaf_page(0, 0, 0, &[]), leaf_page(1, 0, 0, &[])]);
    let db = DB::open(Some(file)).unwrap();
    assert_eq!(find_root(&db), Ok(None));
    assert_eq!(db.get(b"k"), Ok(None));
}

#[test]
fn find_root_stops_at_undecodable_page() {
    let mut bad = leaf_page(0, 0, 0, &[]);
    bad[25] = 4;
    let db = DB::open(Some(file_of(&[bad, metadata_page(1)]))).unwrap();
    assert_eq!(find_root(&db), Err(BdbError::BadMagicOrType));
    assert_eq!(db.get(b"k"), Err(BdbError::BadMagicOrType));
}

#[test]
fn empty_file_has_no_pages() {
    let db = DB::open(Some(Vec::new())).unwrap();
    assert_eq!(db.page_count(), 0);
    assert!(db.pages().is_empty());
    assert!(db.raw_pages().is_empty());
    assert!(db.page(0).unwrap().is_none());
    assert_eq!(db.get(b"k"), Ok(None));
    assert_eq!(db.walk(), Err(BdbError::Truncated));
    db.close();
}

#[test]
fn trailing_short_frame_is_no_page() {
    let mut file = two_leaf_file();
    file.extend_from_slice(&[0u8; 100]);
    let db = DB::open(Some(file)).unwrap();
    assert_eq!(db.page_count(), 3);
    assert_eq!(db.pages().len(), 3);
    assert_eq!(db.raw_pages().len(), 3);
    assert!(db.page(2).unwrap().is_some());
    assert!(db.page(3).unwrap().is_none());
}

#[test]
fn raw_pages_are_the_frames() {
    let file = two_leaf_file();
    let db = DB::open(Some(file.clone())).unwrap();
    let frames = db.raw_pages();
    for (index, frame) in frames.iter().enumerate() {
        assert_eq!(*frame, &file[index * PAGE..(index + 1) * PAGE]);
    }
}

#[test]
fn pages_report_each_frame() {
    let mut bad = leaf_page(1, 0, 0, &[]);
    bad[25] = 0;
    let file = file_of(&[metadata_page(2), bad, leaf_page(2, 0, 0, &[])]);
    let db = DB::open(Some(file)).unwrap();
    let pages = db.pages();
    assert_eq!(pages.len(), 3);
    assert!(pages[0].as_ref().unwrap().is_metadata());
    assert_eq!(pages[1].as_ref().err(), Some(&BdbError::BadMagicOrType));
    assert!(pages[2].as_ref().unwrap().is_leaf());
    assert_eq!(db.page(1).err(), Some(BdbError::BadMagicOrType));
}

#[test]
fn lookup_of_missing_root_page_is_absent() {
    let db = DB::open(Some(file_of(&[metadata_page(5)]))).unwrap();
    assert_eq!(db.get(b"k"), Ok(None));
}

#[test]
fn walk_to_missing_page_is_truncated() {
    let db = DB::open(Some(file_of(&[metadata_page(5)]))).unwrap();
    assert_eq!(db.walk(), Err(BdbError::Truncated));
}

#[test]
fn lookup_in_cycle_of_internal_pages_fails() {
    let file = file_of(&[
        metadata_page(1),
        internal_page(1, 3, &[(b"", 2)]),
        internal_page(2, 2, &[(b"", 1)]),
    ]);
    let db = DB::open(Some(file)).unwrap();
    assert_eq!(db.get(b"k"), Err(BdbError::Cycle));
    assert_eq!(db.walk(), Err(BdbError::Cycle));
}

#[test]
fn walk_in_cycle_of_leaves_fails() {
    let file = file_of(&[
        metadata_page(1),
        leaf_page(1, 2, 2, &[(b"a", b"A")]),
        leaf_page(2, 1, 1, &[(b"b", b"B")]),
    ]);
    let db = DB::open(Some(file)).unwrap();
    assert_eq!(db.walk(), Err(BdbError::Cycle));
    assert_eq!(db.get(b"a"), Ok(Some(&b"A"[..])));
}

#[test]
fn metadata_root_pointing_at_itself_is_a_cycle() {
    let db = DB::open(Some(file_of(&[metadata_page(0)]))).unwrap();
    assert_eq!(db.walk(), Err(BdbError::Cycle));
    // The lookup reads the metadata page as a page without records.
    assert_eq!(db.get(b"k"), Ok(None));
}

#[test]
fn walk_passes_over_lone_record() {
    // Page 1 holds a pair and a third record without a partner.
    let odd = btree_page(1, 0, 2, 1, 5, &[keydata(b"a"), keydata(b"A"), keydata(b"b")]);
    let file = file_of(&[metadata_page(1), odd, leaf_page(2, 1, 0, &[(b"c", b"C")])]);
    let db = DB::open(Some(file)).unwrap();
    assert_eq!(db.walk().unwrap(), vec![pair(b"a", b"A"), pair(b"c", b"C")]);
}

#[test]
fn walk_ends_at_lone_record_without_sibling() {
    let odd = btree_page(1, 0, 0, 1, 5, &[keydata(b"a"), keydata(b"A"), keydata(b"b")]);
    let db = DB::open(Some(file_of(&[metadata_page(1), odd]))).unwrap();
    assert_eq!(db.walk().unwrap(), vec![pair(b"a", b"A")]);
}

#[test]
fn lookup_of_key_without_value_is_absent() {
    let odd = btree_page(1, 0, 0, 1, 5, &[keydata(b"a"), keydata(b"A"), keydata(b"b")]);
    let db = DB::open(Some(file_of(&[metadata_page(1), odd]))).unwrap();
    assert_eq!(db.get(b"b"), Ok(None));
    assert_eq!(db.get(b"a"), Ok(Some(&b"A"[..])));
}

#[test]
fn walk_skips_empty_leaves() {
    let file = file_of(&[
        metadata_page(1),
        leaf_page(1, 0, 2, &[]),
        leaf_page(2, 1, 3, &[(b"k", b"v")]),
        leaf_page(3, 2, 0, &[]),
    ]);
    let db = DB::open(Some(file)).unwrap();
    assert_eq!(db.walk().unwrap(), vec![pair(b"k", b"v")]);
}

#[test]
fn walker_steps_one_pair_at_a_time() {
    let file = two_level_file();
    let db = DB::open(Some(file)).unwrap();
    let mut walker = Walk::new(&db);
    assert!(walker.current_page().unwrap().is_metadata());
    assert_eq!(walker.move_to_leaf(), Ok(()));
    assert_eq!(walker.current_page().unwrap().data(), &two_level_file()[3 * PAGE..4 * PAGE]);
    assert_eq!(walker.next(), Ok(Some(pair(b"m", b"M"))));
    assert_eq!(walker.next(), Ok(Some(pair(b"p", b"P"))));
    assert_eq!(walker.next(), Ok(Some(pair(b"t", b"T"))));
    assert_eq!(walker.next(), Ok(Some(pair(b"w", b"W"))));
    assert_eq!(walker.next(), Ok(None));
    assert_eq!(walker.next(), Ok(None));
}

#[test]
fn walker_stays_where_a_step_fails() {
    let mut leaf = leaf_page(1, 0, 0, &[(b"a", b"A"), (b"b", b"B")]);
    // Break the marker of the value in slot 3.
    let at = u16::from_le_bytes([leaf[26 + 6], leaf[26 + 7]]) as usize;
    leaf[at + 2] = 2;
    let db = DB::open(Some(file_of(&[metadata_page(1), leaf]))).unwrap();
    let mut walker = Walk::new(&db);
    assert_eq!(walker.next(), Ok(Some(pair(b"a", b"A"))));
    assert_eq!(walker.next(), Err(BdbError::BadRecordMarker));
    assert_eq!(walker.next(), Err(BdbError::BadRecordMarker));
    assert_eq!(db.walk(), Err(BdbError::BadRecordMarker));
}

#[test]
fn way_down_of_each_kind_of_page() {
    let db = DB::open(Some(two_level_file())).unwrap();
    assert_eq!(way_down(&db.page(0).unwrap().unwrap()), Ok(Some(1)));
    assert_eq!(way_down(&db.page(1).unwrap().unwrap()), Ok(Some(3)));
    assert_eq!(way_down(&db.page(3).unwrap().unwrap()), Ok(None));
    let empty = Page::new(&internal_page(1, 2, &[])).map(|p| way_down(&p));
    assert_eq!(empty, Ok(Err(BdbError::Truncated)));
}

#[test]
fn find_value_stops_at_first_key_behind() {
    // The keys are out of order: the scan ends at "x" before it reaches "k".
    let page = leaf_page(1, 0, 0, &[(b"c", b"1"), (b"x", b"2"), (b"k", b"3")]);
    let page = Page::new(&page).unwrap();
    assert_eq!(find_value(&page, b"c"), Ok(Some(&b"1"[..])));
    assert_eq!(find_value(&page, b"x"), Ok(Some(&b"2"[..])));
    assert_eq!(find_value(&page, b"k"), Ok(None));
}

#[test]
fn find_value_returns_first_of_equal_keys() {
    let page = leaf_page(1, 0, 0, &[(b"k", b"1"), (b"k", b"2")]);
    let page = Page::new(&page).unwrap();
    assert_eq!(find_value(&page, b"k"), Ok(Some(&b"1"[..])));
}

#[test]
fn open_without_bytes_is_an_io_failure() {
    assert_eq!(DB::open(None).err(), Some(BdbError::IoFailure));
}

#[test]
fn open_looks_at_no_byte() {
    let db = DB::open(Some(vec![0xffu8; 3 * PAGE + 1])).unwrap();
    assert_eq!(db.page_count(), 3);
    assert_eq!(db.page(0).err(), Some(BdbError::BadMagicOrType));
}

/// A well-formed file that holds `pairs`, which must come in the order of
/// their keys: leaves of `fill` pairs each, and internal pages of `fill`
/// children each above them, up to a single root.
fn tree_file(pairs: &[(Vec<u8>, Vec<u8>)], fill: usize) -> Vec<u8> {
    // Page numbers are given out level by level, the leaves first.
    let mut pages: Vec<Vec<u8>> = vec![Vec::new()];
    let chunks: Vec<&[(Vec<u8>, Vec<u8>)]> =
        if pairs.is_empty() { vec![&pairs[..]] } else { pairs.chunks(fill).collect() };
    let mut level: Vec<(Vec<u8>, u32)> = Vec::new();
    for (i, chunk) in chunks.iter().enumerate() {
        let pgno = (i + 1) as u32;
        let next = if i + 1 < chunks.len() { pgno + 1 } else { 0 };
        let prev = if i > 0 { pgno - 1 } else { 0 };
        let held: Vec<(&[u8], &[u8])> =
            chunk.iter().map(|(k, v)| (k.as_slice(), v.as_slice())).collect();
        pages.push(leaf_page(pgno, prev, next, &held));
        let low = if i == 0 { Vec::new() } else { chunk[0].0.clone() };
        level.push((low, pgno));
    }
    let mut height = 1u8;
    while level.len() > 1 {
        height += 1;
        let mut above: Vec<(Vec<u8>, u32)> = Vec::new();
        for group in level.chunks(fill) {
            let pgno = pages.len() as u32;
            let children: Vec<(&[u8], u32)> =
                group.iter().map(|(k, child)| (k.as_slice(), *child)).collect();
            pages.push(internal_page(pgno, height, &children));
            above.push((group[0].0.clone(), pgno));
        }
        level = above;
    }
    pages[0] = metadata_page(level[0].1);
    file_of(&pages)
}

fn numbered_pairs(count: usize) -> Vec<(Vec<u8>, Vec<u8>)> {
    (0..count)
        .map(|i| (format!("key{:05}", 3 * i).into_bytes(), format!("value{}", i).into_bytes()))
        .collect()
}

#[test]
fn lookup_agrees_with_walk_on_trees_of_every_height() {
    for (count, fill) in [(0, 4), (1, 4), (4, 4), (5, 4), (17, 4), (64, 4), (65, 4), (200, 3)] {
        let pairs = numbered_pairs(count);
        let db = DB::open(Some(tree_file(&pairs, fill))).unwrap();
        let walked = db.walk().unwrap();
        assert_eq!(walked.len(), count);
        for (found, (key, value)) in walked.iter().zip(pairs.iter()) {
            assert_eq!(*found, pair(key, value));
            assert_eq!(db.get(key), Ok(Some(value.as_slice())));
        }
        for window in walked.windows(2) {
            assert!(window[0].0.data() < window[1].0.data());
        }
        // Keys between, before and behind the stored ones are absent.
        for i in 0..=count {
            let missing = format!("key{:05}", 3 * i + 1).into_bytes();
            assert_eq!(db.get(&missing), Ok(None));
        }
        assert_eq!(db.get(b""), Ok(None));
        assert_eq!(db.get(b"a"), Ok(None));
        assert_eq!(db.get(b"zzz"), Ok(None));
    }
}

#[test]
fn walk_of_deep_tree_stays_within_its_budget() {
    // A single pair below a chain of internal pages with one child each.
    let mut pages = vec![metadata_page(1)];
    let depth = 40u8;
    for i in 0..depth {
        pages.push(internal_page(1 + i as u32, depth + 1 - i, &[(b"", 2 + i as u32)]));
    }
    pages.push(leaf_page(1 + depth as u32, 0, 0, &[(b"k", b"v")]));
    let db = DB::open(Some(file_of(&pages))).unwrap();
    assert_eq!(db.walk().unwrap(), vec![pair(b"k", b"v")]);
    assert_eq!(db.get(b"k"), Ok(Some(&b"v"[..])));
}

#[test]
fn lone_record_is_rejected_on_request() {
    let odd = btree_page(1, 0, 2, 1, 5, &[keydata(b"a"), keydata(b"A"), keydata(b"b")]);
    let file = file_of(&[metadata_page(1), odd, leaf_page(2, 1, 0, &[(b"c", b"C")])]);
    let db = DB::open(Some(file)).unwrap();
    assert_eq!(db.walk_with(LoneRecord::Reject), Err(BdbError::Truncated));
    assert_eq!(
        db.walk_with(LoneRecord::PassOver).unwrap(),
        vec![pair(b"a", b"A"), pair(b"c", b"C")]
    );
    let mut walker = Walk::with_policy(&db, LoneRecord::Reject);
    assert_eq!(walker.next(), Ok(Some(pair(b"a", b"A"))));
    assert_eq!(walker.next(), Err(BdbError::Truncated));
    assert_eq!(walker.next(), Err(BdbError::Truncated));
}

#[test]
fn policies_agree_where_no_record_is_lone() {
    for count in [0, 1, 7, 40] {
        let pairs = numbered_pairs(count);
        let db = DB::open(Some(tree_file(&pairs, 4))).unwrap();
        assert_eq!(db.walk_with(LoneRecord::Reject), db.walk());
        assert_eq!(db.walk_with(LoneRecord::PassOver), db.walk());
    }
    // Empty leaves hold no lone record either.
    let file = file_of(&[metadata_page(1), leaf_page(1, 0, 2, &[]), leaf_page(2, 1, 0, &[])]);
    let db = DB::open(Some(file)).unwrap();
    assert_eq!(db.walk_with(LoneRecord::Reject), Ok(Vec::new()));
}
