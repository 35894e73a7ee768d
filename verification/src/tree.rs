//! Well-formed files: what the format promises of the pages of a tree.
//!
//! Page 0 is the metadata page. The root that it names heads a tree whose
//! levels go down by one from page to child until they reach the leaves at
//! level 1. An internal page sends every key to the child of the last record
//! whose separator key is at most that key, so each child is responsible for
//! the keys from its own separator key up to the next one, and the keys of a
//! leaf lie in the range that the leaf is responsible for. Keys and
//! separator keys increase strictly from slot to slot. The sibling links run
//! through the leaves from left to right.
//!
//! Neither the lookup nor the walk checks these promises; what follows from
//! them is proved in the modules `descent`, `chain` and `agreement`.

use crate::database::{spec_frame, spec_has_page};
use crate::entry::EntryView;
use crate::error::BdbError;
use crate::order::{spec_lex_le, spec_lex_lt};
use crate::page::{LEAF_LEVEL, PAGE_SIZE, PageHeaderView, TYPE_LEAF, spec_btree_fields};
use crate::page::{spec_entry_at, spec_entry_count, spec_has_magic, spec_header, spec_is_leaf};
use crate::page::{spec_is_metadata, spec_next_page_number};
use crate::walk::SLOT_LIMIT;
use vstd::prelude::*;

verus! {

/// Whether every record of a page decodes.
pub open spec fn spec_all_decode(frame: Seq<u8>) -> bool {
    forall|slot: int|
        0 <= slot < spec_entry_count(frame) ==> #[trigger] spec_entry_at(frame, slot) is Ok
}

/// The record in slot `slot` of a page whose records decode.
pub open spec fn spec_record(frame: Seq<u8>, slot: int) -> EntryView {
    spec_entry_at(frame, slot)->Ok_0->Some_0
}

/// The number of key/value pairs of a leaf with an even number of records.
pub open spec fn spec_pair_count(frame: Seq<u8>) -> int {
    spec_entry_count(frame) as int / 2
}

/// The key of pair `i` of a leaf.
pub open spec fn spec_key(frame: Seq<u8>, i: int) -> Seq<u8> {
    spec_record(frame, 2 * i).payload()
}

/// The value of pair `i` of a leaf.
pub open spec fn spec_value(frame: Seq<u8>, i: int) -> Seq<u8> {
    spec_record(frame, 2 * i + 1).payload()
}

/// The separator key of record `i` of an internal page.
pub open spec fn spec_separator(frame: Seq<u8>, i: int) -> Seq<u8> {
    spec_record(frame, i).payload()
}

/// The child that record `i` of an internal page points to.
pub open spec fn spec_child(frame: Seq<u8>, i: int) -> int {
    match spec_record(frame, i) {
        EntryView::Internal { pgno, .. } => pgno as int,
        EntryView::KeyData { .. } => 0,
    }
}

/// The level that the header of a page of the tree gives.
pub open spec fn spec_level(frame: Seq<u8>) -> nat {
    match spec_header(frame) {
        Ok(PageHeaderView::BTree { level, .. }) => level as nat,
        _ => 0,
    }
}

/// The page number in the sibling link of a page: `0` where it has none.
pub open spec fn spec_next(frame: Seq<u8>) -> int {
    match spec_next_page_number(frame) {
        Some(next) => next as int,
        None => 0,
    }
}

/// Whether `key` lies in the range from `lo`, which it may equal, up to `hi`,
/// which it may not reach. Without `hi` the range has no upper end.
pub open spec fn spec_in_range(key: Seq<u8>, lo: Seq<u8>, hi: Option<Seq<u8>>) -> bool {
    &&& spec_lex_le(lo, key)
    &&& hi matches Some(end) ==> spec_lex_lt(key, end)
}

/// A leaf as the format builds it: an even number of records that all
/// decode, with keys that increase strictly from pair to pair and lie in the
/// range that the page is responsible for.
pub open spec fn spec_wf_leaf(frame: Seq<u8>, lo: Seq<u8>, hi: Option<Seq<u8>>) -> bool {
    &&& spec_is_leaf(frame)
    &&& spec_entry_count(frame) % 2 == 0
    &&& spec_all_decode(frame)
    &&& forall|i: int, j: int|
        0 <= i < j < spec_pair_count(frame) ==> spec_lex_lt(
            #[trigger] spec_key(frame, i),
            #[trigger] spec_key(frame, j),
        )
    &&& forall|i: int|
        0 <= i < spec_pair_count(frame) ==> spec_in_range(#[trigger] spec_key(frame, i), lo, hi)
}

/// Where the range of child `i` of an internal page ends: at the separator
/// key of the record behind it, or where the range of the page ends.
pub open spec fn spec_upper(frame: Seq<u8>, i: int, hi: Option<Seq<u8>>) -> Option<Seq<u8>> {
    if i + 1 < spec_entry_count(frame) {
        Some(spec_separator(frame, i + 1))
    } else {
        hi
    }
}

/// The records of an internal page as the format builds them: at least one,
/// all of which decode, with separator keys that increase strictly from
/// record to record within the range that the page is responsible for.
pub open spec fn spec_wf_separators(frame: Seq<u8>, lo: Seq<u8>, hi: Option<Seq<u8>>) -> bool {
    &&& spec_entry_count(frame) >= 1
    &&& spec_all_decode(frame)
    &&& forall|i: int, j: int|
        0 <= i < j < spec_entry_count(frame) ==> spec_lex_lt(
            #[trigger] spec_separator(frame, i),
            #[trigger] spec_separator(frame, j),
        )
    &&& forall|i: int|
        0 <= i < spec_entry_count(frame) ==> spec_in_range(
            #[trigger] spec_separator(frame, i),
            lo,
            hi,
        )
}

/// The tree below page `page` as the format builds it: the page is a page of
/// the tree at level `level`; at level 1 it is a well-formed leaf; above, its
/// records are well-formed, and each child is the root of such a tree one
/// level down, responsible for the keys from its separator key up to the
/// next one.
pub open spec fn spec_wf_subtree(
    buf: Seq<u8>,
    page: int,
    level: nat,
    lo: Seq<u8>,
    hi: Option<Seq<u8>>,
) -> bool
    decreases level,
{
    let frame: Seq<u8> = spec_frame(buf, page);
    &&& spec_has_page(buf, page)
    &&& spec_header(frame) matches Ok(PageHeaderView::BTree { .. })
    &&& spec_level(frame) == level
    &&& level >= 1
    &&& if level == 1 {
        spec_wf_leaf(frame, lo, hi)
    } else {
        &&& spec_wf_separators(frame, lo, hi)
        &&& forall|i: int|
            0 <= i < spec_entry_count(frame) ==> spec_wf_subtree(
                buf,
                #[trigger] spec_child(frame, i),
                (level - 1) as nat,
                spec_separator(frame, i),
                spec_upper(frame, i, hi),
            )
    }
}

/// The leaves of the tree below page `page`, from left to right.
pub open spec fn spec_leaves(buf: Seq<u8>, page: int, level: nat) -> Seq<int>
    decreases level, SLOT_LIMIT,
{
    if level <= 1 {
        seq![page]
    } else {
        spec_leaves_from(buf, spec_frame(buf, page), level, 0)
    }
}

/// The leaves below the children of an internal page from child `from` on.
pub open spec fn spec_leaves_from(buf: Seq<u8>, frame: Seq<u8>, level: nat, from: int) -> Seq<int>
    decreases level, spec_entry_count(frame) - from,
{
    if level <= 1 || from < 0 || from >= spec_entry_count(frame) {
        Seq::empty()
    } else {
        spec_leaves(buf, spec_child(frame, from), (level - 1) as nat) + spec_leaves_from(
            buf,
            frame,
            level,
            from + 1,
        )
    }
}

/// The key/value pairs of a leaf, in slot order.
pub open spec fn spec_leaf_pairs(frame: Seq<u8>) -> Seq<(EntryView, EntryView)> {
    Seq::new(
        spec_pair_count(frame) as nat,
        |i: int| (spec_record(frame, 2 * i), spec_record(frame, 2 * i + 1)),
    )
}

/// The key/value pairs of the leaves `leaves[from]`, `leaves[from + 1]`, ...,
/// leaf by leaf.
pub open spec fn spec_flat(buf: Seq<u8>, leaves: Seq<int>, from: int) -> Seq<
    (EntryView, EntryView),
>
    decreases leaves.len() - from,
{
    if from < 0 || from >= leaves.len() {
        Seq::empty()
    } else {
        spec_leaf_pairs(spec_frame(buf, leaves[from])) + spec_flat(buf, leaves, from + 1)
    }
}

/// The key/value pairs of the tree below page `page`, from left to right.
pub open spec fn spec_pairs(buf: Seq<u8>, page: int, level: nat) -> Seq<(EntryView, EntryView)>
    decreases level, SLOT_LIMIT,
{
    if level <= 1 {
        spec_leaf_pairs(spec_frame(buf, page))
    } else {
        spec_pairs_from(buf, spec_frame(buf, page), level, 0)
    }
}

/// The key/value pairs below the children of an internal page from child
/// `from` on.
pub open spec fn spec_pairs_from(buf: Seq<u8>, frame: Seq<u8>, level: nat, from: int) -> Seq<
    (EntryView, EntryView),
>
    decreases level, spec_entry_count(frame) - from,
{
    if level <= 1 || from < 0 || from >= spec_entry_count(frame) {
        Seq::empty()
    } else {
        spec_pairs(buf, spec_child(frame, from), (level - 1) as nat) + spec_pairs_from(
            buf,
            frame,
            level,
            from + 1,
        )
    }
}

/// Whether the sibling links run through `leaves` in order: each leaf but
/// the last names the one behind it, and the last names none.
pub open spec fn spec_linked(buf: Seq<u8>, leaves: Seq<int>) -> bool {
    &&& leaves.len() >= 1
    &&& forall|i: int|
        0 <= i < leaves.len() - 1 ==> spec_next(spec_frame(buf, #[trigger] leaves[i])) == leaves[i
            + 1]
    &&& spec_next(spec_frame(buf, leaves[leaves.len() - 1])) == 0
}

/// The root that page 0 names, where it is the metadata page.
pub open spec fn spec_root(buf: Seq<u8>) -> int {
    match spec_header(spec_frame(buf, 0)) {
        Ok(PageHeaderView::Metadata { root, .. }) => root as int,
        _ => 0,
    }
}

/// The level of the root of the tree.
pub open spec fn spec_height(buf: Seq<u8>) -> nat {
    spec_level(spec_frame(buf, spec_root(buf)))
}

/// The leaves of the tree of a file, from left to right.
pub open spec fn spec_tree_leaves(buf: Seq<u8>) -> Seq<int> {
    spec_leaves(buf, spec_root(buf), spec_height(buf))
}

/// The key/value pairs of the tree of a file, from left to right.
pub open spec fn spec_tree_pairs(buf: Seq<u8>) -> Seq<(EntryView, EntryView)> {
    spec_pairs(buf, spec_root(buf), spec_height(buf))
}

/// A file as the format builds it: page 0 is the metadata page, the root
/// that it names is the root of a well-formed tree that is responsible for
/// every key, and the sibling links run through the leaves of that tree from
/// left to right.
pub open spec fn spec_well_formed(buf: Seq<u8>) -> bool {
    &&& spec_has_page(buf, 0)
    &&& spec_is_metadata(spec_frame(buf, 0))
    &&& spec_wf_subtree(buf, spec_root(buf), spec_height(buf), Seq::empty(), None)
    &&& spec_linked(buf, spec_tree_leaves(buf))
}

/// The pair of a key and a value as a walk yields it.
pub open spec fn spec_pair(key: Seq<u8>, value: Seq<u8>) -> (EntryView, EntryView) {
    (EntryView::KeyData { data: key }, EntryView::KeyData { data: value })
}

/// On a page of the tree whose records all decode, every slot below the
/// entry count holds a record: a key/data record on a leaf, an internal
/// record on any other page.
pub proof fn lemma_record(frame: Seq<u8>, slot: int)
    requires
        spec_header(frame) matches Ok(PageHeaderView::BTree { .. }),
        spec_all_decode(frame),
        0 <= slot < spec_entry_count(frame),
    ensures
        spec_entry_at(frame, slot) == Ok::<Option<EntryView>, BdbError>(
            Some(spec_record(frame, slot)),
        ),
        spec_is_leaf(frame) ==> spec_record(frame, slot) == (EntryView::KeyData {
            data: spec_record(frame, slot).payload(),
        }),
        !spec_is_leaf(frame) ==> spec_record(frame, slot) is Internal,
{
    assert(spec_entry_at(frame, slot) is Ok);
}

/// The pairs of a well-formed leaf pair its keys with its values.
pub proof fn lemma_leaf_pair(frame: Seq<u8>, lo: Seq<u8>, hi: Option<Seq<u8>>, i: int)
    requires
        spec_wf_leaf(frame, lo, hi),
        0 <= i < spec_pair_count(frame),
    ensures
        spec_leaf_pairs(frame).len() == spec_pair_count(frame),
        spec_leaf_pairs(frame)[i] == spec_pair(spec_key(frame, i), spec_value(frame, i)),
{
    lemma_record(frame, 2 * i);
    lemma_record(frame, 2 * i + 1);
}

/// The bytes of the smallest well-formed file: the metadata page, which
/// names page 1 as the root, and an empty leaf without a sibling.
pub open spec fn spec_smallest_file() -> Seq<u8> {
    Seq::new(
        2 * PAGE_SIZE as nat,
        |i: int|
            if i == 12 {
                0x62u8
            } else if i == 13 {
                0x31u8
            } else if i == 14 {
                0x05u8
            } else if i == 88 {
                1u8
            } else if i == PAGE_SIZE + 24 {
                LEAF_LEVEL
            } else if i == PAGE_SIZE + 25 {
                TYPE_LEAF
            } else {
                0u8
            },
    )
}

/// There are well-formed files: the smallest one is the metadata page
/// followed by an empty leaf.
pub proof fn lemma_smallest_file_is_well_formed()
    ensures
        spec_well_formed(spec_smallest_file()),
        spec_root(spec_smallest_file()) == 1,
        spec_height(spec_smallest_file()) == 1,
{
    let buf: Seq<u8> = spec_smallest_file();
    let top: Seq<u8> = spec_frame(buf, 0);
    let leaf: Seq<u8> = spec_frame(buf, 1);
    assert(top.len() == PAGE_SIZE && leaf.len() == PAGE_SIZE);
    assert(top[12] == 0x62 && top[13] == 0x31 && top[14] == 0x05 && top[15] == 0);
    assert(top[88] == 1 && top[89] == 0 && top[90] == 0 && top[91] == 0);
    assert(spec_has_magic(top));
    assert(spec_root(buf) == 1);
    assert(leaf[12] == 0 && leaf[13] == 0 && leaf[14] == 0 && leaf[15] == 0);
    assert(leaf[16] == 0 && leaf[17] == 0 && leaf[18] == 0 && leaf[19] == 0);
    assert(leaf[20] == 0 && leaf[21] == 0);
    assert(leaf[24] == LEAF_LEVEL && leaf[25] == TYPE_LEAF);
    assert(!spec_has_magic(leaf));
    assert(spec_header(leaf) == Ok::<PageHeaderView, BdbError>(spec_btree_fields(leaf)));
    assert(spec_entry_count(leaf) == 0);
    assert(spec_wf_leaf(leaf, Seq::empty(), None));
    assert(spec_next(leaf) == 0);
    assert(spec_leaves(buf, 1, 1) =~= seq![1int]);
}

} // verus!
