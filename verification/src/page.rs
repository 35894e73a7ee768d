//! Pages: one frame of the file together with its decoded header.
//!
//! A frame is either the metadata page, which names the root of the B-tree, or
//! a B-tree page. A B-tree page stores its records from the end of the frame
//! backwards and locates them through a table of 16-bit offsets that follows
//! the header: slot `i` holds the offset at which record `i` starts, and the
//! record ends where record `i - 1` starts (at the end of the frame for
//! record `0`).

use crate::bytes::{le_u128, le_u16, le_u32, le_u64, spec_le_u128, spec_le_u16, spec_le_u32};
use crate::bytes::spec_le_u64;
use crate::entry::{Entry, EntryView, KEYDATA_HEADER, entry_slot_view, spec_internal, spec_keydata};
use crate::error::BdbError;
use vstd::prelude::*;

verus! {

/// The size of every frame of the file, in bytes.
pub const PAGE_SIZE: usize = 4096;

/// The value at offset 12 that marks the metadata page.
pub const METADATA_MAGIC: u32 = 0x0005_3162;

/// Type byte of a B-tree page laid out like the metadata page.
pub const TYPE_META: u8 = 9;

/// Type byte of an internal B-tree page.
pub const TYPE_INTERNAL: u8 = 3;

/// Type byte of a leaf B-tree page.
pub const TYPE_LEAF: u8 = 5;

/// The level of leaf pages.
pub const LEAF_LEVEL: u8 = 1;

/// Offset of slot 0 of the offset table of a B-tree page.
pub const SLOT_BASE: usize = 26;

/// The number of slots whose table entry lies inside the frame.
pub const MAX_SLOTS: usize = 2035;

/// The fixed fields at the start of a frame.
#[derive(Debug, Clone, Copy, PartialEq, Eq)]
pub enum PageHeader<'a> {
    /// The descriptor of the whole file.
    Metadata {
        lsn: u64,
        pgno: u32,
        magic: u32,
        version: u32,
        datasize: u32,
        ec: u8,
        ty: u8,
        mf: u8,
        free: u32,
        last_pgno: u32,
        nparts: u32,
        key_count: u32,
        record_count: u32,
        flags: u32,
        uid: &'a [u8],
        minkey: u32,
        re_len: u32,
        re_pad: u32,
        root: u32,
        crypto_magic: u32,
        iv: u128,
        chksum: &'a [u8],
    },
    /// The header of a page of the tree.
    BTree {
        lsn: u64,
        pgno: u32,
        prev_pgno: u32,
        next_pgno: u32,
        entries: u16,
        hf_offset: u16,
        level: u8,
        ty: u8,
    },
}

/// What a header holds, with byte ranges as sequences.
pub enum PageHeaderView {
    Metadata {
        lsn: u64,
        pgno: u32,
        magic: u32,
        version: u32,
        datasize: u32,
        ec: u8,
        ty: u8,
        mf: u8,
        free: u32,
        last_pgno: u32,
        nparts: u32,
        key_count: u32,
        record_count: u32,
        flags: u32,
        uid: Seq<u8>,
        minkey: u32,
        re_len: u32,
        re_pad: u32,
        root: u32,
        crypto_magic: u32,
        iv: u128,
        chksum: Seq<u8>,
    },
    BTree {
        lsn: u64,
        pgno: u32,
        prev_pgno: u32,
        next_pgno: u32,
        entries: u16,
        hf_offset: u16,
        level: u8,
        ty: u8,
    },
}

impl PageHeaderView {
    /// A page of the tree at leaf level.
    pub open spec fn is_leaf(self) -> bool {
        self matches PageHeaderView::BTree { level, .. } && level == LEAF_LEVEL
    }

    /// A page of the tree above or below leaf level.
    pub open spec fn is_internal(self) -> bool {
        self matches PageHeaderView::BTree { level, .. } && level != LEAF_LEVEL
    }

    /// The number of records: none on the metadata page.
    pub open spec fn entry_count(self) -> nat {
        match self {
            PageHeaderView::BTree { entries, .. } => entries as nat,
            PageHeaderView::Metadata { .. } => 0,
        }
    }

    /// The following sibling, where the page has one: `0` stands for none.
    pub open spec fn next_page_number(self) -> Option<u32> {
        match self {
            PageHeaderView::BTree { next_pgno, .. } => if next_pgno != 0 {
                Some(next_pgno)
            } else {
                None
            },
            PageHeaderView::Metadata { .. } => None,
        }
    }
}

impl<'a> View for PageHeader<'a> {
    type V = PageHeaderView;

    open spec fn view(&self) -> PageHeaderView {
        match *self {
            PageHeader::Metadata {
                lsn,
                pgno,
                magic,
                version,
                datasize,
                ec,
                ty,
                mf,
                free,
                last_pgno,
                nparts,
                key_count,
                record_count,
                flags,
                uid,
                minkey,
                re_len,
                re_pad,
                root,
                crypto_magic,
                iv,
                chksum,
            } => PageHeaderView::Metadata {
                lsn,
                pgno,
                magic,
                version,
                datasize,
                ec,
                ty,
                mf,
                free,
                last_pgno,
                nparts,
                key_count,
                record_count,
                flags,
                uid: uid@,
                minkey,
                re_len,
                re_pad,
                root,
                crypto_magic,
                iv,
                chksum: chksum@,
            },
            PageHeader::BTree {
                lsn,
                pgno,
                prev_pgno,
                next_pgno,
                entries,
                hf_offset,
                level,
                ty,
            } => PageHeaderView::BTree {
                lsn,
                pgno,
                prev_pgno,
                next_pgno,
                entries,
                hf_offset,
                level,
                ty,
            },
        }
    }
}

/// The outcome of decoding a header, over views.
pub open spec fn header_result_view<'a>(r: Result<PageHeader<'a>, BdbError>) -> Result<
    PageHeaderView,
    BdbError,
> {
    match r {
        Ok(h) => Ok(h@),
        Err(e) => Err(e),
    }
}

/// Whether the frame carries the metadata magic at offset 12.
pub open spec fn spec_has_magic(frame: Seq<u8>) -> bool {
    spec_le_u32(frame, 12) == METADATA_MAGIC
}

/// The fields of a metadata page, each at its fixed offset.
pub open spec fn spec_metadata_fields(frame: Seq<u8>) -> PageHeaderView {
    PageHeaderView::Metadata {
        lsn: spec_le_u64(frame, 0),
        pgno: spec_le_u32(frame, 8),
        magic: METADATA_MAGIC,
        version: spec_le_u32(frame, 16),
        datasize: spec_le_u32(frame, 20),
        ec: frame[24],
        ty: frame[25],
        mf: frame[26],
        free: spec_le_u32(frame, 28),
        last_pgno: spec_le_u32(frame, 32),
        nparts: spec_le_u32(frame, 36),
        key_count: spec_le_u32(frame, 40),
        record_count: spec_le_u32(frame, 44),
        flags: spec_le_u32(frame, 48),
        uid: frame.subrange(52, 72),
        minkey: spec_le_u32(frame, 76),
        re_len: spec_le_u32(frame, 80),
        re_pad: spec_le_u32(frame, 84),
        root: spec_le_u32(frame, 88),
        crypto_magic: spec_le_u32(frame, 460),
        iv: spec_le_u128(frame, 476),
        chksum: frame.subrange(492, 512),
    }
}

/// The fields of a B-tree page header, each at its fixed offset.
pub open spec fn spec_btree_fields(frame: Seq<u8>) -> PageHeaderView {
    PageHeaderView::BTree {
        lsn: spec_le_u64(frame, 0),
        pgno: spec_le_u32(frame, 8),
        prev_pgno: spec_le_u32(frame, 12),
        next_pgno: spec_le_u32(frame, 16),
        entries: spec_le_u16(frame, 20),
        hf_offset: spec_le_u16(frame, 22),
        level: frame[24],
        ty: frame[25],
    }
}

/// Whether `ty` is a type byte that a B-tree page may carry.
pub open spec fn spec_valid_btree_type(ty: u8) -> bool {
    ty == TYPE_META || ty == TYPE_INTERNAL || ty == TYPE_LEAF
}

/// A frame read as the metadata page, whatever it holds at offset 12.
pub open spec fn spec_metadata_header(frame: Seq<u8>) -> Result<PageHeaderView, BdbError> {
    if frame.len() < PAGE_SIZE {
        Err(BdbError::Truncated)
    } else {
        Ok(spec_metadata_fields(frame))
    }
}

/// A frame read as a B-tree page.
pub open spec fn spec_btree_header(frame: Seq<u8>) -> Result<PageHeaderView, BdbError> {
    if frame.len() < PAGE_SIZE {
        Err(BdbError::Truncated)
    } else if !spec_valid_btree_type(frame[25]) {
        Err(BdbError::BadMagicOrType)
    } else {
        Ok(spec_btree_fields(frame))
    }
}

/// The header of a frame: that of the metadata page where the frame carries
/// the magic, that of a B-tree page otherwise.
pub open spec fn spec_header(frame: Seq<u8>) -> Result<PageHeaderView, BdbError> {
    if frame.len() < PAGE_SIZE {
        Err(BdbError::Truncated)
    } else if spec_has_magic(frame) {
        spec_metadata_header(frame)
    } else {
        spec_btree_header(frame)
    }
}

/// The bytes of the magic as the file holds them, in little-endian order.
pub open spec fn spec_magic_bytes() -> Seq<u8> {
    seq![0x62u8, 0x31u8, 0x05u8, 0x00u8]
}

/// A whole frame is read as the metadata page if and only if its bytes 12
/// to 15 are those of the magic; every other whole frame is read as a page of
/// the tree.
pub proof fn lemma_metadata_iff_magic(frame: Seq<u8>)
    requires
        frame.len() >= PAGE_SIZE,
    ensures
        spec_has_magic(frame) <==> frame.subrange(12, 16) == spec_magic_bytes(),
        spec_has_magic(frame) ==> spec_header(frame) == Ok::<PageHeaderView, BdbError>(
            spec_metadata_fields(frame),
        ),
        !spec_has_magic(frame) ==> spec_header(frame) == spec_btree_header(frame),
        spec_header(frame) matches Ok(PageHeaderView::Metadata { .. }) <==> spec_has_magic(frame),
{
    let at_magic: Seq<u8> = frame.subrange(12, 16);
    assert(at_magic[0] == frame[12] && at_magic[1] == frame[13] && at_magic[2] == frame[14]
        && at_magic[3] == frame[15]);
    if spec_has_magic(frame) {
        assert(at_magic =~= spec_magic_bytes());
    }
    if at_magic == spec_magic_bytes() {
        assert(spec_magic_bytes()[0] == 0x62 && spec_magic_bytes()[1] == 0x31
            && spec_magic_bytes()[2] == 0x05 && spec_magic_bytes()[3] == 0x00);
    }
}

/// A whole frame without the magic whose type byte is none of the three that
/// a page of the tree may carry does not decode, neither as a header nor as a
/// page; with one of the three it does.
pub proof fn lemma_btree_type_decides(frame: Seq<u8>)
    requires
        frame.len() >= PAGE_SIZE,
        !spec_has_magic(frame),
    ensures
        !spec_valid_btree_type(frame[25]) ==> spec_header(frame) == Err::<
            PageHeaderView,
            BdbError,
        >(BdbError::BadMagicOrType),
        spec_valid_btree_type(frame[25]) ==> spec_header(frame) == Ok::<
            PageHeaderView,
            BdbError,
        >(spec_btree_fields(frame)),
        frame.len() == PAGE_SIZE && !spec_valid_btree_type(frame[25]) ==> spec_page(frame)
            == Err::<Seq<u8>, BdbError>(BdbError::BadMagicOrType),
{
    if frame.len() == PAGE_SIZE {
        assert(frame.subrange(0, PAGE_SIZE as int) =~= frame);
    }
}

impl<'a> PageHeader<'a> {
    /// Classifies a frame by the magic at offset 12 and decodes its header.
    pub fn new(data: &'a [u8]) -> (r: Result<PageHeader<'a>, BdbError>)
        ensures
            header_result_view(r) == spec_header(data@),
    {
        if data.len() < PAGE_SIZE {
            return Err(BdbError::Truncated);
        }
        if le_u32(data, 12) == METADATA_MAGIC {
            Self::new_metadata(data)
        } else {
            Self::new_btree(data)
        }
    }

    /// Decodes the header of the metadata page.
    pub fn new_metadata(data: &'a [u8]) -> (r: Result<PageHeader<'a>, BdbError>)
        ensures
            header_result_view(r) == spec_metadata_header(data@),
    {
        if data.len() < PAGE_SIZE {
            return Err(BdbError::Truncated);
        }
        let magic: u32 = METADATA_MAGIC;
        let lsn: u64 = le_u64(data, 0);
        let pgno: u32 = le_u32(data, 8);
        let version: u32 = le_u32(data, 16);
        let datasize: u32 = le_u32(data, 20);
        let ec: u8 = data[24];
        let ty: u8 = data[25];
        let mf: u8 = data[26];
        let free: u32 = le_u32(data, 28);
        let last_pgno: u32 = le_u32(data, 32);
        let nparts: u32 = le_u32(data, 36);
        let key_count: u32 = le_u32(data, 40);
        let record_count: u32 = le_u32(data, 44);
        let flags: u32 = le_u32(data, 48);
        let uid: &'a [u8] = &data[52..72];
        let minkey: u32 = le_u32(data, 76);
        let re_len: u32 = le_u32(data, 80);
        let re_pad: u32 = le_u32(data, 84);
        let root: u32 = le_u32(data, 88);
        let crypto_magic: u32 = le_u32(data, 460);
        let iv: u128 = le_u128(data, 476);
        let chksum: &'a [u8] = &data[492..512];
        Ok(
            PageHeader::Metadata {
                lsn,
                pgno,
                magic,
                version,
                datasize,
                ec,
                ty,
                mf,
                free,
                last_pgno,
                nparts,
                key_count,
                record_count,
                flags,
                uid,
                minkey,
                re_len,
                re_pad,
                root,
                crypto_magic,
                iv,
                chksum,
            },
        )
    }

    /// Decodes the header of a B-tree page and checks its type byte.
    pub fn new_btree(data: &'a [u8]) -> (r: Result<PageHeader<'a>, BdbError>)
        ensures
            header_result_view(r) == spec_btree_header(data@),
    {
        if data.len() < PAGE_SIZE {
            return Err(BdbError::Truncated);
        }
        let lsn: u64 = le_u64(data, 0);
        let pgno: u32 = le_u32(data, 8);
        let prev_pgno: u32 = le_u32(data, 12);
        let next_pgno: u32 = le_u32(data, 16);
        let entries: u16 = le_u16(data, 20);
        let hf_offset: u16 = le_u16(data, 22);
        let level: u8 = data[24];
        let ty: u8 = data[25];
        if !(ty == TYPE_META || ty == TYPE_INTERNAL || ty == TYPE_LEAF) {
            return Err(BdbError::BadMagicOrType);
        }
        Ok(PageHeader::BTree { lsn, pgno, prev_pgno, next_pgno, entries, hf_offset, level, ty })
    }

    /// Whether this is the header of the metadata page.
    pub fn is_metadata(&self) -> (r: bool)
        ensures
            r == (self@ is Metadata),
    {
        match self {
            PageHeader::Metadata { .. } => true,
            PageHeader::BTree { .. } => false,
        }
    }

    /// Whether this is the header of a B-tree page.
    pub fn is_b_tree(&self) -> (r: bool)
        ensures
            r == (self@ is BTree),
    {
        match self {
            PageHeader::Metadata { .. } => false,
            PageHeader::BTree { .. } => true,
        }
    }
}

/// The offset that slot `index` of the offset table holds: where record
/// `index` starts.
pub open spec fn spec_slot_offset(frame: Seq<u8>, index: int) -> int {
    spec_le_u16(frame, SLOT_BASE + 2 * index) as int
}

/// Where record `index` ends: at the start of the record before it, or at the
/// end of the frame for record `0`.
pub open spec fn spec_slot_boundary(frame: Seq<u8>, index: int) -> int {
    if index == 0 {
        PAGE_SIZE as int
    } else {
        spec_slot_offset(frame, index - 1)
    }
}

/// The offset in slot `index`, where that slot lies inside the frame.
pub open spec fn spec_get_offset(frame: Seq<u8>, index: int) -> Result<int, BdbError> {
    if index >= MAX_SLOTS {
        Err(BdbError::Truncated)
    } else {
        Ok(spec_slot_offset(frame, index))
    }
}

/// The bytes of record `index`: the range from its slot's offset to its
/// boundary, where the slot lies inside the frame and the two delimit a range
/// of the frame.
pub open spec fn spec_slot_bytes(frame: Seq<u8>, index: int) -> Result<Seq<u8>, BdbError> {
    let start: int = spec_slot_offset(frame, index);
    let end: int = spec_slot_boundary(frame, index);
    if index >= MAX_SLOTS {
        Err(BdbError::Truncated)
    } else if start > end || end > PAGE_SIZE {
        Err(BdbError::Truncated)
    } else {
        Ok(frame.subrange(start, end))
    }
}

/// The record in slot `index` of a frame: absent on the metadata page and
/// from the entry count on, a key/data record on a leaf, an internal record
/// on any other page of the tree.
pub open spec fn spec_entry_at(frame: Seq<u8>, index: int) -> Result<Option<EntryView>, BdbError> {
    match spec_header(frame) {
        Ok(PageHeaderView::BTree { entries, level, .. }) => {
            if 0 <= index < entries {
                match spec_slot_bytes(frame, index) {
                    Err(e) => Err(e),
                    Ok(bytes) => {
                        let decoded: Result<EntryView, BdbError> = if level == LEAF_LEVEL {
                            spec_keydata(bytes)
                        } else {
                            spec_internal(bytes)
                        };
                        match decoded {
                            Ok(entry) => Ok(Some(entry)),
                            Err(e) => Err(e),
                        }
                    },
                }
            } else {
                Ok(None)
            }
        },
        _ => Ok(None),
    }
}

/// The number of records of a frame.
pub open spec fn spec_entry_count(frame: Seq<u8>) -> nat {
    match spec_header(frame) {
        Ok(h) => h.entry_count(),
        Err(_) => 0,
    }
}

/// Whether the frame is the metadata page.
pub open spec fn spec_is_metadata(frame: Seq<u8>) -> bool {
    spec_header(frame) matches Ok(h) && h is Metadata
}

/// Whether the frame is a leaf of the tree.
pub open spec fn spec_is_leaf(frame: Seq<u8>) -> bool {
    spec_header(frame) matches Ok(h) && h.is_leaf()
}

/// Whether the frame is a page of the tree that is no leaf.
pub open spec fn spec_is_internal(frame: Seq<u8>) -> bool {
    spec_header(frame) matches Ok(h) && h.is_internal()
}

/// The sibling that follows the frame in the tree, if it has one.
pub open spec fn spec_next_page_number(frame: Seq<u8>) -> Option<u32> {
    match spec_header(frame) {
        Ok(h) => h.next_page_number(),
        Err(_) => None,
    }
}

/// Whether the frame is the last leaf: a leaf without a following sibling.
pub open spec fn spec_is_last_page(frame: Seq<u8>) -> bool {
    spec_is_leaf(frame) && spec_next_page_number(frame) is None
}

/// The page that the first `PAGE_SIZE` bytes of `data` form.
pub open spec fn spec_page(data: Seq<u8>) -> Result<Seq<u8>, BdbError> {
    let frame: Seq<u8> = data.subrange(0, PAGE_SIZE as int);
    if data.len() < PAGE_SIZE {
        Err(BdbError::Truncated)
    } else {
        match spec_header(frame) {
            Ok(_) => Ok(frame),
            Err(e) => Err(e),
        }
    }
}

/// The outcome of decoding a page, over views.
pub open spec fn page_result_view<'a>(r: Result<Page<'a>, BdbError>) -> Result<Seq<u8>, BdbError> {
    match r {
        Ok(p) => Ok(p@),
        Err(e) => Err(e),
    }
}

/// A record that decodes lies in a range of at least three bytes: the offset
/// in its slot is below its boundary, and so below the offset in the slot
/// before it, and no boundary is beyond the end of the frame.
pub proof fn lemma_decoded_slot_is_below_its_boundary(frame: Seq<u8>, index: int)
    requires
        spec_entry_at(frame, index) matches Ok(Some(_)),
    ensures
        0 <= index < MAX_SLOTS,
        spec_slot_offset(frame, index) + KEYDATA_HEADER <= spec_slot_boundary(frame, index),
        spec_slot_boundary(frame, index) <= PAGE_SIZE,
{
}

/// In a page all of whose records decode, the offsets of the slot table
/// decrease strictly from slot to slot, starting below the size of the frame.
pub proof fn lemma_decoded_slots_decrease(frame: Seq<u8>, i: int, j: int)
    requires
        0 <= i < j < spec_entry_count(frame),
        forall|k: int| 0 <= k < spec_entry_count(frame) ==> spec_entry_at(frame, k) is Ok,
    ensures
        spec_slot_offset(frame, j) < spec_slot_offset(frame, i) < PAGE_SIZE,
    decreases j - i,
{
    lemma_decoded_slot_is_below_its_boundary(frame, i);
    lemma_decoded_slot_is_below_its_boundary(frame, j);
    if i + 1 < j {
        lemma_decoded_slots_decrease(frame, i, j - 1);
    }
}

/// One frame of the file with its decoded header.
#[derive(Clone, Copy)]
pub struct Page<'a> {
    header: PageHeader<'a>,
    data: &'a [u8],
}

impl<'a> View for Page<'a> {
    type V = Seq<u8>;

    /// The bytes of the frame.
    closed spec fn view(&self) -> Seq<u8> {
        self.data@
    }
}

impl<'a> Page<'a> {
    #[verifier::type_invariant]
    closed spec fn well_formed(self) -> bool {
        &&& self.data@.len() == PAGE_SIZE
        &&& spec_header(self.data@) == Ok::<PageHeaderView, BdbError>(self.header@)
    }

    /// Makes a page of the first `PAGE_SIZE` bytes of `data`.
    pub fn new(data: &'a [u8]) -> (r: Result<Page<'a>, BdbError>)
        ensures
            page_result_view(r) == spec_page(data@),
    {
        if data.len() < PAGE_SIZE {
            return Err(BdbError::Truncated);
        }
        let frame: &'a [u8] = &data[0..PAGE_SIZE];
        match PageHeader::new(frame) {
            Ok(header) => Ok(Page { header, data: frame }),
            Err(e) => Err(e),
        }
    }

    /// The decoded header.
    pub fn header(&self) -> (r: &PageHeader<'a>)
        ensures
            self@.len() == PAGE_SIZE,
            spec_header(self@) == Ok::<PageHeaderView, BdbError>(r@),
    {
        proof {
            use_type_invariant(self);
        }
        &self.header
    }

    /// The bytes of the frame.
    pub fn data(&self) -> (r: &'a [u8])
        ensures
            r@ == self@,
            r@.len() == PAGE_SIZE,
    {
        proof {
            use_type_invariant(self);
        }
        self.data
    }

    /// The number of records on the page.
    pub fn entry_count(&self) -> (r: usize)
        ensures
            r == spec_entry_count(self@),
    {
        proof {
            use_type_invariant(self);
        }
        match self.header {
            PageHeader::BTree { entries, .. } => entries as usize,
            PageHeader::Metadata { .. } => 0,
        }
    }

    /// Decodes the record in slot `index`.
    pub fn get_entry(&self, index: usize) -> (r: Result<Option<Entry<'a>>, BdbError>)
        ensures
            entry_slot_view(r) == spec_entry_at(self@, index as int),
    {
        proof {
            use_type_invariant(self);
        }
        let (entries, level): (u16, u8) = match self.header {
            PageHeader::BTree { entries, level, .. } => (entries, level),
            PageHeader::Metadata { .. } => {
                return Ok(None);
            },
        };
        if index >= entries as usize {
            return Ok(None);
        }
        let prev_offset: usize = if index == 0 {
            PAGE_SIZE
        } else {
            match self.get_offset(index - 1) {
                Ok(offset) => offset,
                Err(e) => {
                    return Err(e);
                },
            }
        };
        let offset: usize = match self.get_offset(index) {
            Ok(offset) => offset,
            Err(e) => {
                return Err(e);
            },
        };
        if offset > prev_offset || prev_offset > PAGE_SIZE {
            return Err(BdbError::Truncated);
        }
        let buffer: &'a [u8] = &self.data[offset..prev_offset];
        let entry: Result<Entry<'a>, BdbError> = if level == LEAF_LEVEL {
            Entry::new_keydata(buffer)
        } else {
            Entry::new_internal(buffer)
        };
        match entry {
            Ok(entry) => Ok(Some(entry)),
            Err(e) => Err(e),
        }
    }

    /// Reads the offset in slot `index` of the offset table.
    pub fn get_offset(&self, index: usize) -> (r: Result<usize, BdbError>)
        ensures
            match r {
                Ok(offset) => spec_get_offset(self@, index as int) == Ok::<int, BdbError>(
                    offset as int,
                ),
                Err(e) => spec_get_offset(self@, index as int) == Err::<int, BdbError>(e),
            },
    {
        proof {
            use_type_invariant(self);
        }
        if index >= MAX_SLOTS {
            return Err(BdbError::Truncated);
        }
        Ok(le_u16(self.data, SLOT_BASE + 2 * index) as usize)
    }

    /// A cursor over the records of the page, placed on slot `0`.
    pub fn entries(&'a self) -> (r: EntryIterator<'a>)
        ensures
            r.frame() == self@,
            r.position() == 0,
    {
        EntryIterator::new(self)
    }

    /// Whether this is the metadata page.
    pub fn is_metadata(&self) -> (r: bool)
        ensures
            r == spec_is_metadata(self@),
    {
        proof {
            use_type_invariant(self);
        }
        self.header.is_metadata()
    }

    /// Whether this is a leaf of the tree.
    pub fn is_leaf(&self) -> (r: bool)
        ensures
            r == spec_is_leaf(self@),
    {
        proof {
            use_type_invariant(self);
        }
        match self.header {
            PageHeader::BTree { level, .. } => level == LEAF_LEVEL,
            PageHeader::Metadata { .. } => false,
        }
    }

    /// Whether this is a page of the tree that is no leaf.
    pub fn is_internal(&self) -> (r: bool)
        ensures
            r == spec_is_internal(self@),
    {
        proof {
            use_type_invariant(self);
        }
        !(self.is_metadata() || self.is_leaf())
    }

    /// The page number of the following sibling, if there is one.
    pub fn next_page_number(&self) -> (r: Option<u32>)
        ensures
            r == spec_next_page_number(self@),
    {
        proof {
            use_type_invariant(self);
        }
        if let PageHeader::BTree { next_pgno, .. } = self.header {
            if next_pgno != 0 {
                return Some(next_pgno);
            }
        }
        None
    }

    /// Whether this is the last leaf of the tree.
    pub fn is_last_page(&self) -> (r: bool)
        ensures
            r == spec_is_last_page(self@),
    {
        proof {
            use_type_invariant(self);
        }
        match self.header {
            PageHeader::BTree { level, next_pgno, .. } => level == LEAF_LEVEL && next_pgno == 0,
            PageHeader::Metadata { .. } => false,
        }
    }
}

/// A cursor over the records of one page, in slot order.
pub struct EntryIterator<'a> {
    current: usize,
    page: &'a Page<'a>,
}

impl<'a> EntryIterator<'a> {
    /// The bytes of the page that the cursor runs over.
    pub closed spec fn frame(&self) -> Seq<u8> {
        self.page@
    }

    /// The slot that the next call of `next` decodes.
    pub closed spec fn position(&self) -> int {
        self.current as int
    }

    /// A cursor on slot `0` of `page`.
    pub fn new(page: &'a Page<'a>) -> (r: EntryIterator<'a>)
        ensures
            r.frame() == page@,
            r.position() == 0,
    {
        EntryIterator { current: 0, page }
    }

    /// Decodes the record under the cursor and moves on to the next slot.
    ///
    /// Behind the last record the result is `Ok(None)` and the cursor stays.
    /// A record that fails to decode is passed over: the following call
    /// decodes the slot behind it.
    pub fn next(&mut self) -> (r: Result<Option<Entry<'a>>, BdbError>)
        ensures
            entry_slot_view(r) == spec_entry_at(old(self).frame(), old(self).position()),
            final(self).frame() == old(self).frame(),
            final(self).position() == if r matches Ok(None) {
                old(self).position()
            } else {
                old(self).position() + 1
            },
    {
        let entry: Result<Option<Entry<'a>>, BdbError> = self.page.get_entry(self.current);
        match entry {
            Ok(None) => {},
            _ => {
                self.current += 1;
            },
        }
        entry
    }
}

} // verus!
