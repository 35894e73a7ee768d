//! Records: the variable-length items that a B-tree page stores.
//!
//! A leaf page holds key/data records, an internal page holds records that
//! pair a separator key with a child page. A decoded record borrows its
//! payload from the buffer it was cut from.

use crate::bytes::{le_u16, le_u32, spec_le_u16, spec_le_u32};
use crate::error::BdbError;
use vstd::prelude::*;

verus! {

/// Bytes before the payload of a key/data record: length (2) and marker (1).
pub const KEYDATA_HEADER: usize = 3;

/// Bytes before the payload of an internal record: length (2), sub-type (1),
/// one unused byte, child page number (4) and record count (4).
pub const INTERNAL_HEADER: usize = 12;

/// The record marker that every key/data record carries at offset 2.
pub const KEYDATA_MARKER: u8 = 1;

/// One record of a B-tree page.
#[derive(Debug, Clone, Copy, PartialEq, Eq)]
pub enum Entry<'a> {
    /// A key or a value of a leaf page.
    KeyData { data: &'a [u8] },
    /// A separator key of an internal page, with the page that holds the keys
    /// from it onwards and the number of records below that page.
    Internal { ty: u8, pgno: u32, nrecs: u32, data: &'a [u8] },
}

/// What a record holds, with its payload as a sequence of bytes.
pub enum EntryView {
    KeyData { data: Seq<u8> },
    Internal { ty: u8, pgno: u32, nrecs: u32, data: Seq<u8> },
}

impl EntryView {
    /// The payload: the key or value of a key/data record, the separator key
    /// of an internal record.
    pub open spec fn payload(self) -> Seq<u8> {
        match self {
            EntryView::KeyData { data } => data,
            EntryView::Internal { data, .. } => data,
        }
    }
}

impl<'a> View for Entry<'a> {
    type V = EntryView;

    open spec fn view(&self) -> EntryView {
        match *self {
            Entry::KeyData { data } => EntryView::KeyData { data: data@ },
            Entry::Internal { ty, pgno, nrecs, data } => EntryView::Internal {
                ty,
                pgno,
                nrecs,
                data: data@,
            },
        }
    }
}

/// The outcome of decoding one record, over views.
pub open spec fn entry_result_view<'a>(r: Result<Entry<'a>, BdbError>) -> Result<
    EntryView,
    BdbError,
> {
    match r {
        Ok(e) => Ok(e@),
        Err(e) => Err(e),
    }
}

/// The outcome of decoding the record in a slot that may be absent, over views.
pub open spec fn entry_slot_view<'a>(r: Result<Option<Entry<'a>>, BdbError>) -> Result<
    Option<EntryView>,
    BdbError,
> {
    match r {
        Ok(Some(e)) => Ok(Some(e@)),
        Ok(None) => Ok(None),
        Err(e) => Err(e),
    }
}

/// The key/data record that starts `buf`.
///
/// The 16-bit length at offset 0 is the offset at which the payload ends; the
/// payload starts behind the marker, at offset 3.
pub open spec fn spec_keydata(buf: Seq<u8>) -> Result<EntryView, BdbError> {
    let end: int = spec_le_u16(buf, 0) as int;
    if buf.len() < KEYDATA_HEADER {
        Err(BdbError::Truncated)
    } else if buf[2] != KEYDATA_MARKER {
        Err(BdbError::BadRecordMarker)
    } else if end < KEYDATA_HEADER || end > buf.len() {
        Err(BdbError::Truncated)
    } else {
        Ok(EntryView::KeyData { data: buf.subrange(KEYDATA_HEADER as int, end) })
    }
}

/// The internal record that starts `buf`.
///
/// The 16-bit length at offset 0 is the length of the separator key, which
/// starts at offset 12.
pub open spec fn spec_internal(buf: Seq<u8>) -> Result<EntryView, BdbError> {
    let end: int = INTERNAL_HEADER + spec_le_u16(buf, 0);
    if buf.len() < INTERNAL_HEADER {
        Err(BdbError::Truncated)
    } else if end > buf.len() {
        Err(BdbError::Truncated)
    } else {
        Ok(
            EntryView::Internal {
                ty: buf[2],
                pgno: spec_le_u32(buf, 4),
                nrecs: spec_le_u32(buf, 8),
                data: buf.subrange(INTERNAL_HEADER as int, end),
            },
        )
    }
}

impl<'a> Entry<'a> {
    /// Decodes the key/data record at the start of `buffer`.
    pub fn new_keydata(buffer: &'a [u8]) -> (r: Result<Entry<'a>, BdbError>)
        ensures
            entry_result_view(r) == spec_keydata(buffer@),
    {
        if buffer.len() < KEYDATA_HEADER {
            return Err(BdbError::Truncated);
        }
        if buffer[2] != KEYDATA_MARKER {
            return Err(BdbError::BadRecordMarker);
        }
        let end: usize = le_u16(buffer, 0) as usize;
        if end < KEYDATA_HEADER || end > buffer.len() {
            return Err(BdbError::Truncated);
        }
        Ok(Entry::KeyData { data: &buffer[KEYDATA_HEADER..end] })
    }

    /// Decodes the internal record at the start of `buffer`.
    pub fn new_internal(buffer: &'a [u8]) -> (r: Result<Entry<'a>, BdbError>)
        ensures
            entry_result_view(r) == spec_internal(buffer@),
    {
        if buffer.len() < INTERNAL_HEADER {
            return Err(BdbError::Truncated);
        }
        let length: usize = le_u16(buffer, 0) as usize;
        let end: usize = INTERNAL_HEADER + length;
        if end > buffer.len() {
            return Err(BdbError::Truncated);
        }
        let ty: u8 = buffer[2];
        let pgno: u32 = le_u32(buffer, 4);
        let nrecs: u32 = le_u32(buffer, 8);
        Ok(Entry::Internal { ty, pgno, nrecs, data: &buffer[INTERNAL_HEADER..end] })
    }

    /// The payload of the record.
    pub fn data(&self) -> (r: &'a [u8])
        ensures
            r@ == self@.payload(),
    {
        match *self {
            Entry::KeyData { data } => data,
            Entry::Internal { data, .. } => data,
        }
    }
}

} // verus!
