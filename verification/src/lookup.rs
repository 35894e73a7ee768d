//! Point lookup: the descent from the root to the leaf that may hold a key.
//!
//! The lookup finds the metadata page, starts at the root that it names and
//! goes down through internal pages, on each one into the child of the last
//! record whose separator key is at most the key looked for. On the page where
//! the descent ends it reads the records in pairs of a key and its value.

use crate::database::{DB, spec_frame, spec_has_page, spec_page_at, spec_page_count};
use crate::entry::{Entry, EntryView};
use crate::error::BdbError;
use crate::order::{bytes_eq, bytes_le, spec_lex_le};
use crate::page::{Page, PageHeader, PageHeaderView, spec_entry_at, spec_entry_count, spec_header};
use crate::page::spec_is_internal;
use vstd::prelude::*;

verus! {

/// The outcome of a lookup, over views.
pub open spec fn bytes_slot_view<'a>(r: Result<Option<&'a [u8]>, BdbError>) -> Result<
    Option<Seq<u8>>,
    BdbError,
> {
    match r {
        Ok(Some(bytes)) => Ok(Some(bytes@)),
        Ok(None) => Ok(None),
        Err(e) => Err(e),
    }
}

/// The root that the first metadata page among the frames from `from` on
/// names. A frame before it whose header does not decode ends the search.
pub open spec fn spec_find_root(buf: Seq<u8>, from: int) -> Result<Option<u32>, BdbError>
    decreases spec_page_count(buf) - from,
{
    if !spec_has_page(buf, from) {
        Ok(None)
    } else {
        match spec_header(spec_frame(buf, from)) {
            Err(e) => Err(e),
            Ok(PageHeaderView::Metadata { root, .. }) => Ok(Some(root)),
            Ok(PageHeaderView::BTree { .. }) => spec_find_root(buf, from + 1),
        }
    }
}

/// The child to go down into for `key`, judged by the first `upto` records
/// of a page: the child of the last of them whose separator key is at most
/// `key`. The first record that does not decode ends the search.
pub open spec fn spec_find_child(frame: Seq<u8>, key: Seq<u8>, upto: int) -> Result<
    Option<u32>,
    BdbError,
>
    decreases upto,
{
    if upto <= 0 {
        Ok(None)
    } else {
        match spec_find_child(frame, key, upto - 1) {
            Err(e) => Err(e),
            Ok(before) => match spec_entry_at(frame, upto - 1) {
                Err(e) => Err(e),
                Ok(Some(EntryView::Internal { pgno, data, .. })) => if spec_lex_le(data, key) {
                    Ok(Some(pgno))
                } else {
                    Ok(before)
                },
                Ok(_) => Ok(before),
            },
        }
    }
}

/// The slot of the key equal to `key` among the key slots `from`,
/// `from + 2`, ... of a page. The search ends at the first key that is `key`
/// or comes behind it, and at the first key that does not decode.
pub open spec fn spec_find_key(frame: Seq<u8>, key: Seq<u8>, from: int) -> Result<
    Option<int>,
    BdbError,
>
    decreases spec_entry_count(frame) + 1 - from,
{
    if from < 0 || from >= spec_entry_count(frame) {
        Ok(None)
    } else {
        match spec_entry_at(frame, from) {
            Err(e) => Err(e),
            Ok(None) => Ok(None),
            Ok(Some(entry)) => if entry.payload() == key {
                Ok(Some(from))
            } else if spec_lex_le(key, entry.payload()) {
                Ok(None)
            } else {
                spec_find_key(frame, key, from + 2)
            },
        }
    }
}

/// The value stored with `key` on a page: the record in the slot behind the
/// key's.
pub open spec fn spec_find_value(frame: Seq<u8>, key: Seq<u8>) -> Result<
    Option<Seq<u8>>,
    BdbError,
> {
    match spec_find_key(frame, key, 0) {
        Err(e) => Err(e),
        Ok(None) => Ok(None),
        Ok(Some(slot)) => match spec_entry_at(frame, slot + 1) {
            Err(e) => Err(e),
            Ok(None) => Ok(None),
            Ok(Some(entry)) => Ok(Some(entry.payload())),
        },
    }
}

/// The value for `key` below page `page`, fetching at most `fuel` pages.
///
/// A page that the file does not hold yields no value. An internal page
/// sends the descent into one child, or yields no value where every
/// separator key comes behind `key`. Any other page is searched for the key
/// itself.
pub open spec fn spec_descend(buf: Seq<u8>, page: int, key: Seq<u8>, fuel: nat) -> Result<
    Option<Seq<u8>>,
    BdbError,
>
    decreases fuel,
{
    if fuel == 0 {
        Err(BdbError::Cycle)
    } else {
        match spec_page_at(buf, page) {
            Err(e) => Err(e),
            Ok(None) => Ok(None),
            Ok(Some(frame)) => if spec_is_internal(frame) {
                match spec_find_child(frame, key, spec_entry_count(frame) as int) {
                    Err(e) => Err(e),
                    Ok(None) => Ok(None),
                    Ok(Some(child)) => spec_descend(buf, child as int, key, (fuel - 1) as nat),
                }
            } else {
                spec_find_value(frame, key)
            },
        }
    }
}

/// The value that a file of these bytes stores for `key`.
///
/// A descent through distinct pages fetches no more pages than the file
/// has, so the lookup stops with `Cycle` only where the links between the
/// pages lead back to a page already seen.
pub open spec fn spec_get(buf: Seq<u8>, key: Seq<u8>) -> Result<Option<Seq<u8>>, BdbError> {
    match spec_find_root(buf, 0) {
        Err(e) => Err(e),
        Ok(None) => Ok(None),
        Ok(Some(root)) => spec_descend(buf, root as int, key, spec_page_count(buf)),
    }
}

/// A record that does not decode ends the search for a child, whatever
/// follows it.
pub proof fn lemma_find_child_stops_at_error(
    frame: Seq<u8>,
    key: Seq<u8>,
    at: int,
    upto: int,
    e: BdbError,
)
    requires
        0 <= at < upto,
        spec_find_child(frame, key, at) is Ok,
        spec_entry_at(frame, at) == Err::<Option<EntryView>, BdbError>(e),
    ensures
        spec_find_child(frame, key, upto) == Err::<Option<u32>, BdbError>(e),
    decreases upto,
{
    if at + 1 < upto {
        lemma_find_child_stops_at_error(frame, key, at, upto - 1, e);
    }
}

/// Looks for the metadata page and returns the root that it names.
pub fn find_root(db: &DB) -> (r: Result<Option<u32>, BdbError>)
    ensures
        r == spec_find_root(db@, 0),
{
    let count: usize = db.page_count();
    let mut index: usize = 0;
    while index < count
        invariant
            index <= count,
            count == spec_page_count(db@),
            spec_find_root(db@, index as int) == spec_find_root(db@, 0),
        decreases count - index,
    {
        match db.page(index) {
            Err(e) => {
                return Err(e);
            },
            Ok(None) => {
                return Ok(None);
            },
            Ok(Some(page)) => {
                if let PageHeader::Metadata { root, .. } = page.header() {
                    return Ok(Some(*root));
                }
            },
        }
        index += 1;
    }
    Ok(None)
}

/// Picks the child of an internal page into which the lookup of `key` goes
/// down.
pub fn find_child<'a>(page: &Page<'a>, key: &[u8]) -> (r: Result<Option<u32>, BdbError>)
    ensures
        r == spec_find_child(page@, key@, spec_entry_count(page@) as int),
{
    let count: usize = page.entry_count();
    let mut index: usize = 0;
    let mut child: Option<u32> = None;
    while index < count
        invariant
            index <= count,
            count == spec_entry_count(page@),
            spec_find_child(page@, key@, index as int) == Ok::<Option<u32>, BdbError>(child),
        decreases count - index,
    {
        match page.get_entry(index) {
            Err(e) => {
                proof {
                    lemma_find_child_stops_at_error(page@, key@, index as int, count as int, e);
                }
                return Err(e);
            },
            Ok(Some(Entry::Internal { pgno, data, .. })) => {
                if bytes_le(data, key) {
                    child = Some(pgno);
                }
            },
            Ok(_) => {},
        }
        index += 1;
    }
    Ok(child)
}

/// Searches the key/value pairs of a page for `key`.
pub fn find_value<'a>(page: &Page<'a>, key: &[u8]) -> (r: Result<Option<&'a [u8]>, BdbError>)
    ensures
        bytes_slot_view(r) == spec_find_value(page@, key@),
{
    let count: usize = page.entry_count();
    let mut index: usize = 0;
    while index < count
        invariant
            count == spec_entry_count(page@),
            count <= u16::MAX,
            spec_find_key(page@, key@, index as int) == spec_find_key(page@, key@, 0),
        decreases count + 1 - index,
    {
        match page.get_entry(index) {
            Err(e) => {
                return Err(e);
            },
            Ok(None) => {
                return Ok(None);
            },
            Ok(Some(entry)) => {
                let found: &'a [u8] = entry.data();
                if bytes_eq(found, key) {
                    return match page.get_entry(index + 1) {
                        Err(e) => Err(e),
                        Ok(None) => Ok(None),
                        Ok(Some(value)) => Ok(Some(value.data())),
                    };
                }
                if bytes_le(key, found) {
                    return Ok(None);
                }
            },
        }
        index += 2;
    }
    Ok(None)
}

} // verus!
