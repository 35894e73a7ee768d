//! The page store: the bytes of one file, cut into frames.
//!
//! The store owns the file as a single buffer that never changes. Frame `i`
//! is the range of `PAGE_SIZE` bytes that starts at `i * PAGE_SIZE`; bytes
//! behind the last whole frame belong to no page.

use crate::entry::{Entry, EntryView};
use crate::error::BdbError;
use crate::lookup::{bytes_slot_view, find_child, find_root, find_value, spec_descend, spec_get};
use crate::page::{PAGE_SIZE, Page, page_result_view, spec_header, spec_page};
use crate::walk::{LoneRecord, SLOT_LIMIT, Walk, lemma_followed_by_nothing};
use crate::walk::{lemma_followed_by_one_more, lemma_step_progress, pair_view, pairs_result_view};
use crate::walk::{pairs_view, spec_followed_by, spec_walk, spec_walk_from, spec_walk_with};
use vstd::prelude::*;

verus! {

/// The number of whole frames in a file of these bytes.
pub open spec fn spec_page_count(buf: Seq<u8>) -> nat {
    buf.len() / PAGE_SIZE as nat
}

/// Whether the file holds the whole of frame `index`.
pub open spec fn spec_has_page(buf: Seq<u8>, index: int) -> bool {
    0 <= index && (index + 1) * PAGE_SIZE <= buf.len()
}

/// The bytes of frame `index`.
pub open spec fn spec_frame(buf: Seq<u8>, index: int) -> Seq<u8> {
    buf.subrange(index * PAGE_SIZE, index * PAGE_SIZE + PAGE_SIZE)
}

/// The page in frame `index`: absent behind the last whole frame, an error
/// where the header of the frame does not decode.
pub open spec fn spec_page_at(buf: Seq<u8>, index: int) -> Result<Option<Seq<u8>>, BdbError> {
    if spec_has_page(buf, index) {
        match spec_header(spec_frame(buf, index)) {
            Ok(_) => Ok(Some(spec_frame(buf, index))),
            Err(e) => Err(e),
        }
    } else {
        Ok(None)
    }
}

/// The outcome of fetching a page that may be absent, over views.
pub open spec fn page_slot_view<'a>(r: Result<Option<Page<'a>>, BdbError>) -> Result<
    Option<Seq<u8>>,
    BdbError,
> {
    match r {
        Ok(Some(p)) => Ok(Some(p@)),
        Ok(None) => Ok(None),
        Err(e) => Err(e),
    }
}

/// The frames that a file holds are those below its page count.
pub proof fn lemma_has_page(buf: Seq<u8>, index: int)
    ensures
        spec_has_page(buf, index) <==> 0 <= index < spec_page_count(buf),
        spec_has_page(buf, index) ==> spec_frame(buf, index).len() == PAGE_SIZE,
{
}

/// Distinct frames do not overlap, and every frame lies inside the buffer.
pub proof fn lemma_frames_partition(buf: Seq<u8>, i: int, j: int)
    requires
        spec_has_page(buf, i),
        spec_has_page(buf, j),
        i < j,
    ensures
        0 <= i * PAGE_SIZE,
        i * PAGE_SIZE + PAGE_SIZE <= j * PAGE_SIZE,
        j * PAGE_SIZE + PAGE_SIZE <= buf.len(),
{
}

/// The bytes of one file.
pub struct DB {
    buffer: Vec<u8>,
}

impl View for DB {
    type V = Seq<u8>;

    /// The bytes of the file.
    closed spec fn view(&self) -> Seq<u8> {
        self.buffer@
    }
}

impl DB {
    /// Makes a store of the bytes of a file, as whoever read the file hands
    /// them over: `None` stands for a file that could not be read. No byte is
    /// looked at: a page is decoded when it is asked for.
    pub fn open(bytes: Option<Vec<u8>>) -> (r: Result<DB, BdbError>)
        ensures
            match bytes {
                Some(bytes) => r matches Ok(db) && db@ == bytes@,
                None => r matches Err(e) && e == BdbError::IoFailure,
            },
    {
        match bytes {
            Some(buffer) => Ok(DB { buffer }),
            None => Err(BdbError::IoFailure),
        }
    }

    /// Gives the store up.
    pub fn close(self) {
    }

    /// The number of pages of the file.
    pub fn page_count(&self) -> (r: usize)
        ensures
            r == spec_page_count(self@),
            r * PAGE_SIZE <= usize::MAX,
    {
        self.buffer.len() / PAGE_SIZE
    }

    /// The bytes of frame `index`.
    fn frame(&self, index: usize) -> (r: &[u8])
        requires
            spec_has_page(self@, index as int),
        ensures
            r@ == spec_frame(self@, index as int),
            r@.len() == PAGE_SIZE,
    {
        let bytes: &[u8] = self.buffer.as_slice();
        assert((index + 1) * PAGE_SIZE <= bytes.len());
        let start: usize = index * PAGE_SIZE;
        let end: usize = start + PAGE_SIZE;
        &bytes[start..end]
    }

    /// Decodes the page in frame `index`, if the file holds that frame.
    pub fn page(&self, index: usize) -> (r: Result<Option<Page<'_>>, BdbError>)
        ensures
            page_slot_view(r) == spec_page_at(self@, index as int),
    {
        if index >= self.page_count() {
            return Ok(None);
        }
        let frame: &[u8] = self.frame(index);
        assert(frame@.subrange(0, PAGE_SIZE as int) =~= frame@);
        match Page::new(frame) {
            Ok(page) => Ok(Some(page)),
            Err(e) => Err(e),
        }
    }

    /// Looks `key` up and returns the value stored with it, if there is one.
    pub fn get(&self, key: &[u8]) -> (r: Result<Option<&[u8]>, BdbError>)
        ensures
            bytes_slot_view(r) == spec_get(self@, key@),
    {
        let root: u32 = match find_root(self) {
            Err(e) => {
                return Err(e);
            },
            Ok(None) => {
                return Ok(None);
            },
            Ok(Some(root)) => root,
        };
        let mut current_page: usize = root as usize;
        let mut fuel: usize = self.page_count();
        loop
            invariant
                spec_descend(self@, current_page as int, key@, fuel as nat) == spec_get(
                    self@,
                    key@,
                ),
            decreases fuel,
        {
            if fuel == 0 {
                return Err(BdbError::Cycle);
            }
            let page: Page<'_> = match self.page(current_page) {
                Err(e) => {
                    return Err(e);
                },
                Ok(None) => {
                    return Ok(None);
                },
                Ok(Some(page)) => page,
            };
            if page.is_internal() {
                match find_child(&page, key) {
                    Err(e) => {
                        return Err(e);
                    },
                    Ok(None) => {
                        return Ok(None);
                    },
                    Ok(Some(child)) => {
                        current_page = child as usize;
                        fuel -= 1;
                    },
                }
            } else {
                return find_value(&page, key);
            }
        }
    }

    /// The frames of the file, in order.
    pub fn raw_pages(&self) -> (r: Vec<&[u8]>)
        ensures
            r@.len() == spec_page_count(self@),
            forall|i: int| 0 <= i < r@.len() ==> (#[trigger] r@[i])@ == spec_frame(self@, i),
    {
        let count: usize = self.page_count();
        let mut frames: Vec<&[u8]> = Vec::new();
        let mut index: usize = 0;
        while index < count
            invariant
                index <= count,
                count == spec_page_count(self@),
                frames@.len() == index,
                forall|i: int|
                    0 <= i < index ==> (#[trigger] frames@[i])@ == spec_frame(self@, i),
            decreases count - index,
        {
            frames.push(self.frame(index));
            index += 1;
        }
        frames
    }

    /// The pages of the file, in order: for every frame the page, or why its
    /// header does not decode.
    pub fn pages(&self) -> (r: Vec<Result<Page<'_>, BdbError>>)
        ensures
            r@.len() == spec_page_count(self@),
            forall|i: int|
                0 <= i < r@.len() ==> page_result_view(#[trigger] r@[i]) == spec_page(
                    spec_frame(self@, i),
                ),
    {
        let count: usize = self.page_count();
        let mut pages: Vec<Result<Page<'_>, BdbError>> = Vec::new();
        let mut index: usize = 0;
        while index < count
            invariant
                index <= count,
                count == spec_page_count(self@),
                pages@.len() == index,
                forall|i: int|
                    0 <= i < index ==> page_result_view(#[trigger] pages@[i]) == spec_page(
                        spec_frame(self@, i),
                    ),
            decreases count - index,
        {
            pages.push(Page::new(self.frame(index)));
            index += 1;
        }
        pages
    }

    /// The key/value pairs of the file in the order of the leaf chain, or the
    /// first failure that the walk meets. A lone record is passed over.
    pub fn walk(&self) -> (r: Result<Vec<(Entry<'_>, Entry<'_>)>, BdbError>)
        ensures
            pairs_result_view(r) == spec_walk(self@),
    {
        self.walk_with(LoneRecord::PassOver)
    }

    /// The key/value pairs of the file in the order of the leaf chain, or the
    /// first failure that the walk meets, with lone records treated as `lone`
    /// says.
    pub fn walk_with(&self, lone: LoneRecord) -> (r: Result<Vec<(Entry<'_>, Entry<'_>)>, BdbError>)
        ensures
            pairs_result_view(r) == spec_walk_with(self@, lone),
    {
        let mut walker: Walk<'_> = Walk::with_policy(self, lone);
        let mut pairs: Vec<(Entry<'_>, Entry<'_>)> = Vec::new();
        proof {
            assert(pairs_view(pairs@) =~= Seq::<(EntryView, EntryView)>::empty());
            lemma_followed_by_nothing(pairs_view(pairs@), spec_walk_with(self@, lone));
        }
        loop
            invariant
                walker.file() == self@,
                spec_walk_with(self@, lone) == spec_followed_by(
                    pairs_view(pairs@),
                    spec_walk_from(self@, walker@),
                ),
            decreases walker@.budget, SLOT_LIMIT - walker@.entry,
        {
            let ghost before = walker@;
            let ghost seen = pairs_view(pairs@);
            match walker.next() {
                Err(e) => {
                    return Err(e);
                },
                Ok(None) => {
                    proof {
                        lemma_followed_by_nothing(seen, spec_walk_with(self@, lone));
                    }
                    return Ok(pairs);
                },
                Ok(Some(pair)) => {
                    pairs.push(pair);
                    proof {
                        lemma_step_progress(self@, before);
                        assert(pairs_view(pairs@) =~= seen.push(pair_view(pair)));
                        lemma_followed_by_one_more(
                            seen,
                            pair_view(pair),
                            spec_walk_from(self@, walker@),
                        );
                    }
                },
            }
        }
    }
}

} // verus!
