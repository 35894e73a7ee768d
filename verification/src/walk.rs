//! The tree walker: every key/value pair of a file, leaf by leaf.
//!
//! The walker holds a position, a page and a slot on it, and starts on slot 0
//! of page 0. Each step first goes down from the page it stands on to a leaf:
//! from the metadata page to the root, from an internal page to the child of
//! its first record. Then it reads the two records at its slot. Where both
//! are there, they are the next pair. Where they are not, the walker moves on
//! to the following sibling and reads there, or ends if there is none.
//!
//! A page with an odd number of records ends on a lone record: a key without
//! its value. What a walker does there is a policy, [`LoneRecord`], that it is
//! given when it is made. Unless told otherwise it passes the record over and
//! leaves the page as it leaves one that has no record left; told to reject,
//! it stops with `Truncated`.
//!
//! Every move from one page to another is paid from a budget of two moves for
//! each page of the file. Links that do not lead in a circle never use it up:
//! a page is entered at most once on the way down and once from a sibling.

use crate::database::{DB, spec_frame, spec_has_page, spec_page_at, spec_page_count};
use crate::entry::{Entry, EntryView};
use crate::error::BdbError;
use crate::page::{LEAF_LEVEL, Page, PageHeader, PageHeaderView, page_result_view, spec_entry_at};
use crate::page::{spec_entry_count, spec_header, spec_is_leaf, spec_next_page_number};
use vstd::prelude::*;

verus! {

/// A bound on the slot of a walker: no page has records at or behind it.
pub const SLOT_LIMIT: usize = 0x1_0000;

/// What a walker does on a page whose last record has no partner: a key
/// without its value.
#[derive(Debug, Clone, Copy, PartialEq, Eq, Structural)]
pub enum LoneRecord {
    /// Takes the page to end before the record and reads on at the following
    /// sibling.
    PassOver,
    /// Stops with `Truncated`: the page ends before the value of its last key.
    Reject,
}

/// The position of a walker, the number of moves that it may still make, and
/// what it does with a lone record.
pub struct WalkState {
    pub page: int,
    pub entry: int,
    pub budget: nat,
    pub lone: LoneRecord,
}

/// Two records, over views.
pub open spec fn pair_view<'a>(pair: (Entry<'a>, Entry<'a>)) -> (EntryView, EntryView) {
    (pair.0@, pair.1@)
}

/// A sequence of pairs of records, over views.
pub open spec fn pairs_view<'a>(pairs: Seq<(Entry<'a>, Entry<'a>)>) -> Seq<(EntryView, EntryView)> {
    Seq::new(pairs.len(), |i: int| pair_view(pairs[i]))
}

/// The outcome of a whole walk, over views.
pub open spec fn pairs_result_view<'a>(r: Result<Vec<(Entry<'a>, Entry<'a>)>, BdbError>) -> Result<
    Seq<(EntryView, EntryView)>,
    BdbError,
> {
    match r {
        Ok(pairs) => Ok(pairs_view(pairs@)),
        Err(e) => Err(e),
    }
}

/// The number of moves that a walk over a file of these bytes may make.
pub open spec fn spec_budget(buf: Seq<u8>) -> nat {
    2 * spec_page_count(buf)
}

/// Where every walk starts.
pub open spec fn spec_start(buf: Seq<u8>, lone: LoneRecord) -> WalkState {
    WalkState { page: 0, entry: 0, budget: spec_budget(buf), lone }
}

/// The page that a walker stands on. A walker cannot stand on a page that
/// the file does not hold.
pub open spec fn spec_current_page(buf: Seq<u8>, page: int) -> Result<Seq<u8>, BdbError> {
    match spec_page_at(buf, page) {
        Err(e) => Err(e),
        Ok(None) => Err(BdbError::Truncated),
        Ok(Some(frame)) => Ok(frame),
    }
}

/// The page below a page on the way to the leftmost leaf: the root for the
/// metadata page, the child of the first record for an internal page, none
/// for a leaf. An internal page without a first record leads nowhere.
pub open spec fn spec_way_down(frame: Seq<u8>) -> Result<Option<u32>, BdbError> {
    match spec_header(frame) {
        Err(e) => Err(e),
        Ok(PageHeaderView::Metadata { root, .. }) => Ok(Some(root)),
        Ok(PageHeaderView::BTree { level, .. }) => if level == LEAF_LEVEL {
            Ok(None)
        } else {
            match spec_entry_at(frame, 0) {
                Err(e) => Err(e),
                Ok(Some(EntryView::Internal { pgno, .. })) => Ok(Some(pgno)),
                Ok(_) => Err(BdbError::Truncated),
            }
        },
    }
}

/// The state of a walker after it has gone down to a leaf. On a leaf it
/// stays as it is; every page further down is entered at slot 0.
pub open spec fn spec_move_to_leaf(buf: Seq<u8>, st: WalkState) -> Result<WalkState, BdbError>
    decreases st.budget,
{
    match spec_current_page(buf, st.page) {
        Err(e) => Err(e),
        Ok(frame) => match spec_way_down(frame) {
            Err(e) => Err(e),
            Ok(None) => Ok(st),
            Ok(Some(child)) => if st.budget == 0 {
                Err(BdbError::Cycle)
            } else {
                spec_move_to_leaf(
                    buf,
                    WalkState {
                        page: child as int,
                        entry: 0,
                        budget: (st.budget - 1) as nat,
                        ..st
                    },
                )
            },
        },
    }
}

/// The records in slots `slot` and `slot + 1` of a page, where both are
/// there.
pub open spec fn spec_pair_at(frame: Seq<u8>, slot: int) -> Result<
    Option<(EntryView, EntryView)>,
    BdbError,
> {
    match spec_entry_at(frame, slot) {
        Err(e) => Err(e),
        Ok(first) => match spec_entry_at(frame, slot + 1) {
            Err(e) => Err(e),
            Ok(second) => match (first, second) {
                (Some(a), Some(b)) => Ok(Some((a, b))),
                _ => Ok(None),
            },
        },
    }
}

/// Whether slot `slot` of a page holds a lone record: a record without a
/// record behind it.
pub open spec fn spec_lone_at(frame: Seq<u8>, slot: int) -> bool {
    spec_entry_at(frame, slot) matches Ok(Some(_)) && spec_entry_at(frame, slot + 1) matches Ok(
        None,
    )
}

/// The next pair from the position of the walker on, following siblings, and
/// the state behind that pair; no pair and the state on the last page where
/// the siblings end. A lone record at the slot of the walker is passed over
/// or ends the walk with a failure, as the walker has been told.
pub open spec fn spec_produce(buf: Seq<u8>, st: WalkState) -> Result<
    (Option<(EntryView, EntryView)>, WalkState),
    BdbError,
>
    decreases st.budget,
{
    match spec_current_page(buf, st.page) {
        Err(e) => Err(e),
        Ok(frame) => match spec_pair_at(frame, st.entry) {
            Err(e) => Err(e),
            Ok(Some(pair)) => Ok(
                (Some(pair), WalkState { entry: st.entry + 2, ..st }),
            ),
            Ok(None) => if st.lone == LoneRecord::Reject && spec_lone_at(frame, st.entry) {
                Err(BdbError::Truncated)
            } else {
                match spec_next_page_number(frame) {
                    None => Ok((None, st)),
                    Some(next) => if st.budget == 0 {
                        Err(BdbError::Cycle)
                    } else {
                        spec_produce(
                            buf,
                            WalkState {
                                page: next as int,
                                entry: 0,
                                budget: (st.budget - 1) as nat,
                                ..st
                            },
                        )
                    },
                }
            },
        },
    }
}

/// One step of a walker: down to a leaf, then on to the next pair.
#[verifier::opaque]
pub open spec fn spec_step(buf: Seq<u8>, st: WalkState) -> Result<
    (Option<(EntryView, EntryView)>, WalkState),
    BdbError,
> {
    match spec_move_to_leaf(buf, st) {
        Err(e) => Err(e),
        Ok(leaf) => spec_produce(buf, leaf),
    }
}

/// Whether a walker in state `after` is further on than one in state
/// `before`: it has made a move, or it stands behind a further pair of the
/// same page.
pub open spec fn spec_further(before: WalkState, after: WalkState) -> bool {
    ||| after.budget < before.budget
    ||| (after.budget == before.budget && before.entry < after.entry <= SLOT_LIMIT)
}

/// Going down to a leaf makes a move or leaves the walker as it is.
pub proof fn lemma_move_to_leaf_progress(buf: Seq<u8>, st: WalkState)
    ensures
        spec_move_to_leaf(buf, st) matches Ok(leaf) ==> leaf == st || leaf.budget < st.budget,
    decreases st.budget,
{
    if let Ok(frame) = spec_current_page(buf, st.page) {
        if let Ok(Some(child)) = spec_way_down(frame) {
            if st.budget > 0 {
                lemma_move_to_leaf_progress(
                    buf,
                    WalkState {
                        page: child as int,
                        entry: 0,
                        budget: (st.budget - 1) as nat,
                        ..st
                    },
                );
            }
        }
    }
}

/// A pair is found behind a move or at the slot of the walker, which then
/// lies within the page.
pub proof fn lemma_produce_progress(buf: Seq<u8>, st: WalkState)
    ensures
        spec_produce(buf, st) matches Ok((Some(_), after)) ==> spec_further(st, after),
        spec_produce(buf, st) matches Ok((None, after)) ==> after.budget <= st.budget,
    decreases st.budget,
{
    if let Ok(frame) = spec_current_page(buf, st.page) {
        if let Ok(None) = spec_pair_at(frame, st.entry) {
            if let Some(next) = spec_next_page_number(frame) {
                if st.budget > 0 {
                    lemma_produce_progress(
                        buf,
                        WalkState {
                            page: next as int,
                            entry: 0,
                            budget: (st.budget - 1) as nat,
                            ..st
                        },
                    );
                }
            }
        }
    }
}

/// A step that yields a pair takes the walker further on.
pub proof fn lemma_step_progress(buf: Seq<u8>, st: WalkState)
    ensures
        spec_step(buf, st) matches Ok((Some(_), after)) ==> spec_further(st, after),
{
    reveal(spec_step);
    lemma_move_to_leaf_progress(buf, st);
    if let Ok(leaf) = spec_move_to_leaf(buf, st) {
        lemma_produce_progress(buf, leaf);
    }
}

/// On a leaf with an odd number of records, a walker that is told to pass
/// lone records over and stands on the lone record behind the last pair
/// reads on at the start of the following sibling, for one move, and yields
/// nothing where the leaf has no sibling.
pub proof fn lemma_lone_record_is_passed_over(buf: Seq<u8>, page: int, budget: nat)
    requires
        spec_has_page(buf, page),
        spec_is_leaf(spec_frame(buf, page)),
        spec_entry_count(spec_frame(buf, page)) % 2 == 1,
        spec_entry_at(spec_frame(buf, page), spec_entry_count(spec_frame(buf, page)) - 1) is Ok,
    ensures
        spec_step(
            buf,
            WalkState {
                page,
                entry: spec_entry_count(spec_frame(buf, page)) - 1,
                budget,
                lone: LoneRecord::PassOver,
            },
        ) == match spec_next_page_number(spec_frame(buf, page)) {
            None => Ok(
                (
                    None,
                    WalkState {
                        page,
                        entry: spec_entry_count(spec_frame(buf, page)) - 1,
                        budget,
                        lone: LoneRecord::PassOver,
                    },
                ),
            ),
            Some(next) => if budget == 0 {
                Err(BdbError::Cycle)
            } else {
                spec_produce(
                    buf,
                    WalkState {
                        page: next as int,
                        entry: 0,
                        budget: (budget - 1) as nat,
                        lone: LoneRecord::PassOver,
                    },
                )
            },
        },
{
    reveal(spec_step);
    let frame: Seq<u8> = spec_frame(buf, page);
    let here = WalkState {
        page,
        entry: spec_entry_count(frame) - 1,
        budget,
        lone: LoneRecord::PassOver,
    };
    assert(spec_current_page(buf, page) == Ok::<Seq<u8>, BdbError>(frame));
    assert(spec_way_down(frame) == Ok::<Option<u32>, BdbError>(None));
    assert(spec_move_to_leaf(buf, here) == Ok::<WalkState, BdbError>(here));
    assert(spec_pair_at(frame, here.entry) == Ok::<Option<(EntryView, EntryView)>, BdbError>(
        None,
    ));
}

/// On a leaf with an odd number of records, a walker that is told to reject
/// lone records and stands on the lone record behind the last pair stops
/// with `Truncated`.
pub proof fn lemma_lone_record_is_rejected(buf: Seq<u8>, page: int, budget: nat)
    requires
        spec_has_page(buf, page),
        spec_is_leaf(spec_frame(buf, page)),
        spec_entry_count(spec_frame(buf, page)) % 2 == 1,
        spec_entry_at(spec_frame(buf, page), spec_entry_count(spec_frame(buf, page)) - 1) is Ok,
    ensures
        spec_step(
            buf,
            WalkState {
                page,
                entry: spec_entry_count(spec_frame(buf, page)) - 1,
                budget,
                lone: LoneRecord::Reject,
            },
        ) == Err::<(Option<(EntryView, EntryView)>, WalkState), BdbError>(BdbError::Truncated),
{
    reveal(spec_step);
    let frame: Seq<u8> = spec_frame(buf, page);
    let here = WalkState {
        page,
        entry: spec_entry_count(frame) - 1,
        budget,
        lone: LoneRecord::Reject,
    };
    assert(spec_current_page(buf, page) == Ok::<Seq<u8>, BdbError>(frame));
    assert(spec_way_down(frame) == Ok::<Option<u32>, BdbError>(None));
    assert(spec_move_to_leaf(buf, here) == Ok::<WalkState, BdbError>(here));
    assert(spec_lone_at(frame, here.entry));
}

/// The pairs `first`, followed by the pairs of the rest of a walk where that
/// rest does not fail.
pub open spec fn spec_followed_by(
    first: Seq<(EntryView, EntryView)>,
    rest: Result<Seq<(EntryView, EntryView)>, BdbError>,
) -> Result<Seq<(EntryView, EntryView)>, BdbError> {
    match rest {
        Ok(rest) => Ok(first + rest),
        Err(e) => Err(e),
    }
}

/// Nothing, followed by the rest of a walk, is that rest; and pairs followed
/// by nothing are those pairs.
pub proof fn lemma_followed_by_nothing(
    first: Seq<(EntryView, EntryView)>,
    rest: Result<Seq<(EntryView, EntryView)>, BdbError>,
)
    ensures
        spec_followed_by(Seq::empty(), rest) == rest,
        spec_followed_by(first, Ok(Seq::empty())) == Ok::<Seq<(EntryView, EntryView)>, BdbError>(
            first,
        ),
{
    if let Ok(pairs) = rest {
        assert(Seq::<(EntryView, EntryView)>::empty() + pairs =~= pairs);
    }
    assert(first + Seq::<(EntryView, EntryView)>::empty() =~= first);
}

/// Pairs, followed by one more pair and the rest of a walk, are those pairs
/// and the one more, followed by that rest.
pub proof fn lemma_followed_by_one_more(
    first: Seq<(EntryView, EntryView)>,
    pair: (EntryView, EntryView),
    rest: Result<Seq<(EntryView, EntryView)>, BdbError>,
)
    ensures
        spec_followed_by(first, spec_followed_by(seq![pair], rest)) == spec_followed_by(
            first.push(pair),
            rest,
        ),
{
    if let Ok(pairs) = rest {
        assert(first + (seq![pair] + pairs) =~= first.push(pair) + pairs);
    }
}

/// The pairs that the steps of a walker yield from state `st` on, up to the
/// first step that yields none.
pub open spec fn spec_walk_from(buf: Seq<u8>, st: WalkState) -> Result<
    Seq<(EntryView, EntryView)>,
    BdbError,
>
    decreases st.budget, SLOT_LIMIT - st.entry,
{
    match spec_step(buf, st) {
        Err(e) => Err(e),
        Ok((None, _)) => Ok(Seq::empty()),
        Ok((Some(pair), after)) => {
            proof {
                lemma_step_progress(buf, st);
            }
            spec_followed_by(seq![pair], spec_walk_from(buf, after))
        },
    }
}

/// The pairs of a whole walk over a file of these bytes by a walker that
/// treats lone records as `lone` says.
pub open spec fn spec_walk_with(buf: Seq<u8>, lone: LoneRecord) -> Result<
    Seq<(EntryView, EntryView)>,
    BdbError,
> {
    spec_walk_from(buf, spec_start(buf, lone))
}

/// The pairs of a whole walk over a file of these bytes by a walker that
/// passes lone records over.
pub open spec fn spec_walk(buf: Seq<u8>) -> Result<Seq<(EntryView, EntryView)>, BdbError> {
    spec_walk_with(buf, LoneRecord::PassOver)
}

/// The state of a walker on slot `entry` of page `page` with `budget` moves
/// left.
pub open spec fn spec_state(
    page: usize,
    entry: usize,
    budget: usize,
    lone: LoneRecord,
) -> WalkState {
    WalkState { page: page as int, entry: entry as int, budget: budget as nat, lone }
}

/// The outcome of a step, over views.
pub open spec fn pair_slot_view<'a>(pair: Option<(Entry<'a>, Entry<'a>)>) -> Option<
    (EntryView, EntryView),
> {
    match pair {
        Some(pair) => Some(pair_view(pair)),
        None => None,
    }
}

/// Picks the page below `page` on the way to the leftmost leaf.
pub fn way_down<'a>(page: &Page<'a>) -> (r: Result<Option<u32>, BdbError>)
    ensures
        r == spec_way_down(page@),
{
    match page.header() {
        PageHeader::Metadata { root, .. } => Ok(Some(*root)),
        PageHeader::BTree { level, .. } => {
            if *level == LEAF_LEVEL {
                Ok(None)
            } else {
                match page.get_entry(0) {
                    Err(e) => Err(e),
                    Ok(Some(Entry::Internal { pgno, .. })) => Ok(Some(pgno)),
                    Ok(_) => Err(BdbError::Truncated),
                }
            }
        },
    }
}

/// Decodes the page that a walker stands on.
fn fetch<'a>(db: &'a DB, page: usize) -> (r: Result<Page<'a>, BdbError>)
    ensures
        page_result_view(r) == spec_current_page(db@, page as int),
{
    match db.page(page) {
        Err(e) => Err(e),
        Ok(None) => Err(BdbError::Truncated),
        Ok(Some(page)) => Ok(page),
    }
}

/// Goes down from a position to a leaf.
fn descend<'a>(
    db: &'a DB,
    page: usize,
    entry: usize,
    budget: usize,
    lone: LoneRecord,
) -> (r: Result<
    (usize, usize, usize),
    BdbError,
>)
    requires
        entry <= SLOT_LIMIT,
    ensures
        match r {
            Ok((p, e, b)) => e <= SLOT_LIMIT && spec_move_to_leaf(
                db@,
                spec_state(page, entry, budget, lone),
            ) == Ok::<WalkState, BdbError>(spec_state(p, e, b, lone)),
            Err(x) => spec_move_to_leaf(db@, spec_state(page, entry, budget, lone)) == Err::<
                WalkState,
                BdbError,
            >(x),
        },
{
    let mut at: usize = page;
    let mut slot: usize = entry;
    let mut left: usize = budget;
    loop
        invariant
            slot <= SLOT_LIMIT,
            spec_move_to_leaf(db@, spec_state(at, slot, left, lone)) == spec_move_to_leaf(
                db@,
                spec_state(page, entry, budget, lone),
            ),
        decreases left,
    {
        let current: Page<'a> = match fetch(db, at) {
            Err(e) => {
                return Err(e);
            },
            Ok(current) => current,
        };
        match way_down(&current) {
            Err(e) => {
                return Err(e);
            },
            Ok(None) => {
                return Ok((at, slot, left));
            },
            Ok(Some(child)) => {
                if left == 0 {
                    return Err(BdbError::Cycle);
                }
                at = child as usize;
                slot = 0;
                left -= 1;
            },
        }
    }
}

/// Reads on from a position to the next pair.
fn produce<'a>(
    db: &'a DB,
    page: usize,
    entry: usize,
    budget: usize,
    lone: LoneRecord,
) -> (r: Result<
    (Option<(Entry<'a>, Entry<'a>)>, usize, usize, usize),
    BdbError,
>)
    requires
        entry <= SLOT_LIMIT,
    ensures
        match r {
            Ok((pair, p, e, b)) => e <= SLOT_LIMIT && spec_produce(
                db@,
                spec_state(page, entry, budget, lone),
            ) == Ok::<(Option<(EntryView, EntryView)>, WalkState), BdbError>(
                (pair_slot_view(pair), spec_state(p, e, b, lone)),
            ),
            Err(x) => spec_produce(db@, spec_state(page, entry, budget, lone)) == Err::<
                (Option<(EntryView, EntryView)>, WalkState),
                BdbError,
            >(x),
        },
{
    let mut at: usize = page;
    let mut slot: usize = entry;
    let mut left: usize = budget;
    loop
        invariant
            slot <= SLOT_LIMIT,
            spec_produce(db@, spec_state(at, slot, left, lone)) == spec_produce(
                db@,
                spec_state(page, entry, budget, lone),
            ),
        decreases left,
    {
        let current: Page<'a> = match fetch(db, at) {
            Err(e) => {
                return Err(e);
            },
            Ok(current) => current,
        };
        let first: Option<Entry<'a>> = match current.get_entry(slot) {
            Err(e) => {
                return Err(e);
            },
            Ok(first) => first,
        };
        let second: Option<Entry<'a>> = match current.get_entry(slot + 1) {
            Err(e) => {
                return Err(e);
            },
            Ok(second) => second,
        };
        match (first, second) {
            (Some(key), Some(value)) => {
                return Ok((Some((key, value)), at, slot + 2, left));
            },
            (Some(_), None) => {
                if let LoneRecord::Reject = lone {
                    return Err(BdbError::Truncated);
                }
            },
            _ => {},
        }
        match current.next_page_number() {
            None => {
                return Ok((None, at, slot, left));
            },
            Some(next) => {
                if left == 0 {
                    return Err(BdbError::Cycle);
                }
                at = next as usize;
                slot = 0;
                left -= 1;
            },
        }
    }
}

/// A walker over the key/value pairs of one file.
pub struct Walk<'a> {
    db: &'a DB,
    page: usize,
    entry: usize,
    budget: usize,
    lone: LoneRecord,
}

impl<'a> View for Walk<'a> {
    type V = WalkState;

    /// Where the walker stands and how many moves it has left.
    closed spec fn view(&self) -> WalkState {
        spec_state(self.page, self.entry, self.budget, self.lone)
    }
}

impl<'a> Walk<'a> {
    #[verifier::type_invariant]
    closed spec fn well_formed(self) -> bool {
        self.entry <= SLOT_LIMIT
    }

    /// The bytes of the file that the walker runs over.
    pub closed spec fn file(&self) -> Seq<u8> {
        self.db@
    }

    /// A walker at the start of `db` that passes lone records over.
    pub fn new(db: &'a DB) -> (r: Walk<'a>)
        ensures
            r.file() == db@,
            r@ == spec_start(db@, LoneRecord::PassOver),
    {
        Walk::with_policy(db, LoneRecord::PassOver)
    }

    /// A walker at the start of `db` that treats lone records as `lone`
    /// says.
    pub fn with_policy(db: &'a DB, lone: LoneRecord) -> (r: Walk<'a>)
        ensures
            r.file() == db@,
            r@ == spec_start(db@, lone),
    {
        Walk { db, page: 0, entry: 0, budget: 2 * db.page_count(), lone }
    }

    /// Decodes the page that the walker stands on.
    pub fn current_page(&self) -> (r: Result<Page<'a>, BdbError>)
        ensures
            page_result_view(r) == spec_current_page(self.file(), self@.page),
    {
        fetch(self.db, self.page)
    }

    /// Goes down to a leaf from the page that the walker stands on. Where
    /// that fails the walker stays as it is.
    pub fn move_to_leaf(&mut self) -> (r: Result<(), BdbError>)
        ensures
            final(self).file() == old(self).file(),
            match r {
                Ok(_) => spec_move_to_leaf(old(self).file(), old(self)@) == Ok::<
                    WalkState,
                    BdbError,
                >(final(self)@),
                Err(e) => final(self)@ == old(self)@ && spec_move_to_leaf(
                    old(self).file(),
                    old(self)@,
                ) == Err::<WalkState, BdbError>(e),
            },
    {
        proof {
            use_type_invariant(&*self);
        }
        match descend(self.db, self.page, self.entry, self.budget, self.lone) {
            Err(e) => Err(e),
            Ok((page, entry, budget)) => {
                self.page = page;
                self.entry = entry;
                self.budget = budget;
                Ok(())
            },
        }
    }

    /// Yields the next pair of the walk, or `None` at its end. Where the step
    /// fails the walker stays as it is.
    pub fn next(&mut self) -> (r: Result<Option<(Entry<'a>, Entry<'a>)>, BdbError>)
        ensures
            final(self).file() == old(self).file(),
            match r {
                Ok(pair) => spec_step(old(self).file(), old(self)@) == Ok::<
                    (Option<(EntryView, EntryView)>, WalkState),
                    BdbError,
                >((pair_slot_view(pair), final(self)@)),
                Err(e) => final(self)@ == old(self)@ && spec_step(old(self).file(), old(self)@)
                    == Err::<(Option<(EntryView, EntryView)>, WalkState), BdbError>(e),
            },
    {
        proof {
            use_type_invariant(&*self);
            reveal(spec_step);
        }
        let (page, entry, budget): (usize, usize, usize) = match descend(
            self.db,
            self.page,
            self.entry,
            self.budget,
            self.lone,
        ) {
            Err(e) => {
                return Err(e);
            },
            Ok(leaf) => leaf,
        };
        match produce(self.db, page, entry, budget, self.lone) {
            Err(e) => Err(e),
            Ok((pair, page, entry, budget)) => {
                self.page = page;
                self.entry = entry;
                self.budget = budget;
                Ok(pair)
            },
        }
    }
}

} // verus!
