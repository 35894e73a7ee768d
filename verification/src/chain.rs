//! The walk over a well-formed tree: down to the leftmost leaf, then along
//! the sibling links through every leaf.

use crate::database::{spec_frame, spec_has_page, spec_page_count};
use crate::entry::EntryView;
use crate::error::BdbError;
use crate::page::{spec_entry_count, spec_is_leaf, spec_next_page_number};
use crate::tree::{lemma_record, spec_all_decode, spec_child, spec_flat, spec_leaf_pairs};
use crate::tree::{spec_leaves, spec_leaves_from, spec_level, spec_linked, spec_next};
use crate::tree::{spec_pair_count, spec_pairs, spec_pairs_from, spec_separator, spec_upper};
use crate::tree::spec_wf_subtree;
use crate::walk::{LoneRecord, SLOT_LIMIT, WalkState, spec_current_page, spec_followed_by};
use crate::walk::{spec_move_to_leaf, spec_pair_at, spec_produce, spec_step, spec_walk_from};
use crate::walk::spec_way_down;
use vstd::prelude::*;
use vstd::set_lib::{lemma_int_range, lemma_len_subset, set_int_range};

verus! {

/// A leaf that a walk can read pair by pair: a leaf of the file with an even
/// number of records that all decode.
#[verifier::opaque]
pub open spec fn spec_plain_leaf(buf: Seq<u8>, page: int) -> bool {
    &&& spec_has_page(buf, page)
    &&& spec_is_leaf(spec_frame(buf, page))
    &&& spec_all_decode(spec_frame(buf, page))
    &&& spec_entry_count(spec_frame(buf, page)) % 2 == 0
}

/// The pairs of two runs of leaves, one behind the other, are the pairs of
/// the first run followed by those of the second, from any leaf of the
/// first run on.
pub proof fn lemma_flat_concat(buf: Seq<u8>, a: Seq<int>, b: Seq<int>, from: int)
    requires
        0 <= from <= a.len(),
    ensures
        spec_flat(buf, a + b, from) == spec_flat(buf, a, from) + spec_flat(buf, b, 0),
    decreases a.len() - from,
{
    if from < a.len() {
        lemma_flat_concat(buf, a, b, from + 1);
        assert((a + b)[from] == a[from]);
        assert(spec_flat(buf, a + b, from) =~= spec_flat(buf, a, from) + spec_flat(buf, b, 0));
    } else {
        lemma_flat_shift(buf, a, b, 0);
        assert(spec_flat(buf, a, from) =~= Seq::<(EntryView, EntryView)>::empty());
        assert(spec_flat(buf, a + b, from) =~= spec_flat(buf, a, from) + spec_flat(buf, b, 0));
    }
}

/// Behind a first run of leaves the pairs are those of the second run.
pub proof fn lemma_flat_shift(buf: Seq<u8>, a: Seq<int>, b: Seq<int>, k: int)
    requires
        0 <= k <= b.len(),
    ensures
        spec_flat(buf, a + b, a.len() + k) == spec_flat(buf, b, k),
    decreases b.len() - k,
{
    if k < b.len() {
        lemma_flat_shift(buf, a, b, k + 1);
        assert((a + b)[a.len() + k] == b[k]);
    }
}

/// The pairs of the leaves of a tree, leaf by leaf, are the pairs of the
/// tree.
pub proof fn lemma_flat_leaves(buf: Seq<u8>, page: int, level: nat)
    ensures
        spec_flat(buf, spec_leaves(buf, page, level), 0) == spec_pairs(buf, page, level),
    decreases level, SLOT_LIMIT,
{
    if level <= 1 {
        let only: Seq<int> = seq![page];
        assert(spec_flat(buf, only, 1) =~= Seq::<(EntryView, EntryView)>::empty());
        assert(spec_flat(buf, only, 0) =~= spec_leaf_pairs(spec_frame(buf, page)));
    } else {
        lemma_flat_leaves_from(buf, spec_frame(buf, page), level, 0);
    }
}

/// The pairs of the leaves below the children of an internal page from
/// child `from` on are the pairs below those children.
pub proof fn lemma_flat_leaves_from(buf: Seq<u8>, frame: Seq<u8>, level: nat, from: int)
    requires
        level >= 2,
        0 <= from,
    ensures
        spec_flat(buf, spec_leaves_from(buf, frame, level, from), 0) == spec_pairs_from(
            buf,
            frame,
            level,
            from,
        ),
    decreases level, spec_entry_count(frame) - from,
{
    if from < spec_entry_count(frame) {
        let below: nat = (level - 1) as nat;
        let first: Seq<int> = spec_leaves(buf, spec_child(frame, from), below);
        let rest: Seq<int> = spec_leaves_from(buf, frame, level, from + 1);
        lemma_flat_leaves(buf, spec_child(frame, from), below);
        lemma_flat_leaves_from(buf, frame, level, from + 1);
        lemma_flat_concat(buf, first, rest, 0);
    } else {
        assert(spec_flat(buf, Seq::<int>::empty(), 0) =~= Seq::<(EntryView, EntryView)>::empty());
    }
}

/// Every leaf of a well-formed tree is a leaf that a walk can read pair by
/// pair.
pub proof fn lemma_leaves_are_plain(
    buf: Seq<u8>,
    page: int,
    level: nat,
    lo: Seq<u8>,
    hi: Option<Seq<u8>>,
    idx: int,
)
    requires
        spec_wf_subtree(buf, page, level, lo, hi),
        0 <= idx < spec_leaves(buf, page, level).len(),
    ensures
        spec_plain_leaf(buf, spec_leaves(buf, page, level)[idx]),
    decreases level, SLOT_LIMIT,
{
    if level >= 2 {
        lemma_leaves_from_are_plain(buf, page, level, lo, hi, 0, idx);
    } else {
        reveal(spec_plain_leaf);
    }
}

/// Every leaf below the children of a well-formed internal page is a leaf
/// that a walk can read pair by pair.
pub proof fn lemma_leaves_from_are_plain(
    buf: Seq<u8>,
    page: int,
    level: nat,
    lo: Seq<u8>,
    hi: Option<Seq<u8>>,
    from: int,
    idx: int,
)
    requires
        spec_wf_subtree(buf, page, level, lo, hi),
        level >= 2,
        0 <= from,
        0 <= idx < spec_leaves_from(buf, spec_frame(buf, page), level, from).len(),
    ensures
        spec_plain_leaf(buf, spec_leaves_from(buf, spec_frame(buf, page), level, from)[idx]),
    decreases level, spec_entry_count(spec_frame(buf, page)) - from,
{
    let frame: Seq<u8> = spec_frame(buf, page);
    let below: nat = (level - 1) as nat;
    let first: Seq<int> = spec_leaves(buf, spec_child(frame, from), below);
    if idx < first.len() {
        lemma_leaves_are_plain(
            buf,
            spec_child(frame, from),
            below,
            spec_separator(frame, from),
            spec_upper(frame, from, hi),
            idx,
        );
    } else {
        lemma_leaves_from_are_plain(buf, page, level, lo, hi, from + 1, idx - first.len());
    }
}

/// From the root of a well-formed tree a walker goes down to the leftmost
/// leaf, with one move for each level above the leaves.
pub proof fn lemma_move_to_leftmost(
    buf: Seq<u8>,
    page: int,
    level: nat,
    lo: Seq<u8>,
    hi: Option<Seq<u8>>,
    entry: int,
    budget: nat,
    lone: LoneRecord,
)
    requires
        spec_wf_subtree(buf, page, level, lo, hi),
        budget >= level - 1,
    ensures
        spec_leaves(buf, page, level).len() >= 1,
        spec_move_to_leaf(buf, WalkState {
            page,
            entry,
            budget,
            lone,
        }) == Ok::<WalkState, BdbError>(
            WalkState {
                page: spec_leaves(buf, page, level)[0],
                entry: if level == 1 {
                    entry
                } else {
                    0
                },
                budget: (budget - (level - 1)) as nat,
                lone,
            },
        ),
    decreases level,
{
    let frame: Seq<u8> = spec_frame(buf, page);
    assert(spec_current_page(buf, page) == Ok::<Seq<u8>, BdbError>(frame));
    if level >= 2 {
        let below: nat = (level - 1) as nat;
        lemma_record(frame, 0);
        lemma_move_to_leftmost(
            buf,
            spec_child(frame, 0),
            below,
            spec_separator(frame, 0),
            spec_upper(frame, 0, hi),
            0,
            (budget - 1) as nat,
            lone,
        );
        assert(spec_way_down(frame) == Ok::<Option<u32>, BdbError>(
            Some(spec_child(frame, 0) as u32),
        ));
    }
}

/// A walker on a leaf that a walk can read is as far down as it goes.
pub proof fn lemma_stays_on_plain_leaf(buf: Seq<u8>, st: WalkState)
    requires
        spec_plain_leaf(buf, st.page),
    ensures
        spec_current_page(buf, st.page) == Ok::<Seq<u8>, BdbError>(spec_frame(buf, st.page)),
        spec_move_to_leaf(buf, st) == Ok::<WalkState, BdbError>(st),
{
    reveal(spec_plain_leaf);
    let frame: Seq<u8> = spec_frame(buf, st.page);
    assert(spec_current_page(buf, st.page) == Ok::<Seq<u8>, BdbError>(frame));
    assert(spec_way_down(frame) == Ok::<Option<u32>, BdbError>(None));
}

/// The step of a walker is the step from the leaf that it goes down to.
pub proof fn lemma_step_after_descent(buf: Seq<u8>, st: WalkState, leaf: WalkState)
    requires
        spec_move_to_leaf(buf, st) == Ok::<WalkState, BdbError>(leaf),
        spec_move_to_leaf(buf, leaf) == Ok::<WalkState, BdbError>(leaf),
    ensures
        spec_step(buf, st) == spec_step(buf, leaf),
{
    reveal(spec_step);
}

/// On a leaf that a walk can read, a step from a slot below the entry count
/// yields the pair at that slot and leaves the walker behind it.
pub proof fn lemma_step_yields_pair(buf: Seq<u8>, page: int, k: int, budget: nat, lone: LoneRecord)
    requires
        spec_plain_leaf(buf, page),
        0 <= k < spec_pair_count(spec_frame(buf, page)),
    ensures
        spec_step(buf, WalkState { page, entry: 2 * k, budget, lone }) == Ok::<
            (Option<(EntryView, EntryView)>, WalkState),
            BdbError,
        >(
            (
                Some(spec_leaf_pairs(spec_frame(buf, page))[k]),
                WalkState { page, entry: 2 * k + 2, budget, lone },
            ),
        ),
{
    reveal(spec_step);
    reveal(spec_plain_leaf);
    let frame: Seq<u8> = spec_frame(buf, page);
    let here = WalkState { page, entry: 2 * k, budget, lone };
    lemma_stays_on_plain_leaf(buf, here);
    lemma_record(frame, 2 * k);
    lemma_record(frame, 2 * k + 1);
    assert(spec_pair_at(frame, 2 * k) == Ok::<Option<(EntryView, EntryView)>, BdbError>(
        Some(spec_leaf_pairs(frame)[k]),
    ));
}

/// On a leaf that a walk can read, a step from behind the last pair is the
/// step from the start of the following sibling, where that is such a leaf,
/// and the end of the walk where there is no sibling.
pub proof fn lemma_step_leaves_page(buf: Seq<u8>, page: int, budget: nat, lone: LoneRecord)
    requires
        spec_plain_leaf(buf, page),
        spec_next(spec_frame(buf, page)) != 0 ==> budget >= 1 && spec_plain_leaf(
            buf,
            spec_next(spec_frame(buf, page)),
        ),
    ensures
        spec_next(spec_frame(buf, page)) != 0 ==> spec_step(
            buf,
            WalkState { page, entry: 2 * spec_pair_count(spec_frame(buf, page)), budget, lone },
        ) == spec_step(
            buf,
            WalkState {
                page: spec_next(spec_frame(buf, page)),
                entry: 0,
                budget: (budget - 1) as nat,
                lone,
            },
        ),
        spec_next(spec_frame(buf, page)) == 0 ==> spec_step(
            buf,
            WalkState { page, entry: 2 * spec_pair_count(spec_frame(buf, page)), budget, lone },
        ) matches Ok((None, _)),
{
    reveal(spec_step);
    reveal(spec_plain_leaf);
    let frame: Seq<u8> = spec_frame(buf, page);
    let here = WalkState { page, entry: 2 * spec_pair_count(frame), budget, lone };
    lemma_stays_on_plain_leaf(buf, here);
    assert(spec_pair_at(frame, here.entry) == Ok::<Option<(EntryView, EntryView)>, BdbError>(
        None,
    ));
    let next: int = spec_next(frame);
    if next != 0 {
        let there = WalkState { page: next, entry: 0, budget: (budget - 1) as nat, lone };
        lemma_stays_on_plain_leaf(buf, there);
        assert(spec_produce(buf, here) == spec_produce(buf, there));
    } else {
        assert(spec_next_page_number(frame) is None);
    }
}

/// Whether a walk can read along `leaves`: the sibling links run through
/// them in order, none of them is page 0, and each is a leaf that a walk can
/// read pair by pair.
#[verifier::opaque]
pub open spec fn spec_readable_chain(buf: Seq<u8>, leaves: Seq<int>) -> bool {
    &&& spec_linked(buf, leaves)
    &&& forall|idx: int|
        0 <= idx < leaves.len() ==> #[trigger] leaves[idx] != 0 && spec_plain_leaf(
            buf,
            leaves[idx],
        )
}

/// What a chain that a walk can read holds of one of its leaves.
pub proof fn lemma_chain_link(buf: Seq<u8>, leaves: Seq<int>, i: int)
    requires
        spec_readable_chain(buf, leaves),
        0 <= i < leaves.len(),
    ensures
        spec_plain_leaf(buf, leaves[i]),
        i + 1 < leaves.len() ==> spec_next(spec_frame(buf, leaves[i])) == leaves[i + 1]
            && leaves[i + 1] != 0 && spec_plain_leaf(buf, leaves[i + 1]),
        i + 1 == leaves.len() ==> spec_next(spec_frame(buf, leaves[i])) == 0,
{
    reveal(spec_readable_chain);
    assert(leaves[i] != 0);
    if i + 1 < leaves.len() {
        assert(leaves[i + 1] != 0);
    }
}

/// The pairs of a leaf from pair `k` on are pair `k` and those behind it.
pub proof fn lemma_skip_one(pairs: Seq<(EntryView, EntryView)>, k: int)
    requires
        0 <= k <= pairs.len(),
    ensures
        k < pairs.len() ==> seq![pairs[k]] + pairs.skip(k + 1) == pairs.skip(k),
        k == pairs.len() ==> pairs.skip(k) == Seq::<(EntryView, EntryView)>::empty(),
        pairs.skip(0) == pairs,
{
    if k < pairs.len() {
        assert(seq![pairs[k]] + pairs.skip(k + 1) =~= pairs.skip(k));
    } else {
        assert(pairs.skip(k) =~= Seq::<(EntryView, EntryView)>::empty());
    }
    assert(pairs.skip(0) =~= pairs);
}

/// Along a chain that a walk can read, the walk yields from pair `k` of
/// leaf `i` on what is left of that leaf and then the pairs of the leaves
/// behind it.
pub proof fn lemma_walk_chain(
    buf: Seq<u8>,
    leaves: Seq<int>,
    i: int,
    k: int,
    budget: nat,
    lone: LoneRecord,
)
    requires
        spec_readable_chain(buf, leaves),
        0 <= i < leaves.len(),
        0 <= k <= spec_pair_count(spec_frame(buf, leaves[i])),
        budget >= leaves.len() - 1 - i,
    ensures
        spec_walk_from(buf, WalkState { page: leaves[i], entry: 2 * k, budget, lone }) == Ok::<
            Seq<(EntryView, EntryView)>,
            BdbError,
        >(spec_leaf_pairs(spec_frame(buf, leaves[i])).skip(k) + spec_flat(buf, leaves, i + 1)),
    decreases leaves.len() - i, spec_pair_count(spec_frame(buf, leaves[i])) - k,
{
    let frame: Seq<u8> = spec_frame(buf, leaves[i]);
    let pairs = spec_leaf_pairs(frame);
    let behind = spec_flat(buf, leaves, i + 1);
    let here = WalkState { page: leaves[i], entry: 2 * k, budget, lone };
    lemma_chain_link(buf, leaves, i);
    lemma_skip_one(pairs, k);
    if k < spec_pair_count(frame) {
        let after = WalkState { page: leaves[i], entry: 2 * (k + 1), budget, lone };
        lemma_step_yields_pair(buf, leaves[i], k, budget, lone);
        lemma_walk_chain(buf, leaves, i, k + 1, budget, lone);
        assert(spec_walk_from(buf, here) == spec_followed_by(
            seq![pairs[k]],
            spec_walk_from(buf, after),
        ));
        assert(seq![pairs[k]] + (pairs.skip(k + 1) + behind) =~= pairs.skip(k) + behind);
    } else {
        lemma_step_leaves_page(buf, leaves[i], budget, lone);
        if i + 1 < leaves.len() {
            let next: int = leaves[i + 1];
            let there = WalkState { page: next, entry: 0, budget: (budget - 1) as nat, lone };
            lemma_walk_chain(buf, leaves, i + 1, 0, (budget - 1) as nat, lone);
            lemma_skip_one(spec_leaf_pairs(spec_frame(buf, next)), 0);
            assert(spec_walk_from(buf, here) == spec_walk_from(buf, there));
            assert(pairs.skip(k) + behind =~= behind);
        } else {
            assert(behind =~= Seq::<(EntryView, EntryView)>::empty());
            assert(pairs.skip(k) + behind =~= Seq::<(EntryView, EntryView)>::empty());
        }
    }
}

/// Page numbers of a file no two of which are the same are no more than
/// the file has pages.
pub proof fn lemma_distinct_pages_fit(pages: Seq<int>, count: int)
    requires
        0 <= count,
        pages.no_duplicates(),
        forall|i: int| 0 <= i < pages.len() ==> 0 <= #[trigger] pages[i] < count,
    ensures
        pages.len() <= count,
{
    if pages.len() > 0 {
        pages.unique_seq_to_set();
        lemma_int_range(0, count);
        assert forall|page: int| pages.to_set().contains(page) implies set_int_range(
            0,
            count,
        ).contains(page) by {
            assert(pages.contains(page));
            let i: int = choose|i: int| 0 <= i < pages.len() && pages[i] == page;
            assert(0 <= pages[i] < count);
        }
        assert(pages.to_set().subset_of(set_int_range(0, count)));
        lemma_len_subset(pages.to_set(), set_int_range(0, count));
    }
}

/// Leaves that the sibling links run through in order are all different:
/// the links of two equal leaves would lead to the same end.
pub proof fn lemma_linked_distinct(buf: Seq<u8>, leaves: Seq<int>, i: int, j: int)
    requires
        spec_linked(buf, leaves),
        forall|idx: int| 0 <= idx < leaves.len() ==> #[trigger] leaves[idx] != 0,
        0 <= i < j < leaves.len(),
    ensures
        leaves[i] != leaves[j],
    decreases leaves.len() - j,
{
    if leaves[i] == leaves[j] {
        assert(spec_next(spec_frame(buf, leaves[i])) == leaves[i + 1]);
        assert(leaves[i + 1] != 0);
        if j + 1 < leaves.len() {
            assert(spec_next(spec_frame(buf, leaves[j])) == leaves[j + 1]);
            lemma_linked_distinct(buf, leaves, i + 1, j + 1);
        }
    }
}

/// The pages from the root of a tree down to its leftmost leaf.
pub open spec fn spec_spine(buf: Seq<u8>, page: int, level: nat) -> Seq<int>
    decreases level,
{
    if level <= 1 {
        seq![page]
    } else {
        seq![page] + spec_spine(buf, spec_child(spec_frame(buf, page), 0), (level - 1) as nat)
    }
}

/// The way down a well-formed tree passes one page of the file at each
/// level.
pub proof fn lemma_spine(
    buf: Seq<u8>,
    page: int,
    level: nat,
    lo: Seq<u8>,
    hi: Option<Seq<u8>>,
    k: int,
)
    requires
        spec_wf_subtree(buf, page, level, lo, hi),
        0 <= k < level,
    ensures
        spec_spine(buf, page, level).len() == level,
        spec_has_page(buf, spec_spine(buf, page, level)[k]),
        spec_level(spec_frame(buf, spec_spine(buf, page, level)[k])) == level - k,
    decreases level,
{
    if level >= 2 {
        let frame: Seq<u8> = spec_frame(buf, page);
        let below: nat = (level - 1) as nat;
        lemma_spine(
            buf,
            spec_child(frame, 0),
            below,
            spec_separator(frame, 0),
            spec_upper(frame, 0, hi),
            if k == 0 {
                0
            } else {
                k - 1
            },
        );
    }
}

/// A well-formed tree has no more levels than the file has pages.
pub proof fn lemma_height_fits(
    buf: Seq<u8>,
    page: int,
    level: nat,
    lo: Seq<u8>,
    hi: Option<Seq<u8>>,
)
    requires
        spec_wf_subtree(buf, page, level, lo, hi),
    ensures
        level <= spec_page_count(buf),
{
    let spine: Seq<int> = spec_spine(buf, page, level);
    lemma_spine(buf, page, level, lo, hi, 0);
    assert forall|i: int, j: int|
        0 <= i < spine.len() && 0 <= j < spine.len() && i != j implies spine[i] != spine[j] by {
        lemma_spine(buf, page, level, lo, hi, i);
        lemma_spine(buf, page, level, lo, hi, j);
    }
    assert forall|i: int| 0 <= i < spine.len() implies 0 <= #[trigger] spine[i] < spec_page_count(
        buf,
    ) by {
        lemma_spine(buf, page, level, lo, hi, i);
    }
    lemma_distinct_pages_fit(spine, spec_page_count(buf) as int);
}

} // verus!
