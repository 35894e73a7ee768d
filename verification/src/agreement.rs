//! On a well-formed file the lookup and the walk agree: the walk yields the
//! pairs of the tree in the order of their keys, and the lookup of a key
//! returns a value if and only if the walk yields that key with that value.

use crate::chain::{lemma_distinct_pages_fit, lemma_flat_leaves, lemma_height_fits};
use crate::chain::{lemma_leaves_are_plain, lemma_linked_distinct, lemma_move_to_leftmost};
use crate::chain::{lemma_stays_on_plain_leaf, lemma_step_after_descent, lemma_walk_chain};
use crate::chain::{spec_plain_leaf, spec_readable_chain};
use crate::database::{spec_frame, spec_has_page, spec_page_count};
use crate::descent::{lemma_descend, lemma_pairs_in_range, lemma_pairs_increase};
use crate::entry::EntryView;
use crate::error::BdbError;
use crate::lookup::{spec_find_root, spec_get};
use crate::order::{spec_lex_le, spec_lex_lt};
use crate::page::spec_is_metadata;
use crate::tree::{spec_height, spec_leaf_pairs, spec_pair, spec_root, spec_tree_leaves};
use crate::tree::{spec_tree_pairs, spec_well_formed};
use crate::walk::{LoneRecord, WalkState, spec_budget, spec_current_page, spec_move_to_leaf};
use crate::walk::{spec_start, spec_step, spec_walk, spec_walk_with, spec_way_down};
use vstd::prelude::*;

verus! {

/// The leaves of a well-formed file are leaves that a walk can read pair by
/// pair, none of them page 0, and no more than the file has pages.
pub proof fn lemma_leaves_of_well_formed(buf: Seq<u8>)
    requires
        spec_well_formed(buf),
    ensures
        forall|idx: int|
            0 <= idx < spec_tree_leaves(buf).len() ==> #[trigger] spec_tree_leaves(buf)[idx] != 0
                && spec_plain_leaf(buf, spec_tree_leaves(buf)[idx]),
        spec_tree_leaves(buf).len() <= spec_page_count(buf),
{
    reveal(spec_plain_leaf);
    let leaves: Seq<int> = spec_tree_leaves(buf);
    assert forall|idx: int| 0 <= idx < leaves.len() implies #[trigger] leaves[idx] != 0
        && spec_plain_leaf(buf, leaves[idx]) by {
        lemma_leaves_are_plain(buf, spec_root(buf), spec_height(buf), Seq::empty(), None, idx);
    }
    assert forall|i: int, j: int|
        0 <= i < leaves.len() && 0 <= j < leaves.len() && i != j implies leaves[i]
        != leaves[j] by {
        if i < j {
            lemma_linked_distinct(buf, leaves, i, j);
        } else {
            lemma_linked_distinct(buf, leaves, j, i);
        }
    }
    assert forall|idx: int| 0 <= idx < leaves.len() implies 0 <= #[trigger] leaves[idx]
        < spec_page_count(buf) by {
        assert(spec_plain_leaf(buf, leaves[idx]));
    }
    lemma_distinct_pages_fit(leaves, spec_page_count(buf) as int);
}

/// From the start of a file whose page 0 is the metadata page a walker
/// goes down as it does from the root, for one move.
pub proof fn lemma_start_moves_to_root(buf: Seq<u8>, lone: LoneRecord)
    requires
        spec_has_page(buf, 0),
        spec_is_metadata(spec_frame(buf, 0)),
    ensures
        spec_budget(buf) >= 2,
        spec_move_to_leaf(buf, spec_start(buf, lone)) == spec_move_to_leaf(
            buf,
            WalkState {
                page: spec_root(buf),
                entry: 0,
                budget: (spec_budget(buf) - 1) as nat,
                lone,
            },
        ),
{
    let top: Seq<u8> = spec_frame(buf, 0);
    assert(spec_current_page(buf, 0) == Ok::<Seq<u8>, BdbError>(top));
    assert(spec_way_down(top) == Ok::<Option<u32>, BdbError>(Some(spec_root(buf) as u32)));
}

/// From the start of a well-formed file the first step of a walker is the
/// step from the start of the leftmost leaf.
pub proof fn lemma_first_step(buf: Seq<u8>, lone: LoneRecord)
    requires
        spec_well_formed(buf),
    ensures
        spec_tree_leaves(buf).len() >= 1,
        spec_height(buf) <= spec_page_count(buf),
        spec_step(buf, spec_start(buf, lone)) == spec_step(
            buf,
            WalkState {
                page: spec_tree_leaves(buf)[0],
                entry: 0,
                budget: (spec_budget(buf) - spec_height(buf)) as nat,
                lone,
            },
        ),
{
    let root: int = spec_root(buf);
    let height: nat = spec_height(buf);
    let budget: nat = spec_budget(buf);
    lemma_height_fits(buf, root, height, Seq::empty(), None);
    lemma_start_moves_to_root(buf, lone);
    lemma_move_to_leftmost(buf, root, height, Seq::empty(), None, 0, (budget - 1) as nat, lone);
    lemma_leaves_are_plain(buf, root, height, Seq::empty(), None, 0);
    let leftmost = WalkState {
        page: spec_tree_leaves(buf)[0],
        entry: 0,
        budget: (budget - height) as nat,
        lone,
    };
    lemma_stays_on_plain_leaf(buf, leftmost);
    lemma_step_after_descent(buf, spec_start(buf, lone), leftmost);
}

/// The walk over a well-formed file yields the pairs of its tree, from left
/// to right, whatever the walker is told to do with lone records.
pub proof fn lemma_walk_of_well_formed(buf: Seq<u8>, lone: LoneRecord)
    requires
        spec_well_formed(buf),
    ensures
        spec_walk_with(buf, lone) == Ok::<Seq<(EntryView, EntryView)>, BdbError>(
            spec_tree_pairs(buf),
        ),
{
    let root: int = spec_root(buf);
    let height: nat = spec_height(buf);
    let leaves: Seq<int> = spec_tree_leaves(buf);
    let budget: nat = (spec_budget(buf) - height) as nat;
    lemma_first_step(buf, lone);
    lemma_leaves_of_well_formed(buf);
    assert(spec_readable_chain(buf, leaves)) by {
        reveal(spec_readable_chain);
    }
    lemma_walk_chain(buf, leaves, 0, 0, budget, lone);
    lemma_flat_leaves(buf, root, height);
    let first = spec_leaf_pairs(spec_frame(buf, leaves[0]));
    assert(first.skip(0) =~= first);
}

/// The lookup in a well-formed file finds a value for a key exactly where
/// the tree holds the pair of that key and that value.
pub proof fn lemma_get_of_well_formed(buf: Seq<u8>, key: Seq<u8>, value: Seq<u8>)
    requires
        spec_well_formed(buf),
    ensures
        spec_get(buf, key) is Ok,
        spec_get(buf, key) == Ok::<Option<Seq<u8>>, BdbError>(Some(value)) <==> spec_tree_pairs(
            buf,
        ).contains(spec_pair(key, value)),
{
    let root: int = spec_root(buf);
    let height: nat = spec_height(buf);
    lemma_height_fits(buf, root, height, Seq::empty(), None);
    lemma_descend(buf, root, height, Seq::empty(), None, key, value, spec_page_count(buf));
    assert(spec_find_root(buf, 0) == Ok::<Option<u32>, BdbError>(Some(root as u32)));
}

/// On a well-formed file the lookup and the walk agree: both succeed, and
/// the lookup of a key returns a value if and only if the walk yields the
/// pair of that key and that value. This holds whatever the walker is told
/// to do with lone records: a well-formed file has none.
pub proof fn theorem_lookup_agrees_with_walk(
    buf: Seq<u8>,
    lone: LoneRecord,
    key: Seq<u8>,
    value: Seq<u8>,
)
    requires
        spec_well_formed(buf),
    ensures
        spec_walk_with(buf, lone) is Ok,
        spec_walk(buf) == spec_walk_with(buf, lone),
        spec_get(buf, key) is Ok,
        spec_get(buf, key) == Ok::<Option<Seq<u8>>, BdbError>(Some(value)) <==> spec_walk_with(
            buf,
            lone,
        )->Ok_0.contains(spec_pair(key, value)),
{
    lemma_walk_of_well_formed(buf, lone);
    lemma_walk_of_well_formed(buf, LoneRecord::PassOver);
    lemma_get_of_well_formed(buf, key, value);
}

/// On a well-formed file the walk yields pairs of a key and a value, and the
/// keys increase strictly from pair to pair; so no key comes before one
/// that the walk has yielded earlier.
pub proof fn theorem_walk_is_sorted(buf: Seq<u8>, lone: LoneRecord, i: int, j: int)
    requires
        spec_well_formed(buf),
        spec_walk_with(buf, lone) matches Ok(pairs) && 0 <= i < j < pairs.len(),
    ensures
        spec_walk_with(buf, lone)->Ok_0[i].0 is KeyData,
        spec_walk_with(buf, lone)->Ok_0[i].1 is KeyData,
        spec_lex_lt(
            spec_walk_with(buf, lone)->Ok_0[i].0.payload(),
            spec_walk_with(buf, lone)->Ok_0[j].0.payload(),
        ),
        spec_lex_le(
            spec_walk_with(buf, lone)->Ok_0[i].0.payload(),
            spec_walk_with(buf, lone)->Ok_0[j].0.payload(),
        ),
{
    lemma_walk_of_well_formed(buf, lone);
    lemma_pairs_in_range(buf, spec_root(buf), spec_height(buf), Seq::empty(), None, i);
    lemma_pairs_increase(buf, spec_root(buf), spec_height(buf), Seq::empty(), None, i, j);
}

} // verus!
