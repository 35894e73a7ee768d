//! The lookup in a well-formed tree: which child a descent picks, and what
//! it finds on the leaf where it ends.

use crate::database::{spec_frame, spec_page_at};
use crate::entry::EntryView;
use crate::error::BdbError;
use crate::lookup::{spec_descend, spec_find_child, spec_find_key, spec_find_value};
use crate::order::{lemma_lex_le_antisymmetric, lemma_lex_le_transitive, lemma_lex_lt_le_transitive};
use crate::order::{spec_lex_le, spec_lex_lt};
use crate::page::{spec_entry_count, spec_is_internal};
use crate::tree::{lemma_leaf_pair, lemma_record, spec_child, spec_in_range, spec_key};
use crate::tree::{spec_leaf_pairs, spec_pair, spec_pair_count, spec_pairs, spec_pairs_from};
use crate::tree::{spec_separator, spec_upper, spec_value, spec_wf_leaf, spec_wf_separators};
use crate::tree::spec_wf_subtree;
use crate::walk::SLOT_LIMIT;
use vstd::prelude::*;

verus! {

/// On a well-formed leaf the search for a key from pair `m` on ends on the
/// pair with that key, or finds none where no pair from `m` on has it.
pub proof fn lemma_find_key(
    frame: Seq<u8>,
    lo: Seq<u8>,
    hi: Option<Seq<u8>>,
    key: Seq<u8>,
    m: int,
)
    requires
        spec_wf_leaf(frame, lo, hi),
        0 <= m <= spec_pair_count(frame),
    ensures
        match spec_find_key(frame, key, 2 * m) {
            Ok(Some(slot)) => slot % 2 == 0 && m <= slot / 2 < spec_pair_count(frame) && spec_key(
                frame,
                slot / 2,
            ) == key,
            Ok(None) => forall|i: int|
                m <= i < spec_pair_count(frame) ==> #[trigger] spec_key(frame, i) != key,
            Err(_) => false,
        },
    decreases spec_pair_count(frame) - m,
{
    if m < spec_pair_count(frame) {
        lemma_record(frame, 2 * m);
        let found: Seq<u8> = spec_key(frame, m);
        if found == key {
        } else if spec_lex_le(key, found) {
            assert forall|i: int| m <= i < spec_pair_count(frame) implies #[trigger] spec_key(
                frame,
                i,
            ) != key by {
                if i > m && spec_key(frame, i) == key {
                    assert(spec_lex_lt(spec_key(frame, m), spec_key(frame, i)));
                    lemma_lex_le_antisymmetric(key, found);
                }
            }
        } else {
            lemma_find_key(frame, lo, hi, key, m + 1);
            assert(2 * (m + 1) == 2 * m + 2);
        }
    }
}

/// On a well-formed leaf the lookup of a key finds a value exactly where the
/// leaf holds the pair of that key and that value.
pub proof fn lemma_find_value(
    frame: Seq<u8>,
    lo: Seq<u8>,
    hi: Option<Seq<u8>>,
    key: Seq<u8>,
    value: Seq<u8>,
)
    requires
        spec_wf_leaf(frame, lo, hi),
    ensures
        spec_find_value(frame, key) is Ok,
        spec_find_value(frame, key) == Ok::<Option<Seq<u8>>, BdbError>(Some(value))
            <==> spec_leaf_pairs(frame).contains(spec_pair(key, value)),
{
    lemma_find_key(frame, lo, hi, key, 0);
    let pairs = spec_leaf_pairs(frame);
    let wanted = spec_pair(key, value);
    match spec_find_key(frame, key, 0) {
        Ok(Some(slot)) => {
            let i: int = slot / 2;
            lemma_record(frame, slot + 1);
            lemma_leaf_pair(frame, lo, hi, i);
            assert(spec_find_value(frame, key) == Ok::<Option<Seq<u8>>, BdbError>(
                Some(spec_value(frame, i)),
            ));
            if pairs.contains(wanted) {
                let j: int = choose|j: int| 0 <= j < pairs.len() && pairs[j] == wanted;
                lemma_leaf_pair(frame, lo, hi, j);
                if i < j {
                    assert(spec_lex_lt(spec_key(frame, i), spec_key(frame, j)));
                } else if j < i {
                    assert(spec_lex_lt(spec_key(frame, j), spec_key(frame, i)));
                }
            }
            if value == spec_value(frame, i) {
                assert(pairs[i] == wanted);
            }
        },
        Ok(None) => {
            if pairs.contains(wanted) {
                let j: int = choose|j: int| 0 <= j < pairs.len() && pairs[j] == wanted;
                lemma_leaf_pair(frame, lo, hi, j);
                assert(spec_key(frame, j) == key);
            }
        },
        Err(_) => {},
    }
}

/// On an internal page whose records are well-formed the search for a child
/// among the first `upto` records picks the child of the last record whose
/// separator key is at most the key, or none where every separator key
/// comes behind the key.
pub proof fn lemma_find_child(
    frame: Seq<u8>,
    lo: Seq<u8>,
    hi: Option<Seq<u8>>,
    key: Seq<u8>,
    upto: int,
) -> (picked: int)
    requires
        spec_is_internal(frame),
        spec_wf_separators(frame, lo, hi),
        0 <= upto <= spec_entry_count(frame),
    ensures
        match spec_find_child(frame, key, upto) {
            Ok(Some(child)) => 0 <= picked < upto && child as int == spec_child(frame, picked)
                && spec_lex_le(spec_separator(frame, picked), key) && forall|j: int|
                picked < j < upto ==> !spec_lex_le(#[trigger] spec_separator(frame, j), key),
            Ok(None) => forall|j: int|
                0 <= j < upto ==> !spec_lex_le(#[trigger] spec_separator(frame, j), key),
            Err(_) => false,
        },
    decreases upto,
{
    if upto <= 0 {
        0
    } else {
        let before: int = lemma_find_child(frame, lo, hi, key, upto - 1);
        lemma_record(frame, upto - 1);
        if spec_lex_le(spec_separator(frame, upto - 1), key) {
            upto - 1
        } else {
            before
        }
    }
}

/// A key in the range of a child of an internal page lies in the range of
/// the page, and in that of the page from the child's separator key on.
pub proof fn lemma_child_range(
    frame: Seq<u8>,
    lo: Seq<u8>,
    hi: Option<Seq<u8>>,
    i: int,
    key: Seq<u8>,
)
    requires
        spec_wf_separators(frame, lo, hi),
        0 <= i < spec_entry_count(frame),
        spec_in_range(key, spec_separator(frame, i), spec_upper(frame, i, hi)),
    ensures
        spec_in_range(key, spec_separator(frame, i), hi),
        spec_in_range(key, lo, hi),
        forall|j: int| 0 <= j <= i ==> spec_lex_le(#[trigger] spec_separator(frame, j), key),
        forall|j: int|
            i < j < spec_entry_count(frame) ==> spec_lex_lt(
                key,
                #[trigger] spec_separator(frame, j),
            ),
{
    let here: Seq<u8> = spec_separator(frame, i);
    assert(spec_in_range(here, lo, hi));
    lemma_lex_le_transitive(lo, here, key);
    if i + 1 < spec_entry_count(frame) {
        let next: Seq<u8> = spec_separator(frame, i + 1);
        assert(spec_in_range(next, lo, hi));
        if let Some(end) = hi {
            lemma_lex_lt_le_transitive(key, next, end);
        }
    }
    assert forall|j: int| 0 <= j <= i implies spec_lex_le(
        #[trigger] spec_separator(frame, j),
        key,
    ) by {
        if j < i {
            assert(spec_lex_lt(spec_separator(frame, j), spec_separator(frame, i)));
            lemma_lex_le_transitive(spec_separator(frame, j), here, key);
        }
    }
    assert forall|j: int| i < j < spec_entry_count(frame) implies spec_lex_lt(
        key,
        #[trigger] spec_separator(frame, j),
    ) by {
        let next: Seq<u8> = spec_separator(frame, i + 1);
        if i + 1 < j {
            assert(spec_lex_lt(spec_separator(frame, i + 1), spec_separator(frame, j)));
            lemma_lex_lt_le_transitive(key, next, spec_separator(frame, j));
        }
    }
}

/// Every pair of a well-formed tree is a pair of a key and a value, and its
/// key lies in the range that the tree is responsible for.
pub proof fn lemma_pairs_in_range(
    buf: Seq<u8>,
    page: int,
    level: nat,
    lo: Seq<u8>,
    hi: Option<Seq<u8>>,
    idx: int,
)
    requires
        spec_wf_subtree(buf, page, level, lo, hi),
        0 <= idx < spec_pairs(buf, page, level).len(),
    ensures
        spec_pairs(buf, page, level)[idx] == spec_pair(
            spec_pairs(buf, page, level)[idx].0.payload(),
            spec_pairs(buf, page, level)[idx].1.payload(),
        ),
        spec_in_range(spec_pairs(buf, page, level)[idx].0.payload(), lo, hi),
    decreases level, SLOT_LIMIT,
{
    let frame: Seq<u8> = spec_frame(buf, page);
    if level == 1 {
        lemma_leaf_pair(frame, lo, hi, idx);
    } else {
        lemma_pairs_from_in_range(buf, page, level, lo, hi, 0, idx);
        let key: Seq<u8> = spec_pairs(buf, page, level)[idx].0.payload();
        assert(spec_in_range(spec_separator(frame, 0), lo, hi));
        lemma_lex_le_transitive(lo, spec_separator(frame, 0), key);
    }
}

/// Every pair below the children of an internal page from child `from` on is
/// a pair of a key and a value, and its key lies between the separator key of
/// that child and the end of the range of the page.
pub proof fn lemma_pairs_from_in_range(
    buf: Seq<u8>,
    page: int,
    level: nat,
    lo: Seq<u8>,
    hi: Option<Seq<u8>>,
    from: int,
    idx: int,
)
    requires
        spec_wf_subtree(buf, page, level, lo, hi),
        level >= 2,
        0 <= from,
        0 <= idx < spec_pairs_from(buf, spec_frame(buf, page), level, from).len(),
    ensures
        from < spec_entry_count(spec_frame(buf, page)),
        spec_pairs_from(buf, spec_frame(buf, page), level, from)[idx] == spec_pair(
            spec_pairs_from(buf, spec_frame(buf, page), level, from)[idx].0.payload(),
            spec_pairs_from(buf, spec_frame(buf, page), level, from)[idx].1.payload(),
        ),
        spec_in_range(
            spec_pairs_from(buf, spec_frame(buf, page), level, from)[idx].0.payload(),
            spec_separator(spec_frame(buf, page), from),
            hi,
        ),
    decreases level, spec_entry_count(spec_frame(buf, page)) - from,
{
    let frame: Seq<u8> = spec_frame(buf, page);
    let child: int = spec_child(frame, from);
    let below: nat = (level - 1) as nat;
    let first = spec_pairs(buf, child, below);
    let rest = spec_pairs_from(buf, frame, level, from + 1);
    let key: Seq<u8> = spec_pairs_from(buf, frame, level, from)[idx].0.payload();
    if idx < first.len() {
        lemma_pairs_in_range(
            buf,
            child,
            below,
            spec_separator(frame, from),
            spec_upper(frame, from, hi),
            idx,
        );
        lemma_child_range(frame, lo, hi, from, key);
    } else {
        lemma_pairs_from_in_range(buf, page, level, lo, hi, from + 1, idx - first.len());
        assert(spec_lex_lt(spec_separator(frame, from), spec_separator(frame, from + 1)));
        lemma_lex_le_transitive(spec_separator(frame, from), spec_separator(frame, from + 1), key);
    }
}

/// A pair below the children of an internal page from child `from` on lies
/// below one of those children.
pub proof fn lemma_pairs_from_holds(
    buf: Seq<u8>,
    frame: Seq<u8>,
    level: nat,
    from: int,
    pair: (EntryView, EntryView),
) -> (j: int)
    requires
        level >= 2,
        0 <= from,
        spec_pairs_from(buf, frame, level, from).contains(pair),
    ensures
        from <= j < spec_entry_count(frame),
        spec_pairs(buf, spec_child(frame, j), (level - 1) as nat).contains(pair),
    decreases spec_entry_count(frame) - from,
{
    let all = spec_pairs_from(buf, frame, level, from);
    let first = spec_pairs(buf, spec_child(frame, from), (level - 1) as nat);
    let rest = spec_pairs_from(buf, frame, level, from + 1);
    let idx: int = choose|idx: int| 0 <= idx < all.len() && all[idx] == pair;
    if idx < first.len() {
        assert(first[idx] == pair);
        from
    } else {
        assert(rest[idx - first.len()] == pair);
        lemma_pairs_from_holds(buf, frame, level, from + 1, pair)
    }
}

/// A pair below child `j` of an internal page lies below the children from
/// any child up to `j` on.
pub proof fn lemma_child_pairs_held(
    buf: Seq<u8>,
    frame: Seq<u8>,
    level: nat,
    from: int,
    j: int,
    pair: (EntryView, EntryView),
)
    requires
        level >= 2,
        0 <= from <= j < spec_entry_count(frame),
        spec_pairs(buf, spec_child(frame, j), (level - 1) as nat).contains(pair),
    ensures
        spec_pairs_from(buf, frame, level, from).contains(pair),
    decreases j - from,
{
    let all = spec_pairs_from(buf, frame, level, from);
    let first = spec_pairs(buf, spec_child(frame, from), (level - 1) as nat);
    let rest = spec_pairs_from(buf, frame, level, from + 1);
    if from == j {
        let idx: int = choose|idx: int| 0 <= idx < first.len() && first[idx] == pair;
        assert(all[idx] == pair);
    } else {
        lemma_child_pairs_held(buf, frame, level, from + 1, j, pair);
        let idx: int = choose|idx: int| 0 <= idx < rest.len() && rest[idx] == pair;
        assert(all[first.len() + idx] == pair);
    }
}

/// A pair of a well-formed tree above the leaves lies below one child, and
/// its key lies at or behind the separator key of that child and before
/// those of the children behind it.
pub proof fn lemma_holding_child(
    buf: Seq<u8>,
    page: int,
    level: nat,
    lo: Seq<u8>,
    hi: Option<Seq<u8>>,
    key: Seq<u8>,
    value: Seq<u8>,
) -> (j: int)
    requires
        spec_wf_subtree(buf, page, level, lo, hi),
        level >= 2,
        spec_pairs(buf, page, level).contains(spec_pair(key, value)),
    ensures
        0 <= j < spec_entry_count(spec_frame(buf, page)),
        spec_pairs(buf, spec_child(spec_frame(buf, page), j), (level - 1) as nat).contains(
            spec_pair(key, value),
        ),
        spec_lex_le(spec_separator(spec_frame(buf, page), j), key),
        forall|i: int|
            j < i < spec_entry_count(spec_frame(buf, page)) ==> spec_lex_lt(
                key,
                #[trigger] spec_separator(spec_frame(buf, page), i),
            ),
{
    let frame: Seq<u8> = spec_frame(buf, page);
    let below: nat = (level - 1) as nat;
    let wanted = spec_pair(key, value);
    let j: int = lemma_pairs_from_holds(buf, frame, level, 0, wanted);
    let held = spec_pairs(buf, spec_child(frame, j), below);
    let idx: int = choose|idx: int| 0 <= idx < held.len() && held[idx] == wanted;
    lemma_pairs_in_range(
        buf,
        spec_child(frame, j),
        below,
        spec_separator(frame, j),
        spec_upper(frame, j, hi),
        idx,
    );
    lemma_child_range(frame, lo, hi, j, key);
    j
}

/// Below the root of a well-formed tree the descent finds a value for a key
/// exactly where the tree holds the pair of that key and that value.
pub proof fn lemma_descend(
    buf: Seq<u8>,
    page: int,
    level: nat,
    lo: Seq<u8>,
    hi: Option<Seq<u8>>,
    key: Seq<u8>,
    value: Seq<u8>,
    fuel: nat,
)
    requires
        spec_wf_subtree(buf, page, level, lo, hi),
        fuel >= level,
    ensures
        spec_descend(buf, page, key, fuel) is Ok,
        spec_descend(buf, page, key, fuel) == Ok::<Option<Seq<u8>>, BdbError>(Some(value))
            <==> spec_pairs(buf, page, level).contains(spec_pair(key, value)),
    decreases level,
{
    let frame: Seq<u8> = spec_frame(buf, page);
    let wanted = spec_pair(key, value);
    let below: nat = (level - 1) as nat;
    assert(spec_page_at(buf, page) == Ok::<Option<Seq<u8>>, BdbError>(Some(frame)));
    if level == 1 {
        lemma_find_value(frame, lo, hi, key, value);
    } else {
        assert(spec_is_internal(frame));
        let picked: int = lemma_find_child(frame, lo, hi, key, spec_entry_count(frame) as int);
        let found = spec_find_child(frame, key, spec_entry_count(frame) as int);
        if found is Ok && found->Ok_0 is Some {
            let child: int = spec_child(frame, picked);
            lemma_descend(
                buf,
                child,
                below,
                spec_separator(frame, picked),
                spec_upper(frame, picked, hi),
                key,
                value,
                (fuel - 1) as nat,
            );
            assert(spec_descend(buf, page, key, fuel) == spec_descend(
                buf,
                child,
                key,
                (fuel - 1) as nat,
            ));
            if spec_pairs(buf, child, below).contains(wanted) {
                lemma_child_pairs_held(buf, frame, level, 0, picked, wanted);
            }
            if spec_pairs(buf, page, level).contains(wanted) {
                let j: int = lemma_holding_child(buf, page, level, lo, hi, key, value);
                if j < picked {
                    assert(spec_lex_lt(key, spec_separator(frame, picked)));
                    lemma_lex_le_antisymmetric(key, spec_separator(frame, picked));
                } else if picked < j {
                    assert(!spec_lex_le(spec_separator(frame, j), key));
                }
            }
        } else {
            assert(spec_descend(buf, page, key, fuel) == Ok::<Option<Seq<u8>>, BdbError>(None));
            if spec_pairs(buf, page, level).contains(wanted) {
                let j: int = lemma_holding_child(buf, page, level, lo, hi, key, value);
                assert(!spec_lex_le(spec_separator(frame, j), key));
            }
        }
    }
}

/// The keys of the pairs of a well-formed tree increase strictly from left
/// to right.
pub proof fn lemma_pairs_increase(
    buf: Seq<u8>,
    page: int,
    level: nat,
    lo: Seq<u8>,
    hi: Option<Seq<u8>>,
    a: int,
    b: int,
)
    requires
        spec_wf_subtree(buf, page, level, lo, hi),
        0 <= a < b < spec_pairs(buf, page, level).len(),
    ensures
        spec_lex_lt(
            spec_pairs(buf, page, level)[a].0.payload(),
            spec_pairs(buf, page, level)[b].0.payload(),
        ),
    decreases level, SLOT_LIMIT,
{
    let frame: Seq<u8> = spec_frame(buf, page);
    if level == 1 {
        lemma_leaf_pair(frame, lo, hi, a);
        lemma_leaf_pair(frame, lo, hi, b);
        assert(spec_lex_lt(spec_key(frame, a), spec_key(frame, b)));
    } else {
        lemma_pairs_from_increase(buf, page, level, lo, hi, 0, a, b);
    }
}

/// The keys of the pairs below the children of a well-formed internal page
/// increase strictly from left to right.
pub proof fn lemma_pairs_from_increase(
    buf: Seq<u8>,
    page: int,
    level: nat,
    lo: Seq<u8>,
    hi: Option<Seq<u8>>,
    from: int,
    a: int,
    b: int,
)
    requires
        spec_wf_subtree(buf, page, level, lo, hi),
        level >= 2,
        0 <= from,
        0 <= a < b < spec_pairs_from(buf, spec_frame(buf, page), level, from).len(),
    ensures
        spec_lex_lt(
            spec_pairs_from(buf, spec_frame(buf, page), level, from)[a].0.payload(),
            spec_pairs_from(buf, spec_frame(buf, page), level, from)[b].0.payload(),
        ),
    decreases level, spec_entry_count(spec_frame(buf, page)) - from,
{
    let frame: Seq<u8> = spec_frame(buf, page);
    let child: int = spec_child(frame, from);
    let below: nat = (level - 1) as nat;
    let first = spec_pairs(buf, child, below);
    let low: Seq<u8> = spec_separator(frame, from);
    let high: Option<Seq<u8>> = spec_upper(frame, from, hi);
    if b < first.len() {
        lemma_pairs_increase(buf, child, below, low, high, a, b);
    } else if a >= first.len() {
        lemma_pairs_from_increase(
            buf,
            page,
            level,
            lo,
            hi,
            from + 1,
            a - first.len(),
            b - first.len(),
        );
    } else {
        lemma_pairs_in_range(buf, child, below, low, high, a);
        lemma_pairs_from_in_range(buf, page, level, lo, hi, from + 1, b - first.len());
        lemma_lex_lt_le_transitive(
            first[a].0.payload(),
            spec_separator(frame, from + 1),
            spec_pairs_from(buf, frame, level, from + 1)[b - first.len()].0.payload(),
        );
    }
}

} // verus!
