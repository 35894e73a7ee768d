//! The order of keys: byte strings compared lexicographically.

use vstd::prelude::*;

verus! {

/// `a` and `b` hold the same bytes at every index below `n`.
pub open spec fn spec_agree_below(a: Seq<u8>, b: Seq<u8>, n: int) -> bool {
    forall|j: int| 0 <= j < n ==> a[j] == b[j]
}

/// `a` and `b` agree below index `i`, and there `a` holds the smaller byte.
pub open spec fn spec_less_at(a: Seq<u8>, b: Seq<u8>, i: int) -> bool {
    &&& 0 <= i < a.len()
    &&& i < b.len()
    &&& spec_agree_below(a, b, i)
    &&& a[i] < b[i]
}

/// `a` is a prefix of `b`, the whole of `b` included.
pub open spec fn spec_prefix(a: Seq<u8>, b: Seq<u8>) -> bool {
    a.len() <= b.len() && spec_agree_below(a, b, a.len() as int)
}

/// `a` comes before `b` in lexicographic order, or equals it.
pub open spec fn spec_lex_le(a: Seq<u8>, b: Seq<u8>) -> bool {
    spec_prefix(a, b) || exists|i: int| spec_less_at(a, b, i)
}

/// `a` comes strictly before `b` in lexicographic order.
pub open spec fn spec_lex_lt(a: Seq<u8>, b: Seq<u8>) -> bool {
    spec_lex_le(a, b) && a != b
}

/// Every key is at most itself.
pub proof fn lemma_lex_le_reflexive(a: Seq<u8>)
    ensures
        spec_lex_le(a, a),
{
}

/// The empty key comes before every key.
pub proof fn lemma_lex_le_empty(a: Seq<u8>)
    ensures
        spec_lex_le(Seq::<u8>::empty(), a),
{
}

/// Of two keys, one is at most the other.
pub proof fn lemma_lex_le_total(a: Seq<u8>, b: Seq<u8>)
    ensures
        spec_lex_le(a, b) || spec_lex_le(b, a),
{
    if !spec_prefix(a, b) && !spec_prefix(b, a) {
        let i: int = lemma_first_difference(a, b, 0);
        if a[i] < b[i] {
            assert(spec_less_at(a, b, i));
        } else {
            assert(spec_less_at(b, a, i));
        }
    }
}

/// Two keys neither of which is a prefix of the other differ at an index
/// below which they agree.
proof fn lemma_first_difference(a: Seq<u8>, b: Seq<u8>, from: int) -> (i: int)
    requires
        !spec_prefix(a, b),
        !spec_prefix(b, a),
        0 <= from <= a.len(),
        from <= b.len(),
        spec_agree_below(a, b, from),
    ensures
        0 <= i < a.len(),
        i < b.len(),
        spec_agree_below(a, b, i),
        a[i] != b[i],
    decreases a.len() - from,
{
    if from < a.len() && from < b.len() {
        if a[from] != b[from] {
            from
        } else {
            lemma_first_difference(a, b, from + 1)
        }
    } else {
        // One of the two ends at `from`, so it is a prefix of the other.
        assert(false);
        0
    }
}

/// Keys that are at most each other are equal.
pub proof fn lemma_lex_le_antisymmetric(a: Seq<u8>, b: Seq<u8>)
    requires
        spec_lex_le(a, b),
        spec_lex_le(b, a),
    ensures
        a == b,
{
    if spec_prefix(a, b) {
        if spec_prefix(b, a) {
            assert(a =~= b);
        } else {
            let j: int = choose|j: int| spec_less_at(b, a, j);
            assert(a[j] == b[j]);
        }
    } else {
        let i: int = choose|i: int| spec_less_at(a, b, i);
        if spec_prefix(b, a) {
            assert(b[i] == a[i]);
        } else {
            let j: int = choose|j: int| spec_less_at(b, a, j);
            if i < j {
                assert(b[i] == a[i]);
            } else if j < i {
                assert(a[j] == b[j]);
            }
        }
    }
}

/// The order is transitive.
pub proof fn lemma_lex_le_transitive(a: Seq<u8>, b: Seq<u8>, c: Seq<u8>)
    requires
        spec_lex_le(a, b),
        spec_lex_le(b, c),
    ensures
        spec_lex_le(a, c),
{
    if spec_prefix(a, b) {
        if spec_prefix(b, c) {
            assert(spec_prefix(a, c));
        } else {
            let j: int = choose|j: int| spec_less_at(b, c, j);
            if j < a.len() {
                assert(spec_less_at(a, c, j));
            } else {
                assert(spec_prefix(a, c));
            }
        }
    } else {
        let i: int = choose|i: int| spec_less_at(a, b, i);
        if spec_prefix(b, c) {
            assert(spec_less_at(a, c, i));
        } else {
            let j: int = choose|j: int| spec_less_at(b, c, j);
            if i <= j {
                assert(spec_less_at(a, c, i));
            } else {
                assert(spec_less_at(a, c, j));
            }
        }
    }
}

/// A key strictly before a second one that is at most a third is strictly
/// before the third.
pub proof fn lemma_lex_lt_le_transitive(a: Seq<u8>, b: Seq<u8>, c: Seq<u8>)
    requires
        spec_lex_lt(a, b),
        spec_lex_le(b, c),
    ensures
        spec_lex_lt(a, c),
{
    lemma_lex_le_transitive(a, b, c);
    if a == c {
        lemma_lex_le_antisymmetric(a, b);
    }
}

/// Whether `a` and `b` hold the same bytes.
pub fn bytes_eq(a: &[u8], b: &[u8]) -> (r: bool)
    ensures
        r == (a@ == b@),
{
    if a.len() != b.len() {
        return false;
    }
    let mut i: usize = 0;
    while i < a.len()
        invariant
            i <= a.len(),
            a.len() == b.len(),
            spec_agree_below(a@, b@, i as int),
        decreases a.len() - i,
    {
        if a[i] != b[i] {
            return false;
        }
        i += 1;
    }
    assert(a@ =~= b@);
    true
}

/// Whether `a` comes before `b` in lexicographic order, or equals it.
pub fn bytes_le(a: &[u8], b: &[u8]) -> (r: bool)
    ensures
        r == spec_lex_le(a@, b@),
{
    let mut i: usize = 0;
    while i < a.len() && i < b.len()
        invariant
            i <= a.len(),
            i <= b.len(),
            spec_agree_below(a@, b@, i as int),
        decreases a.len() - i,
    {
        if a[i] != b[i] {
            let less: bool = a[i] < b[i];
            proof {
                if less {
                    assert(spec_less_at(a@, b@, i as int));
                } else {
                    assert(spec_less_at(b@, a@, i as int));
                    if spec_lex_le(a@, b@) {
                        assert(spec_lex_le(b@, a@));
                        lemma_lex_le_antisymmetric(a@, b@);
                    }
                }
            }
            return less;
        }
        i += 1;
    }
    let shorter: bool = a.len() <= b.len();
    proof {
        if shorter {
            assert(spec_prefix(a@, b@));
        } else {
            assert(spec_prefix(b@, a@));
            if spec_lex_le(a@, b@) {
                lemma_lex_le_antisymmetric(a@, b@);
            }
        }
    }
    shorter
}

} // verus!
