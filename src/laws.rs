//! Laws relating the answers of several queries, stated over the sequence
//! that a matrix holds (its view), in the terms its methods' contracts use.
use vstd::prelude::*;
use crate::dynamic_matrix::DynamicWaveletMatrix;
use crate::model::{
    is_sym, occurrences, kth_smallest, less_than, at_most, lemma_count_split, lemma_count_le,
    lemma_count_zero, lemma_count_full, lemma_count_mono,
};

verus! {

/// The occurrence selected by the rank of a position that holds the symbol
/// is that position; and such a rank is below the symbol's count, so the
/// selection succeeds.
pub proof fn lemma_select_of_rank(s: Seq<u64>, c: u64, i: int, p: int)
    requires
        0 <= i < s.len(),
        s[i] == c,
        0 <= p < s.len(),
        s[p] == c,
        occurrences(s.subrange(0, p), c) == occurrences(s.subrange(0, i), c),
    ensures
        p == i,
{
    lemma_rank_below_count(s, c, i);
    if p < i {
        lemma_occurrence_counts(s, c, p, i);
    } else if i < p {
        lemma_occurrence_counts(s, c, i, p);
    }
}

/// The rank of a position that holds the symbol is below the symbol's count.
pub proof fn lemma_rank_below_count(s: Seq<u64>, c: u64, i: int)
    requires
        0 <= i < s.len(),
        s[i] == c,
    ensures
        occurrences(s.subrange(0, i), c) < occurrences(s, c),
{
    assert(s.subrange(0, s.len() as int) =~= s);
    lemma_occurrence_counts(s, c, i, s.len() as int);
}

/// Between a position holding `c` and any later boundary, the count of `c`
/// grows by at least one.
proof fn lemma_occurrence_counts(s: Seq<u64>, c: u64, i: int, j: int)
    requires
        0 <= i < j <= s.len(),
        s[i] == c,
    ensures
        occurrences(s.subrange(0, i), c) < occurrences(s.subrange(0, j), c),
{
    let q = is_sym(c);
    lemma_count_split(s, i, i + 1, q);
    lemma_count_split(s, i + 1, j, q);
    lemma_count_split(s, i, j, q);
    assert(s.subrange(0, i + 1).drop_last() =~= s.subrange(0, i));
    assert(s.subrange(0, i + 1).last() == c);
}

/// The rank at position zero is zero, and the rank at the length is the
/// symbol's count.
pub proof fn lemma_rank_boundaries(s: Seq<u64>, c: u64)
    ensures
        occurrences(s.subrange(0, 0), c) == 0,
        occurrences(s.subrange(0, s.len() as int), c) == occurrences(s, c),
{
    assert(s.subrange(0, 0) =~= Seq::<u64>::empty());
    assert(s.subrange(0, s.len() as int) =~= s);
}

/// Inserting a symbol and then deleting at the same position gives back a
/// matrix that holds the same sequence as before the insertion, so every
/// later query answers as it did then.
pub proof fn lemma_insert_delete_inverse(
    before: DynamicWaveletMatrix,
    inserted: DynamicWaveletMatrix,
    after: DynamicWaveletMatrix,
    pos: int,
    v: u64,
)
    requires
        0 <= pos <= before@.len(),
        inserted@ == before@.insert(pos, v),
        after@ == inserted@.remove(pos),
    ensures
        after@ == before@,
{
    assert(before@.insert(pos, v).remove(pos) =~= before@);
}

/// The smallest (rank zero) symbol of a non-empty range is its minimum.
pub proof fn lemma_quantile_first_is_min(x: Seq<u64>, v: u64)
    requires
        x.len() > 0,
        kth_smallest(x, 0, v),
    ensures
        forall|j: int| 0 <= j < x.len() ==> v <= #[trigger] x[j],
        exists|j: int| 0 <= j < x.len() && x[j] == v,
{
    lemma_count_zero(x, less_than(v));
    assert forall|j: int| 0 <= j < x.len() implies v <= #[trigger] x[j] by {
        assert(!less_than(v)(x[j]));
    }
    if forall|j: int| 0 <= j < x.len() ==> x[j] != v {
        assert forall|j: int| 0 <= j < x.len() implies !#[trigger] at_most(v)(x[j]) by {
            assert(!less_than(v)(x[j]));
        }
        crate::model::lemma_count_none(x, at_most(v));
    }
}

/// The largest (rank `len - 1`) symbol of a non-empty range is its maximum.
pub proof fn lemma_quantile_last_is_max(x: Seq<u64>, v: u64)
    requires
        x.len() > 0,
        kth_smallest(x, (x.len() - 1) as nat, v),
    ensures
        forall|j: int| 0 <= j < x.len() ==> #[trigger] x[j] <= v,
        exists|j: int| 0 <= j < x.len() && x[j] == v,
{
    lemma_count_le(x, at_most(v));
    lemma_count_full(x, at_most(v));
    assert forall|j: int| 0 <= j < x.len() implies #[trigger] x[j] <= v by {
        assert(at_most(v)(x[j]));
    }
    if forall|j: int| 0 <= j < x.len() ==> x[j] != v {
        assert forall|j: int| 0 <= j < x.len() implies #[trigger] less_than(v)(x[j]) by {
            assert(at_most(v)(x[j]));
        }
        crate::model::lemma_count_all(x, less_than(v));
    }
}

/// At most one symbol is the `k`-th smallest of a range, so a quantile
/// answer is determined by the range and `k`.
pub proof fn lemma_kth_smallest_unique(x: Seq<u64>, k: nat, v1: u64, v2: u64)
    requires
        kth_smallest(x, k, v1),
        kth_smallest(x, k, v2),
    ensures
        v1 == v2,
{
    if v1 < v2 {
        lemma_count_mono(x, at_most(v1), less_than(v2));
    } else if v2 < v1 {
        lemma_count_mono(x, at_most(v2), less_than(v1));
    }
}

} // verus!
