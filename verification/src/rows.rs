//! Suffix arrays as bijections between rows and text offsets.

use vstd::prelude::*;
use vstd::relations::injective_on;
use vstd::set_lib::{lemma_int_range, lemma_map_size, lemma_subset_equality, set_int_range};
use crate::text::{is_permutation, is_suffix_array, suffix_lt, valid_text};

verus! {

/// No suffix is smaller than itself.
pub proof fn lemma_suffix_lt_irreflexive(t: Seq<u8>, i: int)
    ensures
        !suffix_lt(t, i, i),
    decreases t.len() - i,
{
    if 0 <= i < t.len() {
        lemma_suffix_lt_irreflexive(t, i + 1);
    }
}

/// Of two suffixes at most one is smaller than the other.
pub proof fn lemma_suffix_lt_asymmetric(t: Seq<u8>, i: int, j: int)
    requires
        suffix_lt(t, i, j),
    ensures
        !suffix_lt(t, j, i),
    decreases t.len() - i,
{
    if 0 <= i < t.len() && 0 <= j < t.len() && t[i] == t[j] {
        lemma_suffix_lt_asymmetric(t, i + 1, j + 1);
    }
}

/// Two rows of a suffix array never hold the same offset.
pub proof fn lemma_rows_distinct(t: Seq<u8>, sa: Seq<usize>)
    requires
        is_suffix_array(t, sa),
    ensures
        forall|q: int, r: int|
            0 <= q < sa.len() && 0 <= r < sa.len() && q != r ==> #[trigger] sa[q] != #[trigger] sa[r],
{
    assert forall|q: int, r: int|
        0 <= q < sa.len() && 0 <= r < sa.len() && q != r implies #[trigger] sa[q]
        != #[trigger] sa[r] by {
        if q < r {
            assert(suffix_lt(t, sa[q] as int, sa[r] as int));
            lemma_suffix_lt_irreflexive(t, sa[q] as int);
        } else {
            assert(suffix_lt(t, sa[r] as int, sa[q] as int));
            lemma_suffix_lt_irreflexive(t, sa[r] as int);
        }
    }
}

/// Every offset of the text stands in some row: a suffix array is a
/// permutation of the offsets.
pub proof fn lemma_rows_cover(t: Seq<u8>, sa: Seq<usize>, i: int)
    requires
        is_suffix_array(t, sa),
        0 <= i < t.len(),
    ensures
        exists|r: int| 0 <= r < sa.len() && sa[r] == i,
{
    let n = t.len() as int;
    let rows = set_int_range(0, n);
    let offset = |r: int| sa[r] as int;
    lemma_int_range(0, n);
    lemma_rows_distinct(t, sa);
    assert(injective_on(offset, rows));
    let image = rows.map(offset);
    lemma_map_size(rows, image, offset);
    assert(image.subset_of(rows)) by {
        assert forall|i: int| image.contains(i) implies rows.contains(i) by {
            let r = choose|r: int| rows.contains(r) && i == offset(r);
            assert(sa[r] < t.len());
        }
    }
    lemma_subset_equality(image, rows);
    assert(rows.contains(i));
    assert(image.contains(i));
    let r = choose|r: int| rows.contains(r) && i == offset(r);
    assert(0 <= r < sa.len() && sa[r] == i);
}

/// A suffix array is a permutation of the offsets of its text.
pub proof fn lemma_permutation(t: Seq<u8>, sa: Seq<usize>)
    requires
        is_suffix_array(t, sa),
    ensures
        is_permutation(sa),
{
    lemma_rows_distinct(t, sa);
    assert forall|i: usize| i < sa.len() implies sa.contains(i) by {
        lemma_rows_cover(t, sa, i as int);
    }
}

/// The row of `sa` that holds offset `i`.
pub open spec fn row_of(sa: Seq<usize>, i: int) -> int {
    choose|r: int| 0 <= r < sa.len() && sa[r] == i
}

/// `row_of` inverts the suffix array, in both directions.
pub proof fn lemma_row_of(t: Seq<u8>, sa: Seq<usize>)
    requires
        is_suffix_array(t, sa),
    ensures
        forall|i: int|
            0 <= i < t.len() ==> 0 <= #[trigger] row_of(sa, i) < sa.len() && sa[row_of(sa, i)] == i,
        forall|r: int| 0 <= r < sa.len() ==> row_of(sa, #[trigger] sa[r] as int) == r,
{
    lemma_rows_distinct(t, sa);
    assert forall|i: int| 0 <= i < t.len() implies 0 <= #[trigger] row_of(sa, i) < sa.len()
        && sa[row_of(sa, i)] == i by {
        lemma_rows_cover(t, sa, i);
    }
    assert forall|r: int| 0 <= r < sa.len() implies row_of(sa, #[trigger] sa[r] as int) == r by {
        let i = sa[r] as int;
        assert(0 <= row_of(sa, i) < sa.len() && sa[row_of(sa, i)] == i);
    }
}

/// In a suffix array the rows are ordered as their suffixes are.
pub proof fn lemma_rows_ordered(t: Seq<u8>, sa: Seq<usize>, q: int, r: int)
    requires
        is_suffix_array(t, sa),
        0 <= q < sa.len(),
        0 <= r < sa.len(),
    ensures
        q < r <==> suffix_lt(t, sa[q] as int, sa[r] as int),
{
    if q < r {
        assert(suffix_lt(t, sa[q] as int, sa[r] as int));
    } else if q == r {
        lemma_suffix_lt_irreflexive(t, sa[q] as int);
    } else {
        assert(suffix_lt(t, sa[r] as int, sa[q] as int));
        lemma_suffix_lt_asymmetric(t, sa[r] as int, sa[q] as int);
    }
}

/// The suffix that consists of the sentinel alone is the smallest, so it
/// stands in row zero.
pub proof fn lemma_sentinel_row(t: Seq<u8>, sa: Seq<usize>)
    requires
        valid_text(t),
        is_suffix_array(t, sa),
    ensures
        sa[0] == t.len() - 1,
{
    let n = t.len() as int;
    if sa[0] != n - 1 {
        lemma_row_of(t, sa);
        let r = row_of(sa, n - 1);
        assert(sa[r] == n - 1);
        assert(r != 0);
        lemma_rows_ordered(t, sa, 0, r);
        let j = sa[0] as int;
        assert(t[n - 1] < t[j]);
        assert(!suffix_lt(t, j, n - 1));
    }
}

} // verus!
