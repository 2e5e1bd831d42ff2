//! The last-to-first mapping of a transformed text.
//!
//! Going from a row to the row of the preceding text offset is computed from
//! the transformed text alone: by the number of smaller symbols in it and the
//! number of equal symbols above the row.

use vstd::prelude::*;
use vstd::relations::injective_on;
use vstd::set_lib::{lemma_int_range, lemma_map_size, lemma_set_disjoint_lens, set_int_range};
use crate::bwt::bwt_of;
use crate::counts::{count_eq, count_less};
use crate::rows::{lemma_row_of, lemma_rows_ordered, lemma_sentinel_row, row_of};
use crate::text::{is_suffix_array, suffix_lt, valid_text};

verus! {

/// The offset before `i` in a text of length `n` that is read as a cycle.
pub open spec fn before(n: int, i: int) -> int {
    if i == 0 {
        n - 1
    } else {
        i - 1
    }
}

/// The offset after `i` in a text of length `n` that is read as a cycle.
pub open spec fn after(n: int, i: int) -> int {
    if i == n - 1 {
        0
    } else {
        i + 1
    }
}

/// The last-to-first mapping: the symbols of `b` below the symbol of row
/// `r`, plus the occurrences of that symbol above row `r`.
pub open spec fn lf(b: Seq<u8>, r: int) -> int {
    (count_less(b, b[r], b.len() as int) + count_eq(b, b[r], r)) as int
}

/// Rows in the order of their symbols, rows with equal symbols in row order.
pub open spec fn key_lt(b: Seq<u8>, q: int, r: int) -> bool {
    b[q] < b[r] || (b[q] == b[r] && q < r)
}

/// The row that holds the offset before the offset of row `q`.
pub open spec fn step_back(t: Seq<u8>, sa: Seq<usize>, q: int) -> int {
    row_of(sa, before(t.len() as int, sa[q] as int))
}

/// The rows above `p` whose symbol is `c`.
pub open spec fn rows_eq(b: Seq<u8>, c: u8, p: int) -> Set<int> {
    Set::new(|q: int| 0 <= q < p && b[q] == c)
}

/// The rows above `p` whose symbol is below `c`.
pub open spec fn rows_less(b: Seq<u8>, c: u8, p: int) -> Set<int> {
    Set::new(|q: int| 0 <= q < p && b[q] < c)
}

/// The rows that come before row `r` in key order.
pub open spec fn rows_before(b: Seq<u8>, r: int) -> Set<int> {
    Set::new(|q: int| 0 <= q < b.len() && key_lt(b, q, r))
}

proof fn lemma_rows_eq_len(b: Seq<u8>, c: u8, p: int)
    requires
        0 <= p <= b.len(),
    ensures
        rows_eq(b, c, p).finite(),
        rows_eq(b, c, p).len() == count_eq(b, c, p),
    decreases p,
{
    if p == 0 {
        assert(rows_eq(b, c, p) =~= Set::empty());
    } else {
        lemma_rows_eq_len(b, c, p - 1);
        if b[p - 1] == c {
            assert(rows_eq(b, c, p) =~= rows_eq(b, c, p - 1).insert(p - 1));
        } else {
            assert(rows_eq(b, c, p) =~= rows_eq(b, c, p - 1));
        }
    }
}

proof fn lemma_rows_less_len(b: Seq<u8>, c: u8, p: int)
    requires
        0 <= p <= b.len(),
    ensures
        rows_less(b, c, p).finite(),
        rows_less(b, c, p).len() == count_less(b, c, p),
    decreases p,
{
    if p == 0 {
        assert(rows_less(b, c, p) =~= Set::empty());
    } else {
        lemma_rows_less_len(b, c, p - 1);
        if b[p - 1] < c {
            assert(rows_less(b, c, p) =~= rows_less(b, c, p - 1).insert(p - 1));
        } else {
            assert(rows_less(b, c, p) =~= rows_less(b, c, p - 1));
        }
    }
}

/// The text can be read off the transformed text and the suffix array: the
/// symbol at offset `i` stands in the row of the offset after `i`.
pub proof fn lemma_text_from_bwt(t: Seq<u8>, sa: Seq<usize>, i: int)
    requires
        is_suffix_array(t, sa),
        0 <= i < t.len(),
    ensures
        0 <= row_of(sa, after(t.len() as int, i)) < sa.len(),
        t[i] == bwt_of(t, sa)[row_of(sa, after(t.len() as int, i))],
{
    lemma_row_of(t, sa);
    let r = row_of(sa, after(t.len() as int, i));
    assert(sa[r] == after(t.len() as int, i));
}

/// The transformed text is a rearrangement of the text: every symbol occurs
/// in it as often as in the text.
pub proof fn lemma_bwt_keeps_counts(t: Seq<u8>, sa: Seq<usize>, c: u8)
    requires
        is_suffix_array(t, sa),
    ensures
        count_eq(bwt_of(t, sa), c, t.len() as int) == count_eq(t, c, t.len() as int),
{
    let n = t.len() as int;
    let b = bwt_of(t, sa);
    let place = |r: int| before(n, sa[r] as int);
    let source = rows_eq(b, c, n);
    let target = rows_eq(t, c, n);
    lemma_rows_eq_len(b, c, n);
    lemma_rows_eq_len(t, c, n);
    lemma_row_of(t, sa);
    assert(injective_on(place, source)) by {
        assert forall|q1: int, q2: int|
            source.contains(q1) && source.contains(q2) && #[trigger] place(q1) == #[trigger] place(
                q2,
            ) implies q1 == q2 by {
            assert(sa[q1] == sa[q2]);
            assert(row_of(sa, sa[q1] as int) == q1);
            assert(row_of(sa, sa[q2] as int) == q2);
        }
    }
    assert(source.map(place) =~= target) by {
        assert forall|i: int| target.contains(i) implies source.map(place).contains(i) by {
            let r = row_of(sa, after(n, i));
            assert(sa[r] == after(n, i));
            assert(place(r) == i);
            assert(source.contains(r));
        }
    }
    lemma_map_size(source, target, place);
}

/// As many rows come before row `r` in key order as `lf` says.
proof fn lemma_rows_before_len(b: Seq<u8>, r: int)
    requires
        0 <= r < b.len(),
    ensures
        rows_before(b, r).finite(),
        rows_before(b, r).len() == lf(b, r),
{
    let n = b.len() as int;
    let below = rows_less(b, b[r], n);
    let equal = rows_eq(b, b[r], r);
    lemma_rows_less_len(b, b[r], n);
    lemma_rows_eq_len(b, b[r], r);
    lemma_set_disjoint_lens(below, equal);
    assert(below.disjoint(equal));
    assert(rows_before(b, r) =~= below + equal);
}

/// Stepping back from two rows keeps them in key order: the suffixes before
/// them compare first by their first symbols, which the transformed text
/// holds, and then as the rows themselves do.
proof fn lemma_step_back_order(t: Seq<u8>, sa: Seq<usize>, q: int, r: int)
    requires
        valid_text(t),
        is_suffix_array(t, sa),
        0 <= q < sa.len(),
        0 <= r < sa.len(),
    ensures
        step_back(t, sa, q) < step_back(t, sa, r) <==> key_lt(bwt_of(t, sa), q, r),
{
    let n = t.len() as int;
    let b = bwt_of(t, sa);
    let iq = sa[q] as int;
    let ir = sa[r] as int;
    let pq = before(n, iq);
    let pr = before(n, ir);
    lemma_row_of(t, sa);
    lemma_sentinel_row(t, sa);
    assert(row_of(sa, sa[0] as int) == 0);
    assert(b[q] == t[pq]);
    assert(b[r] == t[pr]);
    assert(sa[step_back(t, sa, q)] == pq);
    assert(sa[step_back(t, sa, r)] == pr);
    if q == r {
    } else if ir == 0 {
        assert(iq != 0) by {
            assert(row_of(sa, sa[q] as int) == q);
            assert(row_of(sa, sa[r] as int) == r);
        }
        assert(t[n - 1] < t[pq]);
    } else if iq == 0 {
        assert(t[n - 1] < t[pr]);
        assert(step_back(t, sa, r) != 0);
    } else {
        lemma_rows_ordered(t, sa, step_back(t, sa, q), step_back(t, sa, r));
        lemma_rows_ordered(t, sa, q, r);
        assert(suffix_lt(t, pq, pr) <==> (t[pq] < t[pr] || (t[pq] == t[pr] && suffix_lt(
            t,
            iq,
            ir,
        ))));
    }
}

/// The last-to-first mapping leads from a row to the row of the preceding
/// offset, and from the row of offset zero to the row of the sentinel.
pub proof fn lemma_lf(t: Seq<u8>, sa: Seq<usize>, r: int)
    requires
        valid_text(t),
        is_suffix_array(t, sa),
        0 <= r < sa.len(),
    ensures
        0 <= lf(bwt_of(t, sa), r) < sa.len(),
        sa[lf(bwt_of(t, sa), r)] == before(t.len() as int, sa[r] as int),
{
    let n = t.len() as int;
    let b = bwt_of(t, sa);
    let back = |q: int| step_back(t, sa, q);
    let source = rows_before(b, r);
    let target = set_int_range(0, back(r));
    lemma_row_of(t, sa);
    lemma_rows_before_len(b, r);
    lemma_int_range(0, back(r));
    assert(injective_on(back, source)) by {
        assert forall|q1: int, q2: int|
            source.contains(q1) && source.contains(q2) && #[trigger] back(q1) == #[trigger] back(
                q2,
            ) implies q1 == q2 by {
            assert(sa[back(q1)] == before(n, sa[q1] as int));
            assert(sa[back(q2)] == before(n, sa[q2] as int));
            assert(sa[q1] == sa[q2]);
            assert(row_of(sa, sa[q1] as int) == q1);
            assert(row_of(sa, sa[q2] as int) == q2);
        }
    }
    assert(source.map(back) =~= target) by {
        assert forall|x: int| source.map(back).contains(x) implies target.contains(x) by {
            let q = choose|q: int| source.contains(q) && x == back(q);
            lemma_step_back_order(t, sa, q, r);
        }
        assert forall|x: int| target.contains(x) implies source.map(back).contains(x) by {
            let q = row_of(sa, after(n, sa[x] as int));
            assert(sa[q] == after(n, sa[x] as int));
            assert(before(n, sa[q] as int) == sa[x]);
            assert(row_of(sa, sa[x] as int) == x);
            assert(back(q) == x);
            lemma_step_back_order(t, sa, q, r);
            assert(source.contains(q));
        }
    }
    lemma_map_size(source, target, back);
    assert(lf(b, r) == back(r));
}

} // verus!
