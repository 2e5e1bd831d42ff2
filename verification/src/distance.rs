//! Levenshtein distance between two byte sequences, exact and bounded.

use vstd::prelude::*;

verus! {

/// The smallest of three numbers.
pub open spec fn min3(x: nat, y: nat, z: nat) -> nat {
    if x <= y && x <= z {
        x
    } else if y <= z {
        y
    } else {
        z
    }
}

/// The cost of aligning `x` with `y`: nothing when they are equal, one
/// substitution otherwise.
pub open spec fn substitution(x: u8, y: u8) -> nat {
    if x == y {
        0
    } else {
        1
    }
}

/// The least number of single-symbol insertions, deletions and substitutions
/// that turn the first `i` symbols of `a` into the first `j` symbols of `b`.
///
/// An empty prefix is reached by deleting, or left by inserting, every symbol
/// of the other. Otherwise the last edit either deletes the last symbol of
/// the first prefix, inserts the last symbol of the second, or aligns the two
/// last symbols.
pub open spec fn prefix_distance(a: Seq<u8>, b: Seq<u8>, i: nat, j: nat) -> nat
    decreases i + j,
{
    if i == 0 {
        j
    } else if j == 0 {
        i
    } else {
        min3(
            prefix_distance(a, b, (i - 1) as nat, j) + 1,
            prefix_distance(a, b, i, (j - 1) as nat) + 1,
            prefix_distance(a, b, (i - 1) as nat, (j - 1) as nat) + substitution(a[i - 1], b[j - 1]),
        )
    }
}

/// The Levenshtein distance of `a` and `b`.
pub open spec fn edit_distance(a: Seq<u8>, b: Seq<u8>) -> nat {
    prefix_distance(a, b, a.len(), b.len())
}

/// What a bounded computation returns: the distance when it is at most
/// `bound`, nothing when it is above.
pub open spec fn bounded_distance(a: Seq<u8>, b: Seq<u8>, bound: nat) -> Option<nat> {
    if edit_distance(a, b) <= bound {
        Some(edit_distance(a, b))
    } else {
        None
    }
}

/// The distance of two prefixes is at most the length of the longer.
pub proof fn lemma_distance_upper(a: Seq<u8>, b: Seq<u8>, i: nat, j: nat)
    ensures
        prefix_distance(a, b, i, j) <= if i >= j {
            i
        } else {
            j
        },
    decreases i + j,
{
    if i > 0 && j > 0 {
        lemma_distance_upper(a, b, (i - 1) as nat, (j - 1) as nat);
    }
}

/// The distance of two prefixes is at least the difference of their lengths.
pub proof fn lemma_distance_lower(a: Seq<u8>, b: Seq<u8>, i: nat, j: nat)
    ensures
        prefix_distance(a, b, i, j) >= i - j,
        prefix_distance(a, b, i, j) >= j - i,
    decreases i + j,
{
    if i > 0 && j > 0 {
        lemma_distance_lower(a, b, (i - 1) as nat, j);
        lemma_distance_lower(a, b, i, (j - 1) as nat);
        lemma_distance_lower(a, b, (i - 1) as nat, (j - 1) as nat);
    }
}

/// Exchanging the two sequences exchanges insertions and deletions and
/// leaves the distance of every pair of prefixes as it was.
pub proof fn lemma_prefix_symmetric(a: Seq<u8>, b: Seq<u8>, i: nat, j: nat)
    ensures
        prefix_distance(a, b, i, j) == prefix_distance(b, a, j, i),
    decreases i + j,
{
    if i > 0 && j > 0 {
        lemma_prefix_symmetric(a, b, (i - 1) as nat, j);
        lemma_prefix_symmetric(a, b, i, (j - 1) as nat);
        lemma_prefix_symmetric(a, b, (i - 1) as nat, (j - 1) as nat);
    }
}

/// Equal prefixes of one sequence are at distance zero.
pub proof fn lemma_prefix_identity(a: Seq<u8>, i: nat)
    ensures
        prefix_distance(a, a, i, i) == 0,
    decreases i,
{
    if i > 0 {
        lemma_prefix_identity(a, (i - 1) as nat);
    }
}

/// The distance of a sequence to itself is zero.
pub proof fn lemma_distance_identity(a: Seq<u8>)
    ensures
        edit_distance(a, a) == 0,
{
    lemma_prefix_identity(a, a.len());
}

/// The distance does not depend on the order of the two sequences.
pub proof fn lemma_distance_symmetric(a: Seq<u8>, b: Seq<u8>)
    ensures
        edit_distance(a, b) == edit_distance(b, a),
{
    lemma_prefix_symmetric(a, b, a.len(), b.len());
}

/// Once every prefix of `b` up to length `n` is farther than `bound` from the
/// first `i` symbols of `a`, it is also farther from every longer prefix of
/// `a`: each edit script for the longer prefix passes through row `i`.
pub proof fn lemma_row_exceeds(a: Seq<u8>, b: Seq<u8>, n: nat, bound: nat, i: nat, i2: nat, j2: nat)
    requires
        forall|j: nat| j <= n ==> #[trigger] prefix_distance(a, b, i, j) > bound,
        i <= i2,
        j2 <= n,
    ensures
        prefix_distance(a, b, i2, j2) > bound,
    decreases i2 + j2,
{
    if i2 > i {
        if j2 == 0 {
            assert(prefix_distance(a, b, i, 0) > bound);
        } else {
            lemma_row_exceeds(a, b, n, bound, i, (i2 - 1) as nat, j2);
            lemma_row_exceeds(a, b, n, bound, i, i2, (j2 - 1) as nat);
            lemma_row_exceeds(a, b, n, bound, i, (i2 - 1) as nat, (j2 - 1) as nat);
        }
    }
}

/// The first row of the table without its column zero: entry `k` is the
/// distance of the empty prefix to the first `k + 1` symbols.
fn first_row(n: usize) -> (row: Vec<usize>)
    ensures
        row@.len() == n,
        forall|k: int| 0 <= k < n ==> #[trigger] row@[k] == k + 1,
{
    let mut row: Vec<usize> = Vec::with_capacity(n);
    let mut k: usize = 0;
    while k < n
        invariant
            k <= n,
            row@.len() == k,
            forall|q: int| 0 <= q < k ==> #[trigger] row@[q] == q + 1,
        decreases n - k,
    {
        row.push(k + 1);
        k += 1;
    }
    row
}

/// Replaces row `i - 1` of the table by row `i`. The row is stored without
/// column zero, whose entry is the row's number.
fn next_row(a: &[u8], b: &[u8], i: usize, row: &mut Vec<usize>)
    requires
        1 <= i <= a@.len(),
        old(row)@.len() == b@.len(),
        forall|k: int|
            0 <= k < b@.len() ==> #[trigger] old(row)@[k] == prefix_distance(
                a@,
                b@,
                (i - 1) as nat,
                (k + 1) as nat,
            ),
    ensures
        final(row)@.len() == b@.len(),
        forall|k: int|
            0 <= k < b@.len() ==> #[trigger] final(row)@[k] == prefix_distance(
                a@,
                b@,
                i as nat,
                (k + 1) as nat,
            ),
{
    let n: usize = b.len();
    let x: u8 = a[i - 1];
    let mut diagonal: usize = i - 1;
    let mut left: usize = i;
    let mut k: usize = 0;
    while k < n
        invariant
            n == b@.len(),
            1 <= i <= a@.len(),
            x == a@[i - 1],
            k <= n,
            row@.len() == n,
            diagonal == prefix_distance(a@, b@, (i - 1) as nat, k as nat),
            left == prefix_distance(a@, b@, i as nat, k as nat),
            forall|q: int|
                0 <= q < k ==> #[trigger] row@[q] == prefix_distance(
                    a@,
                    b@,
                    i as nat,
                    (q + 1) as nat,
                ),
            forall|q: int|
                k <= q < n ==> #[trigger] row@[q] == prefix_distance(
                    a@,
                    b@,
                    (i - 1) as nat,
                    (q + 1) as nat,
                ),
        decreases n - k,
    {
        let up: usize = row[k];
        let side: usize = if up < left {
            up
        } else {
            left
        };
        proof {
            lemma_distance_upper(a@, b@, (i - 1) as nat, k as nat);
        }
        let value: usize = if side < diagonal {
            side + 1
        } else if x == b[k] {
            diagonal
        } else {
            diagonal + 1
        };
        assert(value == prefix_distance(a@, b@, i as nat, (k + 1) as nat));
        diagonal = up;
        row[k] = value;
        left = value;
        k += 1;
    }
}

/// The distance by dynamic programming over one folded row that is as long
/// as `b`.
fn distance_by_rows(a: &[u8], b: &[u8]) -> (d: usize)
    ensures
        d == edit_distance(a@, b@),
{
    let m: usize = a.len();
    let n: usize = b.len();
    if n == 0 {
        return m;
    }
    let mut row: Vec<usize> = first_row(n);
    let mut i: usize = 0;
    while i < m
        invariant
            m == a@.len(),
            n == b@.len(),
            n > 0,
            i <= m,
            row@.len() == n,
            forall|k: int|
                0 <= k < n ==> #[trigger] row@[k] == prefix_distance(
                    a@,
                    b@,
                    i as nat,
                    (k + 1) as nat,
                ),
        decreases m - i,
    {
        next_row(a, b, i + 1, &mut row);
        i += 1;
    }
    row[n - 1]
}

/// The Levenshtein distance of `a` and `b`: the least number of single-symbol
/// insertions, deletions and substitutions that turn one into the other.
///
/// The table is folded into one row over the shorter sequence.
pub fn levenshtein(a: &[u8], b: &[u8]) -> (d: usize)
    ensures
        d == edit_distance(a@, b@),
{
    if b.len() <= a.len() {
        distance_by_rows(a, b)
    } else {
        proof {
            lemma_distance_symmetric(a@, b@);
        }
        distance_by_rows(b, a)
    }
}

/// The distance of two prefixes, cut off at `cap`.
pub open spec fn capped(a: Seq<u8>, b: Seq<u8>, i: nat, j: nat, cap: nat) -> nat {
    if prefix_distance(a, b, i, j) < cap {
        prefix_distance(a, b, i, j)
    } else {
        cap
    }
}

/// Column `j` of row `i` lies in the band of half-width `bound` around the
/// diagonal of the table.
pub open spec fn in_band(i: int, j: int, bound: int) -> bool {
    i - j <= bound && j - i <= bound
}

/// The entries of `row` that lie in the band of row `i` hold the distances of
/// that row, cut off at `bound + 1`. The row is stored without column zero.
pub open spec fn band_row(a: Seq<u8>, b: Seq<u8>, row: Seq<usize>, i: nat, bound: nat) -> bool {
    &&& row.len() == b.len()
    &&& forall|k: int|
        0 <= k < b.len() && in_band(i as int, k + 1, bound as int) ==> #[trigger] row[k] == capped(
            a,
            b,
            i,
            (k + 1) as nat,
            bound + 1,
        )
}

/// Outside the band every distance is above the bound.
pub proof fn lemma_outside_band(a: Seq<u8>, b: Seq<u8>, i: nat, j: nat, bound: nat)
    requires
        !in_band(i as int, j as int, bound as int),
    ensures
        prefix_distance(a, b, i, j) > bound,
        capped(a, b, i, j, bound + 1) == bound + 1,
{
    lemma_distance_lower(a, b, i, j);
}

/// The first row of the banded table: the entries up to the band's edge
/// hold their column number, the others the cut-off.
fn first_band_row(n: usize, bound: usize) -> (row: Vec<usize>)
    requires
        bound < usize::MAX,
    ensures
        row@.len() == n,
        forall|k: int|
            0 <= k < n ==> #[trigger] row@[k] == if k + 1 <= bound {
                k + 1
            } else {
                bound + 1
            },
{
    let mut row: Vec<usize> = Vec::with_capacity(n);
    let mut k: usize = 0;
    while k < n
        invariant
            k <= n,
            bound < usize::MAX,
            row@.len() == k,
            forall|q: int|
                0 <= q < k ==> #[trigger] row@[q] == if q + 1 <= bound {
                    q + 1
                } else {
                    bound + 1
                },
        decreases n - k,
    {
        if k < bound {
            row.push(k + 1);
        } else {
            row.push(bound + 1);
        }
        k += 1;
    }
    row
}

/// Replaces the band of row `i - 1` by the band of row `i`, touching no
/// entry outside it, and returns a lower bound of the new band's entries,
/// column zero included where the band reaches it.
fn next_band_row(a: &[u8], b: &[u8], i: usize, bound: usize, row: &mut Vec<usize>) -> (least: usize)
    requires
        1 <= i <= a@.len(),
        bound < usize::MAX,
        i <= b@.len() + bound,
        band_row(a@, b@, old(row)@, (i - 1) as nat, bound as nat),
    ensures
        band_row(a@, b@, final(row)@, i as nat, bound as nat),
        least <= bound + 1,
        forall|j: nat|
            j <= b@.len() && in_band(i as int, j as int, bound as int) ==> least <= #[trigger] capped(
                a@,
                b@,
                i as nat,
                j,
                (bound + 1) as nat,
            ),
{
    let n: usize = b.len();
    let cap: usize = bound + 1;
    let x: u8 = a[i - 1];
    let first: usize = if i > bound {
        i - bound
    } else {
        0
    };
    let last: usize = if bound >= n || i >= n - bound {
        n
    } else {
        i + bound
    };
    let start: usize = if first == 0 {
        1
    } else {
        first
    };
    let mut left: usize = if first == 0 {
        i
    } else {
        cap
    };
    let mut least: usize = left;
    let mut diagonal: usize = if start == 1 {
        i - 1
    } else {
        row[start - 2]
    };
    proof {
        lemma_distance_lower(a@, b@, i as nat, (start - 1) as nat);
        lemma_distance_lower(a@, b@, (i - 1) as nat, (start - 1) as nat);
        if start == 1 {
            assert(prefix_distance(a@, b@, (i - 1) as nat, 0) == i - 1);
        } else {
            assert(in_band(i - 1, (start - 2) + 1, bound as int));
        }
    }
    let ghost before = row@;
    let mut k: usize = start - 1;
    while k < last
        invariant
            n == b@.len(),
            1 <= i <= a@.len(),
            x == a@[i - 1],
            cap == bound + 1,
            first == if i > bound {
                (i - bound) as int
            } else {
                0
            },
            last == if i + bound >= n {
                n as int
            } else {
                i + bound
            },
            start == if first == 0 {
                1
            } else {
                first as int
            },
            start - 1 <= k <= last,
            last <= n,
            row@.len() == n,
            band_row(a@, b@, before, (i - 1) as nat, bound as nat),
            forall|q: int| k <= q < n ==> #[trigger] row@[q] == before[q],
            forall|q: int|
                start - 1 <= q < k ==> #[trigger] row@[q] == capped(
                    a@,
                    b@,
                    i as nat,
                    (q + 1) as nat,
                    cap as nat,
                ),
            forall|q: int| 0 <= q < start - 1 ==> #[trigger] row@[q] == before[q],
            diagonal == capped(a@, b@, (i - 1) as nat, k as nat, cap as nat),
            left == capped(a@, b@, i as nat, k as nat, cap as nat),
            least <= cap,
            forall|j: nat|
                j <= k && in_band(i as int, j as int, bound as int) ==> least <= #[trigger] capped(
                    a@,
                    b@,
                    i as nat,
                    j,
                    cap as nat,
                ),
        decreases last - k,
    {
        let in_previous: bool = k + 1 < i || (k + 1) - i < bound;
        let up: usize = if in_previous {
            row[k]
        } else {
            cap
        };
        proof {
            if in_previous {
                assert(in_band(i - 1, k + 1, bound as int));
            } else {
                lemma_outside_band(a@, b@, (i - 1) as nat, (k + 1) as nat, bound as nat);
            }
        }
        assert(up == capped(a@, b@, (i - 1) as nat, (k + 1) as nat, cap as nat));
        let side: usize = if up < left {
            up
        } else {
            left
        };
        let value: usize = if side < diagonal {
            side + 1
        } else if x == b[k] {
            diagonal
        } else if diagonal < cap {
            diagonal + 1
        } else {
            cap
        };
        assert(value == capped(a@, b@, i as nat, (k + 1) as nat, cap as nat));
        diagonal = up;
        row[k] = value;
        left = value;
        if value < least {
            least = value;
        }
        k += 1;
    }
    proof {
        assert forall|q: int|
            0 <= q < n && in_band(i as int, q + 1, bound as int) implies #[trigger] row@[q]
            == capped(a@, b@, i as nat, (q + 1) as nat, (bound + 1) as nat) by {
            assert(start - 1 <= q < last);
        }
    }
    least
}

/// The Levenshtein distance of `a` and `b` if it is at most `bound`, and
/// nothing if it is above.
///
/// Only the band of the table within `bound` of its diagonal is computed,
/// with entries cut off at `bound + 1`; outside the band every distance is
/// above the bound. The computation gives up as soon as the lengths alone,
/// or a whole row of the band, show that the bound is exceeded. A bound that
/// cannot bite, being no less than the longer length, leaves the plain
/// computation. The row is laid over the shorter sequence.
pub fn bounded_levenshtein(a: &[u8], b: &[u8], bound: usize) -> (res: Option<usize>)
    ensures
        res is Some <==> edit_distance(a@, b@) <= bound,
        res is Some ==> res->Some_0 == edit_distance(a@, b@),
        res == match bounded_distance(a@, b@, bound as nat) {
            Some(d) => Some(d as usize),
            None => None,
        },
{
    if b.len() <= a.len() {
        distance_by_band(a, b, bound)
    } else {
        proof {
            lemma_distance_symmetric(a@, b@);
        }
        distance_by_band(b, a, bound)
    }
}

/// The bounded distance by dynamic programming over the band of one folded
/// row that is as long as `b`.
fn distance_by_band(a: &[u8], b: &[u8], bound: usize) -> (res: Option<usize>)
    ensures
        res is Some <==> edit_distance(a@, b@) <= bound,
        res is Some ==> res->Some_0 == edit_distance(a@, b@),
{
    let m: usize = a.len();
    let n: usize = b.len();
    proof {
        lemma_distance_lower(a@, b@, m as nat, n as nat);
        lemma_distance_upper(a@, b@, m as nat, n as nat);
    }
    if m > n && m - n > bound {
        return None;
    }
    if n > m && n - m > bound {
        return None;
    }
    if bound >= m && bound >= n {
        return Some(levenshtein(a, b));
    }
    let mut row: Vec<usize> = first_band_row(n, bound);
    proof {
        assert forall|k: int|
            0 <= k < n && in_band(0, k + 1, bound as int) implies #[trigger] row@[k] == capped(
            a@,
            b@,
            0,
            (k + 1) as nat,
            (bound + 1) as nat,
        ) by {
            assert(prefix_distance(a@, b@, 0, (k + 1) as nat) == k + 1);
        }
    }
    let mut i: usize = 0;
    while i < m
        invariant
            m == a@.len(),
            n == b@.len(),
            m <= n + bound,
            bound < usize::MAX,
            i <= m,
            band_row(a@, b@, row@, i as nat, bound as nat),
        decreases m - i,
    {
        let least: usize = next_band_row(a, b, i + 1, bound, &mut row);
        if least > bound {
            proof {
                assert forall|j: nat| j <= n implies #[trigger] prefix_distance(
                    a@,
                    b@,
                    (i + 1) as nat,
                    j,
                ) > bound by {
                    if in_band(i + 1, j as int, bound as int) {
                        assert(least <= capped(a@, b@, (i + 1) as nat, j, (bound + 1) as nat));
                    } else {
                        lemma_outside_band(a@, b@, (i + 1) as nat, j, bound as nat);
                    }
                }
                lemma_row_exceeds(
                    a@,
                    b@,
                    n as nat,
                    bound as nat,
                    (i + 1) as nat,
                    m as nat,
                    n as nat,
                );
            }
            return None;
        }
        i += 1;
    }
    assert(n >= 1);
    assert(in_band(m as int, (n - 1) + 1, bound as int));
    let d: usize = row[n - 1];
    if d <= bound {
        Some(d)
    } else {
        None
    }
}

} // verus!
