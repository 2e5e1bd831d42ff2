//! What the intervals of a backward search mean: the rows of an interval are
//! the rows whose suffix begins with the part of the pattern consumed so far.

use vstd::prelude::*;
use crate::bwt::bwt_of;
use crate::counts::{count_eq, count_less, lemma_count_eq_monotone};
use crate::fmindex::{extend, lemma_narrowed_bounds, narrowed, run, searchable, FMIndexView};
use crate::interval::{positions, SearchOutcome};
use crate::lf::{after, lemma_lf, lf};
use crate::rows::{lemma_row_of, row_of};
use crate::text::{is_suffix_array, valid_text};

verus! {

/// `p` stands in `t` at offset `i`.
pub open spec fn occurs_at(t: Seq<u8>, p: Seq<u8>, i: int) -> bool {
    &&& 0 <= i
    &&& i + p.len() <= t.len()
    &&& forall|k: int| 0 <= k < p.len() ==> t[i + k] == #[trigger] p[k]
}

/// `p` stands somewhere in `t`.
pub open spec fn occurs(t: Seq<u8>, p: Seq<u8>) -> bool {
    exists|i: int| occurs_at(t, p, i)
}

/// The last `m` symbols of `p`.
pub open spec fn tail(p: Seq<u8>, m: nat) -> Seq<u8> {
    p.subrange(p.len() - m, p.len() as int)
}

/// The interval is not empty.
pub open spec fn inhabited(iv: (int, int)) -> bool {
    iv.0 < iv.1
}

/// Some symbol of `p` is neither in the alphabet nor the sentinel.
pub open spec fn has_foreign_symbol(alphabet: Set<u8>, sentinel: u8, p: Seq<u8>) -> bool {
    exists|k: int| 0 <= k < p.len() && !searchable(alphabet, sentinel, #[trigger] p[k])
}

/// Step `k` of a search, which consumes the symbol `k` places before the
/// last, succeeds: the symbol can be looked up and leaves an inhabited
/// interval.
pub open spec fn step_succeeds(
    b: Seq<u8>,
    alphabet: Set<u8>,
    sentinel: u8,
    p: Seq<u8>,
    k: nat,
) -> bool {
    &&& searchable(alphabet, sentinel, p[p.len() - 1 - k])
    &&& inhabited(narrowed(b, sentinel, p, k + 1))
}

/// Every step from `from` up to `to` succeeds.
pub open spec fn steps_succeed(
    b: Seq<u8>,
    alphabet: Set<u8>,
    sentinel: u8,
    p: Seq<u8>,
    from: nat,
    to: nat,
) -> bool {
    forall|k: nat| from <= k < to ==> #[trigger] step_succeeds(b, alphabet, sentinel, p, k)
}

/// Among the rows from `lo` up to `hi` there is one with symbol `c` for each
/// number of occurrences between those above `lo` and those above `hi`.
proof fn lemma_select(b: Seq<u8>, c: u8, lo: int, hi: int, j: int)
    requires
        0 <= lo <= hi <= b.len(),
        count_eq(b, c, lo) <= j < count_eq(b, c, hi),
    ensures
        exists|r: int| lo <= r < hi && b[r] == c && count_eq(b, c, r) == j,
    decreases hi - lo,
{
    if count_eq(b, c, hi - 1) > j {
        lemma_select(b, c, lo, hi - 1, j);
    } else {
        assert(lo <= hi - 1 && b[hi - 1] == c && count_eq(b, c, hi - 1) == j);
    }
}

/// The rows of the interval after `m` symbols are exactly the rows whose
/// suffix begins with the last `m` symbols of the pattern. This holds of
/// every pattern, whether the sentinel is among its symbols or not.
pub proof fn lemma_narrowed_rows(t: Seq<u8>, sa: Seq<usize>, p: Seq<u8>, m: nat, r: int)
    requires
        valid_text(t),
        is_suffix_array(t, sa),
        m <= p.len(),
        0 <= r < sa.len(),
    ensures
        narrowed(bwt_of(t, sa), t[t.len() - 1], p, m).0 <= r < narrowed(
            bwt_of(t, sa),
            t[t.len() - 1],
            p,
            m,
        ).1 <==> occurs_at(t, tail(p, m), sa[r] as int),
    decreases m,
{
    let n = t.len() as int;
    let b = bwt_of(t, sa);
    let s = t[n - 1];
    if m > 0 {
        let c = p[p.len() - m];
        let shorter = (m - 1) as nat;
        let prev = narrowed(b, s, p, shorter);
        let cur = narrowed(b, s, p, m);
        let below = count_less(b, c, n) as int;
        let i = sa[r] as int;
        lemma_narrowed_bounds(b, s, p, shorter);
        lemma_row_of(t, sa);
        assert(tail(p, m)[0] == c);
        assert(tail(p, m).len() == m);
        assert(tail(p, shorter).len() == shorter);
        assert forall|k: int| 0 <= k < shorter implies tail(p, shorter)[k] == tail(p, m)[k + 1] by {}
        if c == s && m > 1 {
            assert(cur == (prev.0, prev.0));
            if occurs_at(t, tail(p, m), i) {
                assert(t[i + 0] == tail(p, m)[0]);
                assert(i == n - 1);
            }
        } else {
            assert(cur == extend(b, prev, c));
            if occurs_at(t, tail(p, m), i) {
                assert(t[i + 0] == tail(p, m)[0]);
                let next = after(n, i);
                assert(occurs_at(t, tail(p, shorter), next)) by {
                    if c != s {
                        assert(i + 1 < n);
                        assert forall|k: int| 0 <= k < shorter implies t[next + k]
                            == #[trigger] tail(p, shorter)[k] by {
                            assert(t[i + (k + 1)] == tail(p, m)[k + 1]);
                        }
                    }
                }
                let r2 = row_of(sa, next);
                lemma_narrowed_rows(t, sa, p, shorter, r2);
                lemma_lf(t, sa, r2);
                assert(b[r2] == c);
                assert(sa[lf(b, r2)] == i);
                assert(row_of(sa, sa[lf(b, r2)] as int) == lf(b, r2));
                assert(row_of(sa, sa[r] as int) == r);
                assert(lf(b, r2) == r);
                lemma_count_eq_monotone(b, c, prev.0, r2);
                lemma_count_eq_monotone(b, c, r2 + 1, prev.1);
            }
            if cur.0 <= r < cur.1 {
                let j = r - below;
                lemma_select(b, c, prev.0, prev.1, j);
                let r2 = choose|r2: int|
                    prev.0 <= r2 < prev.1 && b[r2] == c && count_eq(b, c, r2) == j;
                lemma_narrowed_rows(t, sa, p, shorter, r2);
                lemma_lf(t, sa, r2);
                assert(lf(b, r2) == r);
                assert(t[i] == c);
                if c != s {
                    assert(sa[r2] != 0);
                    assert(i == sa[r2] - 1);
                } else {
                    assert(i == n - 1);
                }
                assert(occurs_at(t, tail(p, m), i)) by {
                    assert forall|k: int| 0 <= k < m implies t[i + k] == #[trigger] tail(
                        p,
                        m,
                    )[k] by {
                        if k > 0 {
                            assert(t[sa[r2] + (k - 1)] == tail(p, shorter)[k - 1]);
                        }
                    }
                }
            }
        }
    } else {
        assert(tail(p, 0).len() == 0);
    }
}

/// The interval after `m` symbols is empty exactly when the last `m` symbols
/// of the pattern stand nowhere in the text.
pub proof fn lemma_empty_iff_absent(t: Seq<u8>, sa: Seq<usize>, p: Seq<u8>, m: nat)
    requires
        valid_text(t),
        is_suffix_array(t, sa),
        m <= p.len(),
    ensures
        !inhabited(narrowed(bwt_of(t, sa), t[t.len() - 1], p, m)) <==> !occurs(t, tail(p, m)),
{
    let b = bwt_of(t, sa);
    let iv = narrowed(b, t[t.len() - 1], p, m);
    lemma_narrowed_bounds(b, t[t.len() - 1], p, m);
    lemma_row_of(t, sa);
    if inhabited(iv) {
        lemma_narrowed_rows(t, sa, p, m, iv.0);
        assert(occurs_at(t, tail(p, m), sa[iv.0] as int));
    }
    if occurs(t, tail(p, m)) {
        let i = choose|i: int| occurs_at(t, tail(p, m), i);
        if i == t.len() {
            assert(tail(p, m).len() == 0);
            assert(occurs_at(t, tail(p, m), 0));
            lemma_narrowed_rows(t, sa, p, m, row_of(sa, 0));
        } else {
            lemma_narrowed_rows(t, sa, p, m, row_of(sa, i));
        }
    }
}

/// When every step from `m` on succeeds, the search that stands at `m` ends
/// with the whole pattern matched.
proof fn lemma_run_complete(b: Seq<u8>, alphabet: Set<u8>, sentinel: u8, p: Seq<u8>, m: nat)
    requires
        m <= p.len(),
        steps_succeed(b, alphabet, sentinel, p, m, p.len()),
    ensures
        run(b, alphabet, sentinel, p, m) == (SearchOutcome::Complete {
            lower: narrowed(b, sentinel, p, p.len()).0,
            upper: narrowed(b, sentinel, p, p.len()).1,
        }),
    decreases p.len() - m,
{
    if m < p.len() {
        assert(step_succeeds(b, alphabet, sentinel, p, m));
        lemma_run_complete(b, alphabet, sentinel, p, m + 1);
    }
}

/// How the search that stands at `m` can end. With the whole pattern
/// matched, every step from `m` on succeeded. With a part matched, every
/// step up to that part succeeded, and the next symbol, which could be
/// looked up, emptied the interval. With nothing, a symbol could not be
/// looked up, or the very first step emptied the interval.
proof fn lemma_run_outcome(b: Seq<u8>, alphabet: Set<u8>, sentinel: u8, p: Seq<u8>, m: nat)
    requires
        m <= p.len(),
    ensures
        match run(b, alphabet, sentinel, p, m) {
            SearchOutcome::Complete { lower, upper } => {
                &&& (lower, upper) == narrowed(b, sentinel, p, p.len())
                &&& steps_succeed(b, alphabet, sentinel, p, m, p.len())
            },
            SearchOutcome::Partial { lower, upper, matched } => {
                &&& m <= matched < p.len()
                &&& 0 < matched
                &&& (lower, upper) == narrowed(b, sentinel, p, matched)
                &&& steps_succeed(b, alphabet, sentinel, p, m, matched)
                &&& searchable(alphabet, sentinel, p[p.len() - 1 - matched])
                &&& !inhabited(narrowed(b, sentinel, p, matched + 1))
            },
            SearchOutcome::Absent => {
                ||| has_foreign_symbol(alphabet, sentinel, p)
                ||| m == 0 && p.len() > 0 && !inhabited(narrowed(b, sentinel, p, 1))
            },
        },
    decreases p.len() - m,
{
    if m < p.len() {
        let next = narrowed(b, sentinel, p, m + 1);
        let c = p[p.len() - 1 - m];
        if searchable(alphabet, sentinel, c) {
            if next.0 < next.1 {
                lemma_run_outcome(b, alphabet, sentinel, p, m + 1);
                assert(step_succeeds(b, alphabet, sentinel, p, m));
            }
        } else {
            assert(!searchable(alphabet, sentinel, p[p.len() - 1 - m]));
        }
    }
}

/// The meaning of a search result over an index of text `t`.
///
/// A complete match returns an inhabited interval whose rows are exactly
/// the rows whose suffix begins with the pattern. A partial match of length
/// `matched` returns such an interval for the last `matched` symbols of the
/// pattern, which are fewer than the pattern has, and one symbol more occurs
/// nowhere in the text. Nothing is returned only for the empty pattern, for
/// a pattern whose last symbol occurs nowhere in the text, and for a
/// pattern with a symbol that is neither in the alphabet nor the sentinel.
pub proof fn lemma_search_meaning(index: FMIndexView, pattern: Seq<u8>)
    requires
        index.wf(),
    ensures
        match index.outcome(pattern) {
            SearchOutcome::Complete { lower, upper } => {
                &&& 0 <= lower < upper <= index.text.len()
                &&& forall|r: int|
                    0 <= r < index.text.len() ==> (lower <= r < upper <==> occurs_at(
                        index.text,
                        pattern,
                        #[trigger] index.suffix_array[r] as int,
                    ))
            },
            SearchOutcome::Partial { lower, upper, matched } => {
                &&& 0 < matched < pattern.len()
                &&& 0 <= lower < upper <= index.text.len()
                &&& forall|r: int|
                    0 <= r < index.text.len() ==> (lower <= r < upper <==> occurs_at(
                        index.text,
                        tail(pattern, matched),
                        #[trigger] index.suffix_array[r] as int,
                    ))
                &&& !occurs(index.text, tail(pattern, matched + 1))
            },
            SearchOutcome::Absent => {
                ||| pattern.len() == 0
                ||| !occurs(index.text, tail(pattern, 1))
                ||| has_foreign_symbol(index.alphabet, index.sentinel(), pattern)
            },
        },
{
    let t = index.text;
    let sa = index.suffix_array;
    let b = index.bwt();
    let n = t.len() as int;
    let s = index.sentinel();
    if pattern.len() > 0 {
        lemma_run_outcome(b, index.alphabet, s, pattern, 0);
        match run(b, index.alphabet, s, pattern, 0) {
            SearchOutcome::Complete { lower, upper } => {
                let full = pattern.len();
                lemma_narrowed_bounds(b, s, pattern, full);
                assert(step_succeeds(b, index.alphabet, s, pattern, (full - 1) as nat));
                assert(tail(pattern, full) =~= pattern);
                assert forall|r: int| 0 <= r < n implies (lower <= r < upper <==> occurs_at(
                    t,
                    pattern,
                    #[trigger] sa[r] as int,
                )) by {
                    lemma_narrowed_rows(t, sa, pattern, full, r);
                }
            },
            SearchOutcome::Partial { lower, upper, matched } => {
                lemma_narrowed_bounds(b, s, pattern, matched);
                assert(step_succeeds(b, index.alphabet, s, pattern, (matched - 1) as nat));
                assert forall|r: int| 0 <= r < n implies (lower <= r < upper <==> occurs_at(
                    t,
                    tail(pattern, matched),
                    #[trigger] sa[r] as int,
                )) by {
                    lemma_narrowed_rows(t, sa, pattern, matched, r);
                }
                lemma_empty_iff_absent(t, sa, pattern, matched + 1);
            },
            SearchOutcome::Absent => {
                if !has_foreign_symbol(index.alphabet, s, pattern) {
                    lemma_empty_iff_absent(t, sa, pattern, 1);
                }
            },
        }
    }
}

/// A non-empty pattern that stands in the text, whether before the sentinel
/// or with the sentinel as its last symbol, is found completely, and the
/// offsets of the returned interval include the place where it stands.
pub proof fn lemma_substring_found(index: FMIndexView, pattern: Seq<u8>, i: int)
    requires
        index.wf(),
        pattern.len() > 0,
        occurs_at(index.text, pattern, i),
    ensures
        index.outcome(pattern) is Complete,
        index.outcome(pattern)->Complete_lower < index.outcome(pattern)->Complete_upper
            <= index.text.len(),
        exists|r: int|
            index.outcome(pattern)->Complete_lower <= r < index.outcome(pattern)->Complete_upper
                && #[trigger] index.suffix_array[r] == i,
        positions(
            (index.outcome(pattern)->Complete_lower, index.outcome(pattern)->Complete_upper),
            index.suffix_array,
        ).contains(i as usize),
{
    let t = index.text;
    let sa = index.suffix_array;
    let b = index.bwt();
    let s = index.sentinel();
    let n = t.len() as int;
    let full = pattern.len();
    lemma_row_of(t, sa);
    assert forall|k: nat| k < full implies #[trigger] step_succeeds(
        b,
        index.alphabet,
        s,
        pattern,
        k,
    ) by {
        let m = k + 1;
        let at = i + pattern.len() - m;
        assert(t[i + (pattern.len() - 1 - k)] == pattern[pattern.len() - 1 - k]);
        assert(occurs_at(t, tail(pattern, m), at)) by {
            assert forall|d: int| 0 <= d < m implies t[at + d] == #[trigger] tail(pattern, m)[d] by {
                assert(t[i + (pattern.len() - m + d)] == pattern[pattern.len() - m + d]);
            }
        }
        lemma_narrowed_rows(t, sa, pattern, m, row_of(sa, at));
    }
    lemma_run_complete(b, index.alphabet, s, pattern, 0);
    let found = narrowed(b, s, pattern, full);
    lemma_narrowed_bounds(b, s, pattern, full);
    assert(tail(pattern, full) =~= pattern);
    let r = row_of(sa, i);
    lemma_narrowed_rows(t, sa, pattern, full, r);
    assert(found.0 <= r < found.1 && sa[r] == i);
    assert(positions(found, sa)[r - found.0] == sa[r]);
}

/// The match is complete exactly when the pattern is not empty and stands
/// somewhere in the text.
pub proof fn lemma_complete_iff(index: FMIndexView, pattern: Seq<u8>)
    requires
        index.wf(),
    ensures
        index.outcome(pattern) is Complete <==> pattern.len() > 0 && occurs(index.text, pattern),
{
    let outcome = index.outcome(pattern);
    if outcome is Complete {
        lemma_search_meaning(index, pattern);
        assert(occurs_at(
            index.text,
            pattern,
            index.suffix_array[outcome->Complete_lower] as int,
        ));
    }
    if pattern.len() > 0 && occurs(index.text, pattern) {
        let i = choose|i: int| occurs_at(index.text, pattern, i);
        lemma_substring_found(index, pattern, i);
    }
}

/// A pattern that stands nowhere in the text is never reported as found
/// completely, and a partial match of it is shorter than the pattern.
pub proof fn lemma_missing_not_found(index: FMIndexView, pattern: Seq<u8>)
    requires
        index.wf(),
        !occurs(index.text, pattern),
    ensures
        !(index.outcome(pattern) is Complete),
        index.outcome(pattern) is Partial ==> index.outcome(pattern)->Partial_matched
            < pattern.len(),
{
    lemma_search_meaning(index, pattern);
    lemma_complete_iff(index, pattern);
}

/// The empty pattern is reported as absent, whatever the text.
pub proof fn lemma_empty_pattern_absent(index: FMIndexView)
    ensures
        index.outcome(Seq::<u8>::empty()) is Absent,
{
}

} // verus!
