//! Counting symbols in a prefix of a sequence.

use vstd::prelude::*;

verus! {

/// How often `c` occurs among the first `p` symbols of `s`. A `p` past the
/// end counts the whole sequence.
pub open spec fn count_eq(s: Seq<u8>, c: u8, p: int) -> nat
    decreases p,
{
    if p <= 0 {
        0
    } else {
        count_eq(s, c, p - 1) + if p <= s.len() && s[p - 1] == c {
            1nat
        } else {
            0nat
        }
    }
}

/// How many of the first `p` symbols of `s` are strictly smaller than `c`.
pub open spec fn count_less(s: Seq<u8>, c: u8, p: int) -> nat
    decreases p,
{
    if p <= 0 {
        0
    } else {
        count_less(s, c, p - 1) + if p <= s.len() && s[p - 1] < c {
            1nat
        } else {
            0nat
        }
    }
}

/// Every symbol of `s` belongs to `alphabet`.
pub open spec fn over_alphabet(s: Seq<u8>, alphabet: Set<u8>) -> bool {
    forall|i: int| 0 <= i < s.len() ==> alphabet.contains(#[trigger] s[i])
}

/// A longer prefix holds at least as many occurrences.
pub proof fn lemma_count_eq_monotone(s: Seq<u8>, c: u8, p: int, q: int)
    requires
        p <= q,
    ensures
        count_eq(s, c, p) <= count_eq(s, c, q),
    decreases q - p,
{
    if p < q {
        lemma_count_eq_monotone(s, c, p, q - 1);
    }
}

/// Between two positions a symbol occurs at most once per position.
pub proof fn lemma_count_eq_span(s: Seq<u8>, c: u8, p: int, q: int)
    requires
        0 <= p <= q,
    ensures
        count_eq(s, c, q) - count_eq(s, c, p) <= q - p,
    decreases q - p,
{
    if p < q {
        lemma_count_eq_span(s, c, p, q - 1);
    }
}

/// The symbols equal to `c` and those below it are distinct symbols of the
/// prefix, so together they are at most `p`.
pub proof fn lemma_count_bound(s: Seq<u8>, c: u8, p: int)
    requires
        0 <= p,
    ensures
        count_less(s, c, p) + count_eq(s, c, p) <= p,
    decreases p,
{
    if p > 0 {
        lemma_count_bound(s, c, p - 1);
    }
}

/// Positions past the end add nothing.
pub proof fn lemma_count_past_end(s: Seq<u8>, c: u8, p: int)
    requires
        s.len() <= p,
    ensures
        count_eq(s, c, p) == count_eq(s, c, s.len() as int),
        count_less(s, c, p) == count_less(s, c, s.len() as int),
    decreases p,
{
    if p > s.len() {
        lemma_count_past_end(s, c, p - 1);
    }
}

/// A bound that keeps `less + rank` inside the sequence: the symbols below
/// `c` in all of `s`, and the occurrences of `c` in any prefix, fit in `s`.
pub proof fn lemma_less_plus_rank(s: Seq<u8>, c: u8, p: int)
    ensures
        count_less(s, c, s.len() as int) + count_eq(s, c, p) <= s.len(),
{
    let n = s.len() as int;
    lemma_count_bound(s, c, n);
    if p <= n {
        lemma_count_eq_monotone(s, c, p, n);
    } else {
        lemma_count_past_end(s, c, p);
    }
}

/// A symbol that does not occur is counted zero times.
pub proof fn lemma_count_eq_absent(s: Seq<u8>, c: u8, p: int)
    requires
        forall|i: int| 0 <= i < s.len() ==> s[i] != c,
    ensures
        count_eq(s, c, p) == 0,
    decreases p,
{
    if p > 0 {
        lemma_count_eq_absent(s, c, p - 1);
    }
}

/// A larger symbol has at least as many symbols below it.
pub proof fn lemma_count_less_monotone(s: Seq<u8>, c: u8, d: u8, p: int)
    requires
        c <= d,
    ensures
        count_less(s, c, p) <= count_less(s, d, p),
    decreases p,
{
    if p > 0 {
        lemma_count_less_monotone(s, c, d, p - 1);
    }
}

/// Nothing lies below a symbol that bounds the sequence from below.
pub proof fn lemma_count_less_floor(s: Seq<u8>, c: u8, p: int)
    requires
        forall|i: int| 0 <= i < s.len() ==> c <= s[i],
    ensures
        count_less(s, c, p) == 0,
    decreases p,
{
    if p > 0 {
        lemma_count_less_floor(s, c, p - 1);
    }
}

} // verus!
