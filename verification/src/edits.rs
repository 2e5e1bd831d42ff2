//! Edit scripts: the Levenshtein distance as the least number of edits.
//!
//! The distance is defined by a recurrence over prefixes. This module shows
//! that the recurrence counts what it should: the distance of two sequences
//! is the length of a shortest chain of single-symbol insertions, deletions
//! and substitutions that leads from one to the other.

use vstd::prelude::*;
use crate::distance::{edit_distance, lemma_prefix_identity, prefix_distance};

verus! {

/// `y` is `x` with one symbol inserted.
pub open spec fn inserted(x: Seq<u8>, y: Seq<u8>) -> bool {
    exists|p: int, c: u8| 0 <= p <= x.len() && y == #[trigger] x.insert(p, c)
}

/// `y` is `x` with one symbol deleted.
pub open spec fn deleted(x: Seq<u8>, y: Seq<u8>) -> bool {
    exists|p: int| 0 <= p < x.len() && y == #[trigger] x.remove(p)
}

/// `y` is `x` with one symbol replaced.
pub open spec fn substituted(x: Seq<u8>, y: Seq<u8>) -> bool {
    exists|p: int, c: u8| 0 <= p < x.len() && y == #[trigger] x.update(p, c)
}

/// `y` arises from `x` by a single edit.
pub open spec fn one_edit(x: Seq<u8>, y: Seq<u8>) -> bool {
    inserted(x, y) || deleted(x, y) || substituted(x, y)
}

/// `b` arises from `a` by at most `k` edits, one after the other.
pub open spec fn within(a: Seq<u8>, b: Seq<u8>, k: nat) -> bool
    decreases k,
{
    a == b || (k > 0 && exists|mid: Seq<u8>| #[trigger]
        one_edit(a, mid) && within(mid, b, (k - 1) as nat))
}

/// A longer first prefix is at most one edit farther.
proof fn lemma_step_up(a: Seq<u8>, b: Seq<u8>, i: nat, j: nat)
    ensures
        prefix_distance(a, b, i + 1, j) <= prefix_distance(a, b, i, j) + 1,
{
}

/// A longer second prefix is at most one edit farther.
proof fn lemma_step_right(a: Seq<u8>, b: Seq<u8>, i: nat, j: nat)
    ensures
        prefix_distance(a, b, i, j + 1) <= prefix_distance(a, b, i, j) + 1,
{
}

/// A shorter first prefix is at most one edit farther.
proof fn lemma_step_down(a: Seq<u8>, b: Seq<u8>, i: nat, j: nat)
    ensures
        prefix_distance(a, b, i, j) <= prefix_distance(a, b, i + 1, j) + 1,
    decreases j,
{
    if j > 0 {
        lemma_step_down(a, b, i, (j - 1) as nat);
        lemma_step_right(a, b, i, (j - 1) as nat);
    }
}

/// The distance of two prefixes depends on the symbols of the prefixes only.
proof fn lemma_prefix_agree(x: Seq<u8>, y: Seq<u8>, b: Seq<u8>, i: nat, j: nat)
    requires
        forall|k: int| 0 <= k < i ==> x[k] == y[k],
    ensures
        prefix_distance(x, b, i, j) == prefix_distance(y, b, i, j),
    decreases i + j,
{
    if i > 0 && j > 0 {
        lemma_prefix_agree(x, y, b, (i - 1) as nat, j);
        lemma_prefix_agree(x, y, b, i, (j - 1) as nat);
        lemma_prefix_agree(x, y, b, (i - 1) as nat, (j - 1) as nat);
    }
}

/// Replacing the last symbol of the first prefix moves it by at most one.
proof fn lemma_substitute_last(x: Seq<u8>, y: Seq<u8>, b: Seq<u8>, p: nat, j: nat)
    requires
        forall|k: int| 0 <= k < p ==> x[k] == y[k],
    ensures
        prefix_distance(x, b, p + 1, j) <= prefix_distance(y, b, p + 1, j) + 1,
    decreases j,
{
    if j > 0 {
        lemma_substitute_last(x, y, b, p, (j - 1) as nat);
        lemma_prefix_agree(x, y, b, p, j);
        lemma_prefix_agree(x, y, b, p, (j - 1) as nat);
    }
}

/// Two sequences that differ by an edit at the end of a prefix, and agree
/// behind it up to the shift that the edit causes, stay within one of each
/// other in their distance to `b`, whatever follows the prefix.
proof fn lemma_tail(x: Seq<u8>, y: Seq<u8>, b: Seq<u8>, e: nat, shift: int, i: nat, j: nat)
    requires
        e <= i <= x.len(),
        -1 <= shift <= 1,
        0 <= e + shift,
        y.len() == x.len() + shift,
        forall|k: int| e <= k < x.len() ==> x[k] == y[k + shift],
        forall|j2: nat| #[trigger]
            prefix_distance(x, b, e, j2) <= prefix_distance(y, b, (e + shift) as nat, j2) + 1,
    ensures
        prefix_distance(x, b, i, j) <= prefix_distance(y, b, (i + shift) as nat, j) + 1,
    decreases i + j,
{
    if i > e && j > 0 {
        lemma_tail(x, y, b, e, shift, (i - 1) as nat, j);
        lemma_tail(x, y, b, e, shift, i, (j - 1) as nat);
        lemma_tail(x, y, b, e, shift, (i - 1) as nat, (j - 1) as nat);
        assert(x[i - 1] == y[i - 1 + shift]);
    }
}

/// A single edit of the first sequence moves its distance to any other
/// sequence by at most one.
pub proof fn lemma_one_edit_bound(x: Seq<u8>, y: Seq<u8>, b: Seq<u8>)
    requires
        one_edit(x, y),
    ensures
        edit_distance(x, b) <= edit_distance(y, b) + 1,
{
    if inserted(x, y) {
        let (p, c) = choose|p: int, c: u8| 0 <= p <= x.len() && y == #[trigger] x.insert(p, c);
        x.insert_ensures(p, c);
        assert forall|j2: nat| #[trigger]
            prefix_distance(x, b, p as nat, j2) <= prefix_distance(y, b, (p + 1) as nat, j2)
                + 1 by {
            lemma_prefix_agree(x, y, b, p as nat, j2);
            lemma_step_down(y, b, p as nat, j2);
        }
        lemma_tail(x, y, b, p as nat, 1, x.len(), b.len());
    } else if deleted(x, y) {
        let p = choose|p: int| 0 <= p < x.len() && y == #[trigger] x.remove(p);
        x.remove_ensures(p);
        assert forall|j2: nat| #[trigger]
            prefix_distance(x, b, (p + 1) as nat, j2) <= prefix_distance(y, b, p as nat, j2)
                + 1 by {
            lemma_prefix_agree(x, y, b, p as nat, j2);
            lemma_step_up(x, b, p as nat, j2);
        }
        lemma_tail(x, y, b, (p + 1) as nat, -1, x.len(), b.len());
    } else {
        let (p, c) = choose|p: int, c: u8| 0 <= p < x.len() && y == #[trigger] x.update(p, c);
        assert forall|j2: nat| #[trigger]
            prefix_distance(x, b, (p + 1) as nat, j2) <= prefix_distance(
                y,
                b,
                (p + 1) as nat,
                j2,
            ) + 1 by {
            lemma_substitute_last(x, y, b, p as nat, j2);
        }
        lemma_tail(x, y, b, (p + 1) as nat, 0, x.len(), b.len());
    }
}

/// No chain of edits from `a` to `b` is shorter than their distance.
pub proof fn lemma_distance_least(a: Seq<u8>, b: Seq<u8>, k: nat)
    requires
        within(a, b, k),
    ensures
        edit_distance(a, b) <= k,
    decreases k,
{
    if a == b {
        lemma_prefix_identity(a, a.len());
    } else {
        let mid = choose|mid: Seq<u8>| #[trigger]
            one_edit(a, mid) && within(mid, b, (k - 1) as nat);
        lemma_distance_least(mid, b, (k - 1) as nat);
        lemma_one_edit_bound(a, mid, b);
    }
}

/// A chain can be extended by an edit at its far end.
proof fn lemma_within_last(a: Seq<u8>, m: Seq<u8>, b: Seq<u8>, k: nat)
    requires
        within(a, m, k),
        one_edit(m, b),
    ensures
        within(a, b, k + 1),
    decreases k,
{
    if a == m {
        assert(one_edit(a, b) && within(b, b, k));
    } else {
        let mid = choose|mid: Seq<u8>| #[trigger]
            one_edit(a, mid) && within(mid, m, (k - 1) as nat);
        lemma_within_last(mid, m, b, (k - 1) as nat);
        assert(one_edit(a, mid) && within(mid, b, k));
    }
}

/// An edit stays an edit when the same symbol is appended on both sides.
proof fn lemma_one_edit_push(x: Seq<u8>, y: Seq<u8>, s: u8)
    requires
        one_edit(x, y),
    ensures
        one_edit(x.push(s), y.push(s)),
{
    if inserted(x, y) {
        let (p, c) = choose|p: int, c: u8| 0 <= p <= x.len() && y == #[trigger] x.insert(p, c);
        assert(y.push(s) =~= x.push(s).insert(p, c));
        assert(inserted(x.push(s), y.push(s)));
    } else if deleted(x, y) {
        let p = choose|p: int| 0 <= p < x.len() && y == #[trigger] x.remove(p);
        assert(y.push(s) =~= x.push(s).remove(p));
        assert(deleted(x.push(s), y.push(s)));
    } else {
        let (p, c) = choose|p: int, c: u8| 0 <= p < x.len() && y == #[trigger] x.update(p, c);
        assert(y.push(s) =~= x.push(s).update(p, c));
        assert(substituted(x.push(s), y.push(s)));
    }
}

/// A chain stays a chain when the same symbol is appended to every member.
proof fn lemma_within_push(x: Seq<u8>, y: Seq<u8>, s: u8, k: nat)
    requires
        within(x, y, k),
    ensures
        within(x.push(s), y.push(s), k),
    decreases k,
{
    if x != y {
        let mid = choose|mid: Seq<u8>| #[trigger]
            one_edit(x, mid) && within(mid, y, (k - 1) as nat);
        lemma_within_push(mid, y, s, (k - 1) as nat);
        lemma_one_edit_push(x, mid, s);
        assert(one_edit(x.push(s), mid.push(s)) && within(mid.push(s), y.push(s), (k - 1) as nat));
    }
}

/// As many edits as the distance of two prefixes lead from one to the other.
proof fn lemma_reach_prefixes(a: Seq<u8>, b: Seq<u8>, i: nat, j: nat)
    requires
        i <= a.len(),
        j <= b.len(),
    ensures
        within(a.take(i as int), b.take(j as int), prefix_distance(a, b, i, j)),
    decreases i + j,
{
    let x = a.take(i as int);
    let y = b.take(j as int);
    if i == 0 && j == 0 {
        assert(x =~= y);
    } else if i == 0 {
        let shorter = b.take(j - 1);
        lemma_reach_prefixes(a, b, i, (j - 1) as nat);
        assert(y =~= shorter.insert(j - 1, b[j - 1]));
        assert(inserted(shorter, y));
        lemma_within_last(x, shorter, y, (j - 1) as nat);
    } else if j == 0 {
        let shorter = a.take(i - 1);
        lemma_reach_prefixes(a, b, (i - 1) as nat, j);
        assert(shorter =~= x.remove(i - 1));
        assert(deleted(x, shorter));
        assert(one_edit(x, shorter) && within(shorter, y, (i - 1) as nat));
    } else {
        let d = prefix_distance(a, b, i, j);
        let x0 = a.take(i - 1);
        let y0 = b.take(j - 1);
        if d == prefix_distance(a, b, (i - 1) as nat, j) + 1 {
            lemma_reach_prefixes(a, b, (i - 1) as nat, j);
            assert(x0 =~= x.remove(i - 1));
            assert(deleted(x, x0));
            assert(one_edit(x, x0) && within(x0, y, (d - 1) as nat));
        } else if d == prefix_distance(a, b, i, (j - 1) as nat) + 1 {
            lemma_reach_prefixes(a, b, i, (j - 1) as nat);
            assert(y =~= y0.insert(j - 1, b[j - 1]));
            assert(inserted(y0, y));
            lemma_within_last(x, y0, y, (d - 1) as nat);
        } else {
            let k = prefix_distance(a, b, (i - 1) as nat, (j - 1) as nat);
            lemma_reach_prefixes(a, b, (i - 1) as nat, (j - 1) as nat);
            lemma_within_push(x0, y0, a[i - 1], k);
            assert(x =~= x0.push(a[i - 1]));
            let z = y0.push(a[i - 1]);
            if a[i - 1] == b[j - 1] {
                assert(y =~= z);
            } else {
                assert(y =~= z.update(j - 1, b[j - 1]));
                assert(substituted(z, y));
                lemma_within_last(x, z, y, k);
            }
        }
    }
}

/// As many edits as the distance of two sequences lead from one to the
/// other.
pub proof fn lemma_distance_reached(a: Seq<u8>, b: Seq<u8>)
    ensures
        within(a, b, edit_distance(a, b)),
{
    lemma_reach_prefixes(a, b, a.len(), b.len());
    assert(a.take(a.len() as int) =~= a);
    assert(b.take(b.len() as int) =~= b);
}

/// The distance is the length of a shortest chain of edits: some chain of
/// that length leads from `a` to `b`, and no shorter one does.
pub proof fn lemma_distance_is_least_edit_count(a: Seq<u8>, b: Seq<u8>)
    ensures
        within(a, b, edit_distance(a, b)),
        forall|k: nat| #[trigger] within(a, b, k) ==> edit_distance(a, b) <= k,
{
    lemma_distance_reached(a, b);
    assert forall|k: nat| #[trigger] within(a, b, k) implies edit_distance(a, b) <= k by {
        lemma_distance_least(a, b, k);
    }
}

} // verus!
