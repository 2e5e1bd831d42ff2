//! Sentinel-terminated texts, the order of their suffixes, and suffix arrays.

use vstd::prelude::*;
use crate::error::IndexError;
use crate::rows::lemma_permutation;

verus! {

/// A text is valid when it is non-empty and its last symbol, the sentinel,
/// is strictly smaller than every symbol before it.
pub open spec fn valid_text(t: Seq<u8>) -> bool {
    &&& t.len() > 0
    &&& forall|i: int| 0 <= i < t.len() - 1 ==> t[t.len() - 1] < #[trigger] t[i]
}

/// Whether the suffix of `t` that starts at `i` is lexicographically smaller
/// than the one that starts at `j`. A suffix that ends first, all symbols
/// before its end being equal, is the smaller one.
pub open spec fn suffix_lt(t: Seq<u8>, i: int, j: int) -> bool
    decreases t.len() - i,
{
    if i < 0 || j < 0 || j >= t.len() {
        false
    } else if i >= t.len() {
        true
    } else if t[i] != t[j] {
        t[i] < t[j]
    } else {
        suffix_lt(t, i + 1, j + 1)
    }
}

/// `sa` lists every start offset of `t` below its length, in strictly
/// increasing order of the suffixes that start there.
pub open spec fn is_suffix_array(t: Seq<u8>, sa: Seq<usize>) -> bool {
    &&& sa.len() == t.len()
    &&& forall|r: int| 0 <= r < sa.len() ==> (#[trigger] sa[r]) < t.len()
    &&& forall|q: int, r: int|
        0 <= q < r < sa.len() ==> suffix_lt(t, #[trigger] sa[q] as int, #[trigger] sa[r] as int)
}

/// `sa` holds every number below its length, each in exactly one place.
pub open spec fn is_permutation(sa: Seq<usize>) -> bool {
    &&& forall|r: int| 0 <= r < sa.len() ==> (#[trigger] sa[r]) < sa.len()
    &&& sa.no_duplicates()
    &&& forall|i: usize| i < sa.len() ==> sa.contains(i)
}

/// Calls `bio::data_structures::suffix_array::suffix_array`, the SA-IS
/// construction. For a text whose last symbol is strictly smaller than all
/// others the crate documents the result as the suffix array of the text: the
/// start offsets in increasing lexicographic order of their suffixes. The
/// contract states that and nothing of how it is computed. Texts that the
/// outside function rejects by panicking (empty, or with a symbol below the
/// last one) and texts with a repeated sentinel are excluded.
#[verifier::external_body]
fn sais(text: &[u8]) -> (sa: Vec<usize>)
    requires
        valid_text(text@),
    ensures
        is_suffix_array(text@, sa@),
{
    bio::data_structures::suffix_array::suffix_array(text)
}

/// Whether `text` ends in a proper sentinel.
pub fn is_valid_text(text: &[u8]) -> (ok: bool)
    ensures
        ok == valid_text(text@),
{
    let n: usize = text.len();
    if n == 0 {
        return false;
    }
    let sentinel: u8 = text[n - 1];
    let mut i: usize = 0;
    while i < n - 1
        invariant
            n == text.len(),
            n > 0,
            sentinel == text@[n - 1],
            i <= n - 1,
            forall|k: int| 0 <= k < i ==> sentinel < #[trigger] text@[k],
        decreases n - i,
    {
        if text[i] <= sentinel {
            return false;
        }
        i += 1;
    }
    true
}

/// Builds the suffix array of `text`, whose last symbol is its sentinel: a
/// permutation of the offsets of the text, sorted by the suffixes that start
/// at them.
///
/// Fails with `InvalidInput` exactly when the text is empty or its last symbol
/// is not strictly smaller than every other symbol.
pub fn suffix_array(text: &[u8]) -> (res: Result<Vec<usize>, IndexError>)
    ensures
        valid_text(text@) ==> res is Ok && is_suffix_array(text@, res->Ok_0@) && is_permutation(
            res->Ok_0@,
        ),
        !valid_text(text@) ==> res == Err::<Vec<usize>, IndexError>(IndexError::InvalidInput),
{
    if is_valid_text(text) {
        let sa: Vec<usize> = sais(text);
        proof {
            lemma_permutation(text@, sa@);
        }
        Ok(sa)
    } else {
        Err(IndexError::InvalidInput)
    }
}

} // verus!
