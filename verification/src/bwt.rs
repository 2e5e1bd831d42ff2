//! The Burrows-Wheeler transform of a text, from its suffix array.

use vstd::prelude::*;
use crate::error::IndexError;

verus! {

/// The transform: row `r` holds the symbol that precedes the suffix `sa[r]`
/// in the text, the text's last symbol where that suffix is the whole text.
pub open spec fn bwt_of(t: Seq<u8>, sa: Seq<usize>) -> Seq<u8> {
    Seq::new(
        sa.len(),
        |r: int|
            if sa[r] == 0 {
                t[t.len() - 1]
            } else {
                t[sa[r] - 1]
            },
    )
}

/// Every entry of `sa` is an offset into a text of length `n`.
pub open spec fn offsets_in_range(sa: Seq<usize>, n: nat) -> bool {
    forall|r: int| 0 <= r < sa.len() ==> (#[trigger] sa[r]) < n
}

/// Derives the transform of `text` from its suffix array.
///
/// Fails with `DimensionMismatch` when the two lengths differ, and with
/// `InvalidInput` when the lengths agree but an entry of `suffix_array` is no
/// offset into the text.
pub fn bwt(text: &[u8], suffix_array: &[usize]) -> (res: Result<Vec<u8>, IndexError>)
    ensures
        suffix_array@.len() != text@.len() ==> res == Err::<Vec<u8>, IndexError>(
            IndexError::DimensionMismatch,
        ),
        suffix_array@.len() == text@.len() && !offsets_in_range(suffix_array@, text@.len())
            ==> res == Err::<Vec<u8>, IndexError>(IndexError::InvalidInput),
        suffix_array@.len() == text@.len() && offsets_in_range(suffix_array@, text@.len())
            ==> res is Ok && res->Ok_0@ == bwt_of(text@, suffix_array@),
{
    let n: usize = text.len();
    if suffix_array.len() != n {
        return Err(IndexError::DimensionMismatch);
    }
    let mut out: Vec<u8> = Vec::with_capacity(n);
    let mut r: usize = 0;
    while r < n
        invariant
            n == text@.len(),
            n == suffix_array@.len(),
            r <= n,
            out@.len() == r,
            forall|q: int| 0 <= q < r ==> (#[trigger] suffix_array@[q]) < n,
            forall|q: int| 0 <= q < r ==> #[trigger] out@[q] == bwt_of(text@, suffix_array@)[q],
        decreases n - r,
    {
        let p: usize = suffix_array[r];
        if p >= n {
            return Err(IndexError::InvalidInput);
        }
        let symbol: u8 = if p > 0 {
            text[p - 1]
        } else {
            text[n - 1]
        };
        out.push(symbol);
        r += 1;
    }
    assert(out@ =~= bwt_of(text@, suffix_array@));
    Ok(out)
}

} // verus!
