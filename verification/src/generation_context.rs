//! The token history of a generation context, and how much of it a new prompt can
//! reuse.

use vstd::prelude::*;

verus! {

/// The two token lists agree on their first `k` tokens.
pub open spec fn agree_upto(current: Seq<i32>, new_tokens: Seq<i32>, k: int) -> bool {
    &&& 0 <= k <= current.len()
    &&& k <= new_tokens.len()
    &&& forall|i: int| 0 <= i < k ==> current[i] == new_tokens[i]
}

/// `k` is the first place where the two token lists differ, or the length of the
/// shorter where neither does.
pub open spec fn first_difference(current: Seq<i32>, new_tokens: Seq<i32>, k: int) -> bool {
    &&& agree_upto(current, new_tokens, k)
    &&& (k < current.len() && k < new_tokens.len() ==> current[k] != new_tokens[k])
}

/// The number of tokens kept when the history is replaced: the tokens up to the first
/// difference.  Where the new tokens are a proper prefix of the history, the last of
/// them is given up, so that the model computes a distribution after it.
pub open spec fn kept_len(current: Seq<i32>, new_tokens: Seq<i32>, k: int) -> int {
    if k == new_tokens.len() && k < current.len() {
        if new_tokens.len() == 0 {
            0
        } else {
            new_tokens.len() - 1
        }
    } else {
        k
    }
}

/// Replaces the token history by the new tokens, and returns the number of tokens at
/// its start that stay as they are: the cached state up to there can be reused, and
/// the new tokens from there on are to be given to the model.
pub fn set_tokens(current: &mut Vec<i32>, new_tokens: &[i32]) -> (kept: usize)
    ensures
        final(current)@ == new_tokens@,
        exists|k: int| #[trigger]
            first_difference(old(current)@, new_tokens@, k) && kept == kept_len(
                old(current)@,
                new_tokens@,
                k,
            ),
        agree_upto(old(current)@, new_tokens@, kept as int),
        old(current)@.take(kept as int) + new_tokens@.skip(kept as int) == new_tokens@,
{
    let n = current.len();
    let m = new_tokens.len();
    let mut i: usize = 0;
    while i < n && i < m && current[i] == new_tokens[i]
        invariant
            n == current@.len(),
            m == new_tokens@.len(),
            current@ == old(current)@,
            agree_upto(current@, new_tokens@, i as int),
        decreases n - i,
    {
        i = i + 1;
    }
    assert(first_difference(current@, new_tokens@, i as int));
    let kept = if i == m && i < n {
        if m == 0 {
            0
        } else {
            m - 1
        }
    } else {
        i
    };
    current.truncate(kept);
    let mut j: usize = kept;
    while j < m
        invariant
            kept <= j <= m,
            m == new_tokens@.len(),
            kept <= old(current)@.len(),
            agree_upto(old(current)@, new_tokens@, kept as int),
            current@ == old(current)@.take(kept as int) + new_tokens@.subrange(
                kept as int,
                j as int,
            ),
        decreases m - j,
    {
        current.push(new_tokens[j]);
        assert(new_tokens@.subrange(kept as int, j + 1) == new_tokens@.subrange(
            kept as int,
            j as int,
        ).push(new_tokens@[j as int]));
        j = j + 1;
    }
    assert(new_tokens@.subrange(kept as int, m as int) == new_tokens@.skip(kept as int));
    assert(old(current)@.take(kept as int) + new_tokens@.skip(kept as int) == new_tokens@);
    kept
}

} // verus!
