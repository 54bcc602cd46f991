//! Cumulative tables: the integer shares that a coding step gives to the tokens of a
//! distribution.

use vstd::prelude::*;
use crate::coder_model::{table_wf, upper_bound, Alphabet};
use crate::range_coder::MAX_RANGE_DENOMINATOR;

verus! {

/// One token of a distribution: its id, and its probability as a share of
/// `MAX_RANGE_DENOMINATOR`, rounded down.
#[derive(Clone, Copy, Debug)]
pub struct TokenShare {
    pub id: i32,
    pub share: u64,
}

/// The width that a share gets in a table: at least one, so that every token can be
/// coded.
pub open spec fn width(share: u64) -> nat {
    if share == 0 {
        1
    } else {
        share as nat
    }
}

/// The widths of the first `i` tokens, added up.
pub open spec fn cumulative(data: Seq<TokenShare>, i: nat) -> nat
    decreases i,
{
    if i == 0 {
        0
    } else {
        cumulative(data, (i - 1) as nat) + width(data[i - 1].share)
    }
}

/// The widths of all tokens, added up.
pub open spec fn total_width(data: Seq<TokenShare>) -> nat {
    cumulative(data, data.len())
}

/// The denominator of a distribution's table: the total width, and one for no tokens.
pub open spec fn denominator_of(data: Seq<TokenShare>) -> nat {
    if total_width(data) == 0 {
        1
    } else {
        total_width(data)
    }
}

/// `table` and `denominator` are the cumulative table of `data`: each entry is the sum
/// of the widths before it.
pub open spec fn is_prob_table(data: Seq<TokenShare>, table: Seq<u64>, denominator: u64) -> bool {
    &&& table.len() == data.len()
    &&& forall|i: int| 0 <= i < data.len() ==> #[trigger] table[i] == cumulative(data, i as nat)
    &&& denominator == denominator_of(data)
}

/// The distribution has a token and its table a denominator that the coder allows.
pub open spec fn fits(data: Seq<TokenShare>) -> bool {
    data.len() > 0 && total_width(data) <= MAX_RANGE_DENOMINATOR
}

/// The alphabet that a distribution which fits gives a coding step.
pub open spec fn alphabet_of(data: Seq<TokenShare>) -> Alphabet {
    Alphabet {
        table: Seq::new(data.len(), |i: int| cumulative(data, i as nat) as u64),
        denominator: denominator_of(data) as u64,
    }
}

/// The sums of widths grow with the number of tokens.
pub proof fn lemma_cumulative_grows(data: Seq<TokenShare>, i: nat, j: nat)
    requires
        i <= j,
    ensures
        cumulative(data, i) + (j - i) <= cumulative(data, j),
    decreases j,
{
    if i < j {
        lemma_cumulative_grows(data, i, (j - 1) as nat);
    }
}

/// In a distribution's table every token has its width, which is at least one, and
/// the widths add up to the denominator.  The table is well formed exactly when the
/// widths add up to no more than `MAX_RANGE_DENOMINATOR`.
pub proof fn lemma_table_widths(data: Seq<TokenShare>, table: Seq<u64>, denominator: u64)
    requires
        data.len() > 0,
        is_prob_table(data, table, denominator),
    ensures
        table[0] == 0,
        forall|i: int|
            0 <= i < data.len() ==> #[trigger] upper_bound(table, denominator, i) - table[i]
                == width(data[i].share) >= 1,
        denominator == total_width(data),
        table_wf(table, denominator) <==> total_width(data) <= MAX_RANGE_DENOMINATOR,
        table_wf(table, denominator) <==> denominator <= MAX_RANGE_DENOMINATOR,
{
    let n = data.len();
    lemma_cumulative_grows(data, 0, n);
    assert(table[0] == cumulative(data, 0));
    assert forall|i: int| 0 <= i < n implies #[trigger] upper_bound(table, denominator, i)
        - table[i] == width(data[i].share) by {
        assert(table[i] == cumulative(data, i as nat));
        if i + 1 < n {
            assert(table[i + 1] == cumulative(data, (i + 1) as nat));
        }
        assert(cumulative(data, (i + 1) as nat) == cumulative(data, i as nat) + width(
            data[i].share,
        ));
    }
    assert forall|i: int, j: int| 0 <= i < j < n implies table[i] < table[j] by {
        assert(table[i] == cumulative(data, i as nat));
        assert(table[j] == cumulative(data, j as nat));
        lemma_cumulative_grows(data, i as nat, j as nat);
    }
    assert(table.last() < denominator) by {
        assert(table[n - 1] == cumulative(data, (n - 1) as nat));
        assert(cumulative(data, n) == cumulative(data, (n - 1) as nat) + width(data[n - 1].share));
    }
}

/// The alphabet of a distribution that fits is its table, and is well formed.
pub proof fn lemma_alphabet_of(data: Seq<TokenShare>)
    requires
        fits(data),
    ensures
        is_prob_table(data, alphabet_of(data).table, alphabet_of(data).denominator),
        alphabet_of(data).wf(),
{
    let a = alphabet_of(data);
    assert forall|i: int| 0 <= i < data.len() implies #[trigger] a.table[i] == cumulative(
        data,
        i as nat,
    ) by {
        lemma_cumulative_grows(data, i as nat, data.len());
    }
    lemma_cumulative_grows(data, 0, data.len());
    lemma_table_widths(data, a.table, a.denominator);
}

/// Whether a distribution fits: it has a token, and its widths add up to no more than
/// `MAX_RANGE_DENOMINATOR`.
pub fn table_fits(data: &[TokenShare]) -> (ok: bool)
    ensures
        ok == fits(data@),
{
    let n = data.len();
    let mut sum: u64 = 0;
    let mut i: usize = 0;
    while i < n
        invariant
            i <= n,
            n == data@.len(),
            sum == cumulative(data@, i as nat),
            sum <= MAX_RANGE_DENOMINATOR,
        decreases n - i,
    {
        let share = data[i].share;
        let w = if share == 0 {
            1
        } else {
            share
        };
        if w > MAX_RANGE_DENOMINATOR - sum {
            proof {
                lemma_cumulative_grows(data@, (i + 1) as nat, n as nat);
            }
            return false;
        }
        sum = sum + w;
        i = i + 1;
    }
    n > 0
}

/// Builds the cumulative table of a distribution and its denominator.
pub fn to_prob_table(data: &[TokenShare]) -> (out: (Vec<u64>, u64))
    requires
        total_width(data@) <= u64::MAX,
    ensures
        is_prob_table(data@, out.0@, out.1),
{
    let n = data.len();
    let mut out: Vec<u64> = Vec::new();
    let mut sum: u64 = 0;
    let mut i: usize = 0;
    while i < n
        invariant
            i <= n,
            n == data@.len(),
            total_width(data@) <= u64::MAX,
            sum == cumulative(data@, i as nat),
            out@.len() == i,
            forall|k: int| 0 <= k < i ==> #[trigger] out@[k] == cumulative(data@, k as nat),
        decreases n - i,
    {
        out.push(sum);
        let share = data[i].share;
        proof {
            lemma_cumulative_grows(data@, (i + 1) as nat, n as nat);
        }
        sum = sum + if share == 0 {
            1
        } else {
            share
        };
        i = i + 1;
    }
    let denominator = if sum == 0 {
        1
    } else {
        sum
    };
    (out, denominator)
}

} // verus!
