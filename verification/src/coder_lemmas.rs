//! Facts about the coder's model that its executable functions rest on.

use vstd::prelude::*;
use vstd::arithmetic::power2::{lemma2_to64, lemma_pow2_unfold, pow2};
use crate::coder_model::{
    admits, bits_value, carry, contains_input, doublings, encoded, filled, initial_encoder,
    narrowed, normal_range, padded_bit, picked, renormalised, scaled, selects, table_wf,
    upper_bound, DecoderState, EncoderState,
};
use crate::range_coder::{HALF, MAX_RANGE_DENOMINATOR, NORM};

verus! {

/// A share of a window-sized interval is computed without overflow and is no wider
/// than the interval.
pub proof fn lemma_scaled_fits(range: nat, x: nat, denominator: nat)
    requires
        range <= NORM,
        x <= denominator,
        0 < denominator <= MAX_RANGE_DENOMINATOR,
    ensures
        range * x <= 0xFFFF_FFFF_0000_0000,
        scaled(range, x, denominator) <= range,
{
    assert(range * x <= 0x1_0000_0000 * 0xFFFF_FFFF) by (nonlinear_arith)
        requires
            range <= 0x1_0000_0000,
            x <= 0xFFFF_FFFF,
    ;
    assert((range * x) / denominator <= range) by (nonlinear_arith)
        requires
            x <= denominator,
            0 < denominator,
    ;
}

/// A larger share ends no earlier.
pub proof fn lemma_scaled_monotone(range: nat, x: nat, y: nat, denominator: nat)
    requires
        x <= y,
        0 < denominator,
    ensures
        scaled(range, x, denominator) <= scaled(range, y, denominator),
{
    assert((range * x) / denominator <= (range * y) / denominator) by (nonlinear_arith)
        requires
            x <= y,
            0 < denominator,
    ;
}

/// The empty share ends at zero.
pub proof fn lemma_scaled_zero(range: nat, denominator: nat)
    requires
        0 < denominator,
    ensures
        scaled(range, 0, denominator) == 0,
{
    assert((range * 0) / denominator == 0) by (nonlinear_arith)
        requires
            0 < denominator,
    ;
}

/// The whole share ends where the interval ends.
pub proof fn lemma_scaled_full(range: nat, denominator: nat)
    requires
        0 < denominator,
    ensures
        scaled(range, denominator, denominator) == range,
{
    assert((range * denominator) / denominator == range) by (nonlinear_arith)
        requires
            0 < denominator,
    ;
}

/// A width of at least one is doubled at most 32 times.
pub proof fn lemma_doublings_bound(range: nat)
    requires
        0 < range,
    ensures
        doublings(range) <= 32,
{
    lemma2_to64();
    lemma_doublings_within(range, 32);
}

proof fn lemma_doublings_within(range: nat, k: nat)
    requires
        0 < range,
        range * pow2(k) > HALF,
    ensures
        doublings(range) <= k,
    decreases k,
{
    if range <= HALF {
        if k == 0 {
            lemma2_to64();
        } else {
            lemma_pow2_unfold(k);
            assert((2 * range) * pow2((k - 1) as nat) == range * (2 * pow2((k - 1) as nat)))
                by (nonlinear_arith);
            lemma_doublings_within(2 * range, (k - 1) as nat);
        }
    }
}

/// Doubling leaves the window in order, reaches the normal width, and emits one bit
/// for each doubling.
pub proof fn lemma_renormalised_range(s: EncoderState)
    requires
        s.low < NORM,
    ensures
        renormalised(s).range == normal_range(s.range),
        renormalised(s).bits.len() == s.bits.len() + doublings(s.range),
        renormalised(s).low < NORM,
        0 < s.range <= NORM ==> HALF < renormalised(s).range <= NORM,
        s.range > HALF ==> renormalised(s) == s,
    decreases NORM - s.range,
{
    if 0 < s.range <= HALF {
        lemma_renormalised_range(
            EncoderState {
                low: ((s.low % (HALF as nat)) * 2) as nat,
                range: s.range * 2,
                bits: s.bits.push(s.low >= HALF),
            },
        );
    }
}

/// Appending a bit doubles the number spelled and adds the bit.
pub proof fn lemma_bits_value_push(bits: Seq<bool>, bit: bool)
    ensures
        bits_value(bits.push(bit)) == 2 * bits_value(bits) + if bit {
            1nat
        } else {
            0nat
        },
{
    assert(bits.push(bit).drop_last() == bits);
}

/// A bit string spells a number below two to the power of its length.
pub proof fn lemma_bits_value_bound(bits: Seq<bool>)
    ensures
        bits_value(bits) < pow2(bits.len()),
    decreases bits.len(),
{
    if bits.len() == 0 {
        lemma2_to64();
    } else {
        lemma_bits_value_bound(bits.drop_last());
        lemma_pow2_unfold(bits.len());
    }
}

/// A carry keeps the length and adds one to the number spelled, unless the string is
/// all ones.
pub proof fn lemma_carry_value(bits: Seq<bool>)
    ensures
        carry(bits).len() == bits.len(),
        bits_value(bits) + 1 < pow2(bits.len()) ==> bits_value(carry(bits)) == bits_value(bits)
            + 1,
    decreases bits.len(),
{
    lemma2_to64();
    if bits.len() == 0 {
    } else if !bits.last() {
        lemma_bits_value_push(bits.drop_last(), true);
    } else {
        lemma_carry_value(bits.drop_last());
        lemma_bits_value_push(carry(bits.drop_last()), false);
        lemma_pow2_unfold(bits.len());
    }
}

/// A fresh encoder is well formed.
pub proof fn lemma_initial_encoder_wf()
    ensures
        initial_encoder().wf(),
{
    lemma2_to64();
    assert(initial_encoder().bits.len() == 0);
}

/// Doubling keeps the interval where it is: the low end and the width double with
/// each bit emitted.
pub proof fn lemma_renormalised_wf(s: EncoderState)
    requires
        s.wf(),
    ensures
        renormalised(s).wf(),
        renormalised(s).floor() == s.floor() * pow2(doublings(s.range)),
        renormalised(s).range == s.range * pow2(doublings(s.range)),
    decreases NORM - s.range,
{
    lemma2_to64();
    if 0 < s.range <= HALF {
        let next = EncoderState {
            low: ((s.low % (HALF as nat)) * 2) as nat,
            range: s.range * 2,
            bits: s.bits.push(s.low >= HALF),
        };
        lemma_bits_value_push(s.bits, s.low >= HALF);
        lemma_pow2_unfold(next.bits.len());
        assert(next.floor() == 2 * s.floor());
        assert(next.wf());
        lemma_renormalised_wf(next);
        let k = doublings(next.range);
        lemma_pow2_unfold(k + 1);
        assert((2 * s.floor()) * pow2(k) == s.floor() * (2 * pow2(k))) by (nonlinear_arith);
        assert((2 * s.range) * pow2(k) == s.range * (2 * pow2(k))) by (nonlinear_arith);
    } else {
        assert(s.floor() * 1 == s.floor()) by (nonlinear_arith);
        assert(s.range * 1 == s.range) by (nonlinear_arith);
    }
}

/// Cutting a normal interval down leaves an interval inside it: the low end moves up
/// by the offset of the share, and the end does not move up.
pub proof fn lemma_narrowed_wf(s: EncoderState, lo: nat, hi: nat, denominator: nat)
    requires
        s.wf(),
        lo <= hi <= denominator,
        0 < denominator <= MAX_RANGE_DENOMINATOR,
        scaled(s.range, lo, denominator) < scaled(s.range, hi, denominator),
    ensures
        narrowed(s, lo, hi, denominator).wf(),
        narrowed(s, lo, hi, denominator).bits.len() == s.bits.len(),
        narrowed(s, lo, hi, denominator).floor() == s.floor() + scaled(s.range, lo, denominator),
        narrowed(s, lo, hi, denominator).range == scaled(s.range, hi, denominator) - scaled(
            s.range,
            lo,
            denominator,
        ),
{
    lemma_scaled_fits(s.range, lo, denominator);
    lemma_scaled_fits(s.range, hi, denominator);
    lemma_carry_value(s.bits);
    lemma_bits_value_bound(s.bits);
    let offset = scaled(s.range, lo, denominator);
    if s.low + offset >= NORM {
        assert((bits_value(s.bits) + 1) * NORM < pow2(s.bits.len()) * NORM);
        assert(bits_value(s.bits) + 1 < pow2(s.bits.len())) by (nonlinear_arith)
            requires
                (bits_value(s.bits) + 1) * NORM < pow2(s.bits.len()) * NORM,
        ;
    }
}

/// Encoding a share that the state admits leaves a well-formed state.
pub proof fn lemma_encoded_wf(s: EncoderState, lo: nat, hi: nat, denominator: nat)
    requires
        s.wf(),
        admits(s, lo, hi, denominator),
    ensures
        encoded(s, lo, hi, denominator).wf(),
{
    lemma_renormalised_range(s);
    lemma_renormalised_wf(s);
    lemma_narrowed_wf(renormalised(s), lo, hi, denominator);
}

/// Filling leaves the input inside an interval wider than `HALF`, reads one bit for
/// each doubling, and changes nothing once the interval is that wide.
pub proof fn lemma_filled_props(s: DecoderState)
    requires
        s.wf(),
    ensures
        filled(s).wf(),
        filled(s).range > HALF,
        filled(s).range == normal_range(s.range),
        filled(s).pos == s.pos + doublings(s.range),
        filled(s).input == s.input,
        filled(filled(s)) == filled(s),
        s.range > HALF ==> filled(s) == s,
    decreases NORM - s.range,
{
    if 0 < s.range <= HALF {
        lemma_filled_props(
            DecoderState {
                low: s.low * 2 + if padded_bit(s.input, s.pos as int) {
                    1nat
                } else {
                    0nat
                },
                range: s.range * 2,
                input: s.input,
                pos: s.pos + 1,
            },
        );
    }
}

/// The symbol selected is the one whose share contains the input.
pub proof fn lemma_selected_contains(s: DecoderState, table: Seq<u64>, denominator: u64, symbol: int)
    requires
        s.wf(),
        table_wf(table, denominator),
        selects(s, table, denominator, symbol),
    ensures
        contains_input(
            s,
            table[symbol] as nat,
            upper_bound(table, denominator, symbol) as nat,
            denominator as nat,
        ),
{
    if symbol + 1 < table.len() {
        assert(scaled(s.range, table[symbol + 1] as nat, denominator as nat) > s.low);
    } else {
        lemma_scaled_full(s.range, denominator as nat);
    }
}

/// Cutting the interval down to a share that contains the input leaves the input
/// inside what remains.
pub proof fn lemma_picked_wf(s: DecoderState, lo: nat, hi: nat, denominator: nat)
    requires
        s.wf(),
        contains_input(s, lo, hi, denominator),
    ensures
        picked(s, lo, hi, denominator).wf(),
{
    lemma_scaled_fits(s.range, hi, denominator);
}

} // verus!
