//! The mathematical model of the range coder: the states of the two halves as plain
//! values, and what each operation makes of them.

use vstd::prelude::*;
use vstd::arithmetic::power2::pow2;
use crate::range_coder::{HALF, MAX_RANGE_DENOMINATOR, NORM, N_BITS};

verus! {

/// What an encoder holds: the low end and the width of its interval inside the
/// 32-bit window, and the bits it has emitted in front of the window.
pub ghost struct EncoderState {
    pub low: nat,
    pub range: nat,
    pub bits: Seq<bool>,
}

/// What a decoder holds: how far the input lies above the low end of the interval,
/// the interval's width, the input, and the number of bits read from it.
pub ghost struct DecoderState {
    pub low: nat,
    pub range: nat,
    pub input: Seq<bool>,
    pub pos: nat,
}

/// The number that a bit string spells, most significant bit first.
pub open spec fn bits_value(bits: Seq<bool>) -> nat
    decreases bits.len(),
{
    if bits.len() == 0 {
        0
    } else {
        2 * bits_value(bits.drop_last()) + if bits.last() {
            1nat
        } else {
            0nat
        }
    }
}

/// The bit string plus one: trailing ones become zeros and the zero before them a
/// one.  A string of ones alone wraps to zeros.
pub open spec fn carry(bits: Seq<bool>) -> Seq<bool>
    decreases bits.len(),
{
    if bits.len() == 0 {
        bits
    } else if !bits.last() {
        bits.drop_last().push(true)
    } else {
        carry(bits.drop_last()).push(false)
    }
}

/// How often a width is doubled before it exceeds `HALF`.
pub open spec fn doublings(range: nat) -> nat
    decreases NORM - range,
{
    if 0 < range <= HALF {
        1 + doublings(2 * range)
    } else {
        0
    }
}

/// The width once it has been doubled until it exceeds `HALF`.
pub open spec fn normal_range(range: nat) -> nat
    decreases NORM - range,
{
    if 0 < range <= HALF {
        normal_range(2 * range)
    } else {
        range
    }
}

/// `range * x / denominator`, rounded down: where the share `x / denominator` of an
/// interval of width `range` ends.
pub open spec fn scaled(range: nat, x: nat, denominator: nat) -> nat {
    (range * x) / denominator
}

/// Where a symbol's share of the table ends: at the next entry, or at the
/// denominator for the last symbol.
pub open spec fn upper_bound(table: Seq<u64>, denominator: u64, symbol: int) -> u64 {
    if symbol + 1 < table.len() {
        table[symbol + 1]
    } else {
        denominator
    }
}

/// A cumulative table: it starts at zero, every symbol has a share of at least one
/// unit, and the shares add up to a denominator no larger than the coder allows.
pub open spec fn table_wf(table: Seq<u64>, denominator: u64) -> bool {
    &&& table.len() > 0
    &&& table[0] == 0
    &&& forall|i: int, j: int| 0 <= i < j < table.len() ==> table[i] < table[j]
    &&& table.last() < denominator
    &&& denominator <= MAX_RANGE_DENOMINATOR
}

impl EncoderState {
    /// The interval is not empty, fits the window's arithmetic, and together with the
    /// emitted bits lies inside the unit interval, so that a carry never runs off the
    /// front of the bits.
    pub open spec fn wf(self) -> bool {
        &&& self.low < NORM
        &&& 0 < self.range <= NORM
        &&& self.floor() + self.range <= pow2(self.bits.len()) * NORM
    }

    /// The low end of the interval as one number: the emitted bits followed by the
    /// window's 32 bits.
    pub open spec fn floor(self) -> nat {
        (bits_value(self.bits) * NORM + self.low) as nat
    }
}

/// The state of a fresh encoder.
pub open spec fn initial_encoder() -> EncoderState {
    EncoderState { low: 0, range: NORM as nat, bits: Seq::empty() }
}

/// The state after doubling the interval until it is wider than `HALF`; each
/// doubling emits the window's top bit.
pub open spec fn renormalised(s: EncoderState) -> EncoderState
    decreases NORM - s.range,
{
    if 0 < s.range <= HALF {
        renormalised(
            EncoderState {
                low: ((s.low % (HALF as nat)) * 2) as nat,
                range: s.range * 2,
                bits: s.bits.push(s.low >= HALF),
            },
        )
    } else {
        s
    }
}

/// The state after cutting the interval down to the share between `lo / denominator`
/// and `hi / denominator`; a low end that leaves the window carries into the bits.
pub open spec fn narrowed(s: EncoderState, lo: nat, hi: nat, denominator: nat) -> EncoderState {
    let offset = scaled(s.range, lo, denominator);
    let low = s.low + offset;
    let range = (scaled(s.range, hi, denominator) - offset) as nat;
    if low >= NORM {
        EncoderState { low: (low - NORM) as nat, range, bits: carry(s.bits) }
    } else {
        EncoderState { low, range, bits: s.bits }
    }
}

/// The state after encoding one share: doubled, then cut down.
pub open spec fn encoded(s: EncoderState, lo: nat, hi: nat, denominator: nat) -> EncoderState {
    narrowed(renormalised(s), lo, hi, denominator)
}

/// The bounds are ordered, the denominator is one the coder allows, and the share
/// leaves an interval that is not empty.
pub open spec fn admits(s: EncoderState, lo: nat, hi: nat, denominator: nat) -> bool {
    &&& lo <= hi <= denominator
    &&& 0 < denominator <= MAX_RANGE_DENOMINATOR
    &&& scaled(normal_range(s.range), lo, denominator) < scaled(
        normal_range(s.range),
        hi,
        denominator,
    )
}

/// Whether the interval has `HALF` strictly inside it.
pub open spec fn straddles_half(s: EncoderState) -> bool {
    s.low < HALF && HALF < s.low + s.range
}

/// One move of the closing procedure.  An interval on one side of `HALF`, or one that
/// starts at zero, emits the bit of its side.  One that straddles `HALF` keeps its
/// larger part: the upper part and a one, or the lower part and a zero.  Then the
/// window is doubled.
pub open spec fn flush_step(s: EncoderState) -> EncoderState {
    if !straddles_half(s) || s.low == 0 {
        EncoderState {
            low: ((s.low % (HALF as nat)) * 2) as nat,
            range: s.range * 2,
            bits: s.bits.push(s.low >= HALF),
        }
    } else if s.low + s.range - HALF > HALF - s.low {
        EncoderState {
            low: 0,
            range: ((s.low + s.range - HALF) * 2) as nat,
            bits: s.bits.push(true),
        }
    } else {
        EncoderState {
            low: s.low * 2,
            range: ((HALF - s.low) * 2) as nat,
            bits: s.bits.push(false),
        }
    }
}

/// Orders the closing procedure's states: an interval that starts at zero comes
/// first, one that ends at `NORM` second, any other last.
pub open spec fn flush_rank(s: EncoderState) -> nat {
    if s.low == 0 {
        0
    } else if s.low + s.range == NORM {
        1
    } else {
        2
    }
}

/// Everything emitted once moves have been made until the interval is wider than
/// `NORM`.
pub open spec fn closing(s: EncoderState) -> Seq<bool>
    decreases flush_rank(s), 2 * NORM - s.range,
{
    if 0 < s.range <= NORM {
        closing(flush_step(s))
    } else {
        s.bits
    }
}

/// The state with its interval cut off at the end of the window.  An interval that
/// reaches past `NORM` holds numbers that would carry into the bits emitted; what is
/// kept of it is the part that leaves those bits as they are.
pub open spec fn settled(s: EncoderState) -> EncoderState {
    if s.low + s.range > NORM {
        EncoderState { range: (NORM - s.low) as nat, ..s }
    } else {
        s
    }
}

/// Everything emitted once the stream is closed: the interval is cut off at the end
/// of the window, and moves are made until it is wider than `NORM`.
pub open spec fn flushed(s: EncoderState) -> Seq<bool> {
    closing(settled(s))
}

/// Bit `i` of the input as the decoder reads it: past the end, one zero and then
/// ones.
pub open spec fn padded_bit(input: Seq<bool>, i: int) -> bool {
    if 0 <= i < input.len() {
        input[i]
    } else {
        i > input.len()
    }
}

impl DecoderState {
    /// The input lies inside the interval, which fits the window.
    pub open spec fn wf(self) -> bool {
        self.low < self.range <= NORM
    }

    /// The reading position is more than `N_BITS + 1` past the end of the input.
    pub open spec fn is_done(self) -> bool {
        self.pos > self.input.len() + N_BITS + 1
    }

    /// The number of bits still to read before the decoder is done, cut off at the
    /// largest `usize`.
    pub open spec fn bits_left(self) -> nat {
        let all = self.input.len() + N_BITS + 2;
        if self.pos >= all {
            0
        } else if all - self.pos > usize::MAX {
            usize::MAX as nat
        } else {
            (all - self.pos) as nat
        }
    }
}

/// The state of a fresh decoder: an interval of width one, so that the first read
/// fills the whole window.
pub open spec fn initial_decoder(input: Seq<bool>) -> DecoderState {
    DecoderState { low: 0, range: 1, input, pos: 0 }
}

/// The state after doubling the interval until it is wider than `HALF`; each
/// doubling shifts the next input bit into the position.
pub open spec fn filled(s: DecoderState) -> DecoderState
    decreases NORM - s.range,
{
    if 0 < s.range <= HALF {
        filled(
            DecoderState {
                low: s.low * 2 + if padded_bit(s.input, s.pos as int) {
                    1nat
                } else {
                    0nat
                },
                range: s.range * 2,
                input: s.input,
                pos: s.pos + 1,
            },
        )
    } else {
        s
    }
}

/// `symbol` is the largest index whose scaled table entry is not above the input's
/// position.
pub open spec fn selects(s: DecoderState, table: Seq<u64>, denominator: u64, symbol: int) -> bool {
    &&& 0 <= symbol < table.len()
    &&& scaled(s.range, table[symbol] as nat, denominator as nat) <= s.low
    &&& forall|j: int|
        symbol < j < table.len() ==> scaled(s.range, #[trigger] table[j] as nat, denominator as nat)
            > s.low
}

/// The share between `lo / denominator` and `hi / denominator` of the interval
/// contains the input's position.
pub open spec fn contains_input(s: DecoderState, lo: nat, hi: nat, denominator: nat) -> bool {
    &&& lo <= hi <= denominator
    &&& 0 < denominator <= MAX_RANGE_DENOMINATOR
    &&& scaled(s.range, lo, denominator) <= s.low < scaled(s.range, hi, denominator)
}

/// The state after cutting the interval down to the share between `lo / denominator`
/// and `hi / denominator`.
pub open spec fn picked(s: DecoderState, lo: nat, hi: nat, denominator: nat) -> DecoderState {
    let offset = scaled(s.range, lo, denominator);
    DecoderState {
        low: (s.low - offset) as nat,
        range: (scaled(s.range, hi, denominator) - offset) as nat,
        ..s
    }
}

/// The alphabet of one coding step: a cumulative table and its denominator.
pub ghost struct Alphabet {
    pub table: Seq<u64>,
    pub denominator: u64,
}

impl Alphabet {
    /// The table is a well-formed cumulative table for the denominator.
    pub open spec fn wf(self) -> bool {
        table_wf(self.table, self.denominator)
    }

    /// Where a symbol's share starts.
    pub open spec fn low(self, symbol: int) -> nat {
        self.table[symbol] as nat
    }

    /// Where a symbol's share ends.
    pub open spec fn high(self, symbol: int) -> nat {
        upper_bound(self.table, self.denominator, symbol) as nat
    }
}

/// The number that the first `m` bits of the padded input spell.
pub open spec fn padded_value(input: Seq<bool>, m: nat) -> nat
    decreases m,
{
    if m == 0 {
        0
    } else {
        2 * padded_value(input, (m - 1) as nat) + if padded_bit(input, m - 1) {
            1nat
        } else {
            0nat
        }
    }
}

/// The state of an encoder that has encoded the first `n` symbols, each under the
/// alphabet of its step.
pub open spec fn encoder_after(alphabets: Seq<Alphabet>, symbols: Seq<int>, n: nat) -> EncoderState
    decreases n,
{
    if n == 0 {
        initial_encoder()
    } else {
        let a = alphabets[n - 1];
        encoded(
            encoder_after(alphabets, symbols, (n - 1) as nat),
            a.low(symbols[n - 1]),
            a.high(symbols[n - 1]),
            a.denominator as nat,
        )
    }
}

/// Symbol `i` is a symbol of its step's alphabet, and the encoder that has encoded
/// the symbols before it admits its share.
pub open spec fn step_encodable(alphabets: Seq<Alphabet>, symbols: Seq<int>, i: int) -> bool {
    &&& alphabets[i].wf()
    &&& 0 <= symbols[i] < alphabets[i].table.len()
    &&& admits(
        encoder_after(alphabets, symbols, i as nat),
        alphabets[i].low(symbols[i]),
        alphabets[i].high(symbols[i]),
        alphabets[i].denominator as nat,
    )
}

/// Each of the first `n` symbols can be encoded in its turn.
pub open spec fn encodable_upto(alphabets: Seq<Alphabet>, symbols: Seq<int>, n: nat) -> bool {
    forall|i: int| 0 <= i < n ==> #[trigger] step_encodable(alphabets, symbols, i)
}

/// The symbols can be encoded one after the other, each under the alphabet of its
/// step.
pub open spec fn encodable(alphabets: Seq<Alphabet>, symbols: Seq<int>) -> bool {
    alphabets.len() == symbols.len() && encodable_upto(alphabets, symbols, symbols.len())
}

/// The symbol that a filled decoder selects under an alphabet.
pub open spec fn selected(s: DecoderState, a: Alphabet) -> int {
    choose|i: int| selects(s, a.table, a.denominator, i)
}

/// The state of a decoder that has read `n` symbols from the input, each under the
/// alphabet of its step.
pub open spec fn decoder_after(input: Seq<bool>, alphabets: Seq<Alphabet>, n: nat) -> DecoderState
    decreases n,
{
    if n == 0 {
        initial_decoder(input)
    } else {
        let f = filled(decoder_after(input, alphabets, (n - 1) as nat));
        let a = alphabets[n - 1];
        decoded(f, a.table, a.denominator, selected(f, a))
    }
}

/// The symbol that the decoder reads at step `i`.
pub open spec fn decoded_symbol(input: Seq<bool>, alphabets: Seq<Alphabet>, i: int) -> int {
    selected(filled(decoder_after(input, alphabets, i as nat)), alphabets[i])
}

/// The symbols that the decoder reads, one for each alphabet.
pub open spec fn decoded_symbols(input: Seq<bool>, alphabets: Seq<Alphabet>) -> Seq<int> {
    Seq::new(alphabets.len(), |i: int| decoded_symbol(input, alphabets, i))
}

/// The padded stream, read to the precision of the state, lies inside the state's
/// interval.
pub open spec fn inside(s: EncoderState, stream: Seq<bool>) -> bool {
    s.floor() <= padded_value(stream, s.bits.len() + 32) < s.floor() + s.range
}

/// The state after cutting the interval down to a symbol's share of the table.
pub open spec fn decoded(s: DecoderState, table: Seq<u64>, denominator: u64, symbol: int) -> DecoderState {
    picked(
        s,
        table[symbol] as nat,
        upper_bound(table, denominator, symbol) as nat,
        denominator as nat,
    )
}

} // verus!
