//! A binary range coder over a 64-bit state with a 32-bit normalisation window.
//!
//! `RangeEncoder` turns a sequence of sub-intervals into bits, `RangeDecoder` turns
//! bits back into the sub-intervals that contain them.  Each executable function is
//! specified by the function of `coder_model` that it computes.

use vstd::prelude::*;
use crate::coder_laws::lemma_flush_inside;
use crate::coder_lemmas::{
    lemma_doublings_bound, lemma_encoded_wf, lemma_filled_props, lemma_initial_encoder_wf,
    lemma_picked_wf, lemma_renormalised_range, lemma_scaled_fits, lemma_scaled_monotone,
    lemma_scaled_zero, lemma_selected_contains,
};
use crate::coder_model::{
    admits, carry, closing, contains_input, decoded, doublings, encoded, filled, flush_rank,
    flushed, initial_decoder, initial_encoder, inside, narrowed, normal_range, padded_bit,
    picked, renormalised, scaled, selects, table_wf, upper_bound, DecoderState, EncoderState,
};

verus! {

/// Width in bits of the coder's normalisation window.
pub const N_BITS: usize = 32;

/// One past the largest value the low end of the window can take.
pub const NORM: u64 = 0x1_0000_0000;

/// Half of `NORM`: an interval no wider than this is doubled before it is narrowed.
pub const HALF: u64 = 0x8000_0000;

/// The largest denominator a probability table may have.
pub const MAX_RANGE_DENOMINATOR: u64 = 0xFFFF_FFFF;

/// The encoding half of the coder: the current interval and the bits emitted so far.
pub struct RangeEncoder {
    low: u64,
    range: u64,
    out_buf: Vec<bool>,
}

impl View for RangeEncoder {
    type V = EncoderState;

    closed spec fn view(&self) -> EncoderState {
        EncoderState { low: self.low as nat, range: self.range as nat, bits: self.out_buf@ }
    }
}

impl RangeEncoder {
    /// The encoder's interval is not empty and lies inside the unit interval.
    pub open spec fn wf(&self) -> bool {
        self@.wf()
    }

    /// An encoder whose interval is the whole unit interval and that has emitted nothing.
    pub fn new() -> (enc: Self)
        ensures
            enc@ == initial_encoder(),
            enc.wf(),
    {
        proof {
            lemma_initial_encoder_wf();
        }
        Self { low: 0, range: NORM, out_buf: Vec::new() }
    }

    /// Adds one to the emitted bits, read as a big-endian number.
    fn carry_one(&mut self)
        ensures
            final(self)@ == (EncoderState { bits: carry(old(self)@.bits), ..old(self)@ }),
    {
        let ghost before = self.out_buf@;
        let n = self.out_buf.len();
        let mut i: usize = n;
        proof {
            assert(before.take(n as int) == before);
            assert(carry(before) == carry(before) + self.out_buf@.skip(n as int));
        }
        while i > 0
            invariant_except_break
                self.out_buf@.take(i as int) == before.take(i as int),
                carry(before) == carry(before.take(i as int)) + self.out_buf@.skip(i as int),
            invariant
                i <= n,
                n == before.len(),
                self.out_buf@.len() == n,
                self.low == old(self).low,
                self.range == old(self).range,
            ensures
                self.low == old(self).low,
                self.range == old(self).range,
                self.out_buf@ == carry(before),
            decreases i,
        {
            let ghost cur = self.out_buf@;
            i -= 1;
            let flipped = !self.out_buf[i];
            self.out_buf.set(i, flipped);
            proof {
                let head = before.take(i as int + 1);
                assert(head.drop_last() == before.take(i as int));
                assert(head.last() == before[i as int]);
                assert(cur[i as int] == before[i as int]) by {
                    assert(cur.take(i as int + 1)[i as int] == head[i as int]);
                }
                assert(self.out_buf@.take(i as int) == before.take(i as int)) by {
                    assert forall|k: int| 0 <= k < i implies self.out_buf@[k] == before[k] by {
                        assert(cur.take(i as int + 1)[k] == head[k]);
                    }
                }
                assert(self.out_buf@.skip(i as int) == seq![flipped] + cur.skip(i as int + 1));
            }
            if flipped {
                proof {
                    assert(carry(before.take(i as int + 1)) == before.take(i as int).push(true));
                    assert(self.out_buf@ == self.out_buf@.take(i as int) + self.out_buf@.skip(
                        i as int,
                    ));
                    assert(self.out_buf@ == carry(before));
                }
                break ;
            }
            proof {
                assert(carry(before.take(i as int + 1)) == carry(before.take(i as int)).push(
                    false,
                ));
                assert(carry(before) == carry(before.take(i as int)) + self.out_buf@.skip(
                    i as int,
                ));
                if i == 0 {
                    assert(before.take(0) == Seq::<bool>::empty());
                    assert(self.out_buf@.skip(0) == self.out_buf@);
                    assert(carry(before) == self.out_buf@);
                }
            }
        }
        proof {
            if n == 0 {
                assert(before == Seq::<bool>::empty());
                assert(self.out_buf@ == carry(before));
            }
        }
    }

    /// Whether `encode_range` may be called with these bounds: they are ordered, the
    /// denominator is in range, and the interval that is left is not empty.
    pub fn accepts(&self, low: u64, high: u64, denominator: u64) -> (ok: bool)
        requires
            self.wf(),
        ensures
            ok == admits(self@, low as nat, high as nat, denominator as nat),
    {
        if !(low <= high && high <= denominator && 0 < denominator && denominator
            <= MAX_RANGE_DENOMINATOR) {
            return false;
        }
        let mut range = self.range;
        while range <= HALF
            invariant
                0 < range <= NORM,
                normal_range(range as nat) == normal_range(self@.range),
            decreases NORM - range,
        {
            range = range * 2;
        }
        proof {
            lemma_scaled_fits(range as nat, low as nat, denominator as nat);
            lemma_scaled_fits(range as nat, high as nat, denominator as nat);
        }
        range * low / denominator < range * high / denominator
    }

    /// Narrows the interval to the part of it between `low / denominator` and
    /// `high / denominator`, after doubling it until it is wider than `HALF`.
    pub fn encode_range(&mut self, low: u64, high: u64, denominator: u64)
        requires
            old(self).wf(),
            admits(old(self)@, low as nat, high as nat, denominator as nat),
        ensures
            final(self)@ == encoded(old(self)@, low as nat, high as nat, denominator as nat),
            final(self).wf(),
    {
        proof {
            lemma_renormalised_range(self@);
        }
        while self.range <= HALF
            invariant
                self.low < NORM,
                0 < self.range <= NORM,
                renormalised(self@) == renormalised(old(self)@),
            decreases NORM - self.range,
        {
            self.out_buf.push(self.low >= HALF);
            self.low = self.low % HALF;
            self.low = self.low * 2;
            self.range = self.range * 2;
        }
        let ghost normal = self@;
        proof {
            assert(normal == renormalised(old(self)@));
            lemma_scaled_fits(self.range as nat, low as nat, denominator as nat);
            lemma_scaled_fits(self.range as nat, high as nat, denominator as nat);
        }
        let offset = self.range * low / denominator;
        self.low = self.low + offset;
        self.range = self.range * high / denominator - offset;
        if self.low >= NORM {
            self.low = self.low - NORM;
            self.carry_one();
        }
        proof {
            assert(self@ == narrowed(normal, low as nat, high as nat, denominator as nat));
            lemma_encoded_wf(old(self)@, low as nat, high as nat, denominator as nat);
        }
    }

    /// Encodes the symbol whose interval starts at `table[symbol]` and ends where the
    /// next symbol's starts, or at `denominator` for the last symbol.
    pub fn encode(&mut self, table: &[u64], denominator: u64, symbol: usize)
        requires
            old(self).wf(),
            symbol < table@.len(),
            admits(
                old(self)@,
                table@[symbol as int] as nat,
                upper_bound(table@, denominator, symbol as int) as nat,
                denominator as nat,
            ),
        ensures
            final(self)@ == encoded(
                old(self)@,
                table@[symbol as int] as nat,
                upper_bound(table@, denominator, symbol as int) as nat,
                denominator as nat,
            ),
            final(self).wf(),
    {
        let high = if symbol < table.len() - 1 {
            table[symbol + 1]
        } else {
            denominator
        };
        self.encode_range(table[symbol], high, denominator)
    }

    /// Ends the stream: emits the bits that pin the interval down and returns
    /// everything emitted.  Read by a decoder, with its padding, the stream is a number
    /// of the interval.
    pub fn flush(self) -> (bits: Vec<bool>)
        requires
            self.wf(),
        ensures
            bits@ == flushed(self@),
            inside(self@, bits@),
    {
        proof {
            lemma_flush_inside(self@);
        }
        let mut low = self.low;
        let mut range = self.range;
        let mut out_buf = self.out_buf;
        if low + range > NORM {
            range = NORM - low;
        }
        while range <= NORM
            invariant
                low < NORM,
                0 < range <= 2 * NORM,
                closing(EncoderState { low: low as nat, range: range as nat, bits: out_buf@ })
                    == flushed(self@),
            decreases
                    flush_rank(EncoderState { low: low as nat, range: range as nat, bits: out_buf@ }),
                    2 * NORM - range,
        {
            if !(low < HALF && HALF < low + range) || low == 0 {
                out_buf.push(low >= HALF);
                low = low % HALF;
            } else if low + range - HALF > HALF - low {
                range = range - (HALF - low);
                low = 0;
                out_buf.push(true);
            } else {
                range = range - (low + range - HALF);
                out_buf.push(false);
            }
            low = low * 2;
            range = range * 2;
        }
        out_buf
    }
}

/// The decoding half of the coder: the position of the input inside the current
/// interval, the interval's width, and the input with the place reached in it.
pub struct RangeDecoder {
    low: u64,
    range: u64,
    in_buf: Vec<bool>,
    buf_pos: usize,
}

impl View for RangeDecoder {
    type V = DecoderState;

    closed spec fn view(&self) -> DecoderState {
        DecoderState {
            low: self.low as nat,
            range: self.range as nat,
            input: self.in_buf@,
            pos: self.buf_pos as nat,
        }
    }
}

impl RangeDecoder {
    /// The input's position lies inside the current interval.
    pub open spec fn wf(&self) -> bool {
        self@.wf()
    }

    /// A decoder at the start of `in_buf` that has read nothing yet.
    pub fn new(in_buf: Vec<bool>) -> (dec: Self)
        ensures
            dec@ == initial_decoder(in_buf@),
            dec.wf(),
    {
        Self { low: 0, range: 1, in_buf, buf_pos: 0 }
    }

    /// Reads the next bit of the input; past its end, one zero and then ones.
    fn input_bit(&mut self) -> (out: bool)
        requires
            old(self)@.pos < usize::MAX,
        ensures
            out == padded_bit(old(self)@.input, old(self)@.pos as int),
            final(self)@ == (DecoderState { pos: old(self)@.pos + 1, ..old(self)@ }),
    {
        let out = if self.buf_pos < self.in_buf.len() {
            self.in_buf[self.buf_pos]
        } else {
            self.buf_pos > self.in_buf.len()
        };
        self.buf_pos = self.buf_pos + 1;
        out
    }

    /// Doubles the interval, reading one bit each time, until it is wider than `HALF`.
    fn fill_range(&mut self)
        requires
            old(self).wf(),
            old(self)@.pos + doublings(old(self)@.range) <= usize::MAX,
        ensures
            final(self)@ == filled(old(self)@),
            final(self).wf(),
            final(self)@.range > HALF,
    {
        while self.range <= HALF
            invariant
                self.low < self.range <= NORM,
                filled(self@) == filled(old(self)@),
                self@.pos + doublings(self@.range) == old(self)@.pos + doublings(old(self)@.range),
                old(self)@.pos + doublings(old(self)@.range) <= usize::MAX,
            decreases NORM - self.range,
        {
            let bit = self.input_bit();
            self.low = self.low * 2 + if bit {
                1
            } else {
                0
            };
            self.range = self.range * 2;
        }
    }

    /// The symbol whose interval contains the input: the largest index whose scaled
    /// table entry is not above the input's position.
    pub fn selected_symbol(&mut self, table: &[u64], denominator: u64) -> (symbol: usize)
        requires
            old(self).wf(),
            old(self)@.pos + doublings(old(self)@.range) <= usize::MAX,
            table_wf(table@, denominator),
        ensures
            final(self)@ == filled(old(self)@),
            final(self).wf(),
            final(self)@.range > HALF,
            selects(final(self)@, table@, denominator, symbol as int),
    {
        self.fill_range();
        let mut first: usize = 0;
        let mut last: usize = table.len();
        proof {
            lemma_scaled_zero(self@.range, denominator as nat);
        }
        while last - first > 1
            invariant
                first < last <= table@.len(),
                table_wf(table@, denominator),
                self.low < self.range <= NORM,
                scaled(self@.range, table@[first as int] as nat, denominator as nat) <= self@.low,
                forall|j: int|
                    last <= j < table@.len() ==> scaled(
                        self@.range,
                        #[trigger] table@[j] as nat,
                        denominator as nat,
                    ) > self@.low,
            decreases last - first,
        {
            let mid = first + (last - first) / 2;
            proof {
                lemma_scaled_fits(self@.range, table@[mid as int] as nat, denominator as nat);
            }
            if self.range * table[mid] / denominator <= self.low {
                first = mid;
            } else {
                proof {
                    assert forall|j: int| mid <= j < table@.len() implies scaled(
                        self@.range,
                        #[trigger] table@[j] as nat,
                        denominator as nat,
                    ) > self@.low by {
                        lemma_scaled_monotone(
                            self@.range,
                            table@[mid as int] as nat,
                            table@[j] as nat,
                            denominator as nat,
                        );
                    }
                }
                last = mid;
            }
        }
        first
    }

    /// Narrows the interval to the part of it between `low / denominator` and
    /// `high / denominator`, which must contain the input.
    pub fn decode_range(&mut self, low: u64, high: u64, denominator: u64)
        requires
            old(self).wf(),
            old(self)@.pos + doublings(old(self)@.range) <= usize::MAX,
            contains_input(filled(old(self)@), low as nat, high as nat, denominator as nat),
        ensures
            final(self)@ == picked(filled(old(self)@), low as nat, high as nat, denominator as nat),
            final(self).wf(),
    {
        self.fill_range();
        proof {
            lemma_picked_wf(self@, low as nat, high as nat, denominator as nat);
            lemma_scaled_fits(self@.range, low as nat, denominator as nat);
            lemma_scaled_fits(self@.range, high as nat, denominator as nat);
        }
        let offset = self.range * low / denominator;
        self.low = self.low - offset;
        self.range = self.range * high / denominator - offset;
    }

    /// Reads one symbol: selects it and narrows the interval to it.
    pub fn decode(&mut self, table: &[u64], denominator: u64) -> (symbol: usize)
        requires
            old(self).wf(),
            old(self)@.pos + doublings(old(self)@.range) <= usize::MAX,
            table_wf(table@, denominator),
        ensures
            selects(filled(old(self)@), table@, denominator, symbol as int),
            final(self)@ == decoded(filled(old(self)@), table@, denominator, symbol as int),
            final(self).wf(),
    {
        let symbol = self.selected_symbol(table, denominator);
        let low = table[symbol];
        let high = if symbol < table.len() - 1 {
            table[symbol + 1]
        } else {
            denominator
        };
        proof {
            lemma_filled_props(old(self)@);
            lemma_selected_contains(self@, table@, denominator, symbol as int);
        }
        self.decode_range(low, high, denominator);
        symbol
    }

    /// Whether the reading position can be counted through the next read.
    pub fn has_room(&self) -> (ok: bool)
        requires
            self.wf(),
        ensures
            ok == (self@.pos + doublings(self@.range) <= usize::MAX),
    {
        let mut range = self.range;
        let mut k: usize = 0;
        proof {
            lemma_doublings_bound(self@.range);
        }
        while range <= HALF
            invariant
                0 < range <= NORM,
                k + doublings(range as nat) == doublings(self@.range),
                doublings(self@.range) <= 32,
            decreases NORM - range,
        {
            range = range * 2;
            k = k + 1;
        }
        self.buf_pos <= usize::MAX - k
    }

    /// How many bits a decoder that is not done has still to read before it is, as far
    /// as a `usize` counts.
    pub fn bits_left(&self) -> (left: usize)
        ensures
            left == self@.bits_left(),
    {
        let len = self.in_buf.len();
        if self.buf_pos > len {
            let over = self.buf_pos - len;
            if over > N_BITS + 1 {
                0
            } else {
                N_BITS + 2 - over
            }
        } else {
            let under = len - self.buf_pos;
            if under > usize::MAX - (N_BITS + 2) {
                usize::MAX
            } else {
                under + N_BITS + 2
            }
        }
    }

    /// True once the zero that pads the input has left the window: the position is
    /// more than `N_BITS + 1` past the input's end.
    pub fn is_done(&self) -> (done: bool)
        ensures
            done == self@.is_done(),
    {
        self.buf_pos > self.in_buf.len() && self.buf_pos - self.in_buf.len() > N_BITS + 1
    }
}

} // verus!
