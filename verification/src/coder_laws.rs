//! What encoding and decoding have to do with each other.
//!
//! A decoder reads its input as a number and follows it down through the alphabets'
//! shares; an encoder that is given the symbols so read follows the same shares, and
//! the bits it emits spell the input again.  Conversely a decoder that reads what an
//! encoder closed with reads the encoder's symbols, because the closing stream lies
//! inside the encoder's last interval.

use vstd::prelude::*;
use vstd::arithmetic::power2::{
    lemma2_to64, lemma_pow2_adds, lemma_pow2_pos, lemma_pow2_strictly_increases,
    lemma_pow2_unfold, pow2,
};
use crate::coder_lemmas::{
    lemma_bits_value_push, lemma_initial_encoder_wf, lemma_narrowed_wf, lemma_picked_wf,
    lemma_renormalised_range, lemma_renormalised_wf, lemma_scaled_fits, lemma_scaled_monotone,
    lemma_scaled_zero, lemma_selected_contains,
};
use crate::coder_model::{
    admits, bits_value, closing, contains_input, decoded_symbol, decoded_symbols,
    decoder_after, doublings, encodable, encodable_upto, encoded, encoder_after, filled,
    flush_rank, flush_step, flushed, initial_decoder, initial_encoder, inside, padded_bit,
    padded_value, picked, renormalised, scaled, selected, selects, settled, step_encodable,
    Alphabet, DecoderState, EncoderState,
};
use crate::framing::{framed, lemma_unframed_framed, unframed};
use crate::range_coder::{HALF, NORM};

verus! {

/// The first `m` bits spell a number below two to the power of `m`.
pub proof fn lemma_padded_value_bound(input: Seq<bool>, m: nat)
    ensures
        padded_value(input, m) < pow2(m),
    decreases m,
{
    if m == 0 {
        lemma2_to64();
    } else {
        lemma_padded_value_bound(input, (m - 1) as nat);
        lemma_pow2_unfold(m);
    }
}

/// Reading `k` bits further shifts the number by `k` places and adds what the `k`
/// bits spell.
pub proof fn lemma_padded_value_split(input: Seq<bool>, m: nat, k: nat) -> (r: nat)
    ensures
        r < pow2(k),
        padded_value(input, m + k) == padded_value(input, m) * pow2(k) + r,
    decreases k,
{
    if k == 0 {
        lemma2_to64();
        assert(padded_value(input, m) * 1 == padded_value(input, m)) by (nonlinear_arith);
        0
    } else {
        let r0 = lemma_padded_value_split(input, m, (k - 1) as nat);
        lemma_pow2_unfold(k);
        let p = pow2((k - 1) as nat);
        let v = padded_value(input, m);
        assert(v * (2 * p) == 2 * (v * p)) by (nonlinear_arith);
        assert(m + k - 1 == m + (k - 1) as nat);
        let bit = if padded_bit(input, m + k - 1) {
            1nat
        } else {
            0nat
        };
        2 * r0 + bit
    }
}

/// Within the input the padded number is the number that the bits spell.
pub proof fn lemma_padded_value_bits(input: Seq<bool>, j: nat)
    requires
        j <= input.len(),
    ensures
        padded_value(input, j) == bits_value(input.take(j as int)),
    decreases j,
{
    if j > 0 {
        lemma_padded_value_bits(input, (j - 1) as nat);
        assert(input.take(j as int).drop_last() == input.take(j - 1));
    }
}

/// Past the input the padded number is the input's number followed by a zero and
/// ones.
pub proof fn lemma_padding_value(input: Seq<bool>, t: nat)
    requires
        t >= 1,
    ensures
        padded_value(input, input.len() + t) == padded_value(input, input.len()) * pow2(t) + pow2(
            (t - 1) as nat,
        ) - 1,
    decreases t,
{
    lemma2_to64();
    let v = padded_value(input, input.len());
    if t == 1 {
        assert(input.len() + 1 - 1 == input.len());
        assert(v * 2 == 2 * v) by (nonlinear_arith);
    } else {
        lemma_padding_value(input, (t - 1) as nat);
        lemma_pow2_unfold(t);
        lemma_pow2_unfold((t - 1) as nat);
        let p = pow2((t - 1) as nat);
        assert(v * (2 * p) == 2 * (v * p)) by (nonlinear_arith);
        assert(input.len() + t - 1 == input.len() + (t - 1) as nat);
        assert(padded_bit(input, input.len() + t - 1));
    }
}

/// Two bit strings of one length that spell the same number are the same.
pub proof fn lemma_bits_value_injective(a: Seq<bool>, b: Seq<bool>)
    requires
        a.len() == b.len(),
        bits_value(a) == bits_value(b),
    ensures
        a == b,
    decreases a.len(),
{
    if a.len() > 0 {
        lemma_bits_value_injective(a.drop_last(), b.drop_last());
        assert(a == a.drop_last().push(a.last()));
        assert(b == b.drop_last().push(b.last()));
    } else {
        assert(a == b);
    }
}

/// The closing moves only append to the bits emitted.
pub proof fn lemma_closing_extends(s: EncoderState)
    ensures
        closing(s).len() >= s.bits.len(),
        closing(s).take(s.bits.len() as int) == s.bits,
    decreases flush_rank(s), 2 * NORM - s.range,
{
    if 0 < s.range <= NORM {
        let next = flush_step(s);
        lemma_closing_extends(next);
        assert(next.bits.take(s.bits.len() as int) == s.bits);
        assert(closing(s).take(s.bits.len() as int) == closing(next).take(
            next.bits.len() as int,
        ).take(s.bits.len() as int));
    } else {
        assert(s.bits.take(s.bits.len() as int) == s.bits);
    }
}

/// Closing a stream only appends to the bits emitted.
pub proof fn lemma_flushed_extends(s: EncoderState)
    ensures
        flushed(s).len() >= s.bits.len(),
        flushed(s).take(s.bits.len() as int) == s.bits,
{
    lemma_closing_extends(settled(s));
}

/// A decoder and an encoder are in step on a stream: their intervals have one width,
/// the decoder has read the encoder's bits and a window more, and the decoder's
/// position is how far the stream lies above the encoder's low end.
pub open spec fn in_step(d: DecoderState, e: EncoderState, stream: Seq<bool>) -> bool {
    &&& d.wf()
    &&& e.wf()
    &&& d.input == stream
    &&& d.range == e.range
    &&& d.pos == e.bits.len() + 32
    &&& e.floor() + d.low == padded_value(stream, d.pos)
}

/// Filling keeps a decoder in step with an encoder that doubles.
pub proof fn lemma_fill_in_step(d: DecoderState, e: EncoderState, stream: Seq<bool>)
    requires
        in_step(d, e, stream),
    ensures
        in_step(filled(d), renormalised(e), stream),
    decreases NORM - d.range,
{
    if 0 < d.range <= HALF {
        let bit = if padded_bit(d.input, d.pos as int) {
            1nat
        } else {
            0nat
        };
        let d1 = DecoderState { low: d.low * 2 + bit, range: d.range * 2, input: d.input, pos: d.pos + 1 };
        let e1 = EncoderState {
            low: ((e.low % (HALF as nat)) * 2) as nat,
            range: e.range * 2,
            bits: e.bits.push(e.low >= HALF),
        };
        lemma_bits_value_push(e.bits, e.low >= HALF);
        lemma_pow2_unfold(e1.bits.len());
        assert(e1.floor() == 2 * e.floor());
        assert(padded_value(stream, d1.pos) == 2 * padded_value(stream, d.pos) + bit);
        assert(in_step(d1, e1, stream));
        lemma_fill_in_step(d1, e1, stream);
    }
}

proof fn lemma_initial_fill_from(input: Seq<bool>, k: nat)
    requires
        k <= 32,
    ensures
        filled(
            DecoderState { low: padded_value(input, k), range: pow2(k), input, pos: k },
        ) == (DecoderState { low: padded_value(input, 32), range: NORM as nat, input, pos: 32 }),
    decreases 32 - k,
{
    lemma2_to64();
    if k < 32 {
        lemma_pow2_pos(k);
        if k < 31 {
            lemma_pow2_strictly_increases(k, 31);
        }
        lemma_pow2_unfold(k + 1);
        assert(k + 1 - 1 == k);
        lemma_initial_fill_from(input, k + 1);
    }
}

/// A fresh decoder's first fill reads a whole window.
pub proof fn lemma_initial_fill(input: Seq<bool>)
    ensures
        filled(initial_decoder(input)) == (DecoderState {
            low: padded_value(input, 32),
            range: NORM as nat,
            input,
            pos: 32,
        }),
        in_step(filled(initial_decoder(input)), initial_encoder(), input),
{
    lemma2_to64();
    lemma_initial_fill_from(input, 0);
    lemma_padded_value_bound(input, 32);
    lemma_initial_encoder_wf();
    assert(initial_encoder().bits.len() == 0);
    assert(bits_value(initial_encoder().bits) == 0);
}

proof fn lemma_find_selected(s: DecoderState, a: Alphabet, upto: int) -> (i: int)
    requires
        a.wf(),
        1 <= upto <= a.table.len(),
    ensures
        0 <= i < upto,
        scaled(s.range, a.table[i] as nat, a.denominator as nat) <= s.low,
        forall|j: int|
            i < j < upto ==> scaled(s.range, #[trigger] a.table[j] as nat, a.denominator as nat)
                > s.low,
    decreases upto,
{
    if upto == 1 {
        lemma_scaled_zero(s.range, a.denominator as nat);
        0
    } else if scaled(s.range, a.table[upto - 1] as nat, a.denominator as nat) <= s.low {
        upto - 1
    } else {
        lemma_find_selected(s, a, upto - 1)
    }
}

/// Under a well-formed alphabet a decoder selects a symbol, and only one.
pub proof fn lemma_selected_is_selected(s: DecoderState, a: Alphabet)
    requires
        a.wf(),
    ensures
        selects(s, a.table, a.denominator, selected(s, a)),
{
    let i = lemma_find_selected(s, a, a.table.len() as int);
    assert(selects(s, a.table, a.denominator, i));
}

/// The symbol that a decoder selects is the only one it selects.
pub proof fn lemma_selects_unique(s: DecoderState, a: Alphabet, i: int)
    requires
        selects(s, a.table, a.denominator, i),
    ensures
        selected(s, a) == i,
{
    let k = selected(s, a);
    assert(selects(s, a.table, a.denominator, k));
    if k < i {
        assert(scaled(s.range, a.table[i] as nat, a.denominator as nat) > s.low);
    }
    if i < k {
        assert(scaled(s.range, a.table[k] as nat, a.denominator as nat) > s.low);
    }
}

/// One step taken together: a decoder in step with an encoder picks a share that
/// contains its input, the encoder encodes the same share, and they are in step
/// again.
pub proof fn lemma_step_in_step(
    d: DecoderState,
    e: EncoderState,
    stream: Seq<bool>,
    lo: nat,
    hi: nat,
    denominator: nat,
)
    requires
        e.wf(),
        in_step(d, renormalised(e), stream),
        contains_input(d, lo, hi, denominator),
    ensures
        admits(e, lo, hi, denominator),
        encoded(e, lo, hi, denominator).wf(),
        in_step(picked(d, lo, hi, denominator), encoded(e, lo, hi, denominator), stream),
{
    lemma_renormalised_range(e);
    lemma_narrowed_wf(renormalised(e), lo, hi, denominator);
    lemma_picked_wf(d, lo, hi, denominator);
}

proof fn lemma_decode_step(input: Seq<bool>, alphabets: Seq<Alphabet>, m: nat)
    requires
        m < alphabets.len(),
        alphabets[m as int].wf(),
        encoder_after(alphabets, decoded_symbols(input, alphabets), m).wf(),
        in_step(
            filled(decoder_after(input, alphabets, m)),
            renormalised(encoder_after(alphabets, decoded_symbols(input, alphabets), m)),
            input,
        ),
    ensures
        ({
            let symbols = decoded_symbols(input, alphabets);
            let a = alphabets[m as int];
            let s = symbols[m as int];
            &&& 0 <= s < a.table.len()
            &&& admits(
                encoder_after(alphabets, symbols, m),
                a.low(s),
                a.high(s),
                a.denominator as nat,
            )
            &&& encoder_after(alphabets, symbols, m + 1).wf()
            &&& in_step(
                decoder_after(input, alphabets, m + 1),
                encoder_after(alphabets, symbols, m + 1),
                input,
            )
        }),
{
    let symbols = decoded_symbols(input, alphabets);
    let a = alphabets[m as int];
    let d = filled(decoder_after(input, alphabets, m));
    let e = encoder_after(alphabets, symbols, m);
    let s = selected(d, a);
    assert(symbols[m as int] == s);
    lemma_selected_is_selected(d, a);
    lemma_selected_contains(d, a.table, a.denominator, s);
    lemma_step_in_step(d, e, input, a.low(s), a.high(s), a.denominator as nat);
    assert(m + 1 - 1 == m);
    assert(decoder_after(input, alphabets, m + 1) == picked(
        d,
        a.low(s),
        a.high(s),
        a.denominator as nat,
    ));
    assert(encoder_after(alphabets, symbols, m + 1) == encoded(
        e,
        a.low(s),
        a.high(s),
        a.denominator as nat,
    ));
}

/// Decoding any input and encoding the symbols read keeps the two in step.
pub proof fn lemma_decode_in_step(input: Seq<bool>, alphabets: Seq<Alphabet>, n: nat)
    requires
        n <= alphabets.len(),
        forall|i: int| 0 <= i < alphabets.len() ==> (#[trigger] alphabets[i]).wf(),
    ensures
        encodable_upto(alphabets, decoded_symbols(input, alphabets), n),
        encoder_after(alphabets, decoded_symbols(input, alphabets), n).wf(),
        in_step(
            filled(decoder_after(input, alphabets, n)),
            renormalised(encoder_after(alphabets, decoded_symbols(input, alphabets), n)),
            input,
        ),
        n > 0 ==> in_step(
            decoder_after(input, alphabets, n),
            encoder_after(alphabets, decoded_symbols(input, alphabets), n),
            input,
        ),
    decreases n,
{
    let symbols = decoded_symbols(input, alphabets);
    if n == 0 {
        lemma_initial_fill(input);
        lemma_initial_encoder_wf();
        lemma_renormalised_range(initial_encoder());
    } else {
        let m = (n - 1) as nat;
        lemma_decode_in_step(input, alphabets, m);
        assert(alphabets[m as int].wf());
        lemma_decode_step(input, alphabets, m);
        lemma_fill_in_step(
            decoder_after(input, alphabets, n),
            encoder_after(alphabets, symbols, n),
            input,
        );
        assert(step_encodable(alphabets, symbols, m as int));
        assert forall|i: int| 0 <= i < n implies #[trigger] step_encodable(
            alphabets,
            symbols,
            i,
        ) by {
            if i < m {
                assert(step_encodable(alphabets, symbols, i));
            }
        }
    }
}

proof fn lemma_prefix_from_value(bits: Seq<bool>, input: Seq<bool>)
    requires
        bits.len() >= input.len() + 2,
        padded_value(input, bits.len()) - 1 <= bits_value(bits) <= padded_value(
            input,
            bits.len(),
        ) + 1,
    ensures
        bits.take(input.len() as int) == input,
{
    let n = input.len();
    let t = (bits.len() - n) as nat;
    let head = padded_value(input, n);
    lemma_padding_value(input, t);
    lemma_pow2_unfold(t);
    lemma_pow2_pos((t - 1) as nat);
    if t > 2 {
        lemma_pow2_strictly_increases(1, (t - 1) as nat);
    }
    lemma2_to64();
    assert(pow2((t - 1) as nat) >= 2);
    let r = lemma_padded_value_split(bits, n, t);
    lemma_padded_value_bits(bits, bits.len());
    assert(bits.take(bits.len() as int) == bits);
    lemma_padded_value_bits(bits, n);
    lemma_padded_value_bits(input, n);
    assert(input.take(n as int) == input);
    let mine = bits_value(bits.take(n as int));
    let p = pow2(t);
    assert(mine == head) by (nonlinear_arith)
        requires
            head * p + pow2((t - 1) as nat) - 2 <= mine * p + r <= head * p + pow2(
                (t - 1) as nat,
            ),
            r < p,
            p == 2 * pow2((t - 1) as nat),
            pow2((t - 1) as nat) >= 2,
    ;
    lemma_bits_value_injective(bits.take(n as int), input);
}

/// Decoding any input until the decoder is done, and encoding the symbols read,
/// gives the input back: the re-encoded stream starts with it.
pub proof fn theorem_decoded_bits_return(input: Seq<bool>, alphabets: Seq<Alphabet>)
    requires
        forall|i: int| 0 <= i < alphabets.len() ==> (#[trigger] alphabets[i]).wf(),
        decoder_after(input, alphabets, alphabets.len()).is_done(),
    ensures
        encodable(alphabets, decoded_symbols(input, alphabets)),
        flushed(
            encoder_after(alphabets, decoded_symbols(input, alphabets), alphabets.len()),
        ).len() >= input.len(),
        flushed(
            encoder_after(alphabets, decoded_symbols(input, alphabets), alphabets.len()),
        ).take(input.len() as int) == input,
{
    let n = alphabets.len();
    let symbols = decoded_symbols(input, alphabets);
    lemma_decode_in_step(input, alphabets, n);
    let d = decoder_after(input, alphabets, n);
    let e = encoder_after(alphabets, symbols, n);
    assert(n > 0);
    assert(in_step(d, e, input));
    let m = e.bits.len();
    let r = lemma_padded_value_split(input, m, 32);
    lemma2_to64();
    let v = bits_value(e.bits);
    let c = padded_value(input, m);
    assert(v * NORM + e.low + d.low == c * NORM + r);
    assert(v == c || v + 1 == c);
    lemma_prefix_from_value(e.bits, input);
    lemma_flushed_extends(e);
    assert(flushed(e).take(input.len() as int) == flushed(e).take(m as int).take(
        input.len() as int,
    ));
}

/// The interval of the later state lies inside that of the earlier, read to the
/// later state's precision.
pub open spec fn narrows(later: EncoderState, earlier: EncoderState) -> bool {
    &&& later.bits.len() >= earlier.bits.len()
    &&& earlier.floor() * pow2((later.bits.len() - earlier.bits.len()) as nat) <= later.floor()
    &&& later.floor() + later.range <= (earlier.floor() + earlier.range) * pow2(
        (later.bits.len() - earlier.bits.len()) as nat,
    )
}

/// Encoding a share leaves an interval inside the one before.
pub proof fn lemma_encoded_narrows(e: EncoderState, lo: nat, hi: nat, denominator: nat)
    requires
        e.wf(),
        admits(e, lo, hi, denominator),
    ensures
        narrows(encoded(e, lo, hi, denominator), e),
{
    lemma_renormalised_range(e);
    lemma_renormalised_wf(e);
    let r = renormalised(e);
    lemma_narrowed_wf(r, lo, hi, denominator);
    lemma_scaled_fits(r.range, hi, denominator);
    let p = pow2(doublings(e.range));
    assert((e.floor() + e.range) * p == e.floor() * p + e.range * p) by (nonlinear_arith);
}

/// An interval inside an interval inside a third lies inside the third.
pub proof fn lemma_narrows_transitive(a: EncoderState, b: EncoderState, c: EncoderState)
    requires
        narrows(a, b),
        narrows(b, c),
    ensures
        narrows(a, c),
{
    let late = (a.bits.len() - b.bits.len()) as nat;
    let early = (b.bits.len() - c.bits.len()) as nat;
    lemma_pow2_adds(early, late);
    let q = pow2(late);
    let p = pow2(early);
    let cf = c.floor();
    let ce = c.floor() + c.range;
    let bf = b.floor();
    let be = b.floor() + b.range;
    assert(cf * (p * q) <= bf * q && be * q <= ce * (p * q)) by (nonlinear_arith)
        requires
            cf * p <= bf,
            be <= ce * p,
            q >= 0,
    ;
}

/// Whatever an encoder encodes later, its interval stays inside the one it had.
pub proof fn lemma_encoder_after_narrows(
    alphabets: Seq<Alphabet>,
    symbols: Seq<int>,
    i: nat,
    j: nat,
)
    requires
        encodable(alphabets, symbols),
        i <= j <= symbols.len(),
    ensures
        narrows(encoder_after(alphabets, symbols, j), encoder_after(alphabets, symbols, i)),
    decreases j - i,
{
    let first = encoder_after(alphabets, symbols, i);
    if i == j {
        lemma2_to64();
        assert(first.floor() * 1 == first.floor()) by (nonlinear_arith);
        assert((first.floor() + first.range) * 1 == first.floor() + first.range)
            by (nonlinear_arith);
    } else {
        let m = (j - 1) as nat;
        lemma_encoder_after_narrows(alphabets, symbols, i, m);
        lemma_encoder_after_wf(alphabets, symbols, m, m);
        assert(step_encodable(alphabets, symbols, m as int));
        let a = alphabets[m as int];
        let before = encoder_after(alphabets, symbols, m);
        lemma_encoded_narrows(
            before,
            a.low(symbols[m as int]),
            a.high(symbols[m as int]),
            a.denominator as nat,
        );
        lemma_narrows_transitive(encoder_after(alphabets, symbols, j), before, first);
    }
}

/// The state of an encoder depends on the symbols it has encoded only.
pub proof fn lemma_encoder_after_agrees(
    alphabets: Seq<Alphabet>,
    first: Seq<int>,
    second: Seq<int>,
    n: nat,
)
    requires
        forall|i: int| 0 <= i < n ==> first[i] == second[i],
    ensures
        encoder_after(alphabets, first, n) == encoder_after(alphabets, second, n),
    decreases n,
{
    if n > 0 {
        lemma_encoder_after_agrees(alphabets, first, second, (n - 1) as nat);
    }
}

/// The bits that a later state has emitted start, up to a carry, with the bits of
/// the earlier state: the numbers they spell differ by one at most.
proof fn lemma_narrowed_prefix(later: EncoderState, earlier: EncoderState)
    requires
        later.wf(),
        earlier.wf(),
        narrows(later, earlier),
    ensures
        bits_value(earlier.bits) <= bits_value(later.bits.take(earlier.bits.len() as int))
            <= bits_value(earlier.bits) + 1,
{
    let m = earlier.bits.len();
    let k = (later.bits.len() - m) as nat;
    let p = pow2(k);
    lemma_pow2_pos(k);
    let r = lemma_padded_value_split(later.bits, m, k);
    lemma_padded_value_bits(later.bits, later.bits.len());
    assert(later.bits.take(later.bits.len() as int) == later.bits);
    lemma_padded_value_bits(later.bits, m);
    let x = bits_value(later.bits.take(m as int));
    let v = bits_value(earlier.bits);
    let norm = NORM as int;
    let ll = later.low as int;
    let el = earlier.low as int;
    let er = earlier.range as int;
    assert(v <= x <= v + 1) by (nonlinear_arith)
        requires
            (v * norm + el) * p <= (x * p + r) * norm + ll,
            (x * p + r) * norm + ll < (v * norm + el + er) * p,
            0 <= r < p,
            0 <= ll < norm,
            0 <= el < norm,
            0 < er <= norm,
            norm > 0,
            p > 0,
    ;
}

/// Decoding any input until the decoder is done, encoding the symbols read, and
/// encoding whatever else can be encoded after them, still gives the input back: the
/// stream starts with it.
pub proof fn theorem_decoded_bits_stay(
    input: Seq<bool>,
    alphabets: Seq<Alphabet>,
    symbols: Seq<int>,
    n: nat,
)
    requires
        n <= symbols.len(),
        encodable(alphabets, symbols),
        forall|i: int| 0 <= i < n ==> symbols[i] == decoded_symbol(input, alphabets, i),
        decoder_after(input, alphabets, n).is_done(),
    ensures
        flushed(encoder_after(alphabets, symbols, symbols.len())).len() >= input.len(),
        flushed(encoder_after(alphabets, symbols, symbols.len())).take(input.len() as int)
            == input,
{
    assert forall|i: int| 0 <= i < alphabets.len() implies (#[trigger] alphabets[i]).wf() by {
        assert(step_encodable(alphabets, symbols, i));
    }
    let read = decoded_symbols(input, alphabets);
    lemma_decode_in_step(input, alphabets, n);
    lemma_encoder_after_agrees(alphabets, read, symbols, n);
    let d = decoder_after(input, alphabets, n);
    let e = encoder_after(alphabets, symbols, n);
    let last = encoder_after(alphabets, symbols, symbols.len());
    assert(n > 0);
    assert(in_step(d, e, input));
    let m = e.bits.len();
    let r = lemma_padded_value_split(input, m, 32);
    lemma2_to64();
    let v = bits_value(e.bits);
    let c = padded_value(input, m);
    assert(v * NORM + e.low + d.low == c * NORM + r);
    assert(v == c || v + 1 == c);
    lemma_encoder_after_narrows(alphabets, symbols, n, symbols.len());
    lemma_encoder_after_wf(alphabets, symbols, n, symbols.len());
    lemma_narrowed_prefix(last, e);
    let head = last.bits.take(m as int);
    assert(padded_value(input, head.len()) == c);
    lemma_prefix_from_value(head, input);
    lemma_flushed_extends(last);
    assert(flushed(last).take(input.len() as int) == flushed(last).take(
        last.bits.len() as int,
    ).take(m as int).take(input.len() as int));
}

/// An encoder that can encode its symbols stays well formed, and its bits only grow.
pub proof fn lemma_encoder_after_wf(alphabets: Seq<Alphabet>, symbols: Seq<int>, i: nat, j: nat)
    requires
        encodable(alphabets, symbols),
        i <= j <= symbols.len(),
    ensures
        encoder_after(alphabets, symbols, j).wf(),
        encoder_after(alphabets, symbols, i).bits.len() <= encoder_after(
            alphabets,
            symbols,
            j,
        ).bits.len(),
    decreases j,
{
    if j == 0 {
        lemma_initial_encoder_wf();
    } else {
        let m = (j - 1) as nat;
        let a = alphabets[m as int];
        assert(step_encodable(alphabets, symbols, m as int));
        let e = encoder_after(alphabets, symbols, m);
        if i <= m {
            lemma_encoder_after_wf(alphabets, symbols, i, m);
        } else {
            lemma_encoder_after_wf(alphabets, symbols, m, m);
        }
        lemma_renormalised_range(e);
        lemma_renormalised_wf(e);
        lemma_narrowed_wf(
            renormalised(e),
            a.low(symbols[m as int]),
            a.high(symbols[m as int]),
            a.denominator as nat,
        );
    }
}

/// A stream inside a doubled interval is inside the interval before the doubling.
pub proof fn lemma_inside_renormalised(e: EncoderState, stream: Seq<bool>)
    requires
        e.wf(),
        inside(renormalised(e), stream),
    ensures
        inside(e, stream),
{
    lemma_renormalised_range(e);
    lemma_renormalised_wf(e);
    let k = doublings(e.range);
    let p = pow2(k);
    let r = lemma_padded_value_split(stream, e.bits.len() + 32, k);
    let c = padded_value(stream, e.bits.len() + 32);
    let big = padded_value(stream, renormalised(e).bits.len() + 32);
    assert(e.bits.len() + 32 + k == renormalised(e).bits.len() + 32);
    let f = e.floor();
    let w = e.range;
    assert(f <= c < f + w) by (nonlinear_arith)
        requires
            f * p <= c * p + r,
            c * p + r < f * p + w * p,
            r < p,
    ;
}

/// A stream inside the interval that encoding a share leaves is inside the interval
/// before, and lies in the share.
pub proof fn lemma_inside_encoded(e: EncoderState, lo: nat, hi: nat, denominator: nat, stream: Seq<bool>)
    requires
        e.wf(),
        admits(e, lo, hi, denominator),
        inside(encoded(e, lo, hi, denominator), stream),
    ensures
        inside(renormalised(e), stream),
        inside(e, stream),
{
    lemma_renormalised_range(e);
    lemma_renormalised_wf(e);
    lemma_narrowed_wf(renormalised(e), lo, hi, denominator);
    lemma_scaled_fits(renormalised(e).range, hi, denominator);
    lemma_inside_renormalised(e, stream);
}

proof fn lemma_inside_all(alphabets: Seq<Alphabet>, symbols: Seq<int>, stream: Seq<bool>, j: nat)
    requires
        encodable(alphabets, symbols),
        j <= symbols.len(),
        inside(encoder_after(alphabets, symbols, symbols.len()), stream),
    ensures
        inside(encoder_after(alphabets, symbols, j), stream),
    decreases symbols.len() - j,
{
    if j < symbols.len() {
        lemma_inside_all(alphabets, symbols, stream, j + 1);
        lemma_encoder_after_wf(alphabets, symbols, j, j);
        let a = alphabets[j as int];
        assert(step_encodable(alphabets, symbols, j as int));
        assert(j + 1 - 1 == j);
        lemma_inside_encoded(
            encoder_after(alphabets, symbols, j),
            a.low(symbols[j as int]),
            a.high(symbols[j as int]),
            a.denominator as nat,
            stream,
        );
    }
}

/// A decoder that reads a stream inside every interval of an encoder reads the
/// encoder's symbols and stays in step with it.
pub proof fn lemma_encode_in_step(
    alphabets: Seq<Alphabet>,
    symbols: Seq<int>,
    stream: Seq<bool>,
    n: nat,
)
    requires
        encodable(alphabets, symbols),
        n <= symbols.len(),
        inside(encoder_after(alphabets, symbols, symbols.len()), stream),
    ensures
        in_step(
            filled(decoder_after(stream, alphabets, n)),
            renormalised(encoder_after(alphabets, symbols, n)),
            stream,
        ),
        n > 0 ==> in_step(
            decoder_after(stream, alphabets, n),
            encoder_after(alphabets, symbols, n),
            stream,
        ),
        forall|i: int| 0 <= i < n ==> decoded_symbol(stream, alphabets, i) == symbols[i],
    decreases n,
{
    if n == 0 {
        lemma_initial_fill(stream);
        lemma_renormalised_range(initial_encoder());
    } else {
        let m = (n - 1) as nat;
        lemma_encode_in_step(alphabets, symbols, stream, m);
        let a = alphabets[m as int];
        assert(step_encodable(alphabets, symbols, m as int));
        let s = symbols[m as int];
        let d = filled(decoder_after(stream, alphabets, m));
        let e = encoder_after(alphabets, symbols, m);
        let e1 = renormalised(e);
        let e2 = encoder_after(alphabets, symbols, n);
        assert(e2 == encoded(e, a.low(s), a.high(s), a.denominator as nat));
        lemma_encoder_after_wf(alphabets, symbols, m, m);
        lemma_inside_all(alphabets, symbols, stream, n);
        lemma_renormalised_range(e);
        lemma_narrowed_wf(e1, a.low(s), a.high(s), a.denominator as nat);
        assert(contains_input(d, a.low(s), a.high(s), a.denominator as nat));
        assert(selects(d, a.table, a.denominator, s)) by {
            assert forall|j: int| s < j < a.table.len() implies scaled(
                d.range,
                #[trigger] a.table[j] as nat,
                a.denominator as nat,
            ) > d.low by {
                assert(a.table[s + 1] <= a.table[j]);
                lemma_scaled_monotone(
                    d.range,
                    a.table[s + 1] as nat,
                    a.table[j] as nat,
                    a.denominator as nat,
                );
            }
        }
        lemma_selects_unique(d, a, s);
        assert(decoded_symbol(stream, alphabets, m as int) == s);
        lemma_step_in_step(d, e, stream, a.low(s), a.high(s), a.denominator as nat);
        let d2 = decoder_after(stream, alphabets, n);
        assert(d2 == picked(d, a.low(s), a.high(s), a.denominator as nat));
        lemma_fill_in_step(d2, e2, stream);
    }
}

/// Encoding symbols, closing the stream and decoding it gives the symbols back, and
/// the decoder is not done before it has read them all.  This holds of every
/// sequence of symbols that can be encoded.
pub proof fn theorem_round_trip(alphabets: Seq<Alphabet>, symbols: Seq<int>)
    requires
        encodable(alphabets, symbols),
    ensures
        forall|i: int|
            0 <= i < symbols.len() ==> #[trigger] decoded_symbol(
                flushed(encoder_after(alphabets, symbols, symbols.len())),
                alphabets,
                i,
            ) == symbols[i],
        forall|i: int|
            0 <= i < symbols.len() ==> !(#[trigger] decoder_after(
                flushed(encoder_after(alphabets, symbols, symbols.len())),
                alphabets,
                i as nat,
            )).is_done(),
{
    let last = encoder_after(alphabets, symbols, symbols.len());
    let stream = flushed(last);
    lemma_encoder_after_wf(alphabets, symbols, symbols.len(), symbols.len());
    lemma_flush_inside(last);
    lemma_encode_in_step(alphabets, symbols, stream, symbols.len());
    lemma_flushed_extends(last);
    assert forall|i: int| 0 <= i < symbols.len() implies !(#[trigger] decoder_after(
        stream,
        alphabets,
        i as nat,
    )).is_done() by {
        if i > 0 {
            lemma_encode_in_step(alphabets, symbols, stream, i as nat);
            lemma_encoder_after_wf(alphabets, symbols, i as nat, symbols.len());
        }
    }
}

/// Decoding what an encoder closed with until the decoder is done, and encoding the
/// symbols read, gives a stream that starts with the encoder's.
pub proof fn theorem_reencode_stability(
    alphabets: Seq<Alphabet>,
    symbols: Seq<int>,
    reading: Seq<Alphabet>,
)
    requires
        forall|i: int| 0 <= i < reading.len() ==> (#[trigger] reading[i]).wf(),
        decoder_after(
            flushed(encoder_after(alphabets, symbols, symbols.len())),
            reading,
            reading.len(),
        ).is_done(),
    ensures
        ({
            let stream = flushed(encoder_after(alphabets, symbols, symbols.len()));
            let again = flushed(
                encoder_after(reading, decoded_symbols(stream, reading), reading.len()),
            );
            &&& encodable(reading, decoded_symbols(stream, reading))
            &&& again.len() >= stream.len()
            &&& again.take(stream.len() as int) == stream
        }),
{
    theorem_decoded_bits_return(
        flushed(encoder_after(alphabets, symbols, symbols.len())),
        reading,
    );
}

/// A payload that is framed, decoded to symbols until the decoder is done, and
/// encoded again from those symbols comes back: what is read from the re-encoded
/// stream is the payload.  The alphabets stand for the distributions of a model that
/// gives the same ones on both sides.
pub proof fn theorem_payload_returns(message: Seq<u8>, alphabets: Seq<Alphabet>)
    requires
        message.len() < 0x1_0000_0000,
        forall|i: int| 0 <= i < alphabets.len() ==> (#[trigger] alphabets[i]).wf(),
        decoder_after(framed(message), alphabets, alphabets.len()).is_done(),
    ensures
        encodable(alphabets, decoded_symbols(framed(message), alphabets)),
        unframed(
            flushed(
                encoder_after(
                    alphabets,
                    decoded_symbols(framed(message), alphabets),
                    alphabets.len(),
                ),
            ),
        ) == message,
{
    let input = framed(message);
    theorem_decoded_bits_return(input, alphabets);
    let again = flushed(
        encoder_after(alphabets, decoded_symbols(input, alphabets), alphabets.len()),
    );
    let rest = again.skip(input.len() as int);
    assert(again == again.take(input.len() as int) + rest);
    lemma_unframed_framed(message, rest);
}

/// An interval that starts at zero or ends at or below `NORM` is closed by moves
/// whose stream lies inside it.
pub proof fn lemma_closing_inside(s: EncoderState)
    requires
        s.low < NORM,
        0 < s.range <= 2 * NORM,
        s.low == 0 || s.low + s.range <= NORM,
    ensures
        inside(s, closing(s)),
    decreases flush_rank(s), 2 * NORM - s.range,
{
    lemma2_to64();
    let n = s.bits.len();
    if 0 < s.range <= NORM {
        let next = flush_step(s);
        lemma_closing_inside(next);
        let bit = next.bits.last();
        assert(next.bits == s.bits.push(bit));
        lemma_bits_value_push(s.bits, bit);
        let c = padded_value(closing(s), n + 32);
        let c1 = padded_value(closing(s), next.bits.len() + 32);
        assert(n + 1 + 32 - 1 == n + 32);
        assert(c1 == 2 * c + if padded_bit(closing(s), (n + 32) as int) {
            1nat
        } else {
            0nat
        });
        assert(2 * s.floor() <= next.floor());
        assert(next.floor() + next.range <= 2 * (s.floor() + s.range));
    } else {
        assert(closing(s) == s.bits);
        lemma_padding_value(s.bits, 32);
        lemma_padded_value_bits(s.bits, n);
        assert(s.bits.take(n as int) == s.bits);
    }
}

/// The stream that closes a state lies inside the state's interval once it is padded:
/// a decoder that has come as far as the encoder reads a number of the interval.
pub proof fn lemma_flush_inside(s: EncoderState)
    requires
        s.low < NORM,
        0 < s.range <= NORM,
    ensures
        inside(s, flushed(s)),
{
    lemma_closing_inside(settled(s));
}

} // verus!
