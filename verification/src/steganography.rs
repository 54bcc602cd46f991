//! The rules that couple the coder to a model's distributions: which token a step
//! emits, and which symbols the emitted tokens give back.
//!
//! The model itself is not here.  A caller asks it for a distribution, hands that to
//! a function of this module, and does with the token what the answer says.

use vstd::prelude::*;
use crate::coder_laws::lemma_selects_unique;
use crate::coder_model::{
    admits, decoded, doublings, encoded, filled, flushed, initial_encoder, selected, DecoderState,
    EncoderState,
};
use crate::prob_table::{
    alphabet_of, fits, lemma_alphabet_of, table_fits, to_prob_table, TokenShare,
};
use crate::range_coder::{RangeDecoder, RangeEncoder};

verus! {

/// Why a step could not be taken.
#[derive(Clone, Copy, Debug, PartialEq, Eq, Structural)]
pub enum CodecError {
    /// A distribution, or a list of windows, has no token.
    EmptyDistribution,
    /// The widths of a distribution add up to more than the coder allows.
    TableTooWide,
    /// The token seen at this step is not in the step's distribution.
    TokenMissing { step: usize },
    /// The encoder's interval has no room left for the share of this step's token.
    IntervalExhausted { step: usize },
    /// A token that a window would emit has no score.
    TokenOutOfRange { token: i32 },
    /// The decoder's reading position cannot be counted further.
    InputTooLong,
    /// The tokens ran out before the payload did: so many bits were still to be read.
    PayloadLeft { bits: usize },
}

impl CodecError {
    /// The error in words.
    pub open spec fn spec_message(&self) -> Seq<char> {
        match self {
            CodecError::EmptyDistribution => "No windows"@,
            CodecError::TableTooWide => "The probability table is too wide"@,
            CodecError::TokenMissing { .. } => "Token was filtered out"@,
            CodecError::IntervalExhausted { .. } => "The coding interval is exhausted"@,
            CodecError::TokenOutOfRange { .. } => "A token has no score"@,
            CodecError::InputTooLong => "The input is too long"@,
            CodecError::PayloadLeft { .. } => "Could not encode entire message!"@,
        }
    }

    /// The error in words.
    pub fn message(&self) -> (text: &'static str)
        ensures
            text@ == self.spec_message(),
    {
        match self {
            CodecError::EmptyDistribution => "No windows",
            CodecError::TableTooWide => "The probability table is too wide",
            CodecError::TokenMissing { .. } => "Token was filtered out",
            CodecError::IntervalExhausted { .. } => "The coding interval is exhausted",
            CodecError::TokenOutOfRange { .. } => "A token has no score",
            CodecError::InputTooLong => "The input is too long",
            CodecError::PayloadLeft { .. } => "Could not encode entire message!",
        }
    }
}

/// What a generation step emits, and to which contexts the token goes.
#[derive(Clone, Copy, Debug, PartialEq, Eq, Structural)]
pub enum Sampled {
    /// A token that the payload chose.  It goes to every context.
    Coded(i32),
    /// The likeliest token, emitted where no payload is coded.  It goes to every
    /// context.
    Greedy(i32),
    /// The likeliest token, emitted after the payload has been read.  It goes to the
    /// main context only.
    Filler(i32),
    /// The end-of-stream token of a decoder that is done.  It goes to no context.
    End(i32),
}

impl Sampled {
    /// The token emitted.
    pub fn token(&self) -> (t: i32)
        ensures
            t == self.spec_token(),
    {
        match self {
            Sampled::Coded(t) => *t,
            Sampled::Greedy(t) => *t,
            Sampled::Filler(t) => *t,
            Sampled::End(t) => *t,
        }
    }

    /// The token emitted.
    pub open spec fn spec_token(&self) -> i32 {
        match self {
            Sampled::Coded(t) => *t,
            Sampled::Greedy(t) => *t,
            Sampled::Filler(t) => *t,
            Sampled::End(t) => *t,
        }
    }
}

/// The first place from `start` on where the token stands, or -1.
pub open spec fn position_from(data: Seq<TokenShare>, token: i32, start: int) -> int
    decreases data.len() - start,
{
    if start < 0 || start >= data.len() {
        -1
    } else if data[start].id == token {
        start
    } else {
        position_from(data, token, start + 1)
    }
}

/// The first place in a distribution where the token stands, or -1.
pub open spec fn position_of(data: Seq<TokenShare>, token: i32) -> int {
    position_from(data, token, 0)
}

/// The first place of a token is a place of the token, and none comes before it.
pub proof fn lemma_position_from(data: Seq<TokenShare>, token: i32, start: int)
    requires
        0 <= start,
    ensures
        position_from(data, token, start) == -1 || (start <= position_from(data, token, start)
            < data.len() && data[position_from(data, token, start)].id == token),
        forall|j: int|
            start <= j < data.len() && (j < position_from(data, token, start) || position_from(
                data,
                token,
                start,
            ) == -1) ==> (#[trigger] data[j]).id != token,
    decreases data.len() - start,
{
    if start < data.len() && data[start].id != token {
        lemma_position_from(data, token, start + 1);
    }
}

/// Finds the first place in a distribution where the token stands.
pub fn position(data: &[TokenShare], token: i32) -> (out: Option<usize>)
    ensures
        match out {
            Some(i) => position_of(data@, token) == i,
            None => position_of(data@, token) == -1,
        },
{
    let n = data.len();
    let mut i: usize = 0;
    while i < n
        invariant
            i <= n,
            n == data@.len(),
            position_of(data@, token) == position_from(data@, token, i as int),
        decreases n - i,
    {
        if data[i].id == token {
            return Some(i);
        }
        i = i + 1;
    }
    None
}

/// What is coded at one step: a distribution and the place of a token in it, -1
/// where the token is not there.
pub ghost struct Move {
    pub data: Seq<TokenShare>,
    pub symbol: int,
}

/// Why a state cannot code a symbol of a distribution, if it cannot.
pub open spec fn coding_fault(e: EncoderState, data: Seq<TokenShare>, symbol: int, step: usize) -> Option<
    CodecError,
> {
    let a = alphabet_of(data);
    if !fits(data) {
        Some(CodecError::TableTooWide)
    } else if !admits(e, a.low(symbol), a.high(symbol), a.denominator as nat) {
        Some(CodecError::IntervalExhausted { step })
    } else {
        None
    }
}

/// The state after coding a symbol of a distribution.
pub open spec fn coded(e: EncoderState, data: Seq<TokenShare>, symbol: int) -> EncoderState {
    let a = alphabet_of(data);
    encoded(e, a.low(symbol), a.high(symbol), a.denominator as nat)
}

/// The state of an encoder that has made the first `k` moves; a step without a move
/// leaves it as it is.
pub open spec fn state_after(moves: Seq<Option<Move>>, k: nat) -> EncoderState
    decreases k,
{
    if k == 0 {
        initial_encoder()
    } else {
        let before = state_after(moves, (k - 1) as nat);
        match moves[k - 1] {
            Some(m) => coded(before, m.data, m.symbol),
            None => before,
        }
    }
}

/// Why move `k` cannot be made after the moves before it, if it cannot.
pub open spec fn move_fault(moves: Seq<Option<Move>>, k: int) -> Option<CodecError> {
    match moves[k] {
        Some(m) => if m.symbol < 0 {
            Some(CodecError::TokenMissing { step: k as usize })
        } else {
            coding_fault(state_after(moves, k as nat), m.data, m.symbol, k as usize)
        },
        None => None,
    }
}

/// `out` is what encoding the moves gives: the closed stream where every move can be
/// made, and else the fault of the first move that cannot.
pub open spec fn encodes_moves(moves: Seq<Option<Move>>, out: Result<Vec<bool>, CodecError>) -> bool {
    match out {
        Ok(bits) => {
            &&& forall|k: int| 0 <= k < moves.len() ==> #[trigger] move_fault(moves, k) is None
            &&& bits@ == flushed(state_after(moves, moves.len()))
        },
        Err(e) => exists|k: int|
            {
                &&& 0 <= k < moves.len()
                &&& #[trigger] move_fault(moves, k) == Some(e)
                &&& forall|j: int| 0 <= j < k ==> #[trigger] move_fault(moves, j) is None
            },
    }
}

/// Codes one symbol of a distribution, if the encoder can.
pub fn encode_token(encoder: &mut RangeEncoder, data: &[TokenShare], symbol: usize, step: usize) -> (out:
    Result<(), CodecError>)
    requires
        old(encoder).wf(),
        symbol < data@.len(),
    ensures
        final(encoder).wf(),
        match out {
            Ok(()) => coding_fault(old(encoder)@, data@, symbol as int, step) is None && final(encoder)@ == coded(old(encoder)@, data@, symbol as int),
            Err(e) => coding_fault(old(encoder)@, data@, symbol as int, step) == Some(e) && final(encoder)@ == old(encoder)@,
        },
{
    if !table_fits(data) {
        return Err(CodecError::TableTooWide);
    }
    let (table, denominator) = to_prob_table(data);
    proof {
        lemma_alphabet_of(data@);
        assert(table@ == alphabet_of(data@).table);
    }
    let low = table[symbol];
    let high = if symbol < table.len() - 1 {
        table[symbol + 1]
    } else {
        denominator
    };
    if !encoder.accepts(low, high, denominator) {
        return Err(CodecError::IntervalExhausted { step });
    }
    encoder.encode(table.as_slice(), denominator, symbol);
    Ok(())
}

/// Why a decoder cannot read a token of a distribution, if it cannot.
pub open spec fn decode_fault(d: DecoderState, data: Seq<TokenShare>) -> Option<CodecError> {
    if data.len() == 0 {
        Some(CodecError::EmptyDistribution)
    } else if !fits(data) {
        Some(CodecError::TableTooWide)
    } else if d.pos + doublings(d.range) > usize::MAX {
        Some(CodecError::InputTooLong)
    } else {
        None
    }
}

/// The place in a distribution of the token that a decoder reads.
pub open spec fn decoded_place(d: DecoderState, data: Seq<TokenShare>) -> int {
    selected(filled(d), alphabet_of(data))
}

/// The state of a decoder that has read a token of a distribution.
pub open spec fn after_decode(d: DecoderState, data: Seq<TokenShare>) -> DecoderState {
    let a = alphabet_of(data);
    decoded(filled(d), a.table, a.denominator, decoded_place(d, data))
}

/// Reads one token of a distribution from the decoder's input, if the decoder can.
pub fn decode_token(decoder: &mut RangeDecoder, data: &[TokenShare]) -> (out: Result<i32, CodecError>)
    requires
        old(decoder).wf(),
    ensures
        final(decoder).wf(),
        match out {
            Ok(token) => {
                &&& decode_fault(old(decoder)@, data@) is None
                &&& 0 <= decoded_place(old(decoder)@, data@) < data@.len()
                &&& token == data@[decoded_place(old(decoder)@, data@)].id
                &&& final(decoder)@ == after_decode(old(decoder)@, data@)
            },
            Err(e) => decode_fault(old(decoder)@, data@) == Some(e) && final(decoder)@ == old(decoder)@,
        },
{
    if data.len() == 0 {
        return Err(CodecError::EmptyDistribution);
    }
    if !table_fits(data) {
        return Err(CodecError::TableTooWide);
    }
    if !decoder.has_room() {
        return Err(CodecError::InputTooLong);
    }
    let (table, denominator) = to_prob_table(data);
    proof {
        lemma_alphabet_of(data@);
        assert(table@ == alphabet_of(data@).table);
    }
    let symbol = decoder.decode(table.as_slice(), denominator);
    proof {
        lemma_selects_unique(filled(old(decoder)@), alphabet_of(data@), symbol as int);
    }
    Ok(data[symbol].id)
}

/// One step of decompression.  A decoder that is done ends the text; any other reads
/// the next token from the compressed bits under the model's distribution.
pub fn sample_decompress(decoder: &mut RangeDecoder, data: &[TokenShare], eos: i32) -> (out: Result<
    Sampled,
    CodecError,
>)
    requires
        old(decoder).wf(),
    ensures
        final(decoder).wf(),
        old(decoder)@.is_done() ==> out == Ok::<Sampled, CodecError>(Sampled::End(eos)) && final(decoder)@ == old(decoder)@,
        !old(decoder)@.is_done() ==> reads_token(old(decoder)@, data@, out, final(decoder)@),
{
    if decoder.is_done() {
        return Ok(Sampled::End(eos));
    }
    match decode_token(decoder, data) {
        Ok(token) => Ok(Sampled::Coded(token)),
        Err(e) => Err(e),
    }
}

/// `out` and `after` are what reading a token of the distribution makes of the
/// decoder `d`: the token that the input selects, or the fault that keeps the
/// decoder from reading.
pub open spec fn reads_token(
    d: DecoderState,
    data: Seq<TokenShare>,
    out: Result<Sampled, CodecError>,
    after: DecoderState,
) -> bool {
    match decode_fault(d, data) {
        Some(e) => out == Err::<Sampled, CodecError>(e) && after == d,
        None => {
            &&& 0 <= decoded_place(d, data) < data.len()
            &&& out == Ok::<Sampled, CodecError>(Sampled::Coded(data[decoded_place(d, data)].id))
            &&& after == after_decode(d, data)
        },
    }
}

/// The moves of compression: every token is coded under its step's distribution.
/// There are as many steps as the shorter of the two lists has entries.
pub open spec fn compress_moves(token_data: Seq<Vec<TokenShare>>, tokens: Seq<i32>) -> Seq<Option<Move>> {
    Seq::new(
        if token_data.len() <= tokens.len() {
            token_data.len()
        } else {
            tokens.len()
        },
        |k: int| Some(Move { data: token_data[k]@, symbol: position_of(token_data[k]@, tokens[k]) }),
    )
}

/// Compresses a text: codes each of its tokens under the distribution that the model
/// gave before the token, and closes the stream.
pub fn compress(token_data: &Vec<Vec<TokenShare>>, tokens: &[i32]) -> (out: Result<Vec<bool>, CodecError>)
    ensures
        encodes_moves(compress_moves(token_data@, tokens@), out),
{
    let n = if token_data.len() <= tokens.len() {
        token_data.len()
    } else {
        tokens.len()
    };
    let ghost moves = compress_moves(token_data@, tokens@);
    let mut encoder = RangeEncoder::new();
    let mut k: usize = 0;
    while k < n
        invariant
            k <= n,
            n == moves.len(),
            n <= token_data@.len(),
            n <= tokens@.len(),
            moves == compress_moves(token_data@, tokens@),
            encoder.wf(),
            encoder@ == state_after(moves, k as nat),
            forall|j: int| 0 <= j < k ==> #[trigger] move_fault(moves, j) is None,
        decreases n - k,
    {
        let data = token_data[k].as_slice();
        match position(data, tokens[k]) {
            None => {
                assert(move_fault(moves, k as int) == Some(CodecError::TokenMissing { step: k }));
                return Err(CodecError::TokenMissing { step: k });
            },
            Some(symbol) => {
                proof {
                    lemma_position_from(data@, tokens@[k as int], 0);
                }
                match encode_token(&mut encoder, data, symbol, k) {
                    Err(e) => {
                        assert(move_fault(moves, k as int) == Some(e));
                        return Err(e);
                    },
                    Ok(()) => {
                        assert(move_fault(moves, k as int) is None);
                    },
                }
            },
        }
        k = k + 1;
    }
    Ok(encoder.flush())
}

/// One step of hiding under the divergence gate.  Where the hiding context has
/// diverged from the auxiliary one the likeliest token is emitted and carries
/// nothing; elsewhere the payload chooses among the tokens left by the filter.
pub fn sample_steganography(
    decoder: &mut RangeDecoder,
    diverged: bool,
    greedy: i32,
    data: &[TokenShare],
) -> (out: Result<Sampled, CodecError>)
    requires
        old(decoder).wf(),
    ensures
        final(decoder).wf(),
        diverged ==> out == Ok::<Sampled, CodecError>(Sampled::Greedy(greedy)) && final(decoder)@
            == old(decoder)@,
        !diverged ==> reads_token(old(decoder)@, data@, out, final(decoder)@),
{
    if diverged {
        return Ok(Sampled::Greedy(greedy));
    }
    match decode_token(decoder, data) {
        Ok(token) => Ok(Sampled::Coded(token)),
        Err(e) => Err(e),
    }
}

/// One step of a cover text as the divergence gate sees it: whether the contexts had
/// diverged, and the filtered distribution of the hiding context.
pub struct GatedStep {
    pub diverged: bool,
    pub data: Vec<TokenShare>,
}

/// The moves of recovery under the divergence gate: a step where the contexts had
/// diverged codes nothing, any other codes its token.
pub open spec fn gated_moves(steps: Seq<GatedStep>, tokens: Seq<i32>) -> Seq<Option<Move>> {
    Seq::new(
        if steps.len() <= tokens.len() {
            steps.len()
        } else {
            tokens.len()
        },
        |k: int|
            if steps[k].diverged {
                None
            } else {
                Some(Move { data: steps[k].data@, symbol: position_of(steps[k].data@, tokens[k]) })
            },
    )
}

/// Recovers the hidden bits from a cover text under the divergence gate.
pub fn recover_message(steps: &Vec<GatedStep>, tokens: &[i32]) -> (out: Result<Vec<bool>, CodecError>)
    ensures
        encodes_moves(gated_moves(steps@, tokens@), out),
{
    let n = if steps.len() <= tokens.len() {
        steps.len()
    } else {
        tokens.len()
    };
    let ghost moves = gated_moves(steps@, tokens@);
    let mut encoder = RangeEncoder::new();
    let mut k: usize = 0;
    while k < n
        invariant
            k <= n,
            n == moves.len(),
            n <= steps@.len(),
            n <= tokens@.len(),
            moves == gated_moves(steps@, tokens@),
            encoder.wf(),
            encoder@ == state_after(moves, k as nat),
            forall|j: int| 0 <= j < k ==> #[trigger] move_fault(moves, j) is None,
        decreases n - k,
    {
        if !steps[k].diverged {
            let data = steps[k].data.as_slice();
            match position(data, tokens[k]) {
                None => {
                    assert(move_fault(moves, k as int) == Some(
                        CodecError::TokenMissing { step: k },
                    ));
                    return Err(CodecError::TokenMissing { step: k });
                },
                Some(symbol) => {
                    proof {
                        lemma_position_from(data@, tokens@[k as int], 0);
                    }
                    match encode_token(&mut encoder, data, symbol, k) {
                        Err(e) => {
                            assert(move_fault(moves, k as int) == Some(e));
                            return Err(e);
                        },
                        Ok(()) => {
                            assert(move_fault(moves, k as int) is None);
                        },
                    }
                },
            }
        } else {
            assert(move_fault(moves, k as int) is None);
        }
        k = k + 1;
    }
    Ok(encoder.flush())
}

/// Whether generation read the whole payload: a decoder that is not done reports how
/// many bits it had still to read.
pub fn check_consumed(decoder: &RangeDecoder) -> (out: Result<(), CodecError>)
    ensures
        decoder@.is_done() ==> out == Ok::<(), CodecError>(()),
        !decoder@.is_done() ==> out == Err::<(), CodecError>(
            CodecError::PayloadLeft { bits: decoder@.bits_left() as usize },
        ),
{
    if decoder.is_done() {
        Ok(())
    } else {
        Err(CodecError::PayloadLeft { bits: decoder.bits_left() })
    }
}

} // verus!
