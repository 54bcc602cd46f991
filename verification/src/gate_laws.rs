//! Hiding under the divergence gate and its recovery undo each other: the steps at
//! which the contexts have diverged carry nothing on either side, and the others
//! carry the payload.

use vstd::prelude::*;
use crate::coder_laws::{
    lemma_decode_in_step, lemma_selected_is_selected, theorem_decoded_bits_return,
};
use crate::coder_lemmas::{lemma_filled_props, lemma_picked_wf, lemma_selected_contains};
use crate::coder_model::{
    decoded, decoded_symbol, decoded_symbols, decoder_after, encoder_after, filled,
    initial_decoder, selected, step_encodable, Alphabet, DecoderState,
};
use crate::framing::{framed, lemma_unframed_framed, unframed};
use crate::hiding_laws::{distinct_ids, lemma_position_distinct};
use crate::prob_table::{alphabet_of, fits, lemma_alphabet_of, TokenShare};
use crate::steganography::{
    encodes_moves, gated_moves, move_fault, position_of, reads_token, state_after, CodecError,
    GatedStep, Move, Sampled,
};

verus! {

/// Step `k` of a gated run of hiding.  At a step where the contexts have
/// diverged the likeliest token is emitted and the decoder stays as it is; at any
/// other the decoder reads the token from the payload.
pub open spec fn gate_step(
    steps: Seq<GatedStep>,
    greedy: Seq<i32>,
    states: Seq<DecoderState>,
    tokens: Seq<i32>,
    k: int,
) -> bool {
    if steps[k].diverged {
        tokens[k] == greedy[k] && states[k + 1] == states[k]
    } else {
        reads_token(
            states[k],
            steps[k].data@,
            Ok::<Sampled, CodecError>(Sampled::Coded(tokens[k])),
            states[k + 1],
        )
    }
}

/// A gated run of hiding: the decoder starts on the input, and every step
/// is a step of hiding on a distribution without repeated ids.
pub open spec fn gate_run(
    input: Seq<bool>,
    steps: Seq<GatedStep>,
    greedy: Seq<i32>,
    states: Seq<DecoderState>,
    tokens: Seq<i32>,
) -> bool {
    &&& states.len() == steps.len() + 1
    &&& greedy.len() == steps.len()
    &&& tokens.len() == steps.len()
    &&& states[0] == initial_decoder(input)
    &&& forall|k: int| 0 <= k < steps.len() ==> #[trigger] gate_step(steps, greedy, states, tokens, k)
    &&& forall|k: int| 0 <= k < steps.len() ==> distinct_ids(#[trigger] steps[k].data@)
}

/// The alphabets of the moves made among the first `k` steps.
pub open spec fn made_alphabets(moves: Seq<Option<Move>>, k: nat) -> Seq<Alphabet>
    decreases k,
{
    if k == 0 {
        Seq::empty()
    } else {
        let before = made_alphabets(moves, (k - 1) as nat);
        match moves[k - 1] {
            Some(m) => before.push(alphabet_of(m.data)),
            None => before,
        }
    }
}

/// The symbols of the moves made among the first `k` steps.
pub open spec fn made_symbols(moves: Seq<Option<Move>>, k: nat) -> Seq<int>
    decreases k,
{
    if k == 0 {
        Seq::empty()
    } else {
        let before = made_symbols(moves, (k - 1) as nat);
        match moves[k - 1] {
            Some(m) => before.push(m.symbol),
            None => before,
        }
    }
}

/// The state of a decoder depends on the alphabets it has read under only.
pub proof fn lemma_decoder_after_prefix(
    input: Seq<bool>,
    first: Seq<Alphabet>,
    second: Seq<Alphabet>,
    n: nat,
)
    requires
        forall|i: int| 0 <= i < n ==> first[i] == second[i],
    ensures
        decoder_after(input, first, n) == decoder_after(input, second, n),
    decreases n,
{
    if n > 0 {
        lemma_decoder_after_prefix(input, first, second, (n - 1) as nat);
    }
}

/// The state of an encoder depends on the alphabets and symbols it has encoded only.
pub proof fn lemma_encoder_after_prefix(
    first: Seq<Alphabet>,
    symbols: Seq<int>,
    second: Seq<Alphabet>,
    others: Seq<int>,
    n: nat,
)
    requires
        forall|i: int| 0 <= i < n ==> first[i] == second[i] && symbols[i] == others[i],
    ensures
        encoder_after(first, symbols, n) == encoder_after(second, others, n),
    decreases n,
{
    if n > 0 {
        lemma_encoder_after_prefix(first, symbols, second, others, (n - 1) as nat);
    }
}

/// The encoder that has made the first `k` moves is the encoder that has encoded
/// the symbols of the moves made, one after the other.
pub proof fn lemma_state_of_moves(moves: Seq<Option<Move>>, k: nat)
    ensures
        made_alphabets(moves, k).len() == made_symbols(moves, k).len(),
        made_alphabets(moves, k).len() <= k,
        state_after(moves, k) == encoder_after(
            made_alphabets(moves, k),
            made_symbols(moves, k),
            made_symbols(moves, k).len(),
        ),
    decreases k,
{
    if k > 0 {
        lemma_state_of_moves(moves, (k - 1) as nat);
        let a = made_alphabets(moves, (k - 1) as nat);
        let s = made_symbols(moves, (k - 1) as nat);
        match moves[k - 1] {
            Some(m) => {
                let a2 = a.push(alphabet_of(m.data));
                let s2 = s.push(m.symbol);
                lemma_encoder_after_prefix(a2, s2, a, s, s.len());
                assert(s2.len() - 1 == s.len());
            },
            None => {},
        }
    }
}

/// A step that reads a token codes what recovery codes for it: the token's place in
/// the distribution.
pub proof fn lemma_gate_coded_step(
    d: DecoderState,
    data: Seq<TokenShare>,
    token: i32,
    after: DecoderState,
)
    requires
        d.wf(),
        distinct_ids(data),
        reads_token(d, data, Ok::<Sampled, CodecError>(Sampled::Coded(token)), after),
    ensures
        fits(data),
        alphabet_of(data).wf(),
        0 <= position_of(data, token) < alphabet_of(data).table.len(),
        position_of(data, token) == selected(filled(d), alphabet_of(data)),
        after == decoded(
            filled(d),
            alphabet_of(data).table,
            alphabet_of(data).denominator,
            position_of(data, token),
        ),
        after.wf(),
{
    let a = alphabet_of(data);
    let f = filled(d);
    lemma_filled_props(d);
    lemma_alphabet_of(data);
    lemma_selected_is_selected(f, a);
    let place = selected(f, a);
    lemma_position_distinct(data, token, place);
    lemma_selected_contains(f, a.table, a.denominator, place);
    lemma_picked_wf(f, a.low(place), a.high(place), a.denominator as nat);
}

/// The states of a run are those of a decoder that reads the symbols of the moves
/// that recovery makes.
proof fn lemma_gate_decodes(
    input: Seq<bool>,
    steps: Seq<GatedStep>,
    greedy: Seq<i32>,
    states: Seq<DecoderState>,
    tokens: Seq<i32>,
    k: nat,
)
    requires
        gate_run(input, steps, greedy, states, tokens),
        k <= steps.len(),
    ensures
        ({
            let moves = gated_moves(steps, tokens);
            let alphabets = made_alphabets(moves, k);
            let symbols = made_symbols(moves, k);
            &&& alphabets.len() == symbols.len()
            &&& states[k as int] == decoder_after(input, alphabets, alphabets.len())
            &&& states[k as int].wf()
            &&& symbols == decoded_symbols(input, alphabets)
            &&& forall|i: int| 0 <= i < alphabets.len() ==> (#[trigger] alphabets[i]).wf()
        }),
    decreases k,
{
    let moves = gated_moves(steps, tokens);
    let alphabets = made_alphabets(moves, k);
    let symbols = made_symbols(moves, k);
    if k == 0 {
        assert(symbols == decoded_symbols(input, alphabets));
    } else {
        let m = (k - 1) as nat;
        lemma_gate_decodes(input, steps, greedy, states, tokens, m);
        let before = made_alphabets(moves, m);
        let read = made_symbols(moves, m);
        assert(gate_step(steps, greedy, states, tokens, m as int));
        if !steps[m as int].diverged {
            let data = steps[m as int].data@;
            assert(distinct_ids(steps[m as int].data@));
            lemma_gate_coded_step(states[m as int], data, tokens[m as int], states[k as int]);
            let n = before.len();
            lemma_decoder_after_prefix(input, alphabets, before, n);
            assert(n + 1 - 1 == n);
            assert(alphabets[n as int] == alphabet_of(data));
            assert(states[k as int] == decoder_after(input, alphabets, n + 1));
            assert forall|i: int| 0 <= i < symbols.len() implies symbols[i] == decoded_symbol(
                input,
                alphabets,
                i,
            ) by {
                lemma_decoder_after_prefix(input, alphabets, before, i as nat);
                if i < n {
                    assert(read[i] == decoded_symbols(input, before)[i]);
                    assert(alphabets[i] == before[i]);
                }
            }
            assert(symbols == decoded_symbols(input, alphabets));
        }
    }
}

/// A payload that a gated run of hiding has read to the end is what
/// recovery frames.  Recovery does not fail on the tokens of such a run, and the
/// payload is read back from the bits it gives.
pub proof fn theorem_gated_payload_returns(
    message: Seq<u8>,
    steps: Seq<GatedStep>,
    greedy: Seq<i32>,
    states: Seq<DecoderState>,
    tokens: Seq<i32>,
    bits: Vec<bool>,
)
    requires
        message.len() < 0x1_0000_0000,
        gate_run(framed(message), steps, greedy, states, tokens),
        states[steps.len() as int].is_done(),
    ensures
        forall|k: int|
            0 <= k < steps.len() ==> #[trigger] move_fault(gated_moves(steps, tokens), k) is None,
        encodes_moves(gated_moves(steps, tokens), Ok::<Vec<bool>, CodecError>(bits)) ==> unframed(
            bits@,
        ) == message,
{
    let input = framed(message);
    let n = steps.len();
    let moves = gated_moves(steps, tokens);
    let alphabets = made_alphabets(moves, n);
    let symbols = made_symbols(moves, n);
    lemma_gate_decodes(input, steps, greedy, states, tokens, n);
    lemma_state_of_moves(moves, n);
    theorem_decoded_bits_return(input, alphabets);
    assert forall|k: int| 0 <= k < n implies #[trigger] move_fault(moves, k) is None by {
        if !steps[k].diverged {
            lemma_gate_decodes(input, steps, greedy, states, tokens, k as nat);
            lemma_gate_decodes(input, steps, greedy, states, tokens, (k + 1) as nat);
            lemma_state_of_moves(moves, k as nat);
            assert(gate_step(steps, greedy, states, tokens, k));
            assert(distinct_ids(steps[k].data@));
            lemma_gate_coded_step(states[k], steps[k].data@, tokens[k], states[k + 1]);
            let a = made_alphabets(moves, k as nat);
            let s = made_symbols(moves, k as nat);
            let a2 = made_alphabets(moves, (k + 1) as nat);
            let s2 = made_symbols(moves, (k + 1) as nat);
            assert(k + 1 - 1 == k);
            assert(a2 == a.push(alphabet_of(steps[k].data@)));
            assert(s2 == s.push(position_of(steps[k].data@, tokens[k])));
            lemma_decode_in_step(input, a2, a2.len());
            assert(step_encodable(a2, decoded_symbols(input, a2), a.len() as int));
            lemma_encoder_after_prefix(a2, s2, a, s, a.len());
        }
    }
    if encodes_moves(moves, Ok::<Vec<bool>, CodecError>(bits)) {
        let rest = bits@.skip(input.len() as int);
        assert(bits@ == bits@.take(input.len() as int) + rest);
        lemma_unframed_framed(message, rest);
    }
}

} // verus!
