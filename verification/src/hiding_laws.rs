//! Hiding and recovery undo each other: a payload that is hidden step by step in the
//! tokens of a cover text is what recovery reads from those tokens, whenever both
//! sides are given the same distribution before every token.

use vstd::prelude::*;
use crate::coder_laws::{
    lemma_decode_in_step, lemma_encoder_after_agrees, lemma_selected_is_selected,
    theorem_decoded_bits_stay,
};
use crate::coder_lemmas::{lemma_filled_props, lemma_picked_wf, lemma_selected_contains};
use crate::coder_model::{
    decoded, decoded_symbol, decoded_symbols, decoder_after, encodable, encoder_after, filled,
    initial_decoder, initial_encoder, selected, step_encodable, Alphabet, DecoderState,
};
use crate::framing::{framed, lemma_unframed_framed, unframed};
use crate::prob_table::{alphabet_of, fits, lemma_alphabet_of, TokenShare};
use crate::steganography::{
    encodes_moves, lemma_position_from, move_fault, position_of, state_after, CodecError, Sampled,
};
use crate::stenography::{
    after_window, hides_token, is_best, lemma_windows_partition, window_data, window_end,
    window_fault, window_move, window_moves, window_of, window_place, window_start, window_token,
    ShapedStep,
};

verus! {

/// No token id stands twice in the distribution.
pub open spec fn distinct_ids(entries: Seq<TokenShare>) -> bool {
    forall|i: int, j: int| 0 <= i < j < entries.len() ==> entries[i].id != entries[j].id
}

/// Step `k` of a run of hiding: the decoder goes from the state before the step to
/// the state after it as a step of hiding makes it, and the step's token is the one
/// emitted.  The hiding context holds one token, the start of text, before the first
/// step.
pub open spec fn run_step(
    skip_start: usize,
    steps: Seq<ShapedStep>,
    scores: Seq<Seq<i64>>,
    greedy: Seq<i32>,
    states: Seq<DecoderState>,
    tokens: Seq<i32>,
    k: int,
) -> bool {
    exists|s: Sampled| #[trigger]
        hides_token(
            states[k],
            (k + 1) as usize,
            skip_start,
            greedy[k],
            steps[k].entries@,
            steps[k].kept as int,
            scores[k],
            Ok::<Sampled, CodecError>(s),
            states[k + 1],
        ) && tokens[k] == s.spec_token()
}

/// A run of hiding: the decoder starts on the input, and every step is a step of
/// hiding on a distribution without repeated ids.
pub open spec fn hiding_run(
    input: Seq<bool>,
    skip_start: usize,
    steps: Seq<ShapedStep>,
    scores: Seq<Seq<i64>>,
    greedy: Seq<i32>,
    states: Seq<DecoderState>,
    tokens: Seq<i32>,
) -> bool {
    &&& steps.len() < usize::MAX
    &&& states.len() == steps.len() + 1
    &&& scores.len() == steps.len()
    &&& greedy.len() == steps.len()
    &&& tokens.len() == steps.len()
    &&& states[0] == initial_decoder(input)
    &&& forall|k: int|
        0 <= k < steps.len() ==> #[trigger] run_step(
            skip_start,
            steps,
            scores,
            greedy,
            states,
            tokens,
            k,
        )
    &&& forall|k: int| 0 <= k < steps.len() ==> distinct_ids(#[trigger] steps[k].entries@)
}

/// In a distribution without repeated ids a token stands where it is found first.
pub proof fn lemma_position_distinct(entries: Seq<TokenShare>, token: i32, p: int)
    requires
        distinct_ids(entries),
        0 <= p < entries.len(),
        entries[p].id == token,
    ensures
        position_of(entries, token) == p,
{
    lemma_position_from(entries, token, 0);
    let found = position_of(entries, token);
    if found == -1 {
        assert(entries[p].id != token);
    }
}

/// A step that reads payload codes what recovery codes for its token: the token's
/// place in the window that was picked, under that window's alphabet.
pub proof fn lemma_coded_step(
    d: DecoderState,
    produced: usize,
    skip_start: usize,
    greedy: i32,
    entries: Seq<TokenShare>,
    kept: int,
    scores: Seq<i64>,
    s: Sampled,
    after: DecoderState,
)
    requires
        d.wf(),
        distinct_ids(entries),
        produced > skip_start,
        !d.is_done(),
        hides_token(
            d,
            produced,
            skip_start,
            greedy,
            entries,
            kept,
            scores,
            Ok::<Sampled, CodecError>(s),
            after,
        ),
    ensures
        ({
            let mv = window_move(entries, kept, s.spec_token());
            let a = alphabet_of(mv.data);
            &&& fits(mv.data)
            &&& a.wf()
            &&& 0 <= mv.symbol < a.table.len()
            &&& mv.symbol == selected(filled(d), a)
            &&& after == decoded(filled(d), a.table, a.denominator, mv.symbol)
            &&& after.wf()
        }),
{
    let f = filled(d);
    lemma_filled_props(d);
    let w = choose|w: int|
        {
            &&& #[trigger] is_best(f, entries, kept, scores, w)
            &&& s == Sampled::Coded(window_token(f, entries, kept, w))
            &&& after == after_window(f, entries, kept, w)
        };
    assert(is_best(f, entries, kept, scores, w));
    assert(window_fault(f, entries, kept, scores, w) is None);
    let data = window_data(entries, kept, w);
    let a = alphabet_of(data);
    lemma_alphabet_of(data);
    lemma_selected_is_selected(f, a);
    let place = window_place(f, entries, kept, w);
    assert(entries.len() > 0);
    lemma_windows_partition(entries, kept, 0);
    assert(0 <= window_start(entries, kept, w) < window_end(entries, kept, w) <= entries.len());
    let p = window_start(entries, kept, w) + place;
    assert(data[place] == entries[p]);
    lemma_position_distinct(entries, s.spec_token(), p);
    lemma_windows_partition(entries, kept, p);
    assert(window_of(entries, kept, p) == w);
    lemma_selected_contains(f, a.table, a.denominator, place);
    lemma_picked_wf(f, a.low(place), a.high(place), a.denominator as nat);
}

/// The alphabets that recovery codes under, from the first step that is not skipped.
pub open spec fn recovery_alphabets(steps: Seq<ShapedStep>, tokens: Seq<i32>, skip: int) -> Seq<
    Alphabet,
> {
    Seq::new(
        (steps.len() - skip) as nat,
        |j: int|
            alphabet_of(
                window_move(
                    steps[skip + j].entries@,
                    steps[skip + j].kept as int,
                    tokens[skip + j],
                ).data,
            ),
    )
}

/// The symbols that recovery codes, from the first step that is not skipped.
pub open spec fn recovery_symbols(steps: Seq<ShapedStep>, tokens: Seq<i32>, skip: int) -> Seq<int> {
    Seq::new(
        (steps.len() - skip) as nat,
        |j: int|
            window_move(
                steps[skip + j].entries@,
                steps[skip + j].kept as int,
                tokens[skip + j],
            ).symbol,
    )
}

/// What recovery codes at step `skip + i` can be coded: the window of the step's token
/// fits, and its alphabet is well formed.
pub open spec fn coded_well(steps: Seq<ShapedStep>, tokens: Seq<i32>, skip: int, i: int) -> bool {
    &&& recovery_alphabets(steps, tokens, skip)[i].wf()
    &&& fits(
        window_move(
            steps[skip + i].entries@,
            steps[skip + i].kept as int,
            tokens[skip + i],
        ).data,
    )
}

proof fn lemma_recovery_state(steps: Seq<ShapedStep>, tokens: Seq<i32>, skip_start: usize, k: nat)
    requires
        steps.len() == tokens.len(),
        k <= steps.len(),
        skip_start <= steps.len(),
    ensures
        k <= skip_start ==> state_after(window_moves(steps, tokens, skip_start), k)
            == initial_encoder(),
        k >= skip_start ==> state_after(window_moves(steps, tokens, skip_start), k)
            == encoder_after(
            recovery_alphabets(steps, tokens, skip_start as int),
            recovery_symbols(steps, tokens, skip_start as int),
            (k - skip_start) as nat,
        ),
    decreases k,
{
    if k > 0 {
        lemma_recovery_state(steps, tokens, skip_start, (k - 1) as nat);
        if k > skip_start {
            assert(k - 1 - skip_start == (k - skip_start) as nat - 1);
        }
    }
}

proof fn lemma_recovery_encodable(
    steps: Seq<ShapedStep>,
    tokens: Seq<i32>,
    skip_start: usize,
    j: int,
)
    requires
        steps.len() == tokens.len(),
        skip_start <= steps.len(),
        0 <= j < steps.len() - skip_start,
        move_fault(window_moves(steps, tokens, skip_start), skip_start + j) is None,
    ensures
        step_encodable(
            recovery_alphabets(steps, tokens, skip_start as int),
            recovery_symbols(steps, tokens, skip_start as int),
            j,
        ),
{
    let k = skip_start + j;
    let entries = steps[k].entries@;
    let kept = steps[k].kept as int;
    let mv = window_move(entries, kept, tokens[k]);
    lemma_recovery_state(steps, tokens, skip_start, k as nat);
    lemma_alphabet_of(mv.data);
    let p = position_of(entries, tokens[k]);
    lemma_position_from(entries, tokens[k], 0);
    lemma_windows_partition(entries, kept, p);
    let w = window_of(entries, kept, p);
    assert(window_start(entries, kept, w) <= p < window_end(entries, kept, w));
}

proof fn lemma_run_start(
    input: Seq<bool>,
    skip_start: usize,
    steps: Seq<ShapedStep>,
    scores: Seq<Seq<i64>>,
    greedy: Seq<i32>,
    states: Seq<DecoderState>,
    tokens: Seq<i32>,
    k: nat,
)
    requires
        hiding_run(input, skip_start, steps, scores, greedy, states, tokens),
        k <= steps.len(),
        k <= skip_start,
    ensures
        states[k as int] == initial_decoder(input),
    decreases k,
{
    if k > 0 {
        lemma_run_start(input, skip_start, steps, scores, greedy, states, tokens, (k - 1) as nat);
        assert(run_step(skip_start, steps, scores, greedy, states, tokens, k - 1));
    }
}

/// Up to the first step at which the decoder is done, the states of a run are those
/// of a decoder that reads the symbols that recovery codes.
proof fn lemma_run_decodes(
    input: Seq<bool>,
    skip_start: usize,
    steps: Seq<ShapedStep>,
    scores: Seq<Seq<i64>>,
    greedy: Seq<i32>,
    states: Seq<DecoderState>,
    tokens: Seq<i32>,
    j: nat,
)
    requires
        hiding_run(input, skip_start, steps, scores, greedy, states, tokens),
        skip_start + j <= steps.len(),
        forall|i: int| 0 <= i < j ==> !(#[trigger] states[skip_start + i]).is_done(),
    ensures
        states[skip_start + j] == decoder_after(
            input,
            recovery_alphabets(steps, tokens, skip_start as int),
            j,
        ),
        states[skip_start + j].wf(),
        forall|i: int|
            0 <= i < j ==> #[trigger] recovery_symbols(steps, tokens, skip_start as int)[i]
                == decoded_symbol(
                input,
                recovery_alphabets(steps, tokens, skip_start as int),
                i,
            ),
        forall|i: int| 0 <= i < j ==> #[trigger] coded_well(steps, tokens, skip_start as int, i),
    decreases j,
{
    let alphabets = recovery_alphabets(steps, tokens, skip_start as int);
    let symbols = recovery_symbols(steps, tokens, skip_start as int);
    if j == 0 {
        lemma_run_start(input, skip_start, steps, scores, greedy, states, tokens, skip_start as nat);
    } else {
        let m = (j - 1) as nat;
        lemma_run_decodes(input, skip_start, steps, scores, greedy, states, tokens, m);
        let k = skip_start + m;
        let d = states[k];
        assert(!states[skip_start + m].is_done());
        assert(run_step(skip_start, steps, scores, greedy, states, tokens, k));
        let s = choose|s: Sampled| #[trigger]
            hides_token(
                states[k],
                (k + 1) as usize,
                skip_start,
                greedy[k],
                steps[k].entries@,
                steps[k].kept as int,
                scores[k],
                Ok::<Sampled, CodecError>(s),
                states[k + 1],
            ) && tokens[k] == s.spec_token();
        assert(distinct_ids(steps[k].entries@));
        lemma_coded_step(
            d,
            (k + 1) as usize,
            skip_start,
            greedy[k],
            steps[k].entries@,
            steps[k].kept as int,
            scores[k],
            s,
            states[k + 1],
        );
        assert(symbols[m as int] == decoded_symbol(input, alphabets, m as int));
        assert(skip_start + j == k + 1);
        assert(coded_well(steps, tokens, skip_start as int, m as int)) by {
            assert(skip_start + m == k);
            assert(alphabets[m as int] == alphabet_of(
                window_move(steps[k].entries@, steps[k].kept as int, tokens[k]).data,
            ));
        }
        assert forall|i: int| 0 <= i < j implies #[trigger] coded_well(
            steps,
            tokens,
            skip_start as int,
            i,
        ) by {
            if i < m {
                assert(coded_well(steps, tokens, skip_start as int, i));
            }
        }
    }
}

/// Recovery does not fail on the tokens of a run of hiding in which no step found the
/// decoder done: every token is found in its window, and the encoder admits its
/// share.
pub proof fn theorem_recovery_succeeds(
    input: Seq<bool>,
    skip_start: usize,
    steps: Seq<ShapedStep>,
    scores: Seq<Seq<i64>>,
    greedy: Seq<i32>,
    states: Seq<DecoderState>,
    tokens: Seq<i32>,
)
    requires
        hiding_run(input, skip_start, steps, scores, greedy, states, tokens),
        forall|k: int| 0 <= k < steps.len() ==> !(#[trigger] states[k]).is_done(),
    ensures
        forall|k: int|
            0 <= k < steps.len() ==> #[trigger] move_fault(
                window_moves(steps, tokens, skip_start),
                k,
            ) is None,
{
    let n = steps.len();
    let moves = window_moves(steps, tokens, skip_start);
    if skip_start < n {
        let skip = skip_start as int;
        let alphabets = recovery_alphabets(steps, tokens, skip);
        let symbols = recovery_symbols(steps, tokens, skip);
        let count = (n - skip) as nat;
        lemma_run_decodes(input, skip_start, steps, scores, greedy, states, tokens, count);
        let read = decoded_symbols(input, alphabets);
        assert forall|i: int| 0 <= i < alphabets.len() implies (#[trigger] alphabets[i]).wf() by {
            assert(coded_well(steps, tokens, skip, i));
        }
        lemma_decode_in_step(input, alphabets, count);
        assert forall|k: int| skip <= k < n implies #[trigger] move_fault(moves, k) is None by {
            let j = k - skip;
            assert(step_encodable(alphabets, read, j));
            assert(symbols[j] == read[j]);
            lemma_encoder_after_agrees(alphabets, read, symbols, j as nat);
            lemma_recovery_state(steps, tokens, skip_start, k as nat);
            assert(coded_well(steps, tokens, skip, j));
        }
    }
}

/// In a run that ends with a decoder that is done there is a first step at which it
/// is done.
proof fn lemma_first_done(states: Seq<DecoderState>, skip: int, upto: int) -> (n: int)
    requires
        0 <= skip,
        0 <= upto,
        skip + upto < states.len(),
        states[skip + upto].is_done(),
    ensures
        0 <= n <= upto,
        states[skip + n].is_done(),
        forall|i: int| 0 <= i < n ==> !(#[trigger] states[skip + i]).is_done(),
    decreases upto,
{
    if upto > 0 && exists|i: int| 0 <= i < upto && (#[trigger] states[skip + i]).is_done() {
        let i = choose|i: int| 0 <= i < upto && (#[trigger] states[skip + i]).is_done();
        lemma_first_done(states, skip, i)
    } else {
        upto
    }
}

/// A payload that a run of hiding has read to the end is what recovery frames: where
/// recovery gives bits for the run's tokens and distributions, the payload is read
/// back from them.
pub proof fn theorem_hidden_payload_returns(
    message: Seq<u8>,
    skip_start: usize,
    steps: Seq<ShapedStep>,
    scores: Seq<Seq<i64>>,
    greedy: Seq<i32>,
    states: Seq<DecoderState>,
    tokens: Seq<i32>,
    bits: Vec<bool>,
)
    requires
        message.len() < 0x1_0000_0000,
        hiding_run(framed(message), skip_start, steps, scores, greedy, states, tokens),
        states[steps.len() as int].is_done(),
        encodes_moves(
            window_moves(steps, tokens, skip_start),
            Ok::<Vec<bool>, CodecError>(bits),
        ),
    ensures
        unframed(bits@) == message,
{
    let input = framed(message);
    let n = steps.len();
    let moves = window_moves(steps, tokens, skip_start);
    if skip_start > n {
        lemma_run_start(input, skip_start, steps, scores, greedy, states, tokens, n);
    } else {
        let skip = skip_start as int;
        let alphabets = recovery_alphabets(steps, tokens, skip);
        let symbols = recovery_symbols(steps, tokens, skip);
        let first = lemma_first_done(states, skip, n - skip);
        lemma_run_decodes(input, skip_start, steps, scores, greedy, states, tokens, first as nat);
        assert forall|j: int| 0 <= j < symbols.len() implies #[trigger] step_encodable(
            alphabets,
            symbols,
            j,
        ) by {
            assert(move_fault(moves, skip + j) is None);
            lemma_recovery_encodable(steps, tokens, skip_start, j);
        }
        assert(encodable(alphabets, symbols));
        theorem_decoded_bits_stay(input, alphabets, symbols, first as nat);
        lemma_recovery_state(steps, tokens, skip_start, n);
        let rest = bits@.skip(input.len() as int);
        assert(bits@ == bits@.take(input.len() as int) + rest);
        lemma_unframed_framed(message, rest);
    }
}

} // verus!
