//! Compression loses nothing: the tokens that were compressed are the tokens that
//! decompression reads, whenever both sides are given the same distribution before
//! every token.

use vstd::prelude::*;
use crate::coder_laws::{lemma_selected_is_selected, theorem_round_trip};
use crate::coder_lemmas::{
    lemma_doublings_bound, lemma_filled_props, lemma_picked_wf, lemma_selected_contains,
};
use crate::coder_model::{
    decoded_symbol, decoder_after, doublings, encodable, encoder_after, filled,
    flushed, selected, step_encodable, Alphabet, DecoderState,
};
use crate::prob_table::{alphabet_of, lemma_alphabet_of, TokenShare};
use crate::steganography::{
    after_decode, compress_moves, decode_fault, decoded_place, encodes_moves,
    lemma_position_from, move_fault, position_of, reads_token, state_after, CodecError, Sampled,
};

verus! {

/// The alphabets that compression codes under: one for every step.
pub open spec fn compress_alphabets(token_data: Seq<Vec<TokenShare>>, n: nat) -> Seq<Alphabet> {
    Seq::new(n, |k: int| alphabet_of(token_data[k]@))
}

/// The symbols that compression codes: every token's place in its distribution.
pub open spec fn compress_symbols(token_data: Seq<Vec<TokenShare>>, tokens: Seq<i32>, n: nat) -> Seq<
    int,
> {
    Seq::new(n, |k: int| position_of(token_data[k]@, tokens[k]))
}

/// The number of steps of compression: as many as the shorter list has entries.
pub open spec fn compress_steps(token_data: Seq<Vec<TokenShare>>, tokens: Seq<i32>) -> nat {
    if token_data.len() <= tokens.len() {
        token_data.len()
    } else {
        tokens.len()
    }
}

proof fn lemma_compress_state(token_data: Seq<Vec<TokenShare>>, tokens: Seq<i32>, k: nat)
    requires
        k <= compress_steps(token_data, tokens),
    ensures
        state_after(compress_moves(token_data, tokens), k) == encoder_after(
            compress_alphabets(token_data, compress_steps(token_data, tokens)),
            compress_symbols(token_data, tokens, compress_steps(token_data, tokens)),
            k,
        ),
    decreases k,
{
    if k > 0 {
        lemma_compress_state(token_data, tokens, (k - 1) as nat);
    }
}

/// Compression that gives bits has coded every token under a well-formed alphabet.
pub proof fn lemma_compress_encodable(token_data: Seq<Vec<TokenShare>>, tokens: Seq<i32>)
    requires
        forall|k: int|
            0 <= k < compress_steps(token_data, tokens) ==> #[trigger] move_fault(
                compress_moves(token_data, tokens),
                k,
            ) is None,
    ensures
        encodable(
            compress_alphabets(token_data, compress_steps(token_data, tokens)),
            compress_symbols(token_data, tokens, compress_steps(token_data, tokens)),
        ),
{
    let n = compress_steps(token_data, tokens);
    let alphabets = compress_alphabets(token_data, n);
    let symbols = compress_symbols(token_data, tokens, n);
    let moves = compress_moves(token_data, tokens);
    assert forall|k: int| 0 <= k < n implies #[trigger] step_encodable(alphabets, symbols, k) by {
        assert(move_fault(moves, k) is None);
        lemma_compress_state(token_data, tokens, k as nat);
        lemma_alphabet_of(token_data[k]@);
        lemma_position_from(token_data[k]@, tokens[k], 0);
    }
}

/// Step `k` of decompression reads token `k`: the decoder that has read the tokens
/// before it is well formed and not done, and a step on the distribution of step `k`
/// emits the token and leaves the decoder that has read it.
pub open spec fn reads_back(
    token_data: Seq<Vec<TokenShare>>,
    tokens: Seq<i32>,
    bits: Seq<bool>,
    k: int,
) -> bool {
    let alphabets = compress_alphabets(token_data, compress_steps(token_data, tokens));
    let before = decoder_after(bits, alphabets, k as nat);
    &&& before.wf()
    &&& !before.is_done()
    &&& reads_token(
        before,
        token_data[k]@,
        Ok::<Sampled, CodecError>(Sampled::Coded(tokens[k])),
        decoder_after(bits, alphabets, (k + 1) as nat),
    )
}

/// Decompression reads back the tokens that were compressed.  Where compression
/// gives bits, a decoder on those bits that is given the distributions of compression
/// is not done before any of the tokens, and its step reads each token in its turn.
pub proof fn theorem_compressed_tokens_return(
    token_data: Seq<Vec<TokenShare>>,
    tokens: Seq<i32>,
    bits: Vec<bool>,
)
    requires
        encodes_moves(compress_moves(token_data, tokens), Ok::<Vec<bool>, CodecError>(bits)),
        bits@.len() + 66 <= usize::MAX,
    ensures
        forall|k: int|
            0 <= k < compress_steps(token_data, tokens) ==> #[trigger] reads_back(
                token_data,
                tokens,
                bits@,
                k,
            ),
{
    let n = compress_steps(token_data, tokens);
    let alphabets = compress_alphabets(token_data, n);
    let symbols = compress_symbols(token_data, tokens, n);
    let moves = compress_moves(token_data, tokens);
    lemma_compress_encodable(token_data, tokens);
    lemma_compress_state(token_data, tokens, n);
    let last = encoder_after(alphabets, symbols, n);
    assert(bits@ == flushed(last));
    theorem_round_trip(alphabets, symbols);
    assert forall|k: int| 0 <= k < n implies #[trigger] reads_back(token_data, tokens, bits@, k) by {
        let before = decoder_after(bits@, alphabets, k as nat);
        let data = token_data[k]@;
        lemma_decoder_after_wf(bits@, alphabets, symbols, k as nat);
        assert(move_fault(moves, k) is None);
        assert(step_encodable(alphabets, symbols, k));
        assert(decoded_symbol(bits@, alphabets, k) == symbols[k]);
        assert(!before.is_done());
        lemma_alphabet_of(data);
        lemma_position_from(data, tokens[k], 0);
        lemma_filled_props(before);
        lemma_doublings_small(before);
        assert(alphabets[k] == alphabet_of(data));
        assert(decoded_place(before, data) == symbols[k]);
        assert(symbols[k] == position_of(data, tokens[k]));
        assert(decode_fault(before, data) is None);
        assert(k + 1 - 1 == k);
        assert(decoder_after(bits@, alphabets, (k + 1) as nat) == after_decode(before, data));
    }
}

/// A width that is not zero is doubled at most 32 times before it is read.
proof fn lemma_doublings_small(d: DecoderState)
    requires
        d.wf(),
    ensures
        doublings(d.range) <= 32,
{
    lemma_doublings_bound(d.range);
}

/// A decoder that reads the symbols of well-formed alphabets stays well formed.
proof fn lemma_decoder_after_wf(
    input: Seq<bool>,
    alphabets: Seq<Alphabet>,
    symbols: Seq<int>,
    k: nat,
)
    requires
        encodable(alphabets, symbols),
        k <= symbols.len(),
    ensures
        decoder_after(input, alphabets, k).wf(),
        decoder_after(input, alphabets, k).input == input,
    decreases k,
{
    if k > 0 {
        let m = (k - 1) as nat;
        lemma_decoder_after_wf(input, alphabets, symbols, m);
        assert(step_encodable(alphabets, symbols, m as int));
        let a = alphabets[m as int];
        let f = filled(decoder_after(input, alphabets, m));
        lemma_filled_props(decoder_after(input, alphabets, m));
        lemma_selected_is_selected(f, a);
        let s = selected(f, a);
        lemma_selected_contains(f, a.table, a.denominator, s);
        lemma_picked_wf(f, a.low(s), a.high(s), a.denominator as nat);
    }
}

} // verus!
