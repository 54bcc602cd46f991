//! Hiding by coding windows: the sorted distribution of a step is cut into windows,
//! each an alphabet of its own.  The main context picks the window whose token it
//! likes best; the payload picks the token inside the window.

use vstd::prelude::*;
use vstd::slice::{slice_subrange, slice_to_vec};
use crate::coder_laws::lemma_selects_unique;
use crate::coder_lemmas::lemma_filled_props;
use crate::coder_model::{decoded, doublings, filled, selected, DecoderState};
use crate::prob_table::{alphabet_of, fits, lemma_alphabet_of, table_fits, to_prob_table, TokenShare};
use crate::range_coder::{RangeDecoder, RangeEncoder};
use crate::steganography::{
    encode_token, encodes_moves, lemma_position_from, move_fault, position, position_of,
    state_after, CodecError, Move, Sampled,
};

verus! {

/// The distribution of one step, shaped: its tokens from the likeliest down, and the
/// number of tokens that the filters kept.  The shares of the tokens of a window are
/// shares of that window.
pub struct ShapedStep {
    pub entries: Vec<TokenShare>,
    pub kept: usize,
}

/// The id at which the first window breaks off: that of the first token that was not
/// kept, and -1 where all were kept.
pub open spec fn break_target(entries: Seq<TokenShare>, kept: int) -> i32 {
    if 0 <= kept < entries.len() {
        entries[kept].id
    } else {
        -1i32
    }
}

/// The first place from `b` on, and after the first token, that holds the id.
pub open spec fn first_break(entries: Seq<TokenShare>, target: i32, b: int) -> int
    decreases entries.len() - b,
{
    if b >= entries.len() {
        entries.len() as int
    } else if b >= 1 && entries[b].id == target {
        b
    } else {
        first_break(entries, target, b + 1)
    }
}

/// Where the first window ends.  With ids that differ it ends after the tokens kept.
pub open spec fn first_end(entries: Seq<TokenShare>, kept: int) -> int {
    first_break(entries, break_target(entries, kept), 1)
}

/// The number of windows: the first, and one for every token after it.
pub open spec fn window_count(entries: Seq<TokenShare>, kept: int) -> int {
    if entries.len() == 0 {
        0
    } else {
        1 + entries.len() - first_end(entries, kept)
    }
}

/// Where window `w` starts.
pub open spec fn window_start(entries: Seq<TokenShare>, kept: int, w: int) -> int {
    if w == 0 {
        0
    } else {
        first_end(entries, kept) + w - 1
    }
}

/// Where window `w` ends.
pub open spec fn window_end(entries: Seq<TokenShare>, kept: int, w: int) -> int {
    first_end(entries, kept) + w
}

/// The tokens of window `w`.
pub open spec fn window_data(entries: Seq<TokenShare>, kept: int, w: int) -> Seq<TokenShare> {
    entries.subrange(window_start(entries, kept, w), window_end(entries, kept, w))
}

/// The window that holds place `i`.
pub open spec fn window_of(entries: Seq<TokenShare>, kept: int, i: int) -> int {
    if i < first_end(entries, kept) {
        0
    } else {
        i - first_end(entries, kept) + 1
    }
}

/// A break is found at or after the place the search starts from, and within the
/// distribution.
pub proof fn lemma_first_break(entries: Seq<TokenShare>, target: i32, b: int)
    requires
        1 <= b,
    ensures
        first_break(entries, target, b) <= entries.len(),
        b <= entries.len() ==> b <= first_break(entries, target, b),
        forall|k: int|
            b <= k < entries.len() && (#[trigger] entries[k]).id == target ==> first_break(
                entries,
                target,
                b,
            ) <= k,
    decreases entries.len() - b,
{
    if b < entries.len() && entries[b].id != target {
        lemma_first_break(entries, target, b + 1);
    }
}

/// The windows are disjoint and cover the distribution: every place lies in its
/// window and in no other.
pub proof fn lemma_windows_partition(entries: Seq<TokenShare>, kept: int, i: int)
    requires
        0 <= i < entries.len(),
    ensures
        0 <= window_of(entries, kept, i) < window_count(entries, kept),
        forall|w: int|
            0 <= w < window_count(entries, kept) ==> ((#[trigger] window_start(entries, kept, w)
                <= i < window_end(entries, kept, w)) <==> w == window_of(entries, kept, i)),
        forall|w: int|
            0 <= w < window_count(entries, kept) ==> 0 <= #[trigger] window_start(entries, kept, w)
                < window_end(entries, kept, w) <= entries.len(),
        1 <= kept < entries.len() ==> first_end(entries, kept) <= kept,
{
    lemma_first_break(entries, break_target(entries, kept), 1);
}

/// Finds where the first window ends.
pub fn first_window_end(entries: &[TokenShare], kept: usize) -> (fe: usize)
    ensures
        fe == first_end(entries@, kept as int),
        fe <= entries@.len(),
        entries@.len() > 0 ==> fe >= 1,
{
    let n = entries.len();
    let target: i32 = if kept < n {
        entries[kept].id
    } else {
        -1
    };
    proof {
        lemma_first_break(entries@, target, 1);
    }
    let mut b: usize = 1;
    while b < n
        invariant
            1 <= b,
            n == entries@.len(),
            target == break_target(entries@, kept as int),
            first_break(entries@, target, 1) == first_break(entries@, target, b as int),
        decreases n - b,
    {
        if entries[b].id == target {
            assert(first_break(entries@, target, b as int) == b);
            return b;
        }
        b = b + 1;
    }
    n
}

/// Cuts a shaped distribution into its windows, each given by where it starts and
/// where it ends.
pub fn coding_windows(entries: &[TokenShare], kept: usize) -> (out: Vec<(usize, usize)>)
    ensures
        out@.len() == window_count(entries@, kept as int),
        forall|w: int|
            0 <= w < out@.len() ==> (#[trigger] out@[w]).0 == window_start(
                entries@,
                kept as int,
                w,
            ) && out@[w].1 == window_end(entries@, kept as int, w),
{
    let n = entries.len();
    let mut out: Vec<(usize, usize)> = Vec::new();
    if n == 0 {
        return out;
    }
    let fe = first_window_end(entries, kept);
    out.push((0, fe));
    let mut i: usize = fe;
    while i < n
        invariant
            1 <= fe <= i <= n,
            n == entries@.len(),
            fe == first_end(entries@, kept as int),
            out@.len() == 1 + i - fe,
            forall|w: int|
                0 <= w < out@.len() ==> (#[trigger] out@[w]).0 == window_start(
                    entries@,
                    kept as int,
                    w,
                ) && out@[w].1 == window_end(entries@, kept as int, w),
        decreases n - i,
    {
        out.push((i, i + 1));
        i = i + 1;
    }
    out
}

/// The place in window `w` of the token that the decoder's input selects there.
pub open spec fn window_place(f: DecoderState, entries: Seq<TokenShare>, kept: int, w: int) -> int {
    selected(f, alphabet_of(window_data(entries, kept, w)))
}

/// The token that the decoder's input selects in window `w`.
pub open spec fn window_token(f: DecoderState, entries: Seq<TokenShare>, kept: int, w: int) -> i32 {
    window_data(entries, kept, w)[window_place(f, entries, kept, w)].id
}

/// Why window `w` cannot be weighed, if it cannot: its table does not fit, or its
/// token has no score.
pub open spec fn window_fault(
    f: DecoderState,
    entries: Seq<TokenShare>,
    kept: int,
    scores: Seq<i64>,
    w: int,
) -> Option<CodecError> {
    if !fits(window_data(entries, kept, w)) {
        Some(CodecError::TableTooWide)
    } else if !(0 <= window_token(f, entries, kept, w) < scores.len()) {
        Some(CodecError::TokenOutOfRange { token: window_token(f, entries, kept, w) })
    } else {
        None
    }
}

/// The score that the main context gives the token of window `w`.
pub open spec fn window_score(
    f: DecoderState,
    entries: Seq<TokenShare>,
    kept: int,
    scores: Seq<i64>,
    w: int,
) -> i64 {
    scores[window_token(f, entries, kept, w) as int]
}

/// Window `w` is the one picked: no window scores higher, and none after it scores
/// as high.
pub open spec fn is_best(
    f: DecoderState,
    entries: Seq<TokenShare>,
    kept: int,
    scores: Seq<i64>,
    w: int,
) -> bool {
    &&& 0 <= w < window_count(entries, kept)
    &&& forall|j: int|
        0 <= j < window_count(entries, kept) ==> #[trigger] window_score(
            f,
            entries,
            kept,
            scores,
            j,
        ) <= window_score(f, entries, kept, scores, w)
    &&& forall|j: int|
        w < j < window_count(entries, kept) ==> #[trigger] window_score(
            f,
            entries,
            kept,
            scores,
            j,
        ) < window_score(f, entries, kept, scores, w)
}

/// The state of a decoder that has read the token of window `w`.
pub open spec fn after_window(f: DecoderState, entries: Seq<TokenShare>, kept: int, w: int) -> DecoderState {
    let a = alphabet_of(window_data(entries, kept, w));
    decoded(f, a.table, a.denominator, window_place(f, entries, kept, w))
}

/// `out` and `after` are what a step of hiding makes of the decoder `d`.  Before the
/// payload starts and after it has been read the likeliest token is emitted.  In
/// between the token of the best window is, unless a window cannot be weighed: then
/// the fault of the first such window comes back.
pub open spec fn hides_token(
    d: DecoderState,
    produced: usize,
    skip_start: usize,
    greedy: i32,
    entries: Seq<TokenShare>,
    kept: int,
    scores: Seq<i64>,
    out: Result<Sampled, CodecError>,
    after: DecoderState,
) -> bool {
    let f = filled(d);
    if produced <= skip_start {
        out == Ok::<Sampled, CodecError>(Sampled::Greedy(greedy)) && after == d
    } else if d.is_done() {
        out == Ok::<Sampled, CodecError>(Sampled::Filler(greedy)) && after == d
    } else if d.pos + doublings(d.range) > usize::MAX {
        out == Err::<Sampled, CodecError>(CodecError::InputTooLong) && after == d
    } else if window_count(entries, kept) == 0 {
        out == Err::<Sampled, CodecError>(CodecError::EmptyDistribution) && after == d
    } else {
        match out {
            Ok(s) => {
                &&& forall|w: int|
                    0 <= w < window_count(entries, kept) ==> #[trigger] window_fault(
                        f,
                        entries,
                        kept,
                        scores,
                        w,
                    ) is None
                &&& exists|w: int|
                    {
                        &&& #[trigger] is_best(f, entries, kept, scores, w)
                        &&& s == Sampled::Coded(window_token(f, entries, kept, w))
                        &&& after == after_window(f, entries, kept, w)
                    }
            },
            Err(e) => {
                &&& after == d || after == f
                &&& exists|w: int|
                    {
                        &&& 0 <= w < window_count(entries, kept)
                        &&& #[trigger] window_fault(f, entries, kept, scores, w) == Some(e)
                        &&& forall|j: int|
                            0 <= j < w ==> #[trigger] window_fault(f, entries, kept, scores, j)
                                is None
                    }
            },
        }
    }
}

/// One step of hiding.  `produced` is the number of tokens that the hiding context
/// holds, `greedy` the likeliest token of the main context, `step` the shaped
/// distribution of the hiding context, and `scores` the main context's score of every
/// token id.
pub fn sample_stenography(
    decoder: &mut RangeDecoder,
    produced: usize,
    skip_start: usize,
    greedy: i32,
    step: &ShapedStep,
    scores: &[i64],
) -> (out: Result<Sampled, CodecError>)
    requires
        old(decoder).wf(),
    ensures
        final(decoder).wf(),
        hides_token(
            old(decoder)@,
            produced,
            skip_start,
            greedy,
            step.entries@,
            step.kept as int,
            scores@,
            out,
            final(decoder)@,
        ),
{
    if produced <= skip_start {
        return Ok(Sampled::Greedy(greedy));
    }
    if decoder.is_done() {
        return Ok(Sampled::Filler(greedy));
    }
    if !decoder.has_room() {
        return Err(CodecError::InputTooLong);
    }
    let entries = step.entries.as_slice();
    let kept = step.kept;
    let windows = coding_windows(entries, kept);
    let count = windows.len();
    if count == 0 {
        return Err(CodecError::EmptyDistribution);
    }
    let ghost d = decoder@;
    let ghost f = filled(d);
    proof {
        lemma_filled_props(d);
    }
    let mut best: usize = 0;
    let mut best_score: i64 = 0;
    let mut w: usize = 0;
    while w < count
        invariant
            w <= count,
            count == window_count(entries@, kept as int),
            count == windows@.len(),
            forall|v: int|
                0 <= v < windows@.len() ==> (#[trigger] windows@[v]).0 == window_start(
                    entries@,
                    kept as int,
                    v,
                ) && windows@[v].1 == window_end(entries@, kept as int, v),
            decoder.wf(),
            entries@ == step.entries@,
            kept == step.kept,
            d == old(decoder)@,
            produced > skip_start,
            !d.is_done(),
            count > 0,
            d.wf(),
            f == filled(d),
            d.pos + doublings(d.range) <= usize::MAX,
            decoder@ == d || decoder@ == f,
            w > 0 ==> decoder@ == f,
            forall|j: int|
                0 <= j < w ==> #[trigger] window_fault(f, entries@, kept as int, scores@, j)
                    is None,
            w > 0 ==> best < w && best_score == window_score(
                f,
                entries@,
                kept as int,
                scores@,
                best as int,
            ),
            forall|j: int|
                0 <= j < w ==> #[trigger] window_score(f, entries@, kept as int, scores@, j)
                    <= best_score,
            forall|j: int|
                best < j < w ==> #[trigger] window_score(f, entries@, kept as int, scores@, j)
                    < best_score,
        decreases count - w,
    {
        proof {
            lemma_filled_props(d);
            lemma_filled_props(f);
            lemma_first_break(entries@, break_target(entries@, kept as int), 1);
        }
        let (start, end) = windows[w];
        let data = slice_subrange(entries, start, end);
        assert(data@ == window_data(entries@, kept as int, w as int));
        if !table_fits(data) {
            assert(window_fault(f, entries@, kept as int, scores@, w as int) == Some(
                CodecError::TableTooWide,
            ));
            return Err(CodecError::TableTooWide);
        }
        let (table, denominator) = to_prob_table(data);
        proof {
            lemma_alphabet_of(data@);
            assert(table@ == alphabet_of(data@).table);
        }
        let place = decoder.selected_symbol(table.as_slice(), denominator);
        proof {
            lemma_selects_unique(f, alphabet_of(data@), place as int);
        }
        let token = data[place].id;
        assert(token == window_token(f, entries@, kept as int, w as int));
        if token < 0 || token as usize >= scores.len() {
            assert(window_fault(f, entries@, kept as int, scores@, w as int) == Some(
                CodecError::TokenOutOfRange { token },
            ));
            return Err(CodecError::TokenOutOfRange { token });
        }
        assert(window_fault(f, entries@, kept as int, scores@, w as int) is None);
        let score = scores[token as usize];
        if w == 0 || score >= best_score {
            best = w;
            best_score = score;
        }
        w = w + 1;
    }
    proof {
        lemma_filled_props(f);
        lemma_first_break(entries@, break_target(entries@, kept as int), 1);
    }
    let (start, end) = windows[best];
    let data = slice_subrange(entries, start, end);
    assert(data@ == window_data(entries@, kept as int, best as int));
    assert(window_fault(f, entries@, kept as int, scores@, best as int) is None);
    let (table, denominator) = to_prob_table(data);
    proof {
        lemma_alphabet_of(data@);
        assert(table@ == alphabet_of(data@).table);
    }
    let place = decoder.decode(table.as_slice(), denominator);
    proof {
        lemma_selects_unique(f, alphabet_of(data@), place as int);
        assert(is_best(f, entries@, kept as int, scores@, best as int));
    }
    Ok(Sampled::Coded(data[place].id))
}

/// What recovery codes for a token: its place in the window that holds its first
/// occurrence, and nothing to code with where it does not occur.
pub open spec fn window_move(entries: Seq<TokenShare>, kept: int, token: i32) -> Move {
    let p = position_of(entries, token);
    if p < 0 {
        Move { data: entries, symbol: -1 }
    } else {
        let w = window_of(entries, kept, p);
        Move { data: window_data(entries, kept, w), symbol: p - window_start(entries, kept, w) }
    }
}

/// The moves of recovery: the first `skip_start` steps code nothing, every other codes
/// its token in the token's window.
pub open spec fn window_moves(steps: Seq<ShapedStep>, tokens: Seq<i32>, skip_start: usize) -> Seq<
    Option<Move>,
> {
    Seq::new(
        if steps.len() <= tokens.len() {
            steps.len()
        } else {
            tokens.len()
        },
        |k: int|
            if k < skip_start {
                None
            } else {
                Some(window_move(steps[k].entries@, steps[k].kept as int, tokens[k]))
            },
    )
}

/// Recovers the hidden bits from the tokens of a cover text and the shaped
/// distribution that the model gave before each of them.
pub fn recover_message(token_data: &Vec<ShapedStep>, tokens: &[i32], skip_start: usize) -> (out: Result<
    Vec<bool>,
    CodecError,
>)
    ensures
        encodes_moves(window_moves(token_data@, tokens@, skip_start), out),
{
    let n = if token_data.len() <= tokens.len() {
        token_data.len()
    } else {
        tokens.len()
    };
    let ghost moves = window_moves(token_data@, tokens@, skip_start);
    let mut encoder = RangeEncoder::new();
    let mut k: usize = 0;
    while k < n
        invariant
            k <= n,
            n == moves.len(),
            n <= token_data@.len(),
            n <= tokens@.len(),
            moves == window_moves(token_data@, tokens@, skip_start),
            encoder.wf(),
            encoder@ == state_after(moves, k as nat),
            forall|j: int| 0 <= j < k ==> #[trigger] move_fault(moves, j) is None,
        decreases n - k,
    {
        if k >= skip_start {
            let entries = token_data[k].entries.as_slice();
            let kept = token_data[k].kept;
            match position(entries, tokens[k]) {
                None => {
                    assert(move_fault(moves, k as int) == Some(
                        CodecError::TokenMissing { step: k },
                    ));
                    return Err(CodecError::TokenMissing { step: k });
                },
                Some(p) => {
                    proof {
                        lemma_position_from(entries@, tokens@[k as int], 0);
                        lemma_windows_partition(entries@, kept as int, p as int);
                    }
                    let fe = first_window_end(entries, kept);
                    assert(p < entries.len());
                    let (start, end) = if p < fe {
                        (0, fe)
                    } else {
                        (p, p + 1)
                    };
                    let data = slice_subrange(entries, start, end);
                    assert(data@ == window_move(entries@, kept as int, tokens@[k as int]).data);
                    match encode_token(&mut encoder, data, p - start, k) {
                        Err(e) => {
                            assert(move_fault(moves, k as int) == Some(e));
                            return Err(e);
                        },
                        Ok(()) => {
                            assert(move_fault(moves, k as int) is None);
                        },
                    }
                },
            }
        } else {
            assert(move_fault(moves, k as int) is None);
        }
        k = k + 1;
    }
    Ok(encoder.flush())
}

/// Whether a text in UTF-8 can be cut at the place: no character has a byte on either
/// side of it.
pub open spec fn cuts_text(text: Seq<u8>, at: int) -> bool {
    0 <= at <= text.len() && (at < text.len() ==> !(0x80 <= text[at] < 0xC0))
}

/// The place at which the text of a chat template for one exchange and the messages
/// is cut to leave the text for the messages alone.  The text for two exchanges and
/// the messages is longer by what the template writes for an exchange, and that much
/// is cut off the front.
pub open spec fn suffix_start(one: Seq<u8>, two: Seq<u8>) -> Option<int> {
    if one.len() <= two.len() && cuts_text(one, two.len() - one.len()) {
        Some(two.len() - one.len())
    } else {
        None
    }
}

/// The text of a chat template for the messages alone, from its text with one
/// exchange before the messages and its text with two.  There is none where the
/// second text is the shorter one, or longer by more than the first text has, or
/// where the cut would fall inside a character.
pub fn template_suffix(one: &[u8], two: &[u8]) -> (suffix: Option<Vec<u8>>)
    ensures
        suffix is Some <==> suffix_start(one@, two@) is Some,
        suffix matches Some(text) ==> text@ == one@.skip(suffix_start(one@, two@).unwrap()),
{
    if two.len() < one.len() {
        return None;
    }
    let at = two.len() - one.len();
    if at > one.len() {
        return None;
    }
    if at < one.len() && 0x80 <= one[at] && one[at] < 0xC0 {
        return None;
    }
    let text = slice_to_vec(slice_subrange(one, at, one.len()));
    proof {
        assert(one@.subrange(at as int, one@.len() as int) == one@.skip(at as int));
    }
    Some(text)
}

} // verus!
