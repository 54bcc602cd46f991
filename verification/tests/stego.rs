use steg_codec::framing::{message_from_bools, message_to_bools};
use steg_codec::prob_table::{table_fits, to_prob_table, TokenShare};
use steg_codec::range_coder::{RangeDecoder, MAX_RANGE_DENOMINATOR};
use steg_codec::steganography::{
    check_consumed, compress, position, recover_message as recover_gated, sample_decompress,
    sample_steganography, CodecError, GatedStep, Sampled,
};
use steg_codec::stenography::{
    coding_windows, first_window_end, recover_message, sample_stenography, template_suffix,
    ShapedStep,
};

fn shares(pairs: &[(i32, u64)]) -> Vec<TokenShare> {
    pairs.iter().map(|&(id, share)| TokenShare { id, share }).collect()
}

/// Turns probabilities into shares the way a caller does: each as a share of
/// `MAX_RANGE_DENOMINATOR`, rounded down.
fn quantise(probs: &[f64]) -> Vec<u64> {
    let total: f64 = probs.iter().sum();
    probs.iter().map(|p| (p / total * MAX_RANGE_DENOMINATOR as f64) as u64).collect()
}

#[test]
fn table_is_cumulative_with_widths_of_at_least_one() {
    let data = shares(&[(7, 10), (3, 0), (9, 5), (1, 0)]);
    let (table, denom) = to_prob_table(&data);
    assert_eq!(table, vec![0, 10, 11, 16]);
    assert_eq!(denom, 17);
    assert!(table_fits(&data));
}

#[test]
fn table_of_nothing_has_denominator_one() {
    let (table, denom) = to_prob_table(&[]);
    assert_eq!(table, Vec::<u64>::new());
    assert_eq!(denom, 1);
    assert!(!table_fits(&[]));
}

#[test]
fn table_from_probabilities_sums_to_at_most_the_largest_denominator() {
    let q = quantise(&[0.5, 0.25, 0.125, 0.125]);
    let data: Vec<TokenShare> =
        q.iter().enumerate().map(|(i, &share)| TokenShare { id: i as i32, share }).collect();
    let (table, denom) = to_prob_table(&data);
    assert_eq!(table[0], 0);
    assert_eq!(table[1], 2147483647);
    assert!(denom <= MAX_RANGE_DENOMINATOR);
    assert!(table_fits(&data));
    for i in 0..table.len() {
        let high = if i + 1 < table.len() { table[i + 1] } else { denom };
        assert!(high - table[i] >= 1);
    }
}

#[test]
fn widths_of_one_can_push_the_denominator_past_the_largest() {
    // A token with all of the probability and one with none: the second still gets a
    // width of one.
    let data = shares(&[(0, MAX_RANGE_DENOMINATOR), (1, 0)]);
    let (table, denom) = to_prob_table(&data);
    assert_eq!(table, vec![0, MAX_RANGE_DENOMINATOR]);
    assert_eq!(denom, MAX_RANGE_DENOMINATOR + 1);
    assert!(!table_fits(&data));
}

#[test]
fn position_is_the_first_place_of_the_token() {
    let data = shares(&[(4, 1), (2, 1), (4, 1)]);
    assert_eq!(position(&data, 4), Some(0));
    assert_eq!(position(&data, 2), Some(1));
    assert_eq!(position(&data, 5), None);
}

#[test]
fn windows_are_the_kept_tokens_and_then_one_for_each_token() {
    let entries = shares(&[(5, 1), (2, 1), (8, 1), (1, 1), (0, 1)]);
    assert_eq!(coding_windows(&entries, 2), vec![(0, 2), (2, 3), (3, 4), (4, 5)]);
    assert_eq!(first_window_end(&entries, 2), 2);
    // All kept: one window.
    assert_eq!(coding_windows(&entries, 5), vec![(0, 5)]);
    // None kept: the first token is never a break.
    assert_eq!(coding_windows(&entries, 0), vec![(0, 5)]);
    assert_eq!(coding_windows(&entries, 1), vec![(0, 1), (1, 2), (2, 3), (3, 4), (4, 5)]);
    assert_eq!(coding_windows(&[], 0), Vec::<(usize, usize)>::new());
}

#[test]
fn windows_are_disjoint_and_cover_every_place() {
    let entries = shares(&[(5, 1), (2, 1), (8, 1), (1, 1), (0, 1), (3, 1)]);
    for kept in 0..=7 {
        let windows = coding_windows(&entries, kept);
        let mut next = 0;
        for (start, end) in windows {
            assert_eq!(start, next);
            assert!(start < end);
            next = end;
        }
        assert_eq!(next, entries.len());
    }
}

#[test]
fn compress_of_nothing_is_one_zero() {
    assert_eq!(compress(&Vec::new(), &[]), Ok(vec![false]));
}

#[test]
fn compress_reports_a_token_that_is_missing() {
    let data = vec![shares(&[(0, 8), (1, 8)]), shares(&[(0, 8), (1, 8)])];
    assert_eq!(compress(&data, &[1, 2]), Err(CodecError::TokenMissing { step: 1 }));
}

#[test]
fn compress_reports_a_table_that_is_too_wide() {
    let data = vec![shares(&[(0, MAX_RANGE_DENOMINATOR), (1, 0)])];
    assert_eq!(compress(&data, &[1]), Err(CodecError::TableTooWide));
}

#[test]
fn compress_reports_an_interval_with_no_room() {
    // The first token leaves an interval of width 2^31 + 1; the second token's share
    // is one unit out of 2^32 - 1, which is nothing of that interval.
    let half = (1u64 << 31) + 1;
    let rest = MAX_RANGE_DENOMINATOR - half;
    let data = vec![
        shares(&[(0, half), (1, rest)]),
        shares(&[(0, 1), (1, MAX_RANGE_DENOMINATOR - 1)]),
    ];
    assert_eq!(compress(&data, &[0, 0]), Err(CodecError::IntervalExhausted { step: 1 }));
    assert!(compress(&data, &[0, 1]).is_ok());
}

#[test]
fn compress_then_decompress_returns_the_tokens() {
    // A model that always gives the same distribution over four tokens; token 3 ends
    // the text.
    let data = shares(&[(2, 1 << 30), (0, 1 << 30), (1, 1 << 30), (3, 1 << 29)]);
    let tokens = [0, 1, 1, 2, 0, 3];
    let steps = vec![data.clone(); tokens.len()];
    let bits = compress(&steps, &tokens).unwrap();

    let mut decoder = RangeDecoder::new(bits);
    let mut back = Vec::new();
    for _ in 0..1024 {
        match sample_decompress(&mut decoder, &data, 3).unwrap() {
            Sampled::Coded(3) | Sampled::End(_) => break,
            Sampled::Coded(t) => back.push(t),
            other => panic!("unexpected {:?}", other),
        }
    }
    assert_eq!(back, vec![0, 1, 1, 2, 0]);
}

#[test]
fn decompress_ends_once_the_decoder_is_done() {
    let data = shares(&[(0, 8), (1, 8)]);
    let mut decoder = RangeDecoder::new(Vec::new());
    let mut steps = 0;
    loop {
        match sample_decompress(&mut decoder, &data, 9).unwrap() {
            Sampled::End(t) => {
                assert_eq!(t, 9);
                break;
            }
            Sampled::Coded(_) => steps += 1,
            other => panic!("unexpected {:?}", other),
        }
    }
    // 32 bits fill the window, then one bit for each token: done after position 34.
    assert_eq!(steps, 3);
    assert_eq!(check_consumed(&decoder), Ok(()));
}

#[test]
fn decoding_reports_bad_distributions() {
    let mut decoder = RangeDecoder::new(vec![true]);
    assert_eq!(sample_decompress(&mut decoder, &[], 0), Err(CodecError::EmptyDistribution));
    let wide = shares(&[(0, MAX_RANGE_DENOMINATOR), (1, 0)]);
    assert_eq!(sample_decompress(&mut decoder, &wide, 0), Err(CodecError::TableTooWide));
    assert_eq!(
        sample_steganography(&mut decoder, false, 4, &[]),
        Err(CodecError::EmptyDistribution)
    );
}

#[test]
fn payload_left_counts_the_bits_to_read() {
    let decoder = RangeDecoder::new(vec![true; 10]);
    assert_eq!(check_consumed(&decoder), Err(CodecError::PayloadLeft { bits: 44 }));
    assert_eq!(
        CodecError::PayloadLeft { bits: 44 }.message(),
        "Could not encode entire message!"
    );
    assert_eq!(CodecError::TokenMissing { step: 0 }.message(), "Token was filtered out");
    assert_eq!(CodecError::EmptyDistribution.message(), "No windows");
}

#[test]
fn gate_emits_the_greedy_token_where_contexts_diverged() {
    let data = shares(&[(0, 8), (1, 8)]);
    let mut decoder = RangeDecoder::new(vec![true, true, true]);
    assert_eq!(sample_steganography(&mut decoder, true, 7, &data), Ok(Sampled::Greedy(7)));
    // Nothing was read: the next coded token is the first bit's.
    assert_eq!(sample_steganography(&mut decoder, false, 7, &data), Ok(Sampled::Coded(1)));
    assert_eq!(Sampled::Coded(1).token(), 1);
    assert_eq!(Sampled::Greedy(7).token(), 7);
}

#[test]
fn gated_round_trip_returns_the_payload() {
    let payload = b"yoga".to_vec();
    let data = shares(&[(10, 1 << 30), (11, 1 << 30), (12, 1 << 30), (13, (1 << 30) - 1)]);
    let mut decoder = RangeDecoder::new(message_to_bools(payload.clone()));
    let mut steps = Vec::new();
    let mut tokens = Vec::new();
    let mut n = 0;
    while !decoder.is_done() {
        // Every third step the contexts have diverged.
        let diverged = n % 3 == 2;
        let token = sample_steganography(&mut decoder, diverged, 99, &data).unwrap().token();
        steps.push(GatedStep { diverged, data: data.clone() });
        tokens.push(token);
        n += 1;
    }
    let bits = recover_gated(&steps, &tokens).unwrap();
    assert_eq!(message_from_bools(&bits), payload);
}

#[test]
fn gated_recovery_reports_a_filtered_token() {
    let steps = vec![
        GatedStep { diverged: true, data: shares(&[(0, 1)]) },
        GatedStep { diverged: false, data: shares(&[(0, 1), (1, 1)]) },
    ];
    assert_eq!(recover_gated(&steps, &[5, 5]), Err(CodecError::TokenMissing { step: 1 }));
    // A step where the contexts had diverged codes nothing, whatever its token.
    assert!(recover_gated(&steps, &[5, 1]).is_ok());
}

/// A model stub: the order of the tokens depends on the last token, the number kept
/// on the step.
fn stub_order(last: i32) -> [i32; 6] {
    match last.rem_euclid(3) {
        0 => [0, 1, 2, 3, 4, 5],
        1 => [3, 1, 4, 0, 5, 2],
        _ => [5, 4, 3, 2, 1, 0],
    }
}

fn stub_step(last: i32, index: usize) -> ShapedStep {
    let order = stub_order(last);
    let kept = 2 + index % 2;
    let probs: Vec<f64> = (0..kept).map(|i| 1.0 / (i as f64 + 1.5)).collect();
    let mut entries: Vec<TokenShare> = quantise(&probs)
        .iter()
        .enumerate()
        .map(|(i, &share)| TokenShare { id: order[i], share })
        .collect();
    for &id in &order[kept..] {
        entries.push(TokenShare { id, share: MAX_RANGE_DENOMINATOR });
    }
    ShapedStep { entries, kept }
}

/// The main context's scores: it likes the tokens in the model's order, but every
/// fifth step it likes the last token best.
fn stub_scores(last: i32, index: usize) -> Vec<i64> {
    let order = stub_order(last);
    let mut scores = vec![0i64; 6];
    for (rank, &id) in order.iter().enumerate() {
        scores[id as usize] = 6 - rank as i64;
    }
    if index % 5 == 4 {
        scores[order[5] as usize] = 9;
    }
    scores
}

#[test]
fn stego_round_trip_with_a_model_stub() {
    for payload in [Vec::new(), b"x".to_vec(), b"meet me at noon".to_vec(), vec![0xFFu8; 40]] {
        let skip_start = 3;
        let mut decoder = RangeDecoder::new(message_to_bools(payload.clone()));
        let mut tokens: Vec<i32> = Vec::new();
        let mut last = 0;
        let mut coded = 0;
        let mut singles = 0;
        for index in 0..100_000 {
            if decoder.is_done() {
                break;
            }
            let step = stub_step(last, index);
            let greedy = step.entries[0].id;
            // The hiding context holds one token more than have been emitted.
            let produced = tokens.len() + 1;
            let sampled = sample_stenography(
                &mut decoder,
                produced,
                skip_start,
                greedy,
                &step,
                &stub_scores(last, index),
            )
            .unwrap();
            if let Sampled::Coded(t) = sampled {
                coded += 1;
                if index % 5 == 4 {
                    assert_eq!(t, stub_order(last)[5]);
                    singles += 1;
                }
            }
            last = sampled.token();
            tokens.push(last);
        }
        assert_eq!(check_consumed(&decoder), Ok(()));
        assert!(coded > 32);
        assert!(singles > 0);
        assert_eq!(&tokens[..3], &[0, 0, 0]);

        let mut steps = Vec::new();
        let mut last = 0;
        for (index, &token) in tokens.iter().enumerate() {
            steps.push(stub_step(last, index));
            last = token;
        }
        let bits = recover_message(&steps, &tokens, skip_start);
        assert_eq!(message_from_bools(&bits.unwrap()), payload);
    }
}

#[test]
fn hiding_emits_the_greedy_token_before_and_after_the_payload() {
    let step = stub_step(0, 0);
    let scores = stub_scores(0, 0);
    let mut decoder = RangeDecoder::new(Vec::new());
    assert_eq!(
        sample_stenography(&mut decoder, 3, 3, 42, &step, &scores),
        Ok(Sampled::Greedy(42))
    );
    // Read until the decoder is done.
    while !decoder.is_done() {
        sample_stenography(&mut decoder, 4, 3, 42, &step, &scores).unwrap();
    }
    assert_eq!(
        sample_stenography(&mut decoder, 4, 3, 42, &step, &scores),
        Ok(Sampled::Filler(42))
    );
}

#[test]
fn hiding_picks_the_last_of_the_best_windows() {
    // Two windows of one token each after a first window of one token; all three
    // tokens score alike, so the last window wins.
    let step = ShapedStep { entries: shares(&[(0, 5), (1, 5), (2, 5)]), kept: 1 };
    let mut decoder = RangeDecoder::new(vec![false; 8]);
    assert_eq!(
        sample_stenography(&mut decoder, 1, 0, 0, &step, &[3, 3, 3]),
        Ok(Sampled::Coded(2))
    );
    // Token 1 scores highest: its window wins.
    let mut decoder = RangeDecoder::new(vec![false; 8]);
    assert_eq!(
        sample_stenography(&mut decoder, 1, 0, 0, &step, &[3, 4, 3]),
        Ok(Sampled::Coded(1))
    );
}

#[test]
fn hiding_reports_windows_that_cannot_be_weighed() {
    let mut decoder = RangeDecoder::new(vec![false; 8]);
    let empty = ShapedStep { entries: Vec::new(), kept: 0 };
    assert_eq!(
        sample_stenography(&mut decoder, 1, 0, 0, &empty, &[]),
        Err(CodecError::EmptyDistribution)
    );
    let step = ShapedStep { entries: shares(&[(0, 5), (7, 5)]), kept: 1 };
    assert_eq!(
        sample_stenography(&mut decoder, 1, 0, 0, &step, &[1, 2]),
        Err(CodecError::TokenOutOfRange { token: 7 })
    );
    let wide = ShapedStep { entries: shares(&[(0, 5), (1, u64::MAX)]), kept: 1 };
    assert_eq!(
        sample_stenography(&mut decoder, 1, 0, 0, &wide, &[1, 2]),
        Err(CodecError::TableTooWide)
    );
}

#[test]
fn tokens_after_the_payload_do_not_disturb_it() {
    let payload = b"filler follows".to_vec();
    let skip_start = 2;
    let mut decoder = RangeDecoder::new(message_to_bools(payload.clone()));
    let mut tokens: Vec<i32> = Vec::new();
    let mut last = 0;
    let mut fillers = 0;
    let mut index = 0;
    // Generation goes on for a while after the payload has been read.
    while fillers < 40 {
        let step = stub_step(last, index);
        let greedy = step.entries[0].id;
        let sampled = sample_stenography(
            &mut decoder,
            tokens.len() + 1,
            skip_start,
            greedy,
            &step,
            &stub_scores(last, index),
        )
        .unwrap();
        if let Sampled::Filler(t) = sampled {
            assert_eq!(t, greedy);
            assert!(decoder.is_done());
            fillers += 1;
        }
        last = sampled.token();
        tokens.push(last);
        index += 1;
    }

    let mut steps = Vec::new();
    let mut last = 0;
    for (index, &token) in tokens.iter().enumerate() {
        steps.push(stub_step(last, index));
        last = token;
    }
    let bits = recover_message(&steps, &tokens, skip_start).unwrap();
    assert_eq!(message_from_bools(&bits), payload);
}

#[test]
fn recovery_skips_the_first_steps_and_reports_a_missing_token() {
    let steps = vec![stub_step(0, 0), stub_step(0, 1)];
    assert_eq!(recover_message(&steps, &[77, 0], 1).map(|b| b.len() > 0), Ok(true));
    assert_eq!(recover_message(&steps, &[0, 77], 1), Err(CodecError::TokenMissing { step: 1 }));
}

#[test]
fn the_template_text_of_one_exchange_is_cut_off() {
    let one = "<u>aaaa</u><a>aaaa</a><u>hello</u><a>";
    let two = "<u>aaaa</u><a>aaaa</a><u>aaaa</u><a>aaaa</a><u>hello</u><a>";
    assert_eq!(
        template_suffix(one.as_bytes(), two.as_bytes()),
        Some(b"<u>hello</u><a>".to_vec())
    );
    assert_eq!(template_suffix(b"abc", b"abc"), Some(b"abc".to_vec()));
    assert_eq!(template_suffix(b"abc", b"abcabc"), Some(Vec::new()));
}

#[test]
fn no_template_text_is_cut_where_the_texts_do_not_fit() {
    assert_eq!(template_suffix(b"abcd", b"abc"), None);
    assert_eq!(template_suffix(b"abc", b"abcabcd"), None);
    // The cut would fall inside the two bytes of the second character.
    assert_eq!(template_suffix("aé".as_bytes(), "aaaé".as_bytes()), None);
    assert_eq!(template_suffix("aé".as_bytes(), "aaé".as_bytes()), Some("é".as_bytes().to_vec()));
}
