use steg_codec::range_coder::{
    RangeDecoder, RangeEncoder, HALF, MAX_RANGE_DENOMINATOR, NORM, N_BITS,
};

fn encode_all(table: &[u64], denom: u64, message: &[usize]) -> Vec<bool> {
    let mut encoder = RangeEncoder::new();
    for &symbol in message {
        let high = *table.get(symbol + 1).unwrap_or(&denom);
        assert!(encoder.accepts(table[symbol], high, denom));
        encoder.encode(table, denom, symbol);
    }
    encoder.flush()
}

fn decode_all(table: &[u64], denom: u64, bits: &[bool]) -> Vec<usize> {
    let mut decoder = RangeDecoder::new(bits.to_vec());
    let mut message = Vec::new();
    while !decoder.is_done() {
        assert!(decoder.has_room());
        message.push(decoder.decode(table, denom));
    }
    message
}

/// Encodes the message, decodes the stream until the decoder is done, and encodes
/// what was read.  A symbol with nearly the whole table to itself is read many
/// millions of times before the decoder is done, so the symbols read go straight
/// into the second encoder instead of a list.
fn test_range_coding_case(table: &[u64], denom: u64, message: &[usize]) {
    let mut encoder = RangeEncoder::new();

    for &symbol in message {
        encoder.encode(table, denom, symbol);
    }

    let bits = encoder.flush();

    let mut decoder = RangeDecoder::new(bits.clone());
    let mut read: usize = 0;

    encoder = RangeEncoder::new();

    while !decoder.is_done() {
        let symbol = decoder.decode(table, denom);
        if read < message.len() {
            assert_eq!(message[read], symbol);
        }
        read += 1;
        encoder.encode(table, denom, symbol);
    }

    assert!(read >= message.len());

    assert_eq!(bits.as_slice(), &encoder.flush()[..bits.len()])
}

#[test]
fn test_range_coding() {
    test_range_coding_case(&[0, 5, 10, 15], 16, &[0, 3, 2, 3, 3, 3, 2, 1, 3, 0, 1]);
    test_range_coding_case(&[0, 4, 10, 15], 16, &[0, 0, 0, 0, 0]);
    test_range_coding_case(&[0, 5, 10, 15], 16, &[0]);
    test_range_coding_case(&[0, 5, 10, 15], 16, &[1, 1, 1, 1, 1, 1, 1, 1, 1, 1, 1]);
    test_range_coding_case(&[0, 5, 10, 15], 16, &[1]);
    test_range_coding_case(&[0, 5, 10, 15], 16, &[2, 2, 2, 2, 2, 2, 2, 2, 2, 2, 2]);
    test_range_coding_case(&[0, 5, 10, 15], 16, &[2]);
    test_range_coding_case(&[0, 5, 10, 15], 16, &[3, 3, 3, 3, 3, 3, 3, 3, 3, 3, 3]);
    test_range_coding_case(&[0, 5, 10, 15], 16, &[3]);
    test_range_coding_case(
        &[0, 5, 10, 15],
        NORM - 1,
        &[3, 3, 3, 3, 3, 3, 3, 3, 3, 3, 3],
    );
}

#[test]
fn constants_are_those_of_a_32_bit_window() {
    assert_eq!(N_BITS, 32);
    assert_eq!(NORM, 1u64 << 32);
    assert_eq!(HALF, 1u64 << 31);
    assert_eq!(MAX_RANGE_DENOMINATOR, (1u64 << 32) - 1);
}

#[test]
fn scenario_mixed_symbols_round_trip() {
    let table = [0u64, 5, 10, 15];
    let message = [0usize, 3, 2, 3, 3, 3, 2, 1, 3, 0, 1];
    let bits = encode_all(&table, 16, &message);
    let back = decode_all(&table, 16, &bits);
    assert_eq!(&back[..message.len()], &message);
}

#[test]
fn scenario_zeros_round_trip() {
    let table = [0u64, 4, 10, 15];
    let message = [0usize, 0, 0, 0, 0];
    let bits = encode_all(&table, 16, &message);
    let back = decode_all(&table, 16, &bits);
    assert_eq!(&back[..message.len()], &message);
}

#[test]
fn scenario_last_symbol_round_trip() {
    let table = [0u64, 5, 10, 15];
    let message = [3usize; 11];
    let bits = encode_all(&table, 16, &message);
    let back = decode_all(&table, 16, &bits);
    assert_eq!(&back[..message.len()], &message);
}

#[test]
fn scenario_largest_denominator_first_symbols() {
    // With the largest denominator the last symbol has nearly the whole table, and the
    // eleven symbols close to two bits.
    let table = [0u64, 5, 10, 15];
    let message = [3usize; 11];
    let bits = encode_all(&table, MAX_RANGE_DENOMINATOR, &message);
    assert_eq!(bits, vec![true, false]);
    let mut decoder = RangeDecoder::new(bits);
    for &symbol in &message {
        assert!(!decoder.is_done());
        assert_eq!(decoder.decode(&table, MAX_RANGE_DENOMINATOR), symbol);
    }
}

#[test]
fn empty_message_flushes_to_one_zero() {
    // The whole interval starts at zero: one zero bit doubles it past NORM.
    let bits = RangeEncoder::new().flush();
    assert_eq!(bits, vec![false]);
}

#[test]
fn one_symbol_gives_exact_bits() {
    // The share [8/16, 16/16) is the upper half: low = HALF, range = HALF.
    let mut encoder = RangeEncoder::new();
    encoder.encode_range(8, 16, 16);
    // The interval [HALF, NORM) lies on the upper side: a one, then it starts at
    // zero with width NORM, and one zero closes it.
    assert_eq!(encoder.flush(), vec![true, false]);

    let mut encoder = RangeEncoder::new();
    encoder.encode_range(0, 8, 16);
    // The interval [0, HALF) starts at zero: a zero doubles it to NORM, another
    // doubles it past NORM.
    assert_eq!(encoder.flush(), vec![false, false]);
}

#[test]
fn carry_runs_through_emitted_ones() {
    // [7/16, 9/16) straddles the middle: after renormalisation the window holds a
    // pending carry, which the next share in the upper part resolves.
    let mut encoder = RangeEncoder::new();
    encoder.encode_range(7, 9, 16);
    encoder.encode_range(8, 16, 16);
    let bits = encoder.flush();
    let mut decoder = RangeDecoder::new(bits.clone());
    let table = [0u64, 7, 9];
    assert_eq!(decoder.decode(&table, 16), 1);
    let table2 = [0u64, 8];
    assert_eq!(decoder.decode(&table2, 16), 1);
    // The first bit is the carried one: the stream lies in the upper half.
    assert!(bits[0]);
}

#[test]
fn accepts_refuses_what_encode_range_cannot_take() {
    let encoder = RangeEncoder::new();
    assert!(encoder.accepts(0, 1, 16));
    assert!(!encoder.accepts(3, 3, 16));
    assert!(!encoder.accepts(4, 3, 16));
    assert!(!encoder.accepts(0, 17, 16));
    assert!(!encoder.accepts(0, 0, 0));
    assert!(!encoder.accepts(0, 1, MAX_RANGE_DENOMINATOR + 1));
    assert!(encoder.accepts(0, 1, MAX_RANGE_DENOMINATOR));
}

#[test]
fn a_share_below_one_unit_of_the_interval_is_refused() {
    // After the share [0, 2^31 + 1) out of 2^32 - 1 the interval has width 2^31 + 1
    // and is not doubled; one unit out of 2^32 - 1 of it rounds to nothing.
    let mut encoder = RangeEncoder::new();
    let denom = MAX_RANGE_DENOMINATOR;
    assert!(encoder.accepts(0, HALF + 1, denom));
    encoder.encode_range(0, HALF + 1, denom);
    assert!(!encoder.accepts(0, 1, denom));
    assert!(encoder.accepts(0, 2, denom));
}

#[test]
fn selected_symbol_is_the_largest_index_not_above_the_input() {
    // Input 1000...: position HALF in a window of width NORM.
    let bits = vec![true, false, false, false];
    let mut decoder = RangeDecoder::new(bits);
    let table = [0u64, 4, 8, 12];
    // Scaled entries: 0, NORM/4, NORM/2, 3*NORM/4; the padded input reads
    // 1000 0111..., just below 0x88000000.
    assert_eq!(decoder.selected_symbol(&table, 16), 2);
    // Selecting again changes nothing.
    assert_eq!(decoder.selected_symbol(&table, 16), 2);
    assert_eq!(decoder.decode(&table, 16), 2);
}

#[test]
fn decoder_pads_with_a_zero_and_then_ones() {
    // No input at all: the window reads 0111...1, just below HALF.
    let mut decoder = RangeDecoder::new(Vec::new());
    let table = [0u64, 8];
    assert_eq!(decoder.decode(&table, 16), 0);
    // What is left of the window is all ones: the upper half from now on.
    assert_eq!(decoder.decode(&table, 16), 1);
    assert_eq!(decoder.decode(&table, 16), 1);
}

#[test]
fn is_done_once_position_passes_the_padding_zero_by_a_window() {
    let mut decoder = RangeDecoder::new(vec![true, false]);
    assert!(!decoder.is_done());
    assert_eq!(decoder.bits_left(), 2 + 32 + 2);
    let table = [0u64, 8];
    // The first read fills the window: 32 bits.
    decoder.decode(&table, 16);
    assert!(!decoder.is_done());
    assert_eq!(decoder.bits_left(), 4);
    // Each further read of a half consumes one bit.
    decoder.decode(&table, 16);
    decoder.decode(&table, 16);
    decoder.decode(&table, 16);
    assert_eq!(decoder.bits_left(), 1);
    assert!(!decoder.is_done());
    decoder.decode(&table, 16);
    assert!(decoder.is_done());
    assert_eq!(decoder.bits_left(), 0);
}

#[test]
fn decode_range_narrows_to_a_given_share() {
    let mut decoder = RangeDecoder::new(vec![true, true]);
    // The input 11 0111... lies in [12/16, 14/16), just below its upper end.
    decoder.decode_range(12, 14, 16);
    let table = [0u64, 8];
    assert_eq!(decoder.decode(&table, 16), 1);
}

#[test]
fn reencoding_decoded_symbols_returns_any_input() {
    let table = [0u64, 3, 4, 11];
    let inputs: [&[bool]; 4] = [
        &[],
        &[true],
        &[false, true, true, false, true, false, false, true, true, true],
        &[true, true, true, true, true, true, true, true],
    ];
    for input in inputs {
        let symbols = decode_all(&table, 13, input);
        let mut encoder = RangeEncoder::new();
        for &symbol in &symbols {
            let high = *table.get(symbol + 1).unwrap_or(&13);
            assert!(encoder.accepts(table[symbol], high, 13));
            encoder.encode(&table, 13, symbol);
        }
        let bits = encoder.flush();
        assert!(bits.len() >= input.len());
        assert_eq!(&bits[..input.len()], input);
    }
}

#[test]
fn an_interval_that_reaches_past_the_window_is_closed_inside_it() {
    // After these symbols the interval starts at 3/4 of the window and reaches past
    // its end.  It is cut off at the window's end before it is closed.
    let table = [0u64, 33];
    let bits = encode_all(&table, 48, &[1, 0, 0]);
    assert_eq!(bits, vec![true, false, true, true, false]);
    let back = decode_all(&table, 48, &bits);
    assert_eq!(&back[..3], &[1, 0, 0]);
    let again = encode_all(&table, 48, &back);
    assert_eq!(&again[..bits.len()], bits.as_slice());

    let table = [0u64, 1];
    let bits = encode_all(&table, 3, &[0, 1, 1, 1]);
    let back = decode_all(&table, 3, &bits);
    assert_eq!(&back[..4], &[0, 1, 1, 1]);
}

#[test]
fn every_short_message_over_two_symbols_round_trips() {
    for denom in 2u64..8 {
        for cut in 1..denom {
            let table = [0u64, cut];
            for len in 0..6usize {
                for code in 0..(1usize << len) {
                    let message: Vec<usize> = (0..len).map(|i| (code >> i) & 1).collect();
                    let bits = encode_all(&table, denom, &message);
                    let back = decode_all(&table, denom, &bits);
                    assert_eq!(&back[..len], message.as_slice());
                    let again = encode_all(&table, denom, &back);
                    assert_eq!(&again[..bits.len()], bits.as_slice());
                }
            }
        }
    }
}
