use steg_codec::framing::{message_from_bools, message_to_bools};

fn bits(s: &str) -> Vec<bool> {
    s.chars().filter(|c| *c != ' ').map(|c| c == '1').collect()
}

#[test]
fn empty_payload_is_four_zero_bytes() {
    assert_eq!(message_to_bools(Vec::new()), vec![false; 32]);
}

#[test]
fn bytes_are_written_least_significant_bit_first() {
    let framed = message_to_bools(vec![0x01, 0x80, 0xA5]);
    let expected = bits(
        "11000000 00000000 00000000 00000000 \
         10000000 00000001 10100101",
    );
    assert_eq!(framed, expected);
}

#[test]
fn length_is_little_endian() {
    let framed = message_to_bools(vec![0u8; 0x0102]);
    assert_eq!(framed.len(), 32 + 8 * 0x0102);
    assert_eq!(&framed[..32], bits("01000000 10000000 00000000 00000000").as_slice());
}

#[test]
fn framing_round_trips() {
    for message in [
        Vec::new(),
        vec![0u8],
        vec![0xFFu8],
        b"attack at dawn".to_vec(),
        (0..=255u8).collect::<Vec<u8>>(),
        vec![7u8; 1000],
    ] {
        assert_eq!(message_from_bools(&message_to_bools(message.clone())), message);
    }
}

#[test]
fn bits_after_the_frame_are_ignored() {
    let message = b"hidden".to_vec();
    let mut framed = message_to_bools(message.clone());
    framed.extend_from_slice(&[true, false, true, true, true, true, true, true, true, false, true]);
    assert_eq!(message_from_bools(&framed), message);
}

#[test]
fn a_length_beyond_the_bytes_keeps_all_bytes() {
    // Length 5, but only two bytes follow, and three stray bits.
    let framed = bits(
        "10100000 00000000 00000000 00000000 \
         10000000 01000000 101",
    );
    assert_eq!(message_from_bools(&framed), vec![0x01, 0x02]);
}

#[test]
fn a_bare_length_frames_nothing() {
    assert_eq!(message_from_bools(&vec![true; 32]), Vec::<u8>::new());
    assert_eq!(message_from_bools(&vec![false; 39]), Vec::<u8>::new());
}
