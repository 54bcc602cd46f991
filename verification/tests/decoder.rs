use steg_codec::decoder::{
    from_utf8_lossy_inplace, repaired_len, replace_chunks, scan_bytes, scan_chunks,
    try_from_utf8_lossy, TokenDecoder, Utf8Scan,
};
use steg_codec::generation_context::set_tokens;

#[test]
fn test_from_utf8_lossy_inplace() {
    let xs = b"hello".to_vec();
    assert_eq!(from_utf8_lossy_inplace(xs), String::from("hello"));

    let xs = "ศไทย中华Việt Nam".as_bytes().to_vec();
    assert_eq!(
        from_utf8_lossy_inplace(xs),
        String::from("ศไทย中华Việt Nam")
    );

    let xs = b"Hello\xC2 There\xFF Goodbye".to_vec();
    assert_eq!(
        from_utf8_lossy_inplace(xs),
        String::from("Hello\u{FFFD} There\u{FFFD} Goodbye")
    );

    let xs = b"Hello\xC0\x80 There\xE6\x83 Goodbye".to_vec();
    assert_eq!(
        from_utf8_lossy_inplace(xs),
        String::from("Hello\u{FFFD}\u{FFFD} There\u{FFFD} Goodbye")
    );

    let xs = b"\xF5foo\xF5\x80bar".to_vec();
    assert_eq!(
        from_utf8_lossy_inplace(xs),
        String::from("\u{FFFD}foo\u{FFFD}\u{FFFD}bar")
    );

    let xs = b"\xF1foo\xF1\x80bar\xF1\x80\x80baz".to_vec();
    assert_eq!(
        from_utf8_lossy_inplace(xs),
        String::from("\u{FFFD}foo\u{FFFD}bar\u{FFFD}baz")
    );

    let xs = b"\xF4foo\xF4\x80bar\xF4\xBFbaz".to_vec();
    assert_eq!(
        from_utf8_lossy_inplace(xs),
        String::from("\u{FFFD}foo\u{FFFD}bar\u{FFFD}\u{FFFD}baz")
    );

    let xs = b"\xF0\x80\x80\x80foo\xF0\x90\x80\x80bar".to_vec();
    assert_eq!(
        from_utf8_lossy_inplace(xs),
        String::from("\u{FFFD}\u{FFFD}\u{FFFD}\u{FFFD}foo\u{10000}bar")
    );

    // surrogates
    let xs = b"\xED\xA0\x80foo\xED\xBF\xBFbar".to_vec();
    assert_eq!(
        from_utf8_lossy_inplace(xs),
        String::from("\u{FFFD}\u{FFFD}\u{FFFD}foo\u{FFFD}\u{FFFD}\u{FFFD}bar")
    );
}

#[test]
fn repair_scenario_truncated_and_stray_bytes() {
    assert_eq!(
        from_utf8_lossy_inplace(b"Hello\xC2 There\xFF Goodbye".to_vec()),
        "Hello\u{FFFD} There\u{FFFD} Goodbye"
    );
}

#[test]
fn repair_scenario_overlong_and_first_supplementary() {
    assert_eq!(
        from_utf8_lossy_inplace(b"\xF0\x80\x80\x80foo\xF0\x90\x80\x80bar".to_vec()),
        "\u{FFFD}\u{FFFD}\u{FFFD}\u{FFFD}foo\u{10000}bar"
    );
}

#[test]
fn repair_agrees_with_the_standard_library() {
    let inputs: [&[u8]; 12] = [
        b"",
        b"plain",
        b"\xFF",
        b"\xF1\x80\x80",
        b"\xF1\x80\x80a",
        b"\xF1\x80\x80a\xF1b",
        b"\xF1\x80\x80\xF1\x80\x80\xF1\x80\x80",
        b"a\xE2\x82",
        b"\xE2\x82\xACa\xE2\x82",
        b"\xC3\xA9\xC3",
        b"\x80\x80\x80\x80",
        b"\xF0\x9F\x98\x80\xF0\x9F\x98",
    ];
    for input in inputs {
        assert_eq!(
            from_utf8_lossy_inplace(input.to_vec()),
            String::from_utf8_lossy(input).into_owned()
        );
    }
}

#[test]
fn repair_replaces_a_three_byte_sequence_that_comes_first() {
    // The three bytes are as long as their replacement; the single byte after them is
    // shorter than its own.
    assert_eq!(
        from_utf8_lossy_inplace(b"\xF1\x80\x80a\xF1b".to_vec()),
        "\u{FFFD}a\u{FFFD}b"
    );
    assert_eq!(from_utf8_lossy_inplace(b"\xF1\x80\x80a".to_vec()), "\u{FFFD}a");
}

#[test]
fn repair_is_idempotent_and_keeps_ascii() {
    for input in [&b"ascii only ~\x00\x7F"[..], b"\xFFa\xC2", b"\xE2\x82\xAC", b"\xF1\x80"] {
        let once = from_utf8_lossy_inplace(input.to_vec());
        let twice = from_utf8_lossy_inplace(once.clone().into_bytes());
        assert_eq!(once, twice);
    }
    assert_eq!(
        from_utf8_lossy_inplace(b"ascii only ~\x00\x7F".to_vec()).as_bytes(),
        b"ascii only ~\x00\x7F"
    );
}

#[test]
fn token_decoder_starts_empty() {
    let decoder = TokenDecoder::new();
    assert_eq!(decoder.last_part(), "");
    assert_eq!(decoder.buffer(), "");
    assert_eq!(decoder.into_string(), "");
}

#[test]
fn token_decoder_joins_a_character_split_over_tokens() {
    let mut decoder = TokenDecoder::new();
    assert_eq!(decoder.add_token(b"caf\xC3"), "caf");
    assert_eq!(decoder.last_part(), "\u{FFFD}");
    assert_eq!(decoder.buffer(), "caf");
    assert_eq!(decoder.add_token(b"\xA9 au lait"), "\u{E9} au lait");
    assert_eq!(decoder.last_part(), "");
    assert_eq!(decoder.into_string(), "caf\u{E9} au lait");
}

#[test]
fn token_decoder_joins_a_character_split_over_three_tokens() {
    let mut decoder = TokenDecoder::new();
    assert_eq!(decoder.add_token(b"\xF0\x9F"), "");
    assert_eq!(decoder.add_token(b"\x98"), "");
    assert_eq!(decoder.add_token(b"\x80!"), "\u{1F600}!");
    assert_eq!(decoder.into_string(), "\u{1F600}!");
}

#[test]
fn token_decoder_replaces_invalid_bytes() {
    let mut decoder = TokenDecoder::new();
    assert_eq!(decoder.add_token(b"a\xFFb\xC0\x80c"), "a\u{FFFD}b\u{FFFD}\u{FFFD}c");
    assert_eq!(decoder.into_string(), "a\u{FFFD}b\u{FFFD}\u{FFFD}c");
}

#[test]
fn token_decoder_replaces_a_character_that_is_never_finished() {
    let mut decoder = TokenDecoder::new();
    assert_eq!(decoder.add_token(b"x\xE2\x82"), "x");
    assert_eq!(decoder.last_part(), "\u{FFFD}");
    assert_eq!(decoder.into_string(), "x\u{FFFD}");

    let mut decoder = TokenDecoder::new();
    assert_eq!(decoder.add_token(b"x\xE2\x82"), "x");
    // The next token does not continue the character.
    assert_eq!(decoder.add_token(b"yz"), "\u{FFFD}yz");
    assert_eq!(decoder.into_string(), "x\u{FFFD}yz");
}

#[test]
fn token_decoder_adds_bytes_one_by_one() {
    let mut decoder = TokenDecoder::new();
    assert_eq!(decoder.add_byte(b'a'), "a");
    assert_eq!(decoder.add_byte(0xE2), "");
    assert_eq!(decoder.add_byte(0x82), "");
    assert_eq!(decoder.add_byte(0xAC), "\u{20AC}");
    assert_eq!(decoder.add_byte(0xFF), "\u{FFFD}");
    assert_eq!(decoder.add_byte(0xC3), "");
    // An invalid byte after an unfinished character: the character is replaced, the
    // byte waits for the next.
    assert_eq!(decoder.add_byte(0xFF), "\u{FFFD}");
    assert_eq!(decoder.last_part(), "\u{FFFD}");
    assert_eq!(decoder.add_byte(b'b'), "\u{FFFD}b");
    assert_eq!(decoder.into_string(), "a\u{20AC}\u{FFFD}\u{FFFD}\u{FFFD}b");
}

#[test]
fn set_tokens_keeps_the_shared_prefix() {
    let mut history = vec![1, 2, 3, 4];
    assert_eq!(set_tokens(&mut history, &[1, 2, 9, 9, 9]), 2);
    assert_eq!(history, vec![1, 2, 9, 9, 9]);

    // Nothing shared.
    assert_eq!(set_tokens(&mut history, &[5, 6]), 0);
    assert_eq!(history, vec![5, 6]);

    // The history is a prefix of the new tokens: all of it is kept.
    assert_eq!(set_tokens(&mut history, &[5, 6, 7]), 2);
    assert_eq!(history, vec![5, 6, 7]);

    // The same tokens again: all kept, nothing to add.
    assert_eq!(set_tokens(&mut history, &[5, 6, 7]), 3);
    assert_eq!(history, vec![5, 6, 7]);
}

#[test]
fn set_tokens_gives_up_the_last_token_of_a_proper_prefix() {
    let mut history = vec![1, 2, 3, 4];
    assert_eq!(set_tokens(&mut history, &[1, 2, 3]), 2);
    assert_eq!(history, vec![1, 2, 3]);

    let mut history = vec![1, 2, 3];
    assert_eq!(set_tokens(&mut history, &[]), 0);
    assert_eq!(history, Vec::<i32>::new());

    let mut history = Vec::new();
    assert_eq!(set_tokens(&mut history, &[]), 0);
    assert_eq!(set_tokens(&mut history, &[8]), 0);
    assert_eq!(history, vec![8]);
}

#[test]
fn bytes_are_cut_where_they_break() {
    assert_eq!(scan_chunks(b"hello"), vec![(5, 0)]);
    assert_eq!(scan_chunks(b""), Vec::<(usize, usize)>::new());
    assert_eq!(scan_chunks(b"Hello\xC2 There\xFF Goodbye"), vec![(5, 1), (6, 1), (8, 0)]);
    assert_eq!(scan_chunks(b"\xF1\x80\x80ab\xF1z"), vec![(0, 3), (2, 1), (1, 0)]);
    assert_eq!(scan_chunks(b"ab\xE6\x83"), vec![(2, 2)]);
    assert_eq!(scan_chunks(b"\xC0\x80"), vec![(0, 1), (0, 1)]);
}

#[test]
fn chunks_are_replaced_in_the_buffer() {
    let out = replace_chunks(b"Hello\xC2 There\xFF Goodbye".to_vec(), &[(5, 1), (6, 1), (8, 0)]);
    assert_eq!(out, "Hello\u{FFFD} There\u{FFFD} Goodbye".as_bytes().to_vec());
    let out = replace_chunks(b"\xF1\x80\x80ab\xF1z".to_vec(), &[(0, 3), (2, 1), (1, 0)]);
    assert_eq!(out, "\u{FFFD}ab\u{FFFD}z".as_bytes().to_vec());
    let out = replace_chunks(b"abc".to_vec(), &[(3, 0)]);
    assert_eq!(out, b"abc".to_vec());
    let out = replace_chunks(Vec::new(), &[]);
    assert_eq!(out, Vec::<u8>::new());
}

#[test]
fn chunks_of_any_cut_are_replaced_as_they_are_given() {
    // The cut need not be the one that a scan gives: every part that is called
    // invalid is replaced, whatever it holds.
    let out = replace_chunks(b"abcdef".to_vec(), &[(1, 1), (0, 2), (2, 0)]);
    assert_eq!(out, "a\u{FFFD}\u{FFFD}ef".as_bytes().to_vec());
    let out = replace_chunks(b"abc".to_vec(), &[(0, 1), (0, 1), (0, 1)]);
    assert_eq!(out, "\u{FFFD}\u{FFFD}\u{FFFD}".as_bytes().to_vec());
}

#[test]
fn a_scan_says_where_bytes_break() {
    assert!(matches!(scan_bytes(b"hello"), Utf8Scan::Valid));
    assert!(matches!(scan_bytes(b""), Utf8Scan::Valid));
    assert!(matches!(
        scan_bytes(b"ab\xFFcd"),
        Utf8Scan::Broken { valid_up_to: 2, error_len: Some(1) }
    ));
    assert!(matches!(
        scan_bytes(b"ab\xE6\x83"),
        Utf8Scan::Broken { valid_up_to: 2, error_len: None }
    ));
    assert!(matches!(
        scan_bytes(b"\xF1\x80\x80a"),
        Utf8Scan::Broken { valid_up_to: 0, error_len: Some(3) }
    ));
}

#[test]
fn settling_follows_the_scan() {
    let mut decoder = TokenDecoder::new();
    assert_eq!(decoder.feed_chunk(b"ab\xE6\x83", 0, scan_bytes(b"ab\xE6\x83")), 4);
    assert_eq!(decoder.buffer(), "ab");
    assert_eq!(decoder.last_part(), "\u{FFFD}");
    // Nothing is settled while the character is unfinished.
    decoder.settle(Utf8Scan::Broken { valid_up_to: 0, error_len: None });
    assert_eq!(decoder.buffer(), "ab");
    assert_eq!(decoder.last_part(), "\u{FFFD}");
    // An invalid sequence of two bytes gives way to one U+FFFD.
    decoder.settle(Utf8Scan::Broken { valid_up_to: 0, error_len: Some(2) });
    assert_eq!(decoder.buffer(), "ab\u{FFFD}");
    assert_eq!(decoder.last_part(), "");
    assert_eq!(decoder.into_string(), "ab\u{FFFD}");
}

#[test]
fn settling_keeps_what_follows_an_invalid_sequence_pending() {
    let mut decoder = TokenDecoder::new();
    assert_eq!(decoder.feed_chunk(b"\xE6\x83x", 0, Utf8Scan::Broken { valid_up_to: 0, error_len: None }), 3);
    assert_eq!(decoder.buffer(), "");
    decoder.settle(Utf8Scan::Broken { valid_up_to: 0, error_len: Some(2) });
    assert_eq!(decoder.buffer(), "\u{FFFD}");
    assert_eq!(decoder.last_part(), "\u{FFFD}");
    decoder.settle_if_valid(Utf8Scan::Broken { valid_up_to: 0, error_len: None });
    assert_eq!(decoder.buffer(), "\u{FFFD}");
    decoder.settle_if_valid(Utf8Scan::Valid);
    assert_eq!(decoder.buffer(), "\u{FFFD}x");
    assert_eq!(decoder.last_part(), "");
}

#[test]
fn a_chunk_is_fed_up_to_the_end_of_its_invalid_sequence() {
    let token = b"xyab\xFFcd";
    let mut decoder = TokenDecoder::new();
    let next = decoder.feed_chunk(token, 2, scan_bytes(&token[2..]));
    assert_eq!(next, 5);
    assert_eq!(decoder.buffer(), "ab\u{FFFD}");
    assert_eq!(decoder.last_part(), "");
    let next = decoder.feed_chunk(token, next, scan_bytes(&token[next..]));
    assert_eq!(next, 7);
    assert_eq!(decoder.buffer(), "ab\u{FFFD}cd");
    let next = decoder.feed_chunk(token, 7, Utf8Scan::Valid);
    assert_eq!(next, 7);
    assert_eq!(decoder.into_string(), "ab\u{FFFD}cd");
}

#[test]
fn the_length_of_a_repair_is_counted_where_it_fits() {
    assert_eq!(repaired_len(&[]), Some(0));
    assert_eq!(repaired_len(&[(5, 1), (6, 1), (8, 0)]), Some(25));
    assert_eq!(repaired_len(&[(0, 3), (2, 1), (1, 0)]), Some(9));
    assert_eq!(repaired_len(&[(usize::MAX, 0)]), Some(usize::MAX));
    assert_eq!(repaired_len(&[(usize::MAX - 2, 1)]), None);
    assert_eq!(repaired_len(&[(usize::MAX - 3, 1)]), Some(usize::MAX));
    assert_eq!(repaired_len(&[(usize::MAX, 0), (1, 0)]), None);
}

#[test]
fn a_repair_that_fits_is_made() {
    assert_eq!(
        try_from_utf8_lossy(b"Hello\xC2 There\xFF Goodbye".to_vec()),
        Some(String::from("Hello\u{FFFD} There\u{FFFD} Goodbye"))
    );
    assert_eq!(try_from_utf8_lossy(Vec::new()), Some(String::new()));
    assert_eq!(
        try_from_utf8_lossy(b"\xF1\x80\x80a\xF1b".to_vec()),
        Some(String::from("\u{FFFD}a\u{FFFD}b"))
    );
}
