use steg_codec::sample::{breaker_location, breaker_token, dry_matches};

/// The sizes as a list, from the smallest token up.
fn sizes(tokens: &[i32], breaker: usize) -> Vec<(i32, usize)> {
    let mut list: Vec<(i32, usize)> = dry_matches(tokens, breaker).into_iter().collect();
    list.sort();
    list
}

fn breakers(list: &[&[u8]]) -> Vec<Vec<u8>> {
    list.iter().map(|b| b.to_vec()).collect()
}

#[test]
fn breaker_location_is_the_furthest_end_of_a_last_occurrence() {
    let text = b"foo bar baz";
    assert_eq!(breaker_location(text, &breakers(&[b"bar", b"ba"])), 10);
    assert_eq!(breaker_location(text, &breakers(&[b"bar"])), 7);
    assert_eq!(breaker_location(text, &breakers(&[b"ba", b"foo", b"bar"])), 10);
    assert_eq!(breaker_location(text, &breakers(&[b"foo"])), 3);
}

#[test]
fn breaker_location_is_zero_where_no_breaker_occurs() {
    assert_eq!(breaker_location(b"foo bar baz", &breakers(&[b"quux"])), 0);
    assert_eq!(breaker_location(b"foo bar baz", &[]), 0);
    assert_eq!(breaker_location(b"", &breakers(&[b"\n"])), 0);
}

#[test]
fn an_empty_breaker_occurs_at_the_end_of_the_text() {
    assert_eq!(breaker_location(b"abc", &breakers(&[b""])), 3);
    assert_eq!(breaker_location(b"", &breakers(&[b""])), 0);
}

#[test]
fn breaker_location_finds_the_last_of_overlapping_occurrences() {
    assert_eq!(breaker_location(b"aaaa", &breakers(&[b"aa"])), 4);
    // A long text goes through the other search of the outside crate.
    let mut text = vec![b'x'; 200];
    text[10..13].copy_from_slice(b"\n\n\n");
    text[150..152].copy_from_slice(b"\n\n");
    assert_eq!(breaker_location(&text, &breakers(&[b"\n\n"])), 152);
    assert_eq!(breaker_location(&text, &breakers(&[b"\n\n\n"])), 13);
}

#[test]
fn breaker_token_is_the_first_token_that_reaches_the_place() {
    let lengths = [3, 1, 3, 1, 3];
    assert_eq!(breaker_token(&lengths, 7), 2);
    assert_eq!(breaker_token(&lengths, 8), 3);
    assert_eq!(breaker_token(&lengths, 3), 0);
    assert_eq!(breaker_token(&lengths, 0), 0);
    assert_eq!(breaker_token(&lengths, 11), 4);
    assert_eq!(breaker_token(&lengths, 12), 5);
    assert_eq!(breaker_token(&[], 0), 0);
}

#[test]
fn no_repetition_in_fewer_than_two_tokens() {
    assert_eq!(sizes(&[], 0), Vec::new());
    assert_eq!(sizes(&[4], 0), Vec::new());
    assert_eq!(sizes(&[4, 5], 0), Vec::new());
}

#[test]
fn a_token_after_an_earlier_last_token_continues_a_repetition() {
    // The last token 5 stood at the start, followed by 9: 9 would repeat "5 9".
    assert_eq!(sizes(&[5, 9, 5], 0), vec![(9, 2)]);
    assert_eq!(sizes(&[7, 7, 7], 0), vec![(7, 2)]);
}

#[test]
fn a_repetition_is_followed_back_while_the_tokens_agree() {
    // "1 2" at the end stood before at places 3 and 4, followed by 3.  The match from
    // there comes back to place 1, where 3 follows the last token too, and gives way
    // to the match from there.
    assert_eq!(sizes(&[1, 2, 3, 1, 2, 3, 1, 2], 0), vec![(3, 3)]);
    assert_eq!(sizes(&[8, 1, 2, 3, 9, 1, 2], 0), vec![(3, 3)]);
    assert_eq!(sizes(&[1, 2, 3, 9, 9, 1, 2, 4, 1, 2], 0), vec![(3, 3), (4, 3)]);
}

#[test]
fn a_repetition_is_not_followed_past_the_breaker() {
    assert_eq!(sizes(&[8, 1, 2, 3, 9, 1, 2], 5), vec![(3, 2)]);
    assert_eq!(sizes(&[8, 1, 2, 3, 9, 1, 2], 4), vec![(3, 2)]);
    assert_eq!(sizes(&[8, 1, 2, 3, 9, 1, 2], 3), vec![(3, 3)]);
    assert_eq!(sizes(&[1, 2, 3, 1, 2, 3, 1, 2], 4), vec![(3, 3)]);
}

#[test]
fn a_token_has_the_size_of_its_largest_counted_match() {
    // 3 follows the last token 2 at places 1 and 5.  The match from place 5 ends at
    // once (7 is not 9) with size 2; the match from place 1 goes back over 1: size 3.
    assert_eq!(sizes(&[1, 2, 3, 4, 7, 2, 3, 9, 1, 2], 0), vec![(3, 3)]);
    // The other way round, the larger match is found first and stays on record.
    assert_eq!(sizes(&[7, 2, 3, 4, 1, 2, 3, 9, 1, 2], 0), vec![(3, 3)]);
    // Tokens that follow the last token nowhere have no size.
    assert_eq!(dry_matches(&[1, 2, 3, 4, 7, 2, 3, 9, 1, 2], 0).get(&4), None);
    assert_eq!(dry_matches(&[1, 2, 3, 4, 7, 2, 3, 9, 1, 2], 0).get(&3), Some(&3));
}
