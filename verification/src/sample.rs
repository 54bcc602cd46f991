//! The integer part of the repetition sampler: where the last sequence breaker ends
//! in the text of the recent tokens, which token that falls into, and for which
//! tokens a repetition of what was said would go on, and how long it would be.

use std::collections::HashMap;
use vstd::prelude::*;

verus! {

/// The needle stands in the haystack at place `i`.
pub open spec fn occurs_at(haystack: Seq<u8>, needle: Seq<u8>, i: int) -> bool {
    &&& 0 <= i
    &&& i + needle.len() <= haystack.len()
    &&& haystack.subrange(i, i + needle.len()) == needle
}

/// Place `i` is the last at which the needle stands in the haystack.
pub open spec fn last_at(haystack: Seq<u8>, needle: Seq<u8>, i: int) -> bool {
    &&& occurs_at(haystack, needle, i)
    &&& forall|j: int| i < j ==> !#[trigger] occurs_at(haystack, needle, j)
}

/// The needle stands nowhere in the haystack.
pub open spec fn absent(haystack: Seq<u8>, needle: Seq<u8>) -> bool {
    forall|j: int| !#[trigger] occurs_at(haystack, needle, j)
}

/// Calls `memchr::memmem::rfind`.  Believed of it: it returns the index of the last
/// occurrence of the needle in the haystack, and nothing where there is none.  An
/// empty needle occurs at every place, the end of the haystack included.
#[verifier::external_body]
fn last_occurrence(haystack: &[u8], needle: &[u8]) -> (found: Option<usize>)
    ensures
        match found {
            Some(i) => last_at(haystack@, needle@, i as int),
            None => absent(haystack@, needle@),
        },
{
    memchr::memmem::rfind(haystack, needle)
}

/// Where the last occurrence of the needle ends, and 0 where there is none.
pub open spec fn end_of_last(haystack: Seq<u8>, needle: Seq<u8>) -> int {
    if exists|i: int| last_at(haystack, needle, i) {
        (choose|i: int| last_at(haystack, needle, i)) + needle.len()
    } else {
        0
    }
}

/// The furthest end of a last occurrence among the first `k` breakers.
pub open spec fn breaker_end(text: Seq<u8>, breakers: Seq<Vec<u8>>, k: nat) -> int
    decreases k,
{
    if k == 0 {
        0
    } else {
        let before = breaker_end(text, breakers, (k - 1) as nat);
        let this = end_of_last(text, breakers[k - 1]@);
        if this > before {
            this
        } else {
            before
        }
    }
}

/// The last occurrence is one place: it determines where it ends.
pub proof fn lemma_end_of_last(haystack: Seq<u8>, needle: Seq<u8>, i: int)
    requires
        last_at(haystack, needle, i),
    ensures
        end_of_last(haystack, needle) == i + needle.len(),
{
    let c = choose|k: int| last_at(haystack, needle, k);
    assert(last_at(haystack, needle, c));
    if c < i {
        assert(!occurs_at(haystack, needle, i));
    }
    if i < c {
        assert(!occurs_at(haystack, needle, c));
    }
}

/// Where the last of the sequence breakers ends in the text: the furthest end of a
/// last occurrence of any of them, and 0 where none occurs.
pub fn breaker_location(text: &[u8], breakers: &[Vec<u8>]) -> (loc: usize)
    ensures
        loc == breaker_end(text@, breakers@, breakers@.len()),
        loc <= text@.len(),
{
    let n = breakers.len();
    let limit = text.len();
    let mut loc: usize = 0;
    let mut k: usize = 0;
    while k < n
        invariant
            k <= n,
            n == breakers@.len(),
            limit == text@.len(),
            loc == breaker_end(text@, breakers@, k as nat),
            loc <= limit,
        decreases n - k,
    {
        let needle = breakers[k].as_slice();
        let end = match last_occurrence(text, needle) {
            Some(i) => {
                proof {
                    lemma_end_of_last(text@, needle@, i as int);
                    assert(i + needle@.len() <= limit);
                }
                i + needle.len()
            },
            None => {
                assert(end_of_last(text@, needle@) == 0) by {
                    if exists|i: int| last_at(text@, needle@, i) {
                        let i = choose|i: int| last_at(text@, needle@, i);
                        assert(occurs_at(text@, needle@, i));
                    }
                }
                0
            },
        };
        if end > loc {
            loc = end;
        }
        k = k + 1;
    }
    loc
}

/// The sizes with the size recorded for the key: it is the key's size unless the key
/// has one that is at least as large.
pub open spec fn record(sizes: Map<i32, usize>, key: i32, size: usize) -> Map<i32, usize> {
    if sizes.contains_key(key) && sizes[key] >= size {
        sizes
    } else {
        sizes.insert(key, size)
    }
}

/// Whether a match that has come back to place `j` goes on at a token `x`: the token
/// at `j` is `x`, and `j` is more than one past the breaker's token.
pub open spec fn goes_on(tokens: Seq<i32>, breaker: usize, x: i32, j: int) -> bool {
    0 <= j < tokens.len() && tokens[j] == x && j > breaker + 1
}

/// The last token stands at place `p`, before the end, and token `c` follows it there.
pub open spec fn starts(tokens: Seq<i32>, p: int, c: i32) -> bool {
    0 <= p && p + 1 < tokens.len() && tokens[p] == tokens.last() && tokens[p + 1] == c
}

/// The tokens before place `p` repeat those before the last token at least `q` back:
/// the token `q` before `p` is the token `q` before the last, and that one stands
/// more than one past the breaker's token.
pub open spec fn extends(tokens: Seq<i32>, breaker: usize, p: int, q: int) -> bool {
    &&& 1 <= q <= p
    &&& p + 1 < tokens.len()
    &&& tokens[p - q] == tokens[tokens.len() - 1 - q]
    &&& tokens.len() - 1 - q > breaker + 1
}

/// The tokens before place `p` repeat those before the last token `m` back.
pub open spec fn runs(tokens: Seq<i32>, breaker: usize, p: int, m: int) -> bool {
    forall|q: int| 1 <= q <= m ==> #[trigger] extends(tokens, breaker, p, q)
}

/// Token `c` follows the last token nowhere from place `i` up to place `p`.
pub open spec fn first_from(tokens: Seq<i32>, i: int, p: int, c: i32) -> bool {
    forall|e: int| i <= e < p ==> !#[trigger] starts(tokens, e, c)
}

/// A match for token `c` from place `p` is running when the tokens back to place `i`
/// have been looked at: the repetition has come that far, and no match for `c` from a
/// place in between has taken its place.
pub open spec fn live(tokens: Seq<i32>, breaker: usize, i: int, c: i32, p: int) -> bool {
    &&& 0 <= i <= p
    &&& starts(tokens, p, c)
    &&& runs(tokens, breaker, p, p - i)
    &&& first_from(tokens, i, p, c)
}

/// The match for token `c` from place `p` is one that is counted: the repetition
/// before `p` is exactly `m` tokens long, and within it `c` follows the last token
/// nowhere else.  (A match that comes back to an earlier place where `c` follows the
/// last token gives way to the match from there.)
pub open spec fn counted(tokens: Seq<i32>, breaker: usize, c: i32, p: int, m: int) -> bool {
    &&& 0 <= m
    &&& starts(tokens, p, c)
    &&& runs(tokens, breaker, p, m)
    &&& !extends(tokens, breaker, p, m + 1)
    &&& first_from(tokens, p - m, p, c)
}

/// The size is that of a counted match for the token: the tokens that repeat, the
/// last token and the token itself.
pub open spec fn counted_size(tokens: Seq<i32>, breaker: usize, c: i32, size: int) -> bool {
    exists|p: int, m: int| #[trigger] counted(tokens, breaker, c, p, m) && size == m + 2
}

/// The sizes give the key a size of at least this one.
pub open spec fn covers(sizes: Map<i32, usize>, key: i32, size: int) -> bool {
    sizes.contains_key(key) && sizes[key] >= size
}

/// Every size is that of a counted match for its token.
pub open spec fn sizes_counted(tokens: Seq<i32>, breaker: usize, sizes: Map<i32, usize>) -> bool {
    forall|c: i32| #[trigger]
        sizes.contains_key(c) ==> counted_size(tokens, breaker, c, sizes[c] as int)
}

/// The sizes give every token the size of every counted match for it that has come
/// to its end after place `i`, or more.
pub open spec fn counts_after(
    tokens: Seq<i32>,
    breaker: usize,
    i: int,
    sizes: Map<i32, usize>,
) -> bool {
    forall|c: i32, p: int, m: int|
        #[trigger] counted(tokens, breaker, c, p, m) && p - m > i ==> covers(sizes, c, m + 2)
}

/// The sizes that the repetition sampler goes by.  Every size is that of a counted
/// match for its token, and no counted match for the token is larger.  So a token has
/// the size of its largest counted match.
pub open spec fn is_dry_result(tokens: Seq<i32>, breaker: usize, sizes: Map<i32, usize>) -> bool {
    &&& sizes_counted(tokens, breaker, sizes)
    &&& forall|c: i32, p: int, m: int| #[trigger]
        counted(tokens, breaker, c, p, m) ==> covers(sizes, c, m + 2)
}

/// The running match of token `c` at place `j` stands for a match that is live at
/// place `i`.
pub open spec fn entry_live(tokens: Seq<i32>, breaker: usize, i: int, c: i32, j: int) -> bool {
    0 <= j && j + 2 <= tokens.len() && live(tokens, breaker, i, c, i + tokens.len() - 2 - j)
}

/// The running matches are the matches that are live at place `i`.
pub open spec fn running(tokens: Seq<i32>, breaker: usize, i: int, active: Map<i32, usize>) -> bool {
    &&& forall|c: i32| #[trigger]
        active.contains_key(c) ==> entry_live(tokens, breaker, i, c, active[c] as int)
    &&& forall|c: i32, p: int| #[trigger]
        live(tokens, breaker, i, c, p) ==> active.contains_key(c) && active[c] == tokens.len() - 2
            - (p - i)
}

/// The running match of token `c` at place `j` has been held against the token `x`:
/// where it goes on it is kept, one place further back, and where it ends its size
/// is on record.
pub open spec fn settled(
    tokens: Seq<i32>,
    breaker: usize,
    x: i32,
    c: i32,
    j: int,
    kept: Map<i32, usize>,
    sizes: Map<i32, usize>,
) -> bool {
    if goes_on(tokens, breaker, x, j) {
        kept.contains_key(c) && kept[c] == j - 1
    } else {
        covers(sizes, c, tokens.len() - j)
    }
}

/// Every match that is kept is a running match that goes on at `x`, one place
/// further back.
pub open spec fn kept_from(
    tokens: Seq<i32>,
    breaker: usize,
    x: i32,
    active: Map<i32, usize>,
    kept: Map<i32, usize>,
) -> bool {
    forall|c: i32| #[trigger]
        kept.contains_key(c) ==> active.contains_key(c) && goes_on(
            tokens,
            breaker,
            x,
            active[c] as int,
        ) && kept[c] == active[c] - 1
}

fn record_size(sizes: &mut HashMap<i32, usize>, key: i32, size: usize)
    ensures
        final(sizes)@ == record(old(sizes)@, key, size),
{
    broadcast use vstd::std_specs::hash::group_hash_axioms;

    let known = match sizes.get(&key) {
        Some(held) => *held >= size,
        None => false,
    };
    if !known {
        sizes.insert(key, size);
    }
}

/// Finds, for every token that followed an earlier occurrence of the last token, the
/// size of its largest counted match: the repetition that the token would continue,
/// the last token and the token itself.  No repetition is followed back past the
/// token after the last sequence breaker's token.
pub fn dry_matches(tokens: &[i32], breaker_token: usize) -> (out: HashMap<i32, usize>)
    ensures
        is_dry_result(tokens@, breaker_token, out@),
{
    broadcast use vstd::std_specs::hash::group_hash_axioms;

    let n = tokens.len();
    let mut lengths: HashMap<i32, usize> = HashMap::new();
    if n < 2 {
        return lengths;
    }
    let last = tokens[n - 1];
    let mut active: HashMap<i32, usize> = HashMap::new();
    let mut i: usize = n - 1;
    while i > 0
        invariant
            i < n,
            n == tokens@.len(),
            last == tokens@.last(),
            running(tokens@, breaker_token, i as int, active@),
            counts_after(tokens@, breaker_token, i as int, lengths@),
            sizes_counted(tokens@, breaker_token, lengths@),
        decreases i,
    {
        i = i - 1;
        let x = tokens[i];
        let mut kept: HashMap<i32, usize> = HashMap::new();
        for pair in it: active.iter()
            invariant
                n == tokens@.len(),
                i + 1 < n,
                x == tokens@[i as int],
                running(tokens@, breaker_token, i + 1, active@),
                counts_after(tokens@, breaker_token, i + 1, lengths@),
                sizes_counted(tokens@, breaker_token, lengths@),
                kept_from(tokens@, breaker_token, x, active@, kept@),
                forall|t: int|
                    0 <= t < it.index() ==> settled(
                        tokens@,
                        breaker_token,
                        x,
                        *(#[trigger] it.seq()[t]).0,
                        *it.seq()[t].1 as int,
                        kept@,
                        lengths@,
                    ),
        {
            let (c, j) = pair;
            let ghost held = kept@;
            let ghost before = lengths@;
            assert(active@.contains_key(*c) && active@[*c] == *j);
            assert(entry_live(tokens@, breaker_token, i + 1, *c, *j as int));
            if tokens[*j] == x && *j >= 1 && *j - 1 > breaker_token {
                kept.insert(*c, *j - 1);
            } else {
                record_size(&mut lengths, *c, n - *j);
                proof {
                    lemma_ends(tokens@, breaker_token, i as int, *c, *j as int);
                }
            }
            assert forall|t: int| 0 <= t < it.index() + 1 implies settled(
                tokens@,
                breaker_token,
                x,
                *(#[trigger] it.seq()[t]).0,
                *it.seq()[t].1 as int,
                kept@,
                lengths@,
            ) by {
                if t < it.index() {
                    assert(settled(
                        tokens@,
                        breaker_token,
                        x,
                        *it.seq()[t].0,
                        *it.seq()[t].1 as int,
                        held,
                        before,
                    ));
                    assert(active@.contains_key(*it.seq()[t].0) && active@[*it.seq()[t].0]
                        == *it.seq()[t].1);
                }
            }
        }
        proof {
            assert forall|c: i32| #[trigger] active@.contains_key(c) implies settled(
                tokens@,
                breaker_token,
                x,
                c,
                active@[c] as int,
                kept@,
                lengths@,
            ) by {}
            lemma_place_done(tokens@, breaker_token, i as int, active@, kept@, lengths@);
        }
        active = kept;
        if x == last {
            active.insert(tokens[i + 1], n - 2);
        }
    }
    for pair in it: active.iter()
        invariant
            n == tokens@.len(),
            running(tokens@, breaker_token, 0, active@),
            counts_after(tokens@, breaker_token, 0, lengths@),
            sizes_counted(tokens@, breaker_token, lengths@),
            forall|t: int|
                0 <= t < it.index() ==> covers(
                    lengths@,
                    *(#[trigger] it.seq()[t]).0,
                    n - *it.seq()[t].1,
                ),
    {
        let (c, j) = pair;
        let ghost before = lengths@;
        assert(active@.contains_key(*c) && active@[*c] == *j);
        assert(entry_live(tokens@, breaker_token, 0, *c, *j as int));
        record_size(&mut lengths, *c, n - *j);
        proof {
            lemma_runs_out(tokens@, breaker_token, *c, *j as int);
            assert forall|t: int| 0 <= t < it.index() + 1 implies covers(
                lengths@,
                *(#[trigger] it.seq()[t]).0,
                n - *it.seq()[t].1,
            ) by {
                if t < it.index() {
                    assert(covers(before, *it.seq()[t].0, n - *it.seq()[t].1));
                }
            }
        }
    }
    proof {
        assert forall|c: i32| #[trigger] active@.contains_key(c) implies covers(
            lengths@,
            c,
            n - active@[c],
        ) by {}
        lemma_all_done(tokens@, breaker_token, active@, lengths@);
    }
    lengths
}

/// A match that goes on at place `i` is live there but for a match that starts there.
proof fn lemma_goes_on(tokens: Seq<i32>, breaker: usize, i: int, c: i32, j: int)
    requires
        0 <= i,
        entry_live(tokens, breaker, i + 1, c, j),
        goes_on(tokens, breaker, tokens[i], j),
    ensures
        j >= 1,
        !starts(tokens, i, c) ==> entry_live(tokens, breaker, i, c, j - 1),
{
    let p = i + 1 + tokens.len() - 2 - j;
    assert(extends(tokens, breaker, p, p - i));
    assert forall|q: int| 1 <= q <= p - i implies #[trigger] extends(tokens, breaker, p, q) by {
        if q < p - i {
            assert(runs(tokens, breaker, p, p - i - 1));
        }
    }
    if !starts(tokens, i, c) {
        assert(first_from(tokens, i, p, c));
    }
}

/// A match that ends at place `i` is counted, with the size that goes on record.
proof fn lemma_ends(tokens: Seq<i32>, breaker: usize, i: int, c: i32, j: int)
    requires
        0 <= i,
        entry_live(tokens, breaker, i + 1, c, j),
        !goes_on(tokens, breaker, tokens[i], j),
    ensures
        counted_size(tokens, breaker, c, tokens.len() - j),
{
    let p = i + 1 + tokens.len() - 2 - j;
    let m = p - i - 1;
    assert(!extends(tokens, breaker, p, m + 1));
    assert(counted(tokens, breaker, c, p, m));
}

/// A match that is still running when all tokens have been looked at is counted.
proof fn lemma_runs_out(tokens: Seq<i32>, breaker: usize, c: i32, j: int)
    requires
        entry_live(tokens, breaker, 0, c, j),
    ensures
        counted_size(tokens, breaker, c, tokens.len() - j),
{
    let p = tokens.len() - 2 - j;
    assert(!extends(tokens, breaker, p, p + 1));
    assert(counted(tokens, breaker, c, p, p));
}

/// A match that is live at place `i` and started after it was live one place later,
/// and went on at place `i`.
proof fn lemma_live_back(tokens: Seq<i32>, breaker: usize, i: int, c: i32, p: int)
    requires
        live(tokens, breaker, i, c, p),
        i < p,
    ensures
        live(tokens, breaker, i + 1, c, p),
        !starts(tokens, i, c),
        goes_on(tokens, breaker, tokens[i], tokens.len() - 2 - (p - i - 1)),
{
    assert(extends(tokens, breaker, p, p - i));
    assert forall|q: int| 1 <= q <= p - i - 1 implies #[trigger] extends(tokens, breaker, p, q) by {}
    assert(first_from(tokens, i + 1, p, c));
}

/// A counted match that ends at place `i` was live one place later, and did not go
/// on at place `i`.
proof fn lemma_counted_ends(tokens: Seq<i32>, breaker: usize, i: int, c: i32, p: int, m: int)
    requires
        0 <= i,
        counted(tokens, breaker, c, p, m),
        p - m == i + 1,
    ensures
        live(tokens, breaker, i + 1, c, p),
        !goes_on(tokens, breaker, tokens[i], tokens.len() - 2 - m),
{
    assert(!extends(tokens, breaker, p, m + 1));
}

/// A counted match that never ends was live when all tokens had been looked at.
proof fn lemma_counted_runs_out(tokens: Seq<i32>, breaker: usize, c: i32, p: int, m: int)
    requires
        counted(tokens, breaker, c, p, m),
        p - m <= 0,
    ensures
        m == p,
        live(tokens, breaker, 0, c, p),
{
    if m > p {
        assert(extends(tokens, breaker, p, p + 1));
    }
}

/// Once every running match has been held against the token at place `i`, the matches
/// that were kept and the one that starts there are the matches live at `i`, and the
/// sizes on record cover the matches that ended there.
proof fn lemma_place_done(
    tokens: Seq<i32>,
    breaker: usize,
    i: int,
    active: Map<i32, usize>,
    kept: Map<i32, usize>,
    sizes: Map<i32, usize>,
)
    requires
        0 <= i,
        i + 1 < tokens.len() <= usize::MAX,
        running(tokens, breaker, i + 1, active),
        kept_from(tokens, breaker, tokens[i], active, kept),
        forall|c: i32| #[trigger]
            active.contains_key(c) ==> settled(
                tokens,
                breaker,
                tokens[i],
                c,
                active[c] as int,
                kept,
                sizes,
            ),
        counts_after(tokens, breaker, i + 1, sizes),
    ensures
        counts_after(tokens, breaker, i, sizes),
        tokens[i] != tokens.last() ==> running(tokens, breaker, i, kept),
        tokens[i] == tokens.last() ==> running(
            tokens,
            breaker,
            i,
            kept.insert(tokens[i + 1], (tokens.len() - 2) as usize),
        ),
{
    let n = tokens.len() as int;
    let x = tokens[i];
    assert forall|c: i32, p: int, m: int| #[trigger]
        counted(tokens, breaker, c, p, m) && p - m > i implies covers(sizes, c, m + 2) by {
        if p - m == i + 1 {
            lemma_counted_ends(tokens, breaker, i, c, p, m);
            assert(active.contains_key(c) && active[c] == n - 2 - m);
            assert(settled(tokens, breaker, x, c, active[c] as int, kept, sizes));
        }
    }
    let key = tokens[i + 1];
    let after = if x == tokens.last() {
        kept.insert(key, (n - 2) as usize)
    } else {
        kept
    };
    assert forall|c: i32| #[trigger] after.contains_key(c) implies entry_live(
        tokens,
        breaker,
        i,
        c,
        after[c] as int,
    ) by {
        if x == tokens.last() && c == key {
            assert(starts(tokens, i, key));
            assert(live(tokens, breaker, i, key, i));
        } else {
            assert(kept.contains_key(c));
            assert(entry_live(tokens, breaker, i + 1, c, active[c] as int));
            lemma_goes_on(tokens, breaker, i, c, active[c] as int);
            assert(!starts(tokens, i, c));
        }
    }
    assert forall|c: i32, p: int| #[trigger] live(tokens, breaker, i, c, p) implies after.contains_key(
        c,
    ) && after[c] == n - 2 - (p - i) by {
        if p == i {
            assert(x == tokens.last() && c == key);
        } else {
            lemma_live_back(tokens, breaker, i, c, p);
            assert(active.contains_key(c) && active[c] == n - 2 - (p - (i + 1)));
            assert(settled(tokens, breaker, x, c, active[c] as int, kept, sizes));
        }
    }
}

/// Once the matches still running are on record, the sizes on record are those that
/// the sampler goes by.
proof fn lemma_all_done(
    tokens: Seq<i32>,
    breaker: usize,
    active: Map<i32, usize>,
    sizes: Map<i32, usize>,
)
    requires
        running(tokens, breaker, 0, active),
        counts_after(tokens, breaker, 0, sizes),
        sizes_counted(tokens, breaker, sizes),
        forall|c: i32| #[trigger]
            active.contains_key(c) ==> covers(sizes, c, tokens.len() - active[c]),
    ensures
        is_dry_result(tokens, breaker, sizes),
{
    let n = tokens.len() as int;
    assert forall|c: i32, p: int, m: int| #[trigger]
        counted(tokens, breaker, c, p, m) implies covers(sizes, c, m + 2) by {
        if p - m <= 0 {
            lemma_counted_runs_out(tokens, breaker, c, p, m);
            assert(active.contains_key(c) && active[c] == n - 2 - (p - 0));
        }
    }
}

proof fn lemma_first_start(tokens: Seq<i32>, c: i32, p: int, k: int) -> (e: int)
    requires
        starts(tokens, p, c),
        0 <= k <= p,
        first_from(tokens, 0, k, c),
    ensures
        k <= e <= p,
        starts(tokens, e, c),
        first_from(tokens, 0, e, c),
    decreases p - k,
{
    if starts(tokens, k, c) {
        k
    } else {
        assert(first_from(tokens, 0, k + 1, c));
        lemma_first_start(tokens, c, p, k + 1)
    }
}

proof fn lemma_run_end(tokens: Seq<i32>, breaker: usize, p: int, m: int) -> (r: int)
    requires
        0 <= m <= p,
        runs(tokens, breaker, p, m),
    ensures
        m <= r <= p,
        runs(tokens, breaker, p, r),
        !extends(tokens, breaker, p, r + 1),
    decreases p - m,
{
    if extends(tokens, breaker, p, m + 1) {
        assert(runs(tokens, breaker, p, m + 1));
        lemma_run_end(tokens, breaker, p, m + 1)
    } else {
        m
    }
}

/// The tokens that have a size are those that follow an earlier occurrence of the
/// last token, and every size is at least 2 and at most the number of tokens.
pub proof fn lemma_dry_tokens(tokens: Seq<i32>, breaker: usize, sizes: Map<i32, usize>)
    requires
        is_dry_result(tokens, breaker, sizes),
    ensures
        forall|c: i32, p: int| #[trigger] starts(tokens, p, c) ==> covers(sizes, c, 2),
        forall|c: i32| #[trigger]
            sizes.contains_key(c) ==> 2 <= sizes[c] <= tokens.len() && exists|p: int|
                starts(tokens, p, c),
{
    assert forall|c: i32, p: int| #[trigger] starts(tokens, p, c) implies covers(sizes, c, 2) by {
        assert(first_from(tokens, 0, 0, c));
        let e = lemma_first_start(tokens, c, p, 0);
        assert(runs(tokens, breaker, e, 0));
        let r = lemma_run_end(tokens, breaker, e, 0);
        assert(first_from(tokens, e - r, e, c));
        assert(counted(tokens, breaker, c, e, r));
        assert(covers(sizes, c, r + 2));
    }
    assert forall|c: i32| #[trigger] sizes.contains_key(c) implies 2 <= sizes[c] <= tokens.len()
        && exists|p: int| starts(tokens, p, c) by {
        assert(counted_size(tokens, breaker, c, sizes[c] as int));
        let (p, m) = choose|p: int, m: int| #[trigger]
            counted(tokens, breaker, c, p, m) && sizes[c] == m + 2;
        if m > p {
            assert(extends(tokens, breaker, p, p + 1));
        }
        assert(starts(tokens, p, c));
    }
}

proof fn lemma_size_covered(
    tokens: Seq<i32>,
    breaker: usize,
    sizes: Map<i32, usize>,
    other: Map<i32, usize>,
    c: i32,
)
    requires
        sizes.contains_key(c),
        sizes_counted(tokens, breaker, sizes),
        is_dry_result(tokens, breaker, other),
    ensures
        covers(other, c, sizes[c] as int),
{
    assert(counted_size(tokens, breaker, c, sizes[c] as int));
    let (p, m) = choose|p: int, m: int| #[trigger]
        counted(tokens, breaker, c, p, m) && sizes[c] == m + 2;
    assert(covers(other, c, m + 2));
}

/// The sizes are determined: no two maps are the sizes that the sampler goes by.
pub proof fn lemma_dry_sizes_determined(
    tokens: Seq<i32>,
    breaker: usize,
    first: Map<i32, usize>,
    second: Map<i32, usize>,
)
    requires
        is_dry_result(tokens, breaker, first),
        is_dry_result(tokens, breaker, second),
    ensures
        first == second,
{
    assert forall|c: i32| first.contains_key(c) implies second.contains_key(c) && first[c]
        == second[c] by {
        lemma_size_covered(tokens, breaker, first, second, c);
        lemma_size_covered(tokens, breaker, second, first, c);
    }
    assert forall|c: i32| second.contains_key(c) implies first.contains_key(c) by {
        lemma_size_covered(tokens, breaker, second, first, c);
    }
    assert(first =~= second);
}

/// The lengths of the first `k` pieces, added up.
pub open spec fn pieces_len(lengths: Seq<usize>, k: nat) -> nat
    decreases k,
{
    if k == 0 {
        0
    } else {
        pieces_len(lengths, (k - 1) as nat) + lengths[k - 1] as nat
    }
}

/// The pieces up to and with piece `t` reach the place, and those before it do not.
pub open spec fn reaches(lengths: Seq<usize>, place: usize, t: int) -> bool {
    &&& 0 <= t < lengths.len()
    &&& pieces_len(lengths, (t + 1) as nat) >= place
    &&& forall|j: int| 0 <= j < t ==> pieces_len(lengths, #[trigger] (j + 1) as nat) < place
}

/// The sums of lengths grow.
pub proof fn lemma_pieces_len_grows(lengths: Seq<usize>, i: nat, j: nat)
    requires
        i <= j,
    ensures
        pieces_len(lengths, i) <= pieces_len(lengths, j),
    decreases j,
{
    if i < j {
        lemma_pieces_len_grows(lengths, i, (j - 1) as nat);
    }
}

/// The first token whose text ends at or after the place, given the length of every
/// token's text; the number of tokens where the texts end before the place.
pub fn breaker_token(lengths: &[usize], place: usize) -> (t: usize)
    requires
        pieces_len(lengths@, lengths@.len()) <= usize::MAX,
    ensures
        t <= lengths@.len(),
        t < lengths@.len() ==> reaches(lengths@, place, t as int),
        t == lengths@.len() ==> forall|j: int|
            0 <= j < lengths@.len() ==> pieces_len(lengths@, #[trigger] (j + 1) as nat) < place,
{
    let n = lengths.len();
    let mut sum: usize = 0;
    let mut t: usize = 0;
    while t < n
        invariant
            t <= n,
            n == lengths@.len(),
            pieces_len(lengths@, n as nat) <= usize::MAX,
            sum == pieces_len(lengths@, t as nat),
            forall|j: int| 0 <= j < t ==> pieces_len(lengths@, #[trigger] (j + 1) as nat) < place,
        decreases n - t,
    {
        proof {
            lemma_pieces_len_grows(lengths@, (t + 1) as nat, n as nat);
        }
        sum = sum + lengths[t];
        if sum >= place {
            return t;
        }
        t = t + 1;
    }
    n
}

} // verus!
