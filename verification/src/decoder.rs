//! Text from the bytes of tokens: a repair of malformed UTF-8 that works in the
//! buffer it is given, and a decoder that joins characters split over tokens.
//!
//! What is valid UTF-8 and where it breaks is asked of the standard library; what is
//! done with the answers is done by functions that take the answers as arguments.

use vstd::prelude::*;
use vstd::slice::{slice_subrange, slice_to_vec};
use vstd::utf8::{
    encode_utf8, encode_utf8_valid_utf8, is_leading_byte_width_1, length_of_first_scalar,
    partial_valid_utf8, partial_valid_utf8_extend_ascii_block, pop_first_scalar,
    valid_first_scalar, valid_utf8, valid_utf8_concat,
};

verus! {

/// The length that `std::str::from_utf8` reports for the invalid sequence in bytes
/// that are not valid UTF-8, and 0 where it reports that the bytes end inside a
/// character.
pub uninterp spec fn utf8_error_len(bytes: Seq<u8>) -> int;

/// The length of the invalid part of the first chunk that `<[u8]>::utf8_chunks` cuts
/// the bytes into: the sequence that lossy decoding replaces by one U+FFFD.
pub uninterp spec fn utf8_invalid_len(bytes: Seq<u8>) -> int;

/// What a scan of bytes for UTF-8 finds.
#[derive(Clone, Copy, Debug)]
pub enum Utf8Scan {
    /// The bytes are valid UTF-8.
    Valid,
    /// The bytes are valid up to `valid_up_to`.  There an invalid sequence of
    /// `error_len` bytes starts, or, with no `error_len`, a character that the bytes
    /// do not finish.
    Broken { valid_up_to: usize, error_len: Option<usize> },
}

/// `v` is the length of the longest prefix of the bytes that is valid UTF-8.
pub open spec fn longest_valid_prefix(bytes: Seq<u8>, v: int) -> bool {
    &&& 0 <= v <= bytes.len()
    &&& valid_utf8(bytes.take(v))
    &&& forall|k: int| v < k <= bytes.len() ==> !valid_utf8(#[trigger] bytes.take(k))
}

/// Calls `std::str::from_utf8`.  Believed of it: it accepts exactly the valid UTF-8;
/// the error's `valid_up_to` is the largest index up to which the bytes are valid; its
/// `error_len` is a function of the bytes; where it is given, it is the length of a
/// sequence of bytes that starts there; where it is not, one to three bytes are left.
#[verifier::external_body]
fn scan_utf8(bytes: &[u8]) -> (scan: Utf8Scan)
    ensures
        scan is Valid <==> valid_utf8(bytes@),
        scan matches Utf8Scan::Broken { valid_up_to, error_len } ==> {
            &&& longest_valid_prefix(bytes@, valid_up_to as int)
            &&& valid_up_to < bytes@.len()
            &&& utf8_error_len(bytes@) == match error_len {
                Some(n) => n as int,
                None => 0,
            }
            &&& error_len matches Some(n) ==> 1 <= n && valid_up_to + n <= bytes@.len()
            &&& error_len is None ==> bytes@.len() - valid_up_to <= 3
        },
{
    match std::str::from_utf8(bytes) {
        Ok(_) => Utf8Scan::Valid,
        Err(e) => Utf8Scan::Broken { valid_up_to: e.valid_up_to(), error_len: e.error_len() },
    }
}

/// Calls `<[u8]>::utf8_chunks` and takes the first chunk.  Believed of it: the chunk's
/// valid part is the longest prefix of the bytes that is valid UTF-8; the invalid part
/// that follows it is a function of the bytes, is at most three bytes long, lies
/// within the bytes, and is empty exactly where the valid part is all of the bytes.
#[verifier::external_body]
fn first_chunk(bytes: &[u8]) -> (lens: (usize, usize))
    ensures
        longest_valid_prefix(bytes@, lens.0 as int),
        lens.1 == utf8_invalid_len(bytes@),
        lens.1 <= 3,
        lens.0 + lens.1 <= bytes@.len(),
        lens.1 == 0 <==> lens.0 == bytes@.len(),
{
    match bytes.utf8_chunks().next() {
        Some(chunk) => (chunk.valid().len(), chunk.invalid().len()),
        None => (0, 0),
    }
}

/// Calls `String::from_utf8`.  Believed of it: it gives a string exactly for valid
/// UTF-8, and the string's bytes are the bytes given.
#[verifier::external_body]
fn string_from_utf8(bytes: Vec<u8>) -> (text: Option<String>)
    ensures
        text is Some <==> valid_utf8(bytes@),
        text matches Some(s) ==> encode_utf8(s@) == bytes@,
{
    String::from_utf8(bytes).ok()
}

/// The bytes of U+FFFD, the replacement character.
pub open spec fn replacement() -> Seq<u8> {
    seq![0xEFu8, 0xBFu8, 0xBDu8]
}

/// The length of the longest prefix of the bytes that is valid UTF-8.
pub open spec fn valid_prefix_len(bytes: Seq<u8>) -> int {
    choose|v: int| longest_valid_prefix(bytes, v)
}

/// The length of the invalid sequence that follows the longest valid prefix: the
/// invalid part of the first chunk, which is one to three bytes long.
pub open spec fn broken_len(bytes: Seq<u8>) -> int {
    let v = valid_prefix_len(bytes);
    let e = utf8_invalid_len(bytes);
    if 1 <= e <= 3 && v + e <= bytes.len() {
        e
    } else {
        1
    }
}

/// The bytes with every maximal invalid sequence replaced by one U+FFFD.
pub open spec fn lossy(bytes: Seq<u8>) -> Seq<u8>
    decreases bytes.len(),
{
    if valid_utf8(bytes) {
        bytes
    } else {
        let v = valid_prefix_len(bytes);
        let n = broken_len(bytes);
        if 0 <= v && 1 <= n && v + n <= bytes.len() {
            bytes.take(v) + replacement() + lossy(bytes.skip(v + n))
        } else {
            bytes.take(v) + replacement()
        }
    }
}

proof fn lemma_prefix_search(bytes: Seq<u8>, k: int) -> (v: int)
    requires
        0 <= k <= bytes.len(),
        forall|m: int| k < m <= bytes.len() ==> !valid_utf8(#[trigger] bytes.take(m)),
    ensures
        longest_valid_prefix(bytes, v),
    decreases k,
{
    if valid_utf8(bytes.take(k)) {
        k
    } else {
        assert(k > 0) by {
            if k == 0 {
                assert(bytes.take(0).len() == 0);
            }
        }
        lemma_prefix_search(bytes, k - 1)
    }
}

/// Every byte string has a longest valid prefix, and only one.  Bytes that are not
/// valid have an invalid sequence of one to three bytes after it.
pub proof fn lemma_valid_prefix_len(bytes: Seq<u8>)
    ensures
        longest_valid_prefix(bytes, valid_prefix_len(bytes)),
        forall|v: int| longest_valid_prefix(bytes, v) ==> v == valid_prefix_len(bytes),
        valid_utf8(bytes) ==> valid_prefix_len(bytes) == bytes.len(),
        1 <= broken_len(bytes) <= 3,
        !valid_utf8(bytes) ==> 0 <= valid_prefix_len(bytes) < bytes.len() && valid_prefix_len(
            bytes,
        ) + broken_len(bytes) <= bytes.len(),
{
    let w = lemma_prefix_search(bytes, bytes.len() as int);
    let c = valid_prefix_len(bytes);
    assert(bytes.take(bytes.len() as int) == bytes);
    assert forall|v: int| longest_valid_prefix(bytes, v) implies v == c by {
        if v < c {
            assert(!valid_utf8(bytes.take(c)));
        }
        if c < v {
            assert(!valid_utf8(bytes.take(v)));
        }
    }
}

/// The replacement character is valid UTF-8.
pub proof fn lemma_replacement_valid()
    ensures
        valid_utf8(replacement()),
{
    let r = replacement();
    assert((((0xEFu8 & 0x0F) as u32) << 12) | (((0xBFu8 & 0x3f) as u32) << 6) | ((0xBDu8 & 0x3f) as u32)
        == 0xFFFDu32) by (bit_vector);
    assert(valid_first_scalar(r));
    assert(length_of_first_scalar(r) == 3);
    assert(pop_first_scalar(r).len() == 0);
    reveal_with_fuel(valid_utf8, 2);
}

/// The repair is valid UTF-8.
pub proof fn lemma_lossy_valid(bytes: Seq<u8>)
    ensures
        valid_utf8(lossy(bytes)),
    decreases bytes.len(),
{
    if !valid_utf8(bytes) {
        lemma_valid_prefix_len(bytes);
        lemma_replacement_valid();
        let v = valid_prefix_len(bytes);
        let n = broken_len(bytes);
        lemma_lossy_valid(bytes.skip(v + n));
        valid_utf8_concat(bytes.take(v), replacement());
        valid_utf8_concat(bytes.take(v) + replacement(), lossy(bytes.skip(v + n)));
    }
}

/// Repairing twice is repairing once.
pub proof fn lemma_lossy_idempotent(bytes: Seq<u8>)
    ensures
        lossy(lossy(bytes)) == lossy(bytes),
{
    lemma_lossy_valid(bytes);
}

/// Plain ASCII is valid and passes through the repair unchanged.
pub proof fn lemma_lossy_ascii(bytes: Seq<u8>)
    requires
        forall|i: int| 0 <= i < bytes.len() ==> #[trigger] bytes[i] < 0x80,
    ensures
        valid_utf8(bytes),
        lossy(bytes) == bytes,
{
    assert(bytes.subrange(0, 0).len() == 0);
    assert(partial_valid_utf8(bytes, 0));
    assert forall|i: int| 0 <= 0 <= i < bytes.len() <= bytes.len() implies #[trigger] is_leading_byte_width_1(
        bytes[i],
    ) by {}
    partial_valid_utf8_extend_ascii_block(bytes, 0, bytes.len() as int);
    assert(bytes.subrange(0, bytes.len() as int) == bytes);
}

/// In bytes that are not valid the repair keeps the longest valid prefix, puts one
/// U+FFFD for the invalid sequence after it, and repairs what follows.
pub proof fn lemma_lossy_unfold(bytes: Seq<u8>)
    requires
        !valid_utf8(bytes),
    ensures
        lossy(bytes) == bytes.take(valid_prefix_len(bytes)) + replacement() + lossy(
            bytes.skip(valid_prefix_len(bytes) + broken_len(bytes)),
        ),
{
    lemma_valid_prefix_len(bytes);
}

/// The number of bytes that the first `k` chunks cover: of every chunk its valid part
/// and the invalid part after it.
pub open spec fn chunks_in(chunks: Seq<(usize, usize)>, k: nat) -> nat
    decreases k,
{
    if k == 0 {
        0
    } else {
        (chunks_in(chunks, (k - 1) as nat) + chunks[k - 1].0 + chunks[k - 1].1) as nat
    }
}

/// The number of bytes of the first `k` chunks once they are repaired: of every chunk
/// its valid part, and three bytes where it has an invalid part.
pub open spec fn chunks_out(chunks: Seq<(usize, usize)>, k: nat) -> nat
    decreases k,
{
    if k == 0 {
        0
    } else {
        (chunks_out(chunks, (k - 1) as nat) + chunks[k - 1].0 + if chunks[k - 1].1 > 0 {
            3int
        } else {
            0int
        }) as nat
    }
}

/// The bytes of the first `k` chunks with every invalid part replaced by U+FFFD.
pub open spec fn replaced(bytes: Seq<u8>, chunks: Seq<(usize, usize)>, k: nat) -> Seq<u8>
    decreases k,
{
    if k == 0 {
        Seq::empty()
    } else {
        let before = replaced(bytes, chunks, (k - 1) as nat);
        let at = chunks_in(chunks, (k - 1) as nat) as int;
        let valid = bytes.subrange(at, at + chunks[k - 1].0);
        if chunks[k - 1].1 > 0 {
            before + valid + replacement()
        } else {
            before + valid
        }
    }
}

/// The chunks cover the bytes, and no invalid part is longer than three bytes.
pub open spec fn chunks_fit(bytes: Seq<u8>, chunks: Seq<(usize, usize)>) -> bool {
    &&& chunks_in(chunks, chunks.len()) == bytes.len()
    &&& forall|k: int| 0 <= k < chunks.len() ==> (#[trigger] chunks[k]).1 <= 3
}

/// More chunks cover more bytes and repair to more bytes.
pub proof fn lemma_chunks_grow(chunks: Seq<(usize, usize)>, i: nat, j: nat)
    requires
        i <= j,
    ensures
        chunks_in(chunks, i) <= chunks_in(chunks, j),
        chunks_out(chunks, i) <= chunks_out(chunks, j),
    decreases j,
{
    if i < j {
        lemma_chunks_grow(chunks, i, (j - 1) as nat);
    }
}

/// A repair is at least as long as what it repairs, and at most three times as long.
pub proof fn lemma_chunks_bounds(chunks: Seq<(usize, usize)>, k: nat)
    requires
        k <= chunks.len(),
        forall|i: int| 0 <= i < chunks.len() ==> (#[trigger] chunks[i]).1 <= 3,
    ensures
        chunks_in(chunks, k) <= chunks_out(chunks, k) <= 3 * chunks_in(chunks, k),
    decreases k,
{
    if k > 0 {
        lemma_chunks_bounds(chunks, (k - 1) as nat);
        assert(chunks[k - 1].1 <= 3);
    }
}

/// What the first `k` chunks are repaired to depends on those chunks only.
pub proof fn lemma_replaced_agrees(
    bytes: Seq<u8>,
    first: Seq<(usize, usize)>,
    second: Seq<(usize, usize)>,
    k: nat,
)
    requires
        forall|i: int| 0 <= i < k ==> first[i] == second[i],
    ensures
        chunks_in(first, k) == chunks_in(second, k),
        chunks_out(first, k) == chunks_out(second, k),
        replaced(bytes, first, k) == replaced(bytes, second, k),
    decreases k,
{
    if k > 0 {
        lemma_replaced_agrees(bytes, first, second, (k - 1) as nat);
    }
}

/// The repair of the first `k` chunks has the length counted for it, and the repair
/// of more chunks starts with it.
pub proof fn lemma_replaced_prefix(bytes: Seq<u8>, chunks: Seq<(usize, usize)>, k: nat, n: nat)
    requires
        k <= n,
        chunks_in(chunks, n) <= bytes.len(),
    ensures
        replaced(bytes, chunks, n).len() == chunks_out(chunks, n),
        chunks_out(chunks, k) <= chunks_out(chunks, n),
        replaced(bytes, chunks, n).take(chunks_out(chunks, k) as int) == replaced(
            bytes,
            chunks,
            k,
        ),
    decreases n,
{
    lemma_chunks_grow(chunks, k, n);
    if n == 0 {
        assert(replaced(bytes, chunks, n).take(0) == replaced(bytes, chunks, k));
    } else {
        let m = (n - 1) as nat;
        lemma_chunks_grow(chunks, m, n);
        if k == n {
            lemma_replaced_prefix(bytes, chunks, m, m);
            let whole = replaced(bytes, chunks, n);
            assert(whole.take(whole.len() as int) == whole);
        } else {
            lemma_replaced_prefix(bytes, chunks, k, m);
            let before = replaced(bytes, chunks, m);
            let whole = replaced(bytes, chunks, n);
            assert(whole.take(before.len() as int) == before);
            assert(whole.take(chunks_out(chunks, k) as int) == whole.take(
                before.len() as int,
            ).take(chunks_out(chunks, k) as int));
        }
    }
}

/// Where the bytes of chunk `k` stand in the repair: its valid part as it is, and
/// U+FFFD after it where it has an invalid part.
pub proof fn lemma_chunk_bytes(bytes: Seq<u8>, chunks: Seq<(usize, usize)>, k: nat, n: nat)
    requires
        k < n,
        chunks_in(chunks, n) <= bytes.len(),
    ensures
        chunks_in(chunks, k) + chunks[k as int].0 + chunks[k as int].1 <= bytes.len(),
        chunks_out(chunks, (k + 1) as nat) <= replaced(bytes, chunks, n).len(),
        forall|x: int|
            0 <= x < chunks[k as int].0 ==> #[trigger] replaced(bytes, chunks, n)[chunks_out(
                chunks,
                k,
            ) + x] == bytes[chunks_in(chunks, k) + x],
        chunks[k as int].1 > 0 ==> forall|y: int|
            0 <= y < 3 ==> #[trigger] replaced(bytes, chunks, n)[chunks_out(chunks, k)
                + chunks[k as int].0 + y] == replacement()[y],
{
    let next = (k + 1) as nat;
    lemma_chunks_grow(chunks, next, n);
    lemma_replaced_prefix(bytes, chunks, next, n);
    lemma_replaced_prefix(bytes, chunks, k, next);
    let whole = replaced(bytes, chunks, n);
    let part = replaced(bytes, chunks, next);
    let before = replaced(bytes, chunks, k);
    let v = chunks[k as int].0 as int;
    let at = chunks_in(chunks, k) as int;
    let out = chunks_out(chunks, k) as int;
    assert(k + 1 - 1 == k);
    assert forall|x: int| 0 <= x < v implies #[trigger] whole[out + x] == bytes[at + x] by {
        assert(whole.take(part.len() as int)[out + x] == part[out + x]);
    }
    if chunks[k as int].1 > 0 {
        assert forall|y: int| 0 <= y < 3 implies #[trigger] whole[out + v + y] == replacement()[y] by {
            assert(whole.take(part.len() as int)[out + v + y] == part[out + v + y]);
        }
    }
}

/// Replaces the invalid part of every chunk by U+FFFD, working in the buffer: the
/// buffer is lengthened to the length of the repair, which has to be a length that a
/// buffer can have, and the chunks are moved to their places from the last to the
/// first.
pub fn replace_chunks(buf: Vec<u8>, chunks: &[(usize, usize)]) -> (out: Vec<u8>)
    requires
        chunks_fit(buf@, chunks@),
        chunks_out(chunks@, chunks@.len()) <= usize::MAX,
    ensures
        out@ == replaced(buf@, chunks@, chunks@.len()),
{
    let mut buf = buf;
    let ghost orig = buf@;
    let ghost target = replaced(orig, chunks@, chunks@.len());
    let n = chunks.len();
    let len = buf.len();
    let mut i: usize = 0;
    let mut j: usize = 0;
    let mut k: usize = 0;
    while k < n
        invariant
            k <= n,
            n == chunks@.len(),
            len == orig.len(),
            chunks_out(chunks@, n as nat) <= usize::MAX,
            chunks_fit(orig, chunks@),
            i == chunks_in(chunks@, k as nat),
            j == chunks_out(chunks@, k as nat),
        decreases n - k,
    {
        proof {
            lemma_chunks_grow(chunks@, (k + 1) as nat, n as nat);
            lemma_chunks_bounds(chunks@, (k + 1) as nat);
            assert(k + 1 - 1 == k);
        }
        let (valid, invalid) = chunks[k];
        i = i + valid + invalid;
        j = j + valid;
        if invalid > 0 {
            j = j + 3;
        }
        k = k + 1;
    }
    let total = j;
    proof {
        lemma_replaced_prefix(orig, chunks@, n as nat, n as nat);
        lemma_chunks_bounds(chunks@, n as nat);
    }
    buf.resize(total, 0);
    proof {
        assert forall|x: int| 0 <= x < len implies #[trigger] buf@[x] == orig[x] by {
            assert(buf@.subrange(0, len as int)[x] == buf@[x]);
        }
    }
    while k > 0
        invariant
            k <= n,
            n == chunks@.len(),
            len == orig.len(),
            chunks_fit(orig, chunks@),
            target == replaced(orig, chunks@, chunks@.len()),
            target.len() == total,
            buf@.len() == total,
            i == chunks_in(chunks@, k as nat),
            j == chunks_out(chunks@, k as nat),
            forall|x: int| 0 <= x < i ==> #[trigger] buf@[x] == orig[x],
            forall|x: int| j <= x < total ==> #[trigger] buf@[x] == target[x],
        decreases k,
    {
        k = k - 1;
        let (valid, invalid) = chunks[k];
        let ghost first = chunks_in(chunks@, k as nat);
        let ghost place = chunks_out(chunks@, k as nat);
        proof {
            assert(k + 1 - 1 == k);
            lemma_chunk_bytes(orig, chunks@, k as nat, n as nat);
            lemma_chunks_bounds(chunks@, k as nat);
        }
        i = i - invalid;
        if invalid > 0 {
            j = j - 3;
            buf.set(j, 0xEF);
            buf.set(j + 1, 0xBF);
            buf.set(j + 2, 0xBD);
            proof {
                assert forall|x: int| j <= x < total implies #[trigger] buf@[x] == target[x] by {
                    if x < j + 3 {
                        assert(target[place + valid + (x - j)] == replacement()[x - j]);
                    }
                }
            }
        }
        let mut moved: usize = 0;
        while moved < valid
            invariant
                moved <= valid,
                i == first + valid - moved,
                j == place + valid - moved,
                first <= place,
                j <= total,
                buf@.len() == total,
                target.len() == total,
                first + valid <= orig.len(),
                forall|x: int| 0 <= x < i ==> #[trigger] buf@[x] == orig[x],
                forall|x: int| j <= x < total ==> #[trigger] buf@[x] == target[x],
                forall|x: int| 0 <= x < valid ==> #[trigger] target[place + x] == orig[first + x],
            decreases valid - moved,
        {
            i = i - 1;
            j = j - 1;
            let byte = buf[i];
            buf.set(j, byte);
            proof {
                assert(target[place + (j - place)] == orig[first + (j - place)]);
            }
            moved = moved + 1;
        }
    }
    assert(buf@ == target);
    buf
}

/// Cuts bytes into chunks: a valid part, and the invalid part that follows it, until
/// the bytes are covered.
pub fn scan_chunks(bytes: &[u8]) -> (chunks: Vec<(usize, usize)>)
    ensures
        chunks_fit(bytes@, chunks@),
        replaced(bytes@, chunks@, chunks@.len()) == lossy(bytes@),
{
    let len = bytes.len();
    let mut chunks: Vec<(usize, usize)> = Vec::new();
    let mut i: usize = 0;
    proof {
        assert(bytes@.skip(0) == bytes@);
        assert(Seq::<u8>::empty() + lossy(bytes@) == lossy(bytes@));
    }
    while i < len
        invariant
            i <= len,
            len == bytes@.len(),
            i == chunks_in(chunks@, chunks@.len()),
            forall|k: int| 0 <= k < chunks@.len() ==> (#[trigger] chunks@[k]).1 <= 3,
            lossy(bytes@) == replaced(bytes@, chunks@, chunks@.len()) + lossy(bytes@.skip(i as int)),
        decreases len - i,
    {
        let ghost before = chunks@;
        let ghost rest = bytes@.skip(i as int);
        let (valid, invalid) = first_chunk(slice_subrange(bytes, i, len));
        chunks.push((valid, invalid));
        proof {
            assert(bytes@.subrange(i as int, len as int) == rest);
            lemma_next_chunk(bytes@, before, i as int, valid, invalid);
        }
        i = i + valid + invalid;
    }
    proof {
        assert(bytes@.skip(len as int).len() == 0);
        assert(lossy(bytes@.skip(len as int)) == Seq::<u8>::empty());
        let all = replaced(bytes@, chunks@, chunks@.len());
        assert(all + Seq::<u8>::empty() == all);
    }
    chunks
}

proof fn lemma_next_chunk(
    bytes: Seq<u8>,
    before: Seq<(usize, usize)>,
    i: int,
    valid: usize,
    invalid: usize,
)
    requires
        0 <= i < bytes.len(),
        i == chunks_in(before, before.len()),
        lossy(bytes) == replaced(bytes, before, before.len()) + lossy(bytes.skip(i)),
        longest_valid_prefix(bytes.skip(i), valid as int),
        invalid == utf8_invalid_len(bytes.skip(i)),
        invalid <= 3,
        valid + invalid <= bytes.skip(i).len(),
        invalid == 0 <==> valid == bytes.skip(i).len(),
    ensures
        valid + invalid >= 1,
        i + valid + invalid == chunks_in(before.push((valid, invalid)), before.len() + 1),
        lossy(bytes) == replaced(bytes, before.push((valid, invalid)), before.len() + 1) + lossy(
            bytes.skip(i + valid + invalid),
        ),
{
    let rest = bytes.skip(i);
    let after = before.push((valid, invalid));
    let n = before.len();
    lemma_valid_prefix_len(rest);
    lemma_replaced_agrees(bytes, after, before, n);
    assert(n + 1 - 1 == n);
    let good = bytes.subrange(i, i + valid);
    assert(good == rest.take(valid as int));
    let tail = lossy(bytes.skip(i + valid + invalid));
    assert(rest.skip(valid + invalid) == bytes.skip(i + valid + invalid));
    let done = replaced(bytes, before, n);
    if invalid == 0 {
        assert(rest.take(rest.len() as int) == rest);
        assert(lossy(rest) == rest);
        assert(rest.skip(rest.len() as int).len() == 0);
        assert(tail == Seq::<u8>::empty());
        assert(done + good + tail == done + rest);
    } else {
        assert(!valid_utf8(rest));
        lemma_lossy_unfold(rest);
        assert(done + (good + replacement() + tail) == done + good + replacement() + tail);
    }
}

/// The repair is at least as long as the bytes, and at most three times as long.
pub proof fn lemma_lossy_len(bytes: Seq<u8>)
    ensures
        bytes.len() <= lossy(bytes).len() <= 3 * bytes.len(),
    decreases bytes.len(),
{
    if !valid_utf8(bytes) {
        lemma_valid_prefix_len(bytes);
        lemma_lossy_unfold(bytes);
        let v = valid_prefix_len(bytes);
        let n = broken_len(bytes);
        lemma_lossy_len(bytes.skip(v + n));
    }
}

/// The length of the repair of the chunks, where it is a length that a buffer can
/// have.
pub fn repaired_len(chunks: &[(usize, usize)]) -> (len: Option<usize>)
    ensures
        len is Some <==> chunks_out(chunks@, chunks@.len()) <= usize::MAX,
        len matches Some(n) ==> n == chunks_out(chunks@, chunks@.len()),
{
    let n = chunks.len();
    let mut sum: usize = 0;
    let mut k: usize = 0;
    while k < n
        invariant
            k <= n,
            n == chunks@.len(),
            sum == chunks_out(chunks@, k as nat),
        decreases n - k,
    {
        proof {
            lemma_chunks_grow(chunks@, (k + 1) as nat, n as nat);
            assert(k + 1 - 1 == k);
        }
        let (valid, invalid) = chunks[k];
        let more: usize = if invalid > 0 {
            3
        } else {
            0
        };
        if valid > usize::MAX - sum || more > usize::MAX - sum - valid {
            return None;
        }
        sum = sum + valid + more;
        k = k + 1;
    }
    Some(sum)
}

/// Replaces every maximal invalid sequence of the buffer by U+FFFD, working in the
/// buffer, and makes a string of it.  There is no string where the repair would be
/// longer than a buffer can be.
pub fn try_from_utf8_lossy(buf: Vec<u8>) -> (text: Option<String>)
    ensures
        text is Some <==> lossy(buf@).len() <= usize::MAX,
        text matches Some(t) ==> encode_utf8(t@) == lossy(buf@),
{
    let chunks = scan_chunks(buf.as_slice());
    let ghost orig = buf@;
    proof {
        lemma_replaced_prefix(orig, chunks@, chunks@.len(), chunks@.len());
        lemma_lossy_valid(orig);
    }
    match repaired_len(chunks.as_slice()) {
        Some(_) => string_from_utf8(replace_chunks(buf, chunks.as_slice())),
        None => None,
    }
}

/// Replaces every maximal invalid sequence of the buffer by U+FFFD, working in the
/// buffer, and makes a string of it.  The repair has to be of a length that a buffer
/// can have; it is at most three times as long as the bytes.
pub fn from_utf8_lossy_inplace(buf: Vec<u8>) -> (text: String)
    requires
        lossy(buf@).len() <= usize::MAX,
    ensures
        encode_utf8(text@) == lossy(buf@),
{
    match try_from_utf8_lossy(buf) {
        Some(text) => text,
        None => String::new(),
    }
}

/// What a token decoder holds: the bytes that are settled, which are valid UTF-8, and
/// after them the bytes of a character that is not finished yet.
pub ghost struct TextState {
    pub safe: Seq<u8>,
    pub pending: Seq<u8>,
}

/// What `std::str::from_utf8` finds in the bytes.
pub open spec fn scan_of(bytes: Seq<u8>) -> Utf8Scan {
    if valid_utf8(bytes) {
        Utf8Scan::Valid
    } else {
        Utf8Scan::Broken {
            valid_up_to: valid_prefix_len(bytes) as usize,
            error_len: if utf8_error_len(bytes) >= 1 {
                Some(utf8_error_len(bytes) as usize)
            } else {
                None
            },
        }
    }
}

/// The scan is one that can be acted on: what it calls valid is valid, and what it
/// calls invalid lies within the bytes.
pub open spec fn scan_fits(bytes: Seq<u8>, scan: Utf8Scan) -> bool {
    match scan {
        Utf8Scan::Valid => valid_utf8(bytes),
        Utf8Scan::Broken { valid_up_to, error_len } => {
            &&& valid_up_to <= bytes.len()
            &&& valid_utf8(bytes.take(valid_up_to as int))
            &&& error_len matches Some(n) ==> valid_up_to + n <= bytes.len()
        },
    }
}

/// The text that a scan of the pending bytes settles: all of them where they are
/// valid, and where they hold an invalid sequence what stands before it and U+FFFD.
pub open spec fn settled_text(pending: Seq<u8>, scan: Utf8Scan) -> Seq<u8> {
    match scan {
        Utf8Scan::Valid => pending,
        Utf8Scan::Broken { valid_up_to, error_len: Some(_) } => pending.take(valid_up_to as int)
            + replacement(),
        Utf8Scan::Broken { error_len: None, .. } => Seq::empty(),
    }
}

/// The state after the pending bytes have been settled as a scan of them says.  Bytes
/// that end inside a character stay pending.
pub open spec fn settled_by(s: TextState, scan: Utf8Scan) -> TextState {
    TextState {
        safe: s.safe + settled_text(s.pending, scan),
        pending: match scan {
            Utf8Scan::Valid => Seq::empty(),
            Utf8Scan::Broken { valid_up_to, error_len: Some(n) } => s.pending.skip(
                valid_up_to + n,
            ),
            Utf8Scan::Broken { error_len: None, .. } => s.pending,
        },
    }
}

/// The state after the pending bytes have been settled if a scan found them valid.
pub open spec fn settled_if_valid(s: TextState, scan: Utf8Scan) -> TextState {
    if scan is Valid {
        settled_by(s, scan)
    } else {
        s
    }
}

/// The state after one more byte.  The byte joins the pending bytes, and they are
/// settled as a scan of them says; where that replaced an invalid sequence, what
/// follows it is settled too if it is valid.
pub open spec fn fed_byte(s: TextState, byte: u8) -> TextState {
    let p = s.pending.push(byte);
    let scan = scan_of(p);
    let first = settled_by(TextState { safe: s.safe, pending: p }, scan);
    if scan matches Utf8Scan::Broken { error_len: Some(_), .. } {
        settled_if_valid(first, scan_of(first.pending))
    } else {
        first
    }
}

/// The state after the bytes of a token from `i` on have been fed one by one for as
/// long as bytes are pending.
pub open spec fn fed_pending(s: TextState, token: Seq<u8>, i: int) -> TextState
    decreases token.len() - i,
{
    if 0 <= i < token.len() && s.pending.len() > 0 {
        fed_pending(fed_byte(s, token[i]), token, i + 1)
    } else {
        s
    }
}

/// The place in the token up to which its bytes are fed one by one.
pub open spec fn fed_count(s: TextState, token: Seq<u8>, i: int) -> int
    decreases token.len() - i,
{
    if 0 <= i < token.len() && s.pending.len() > 0 {
        fed_count(fed_byte(s, token[i]), token, i + 1)
    } else {
        i
    }
}

/// The text that a scan of fresh bytes settles: all of them where they are valid,
/// and else what stands before the break, with U+FFFD for an invalid sequence.
pub open spec fn chunk_text(rest: Seq<u8>, scan: Utf8Scan) -> Seq<u8> {
    match scan {
        Utf8Scan::Valid => rest,
        Utf8Scan::Broken { valid_up_to, error_len: Some(_) } => rest.take(valid_up_to as int)
            + replacement(),
        Utf8Scan::Broken { valid_up_to, error_len: None } => rest.take(valid_up_to as int),
    }
}

/// The number of fresh bytes that a scan of them disposes of: up to the end of an
/// invalid sequence, and all of them where there is none.
pub open spec fn chunk_taken(rest: Seq<u8>, scan: Utf8Scan) -> int {
    match scan {
        Utf8Scan::Broken { valid_up_to, error_len: Some(n) } => valid_up_to + n,
        _ => rest.len() as int,
    }
}

/// The state after fresh bytes have been fed to a decoder with nothing pending, as a
/// scan of them says: bytes that end inside a character are left pending.
pub open spec fn chunk_fed(s: TextState, rest: Seq<u8>, scan: Utf8Scan) -> TextState {
    TextState {
        safe: s.safe + chunk_text(rest, scan),
        pending: match scan {
            Utf8Scan::Broken { valid_up_to, error_len: None } => rest.skip(valid_up_to as int),
            _ => Seq::empty(),
        },
    }
}

/// The state after bytes have been fed to a decoder with nothing pending: scan after
/// scan, each from the end of the invalid sequence that the scan before it found.
pub open spec fn fed_chunks(s: TextState, rest: Seq<u8>) -> TextState
    decreases rest.len(),
{
    let scan = scan_of(rest);
    if rest.len() == 0 {
        s
    } else if 0 < chunk_taken(rest, scan) < rest.len() {
        fed_chunks(chunk_fed(s, rest, scan), rest.skip(chunk_taken(rest, scan)))
    } else {
        chunk_fed(s, rest, scan)
    }
}

/// The state after a token: its bytes are fed one by one while bytes are pending, and
/// the rest at once.
pub open spec fn fed_token(s: TextState, token: Seq<u8>) -> TextState {
    let first = fed_pending(s, token, 0);
    let i = fed_count(s, token, 0);
    if i < token.len() {
        fed_chunks(first, token.skip(i))
    } else {
        first
    }
}

/// A token of valid UTF-8 that comes when nothing is pending is settled as it is.
pub proof fn lemma_valid_token_settles(s: TextState, token: Seq<u8>)
    requires
        s.pending.len() == 0,
        valid_utf8(token),
    ensures
        fed_token(s, token) == (TextState { safe: s.safe + token, pending: Seq::empty() }),
{
    assert(fed_pending(s, token, 0) == s);
    assert(fed_count(s, token, 0) == 0);
    if token.len() > 0 {
        assert(token.skip(0) == token);
        assert(scan_of(token) == Utf8Scan::Valid);
        assert(fed_chunks(s, token) == chunk_fed(s, token, Utf8Scan::Valid));
    } else {
        assert(s.safe + token == s.safe);
        assert(s.pending == Seq::<u8>::empty());
    }
}

/// Joins the bytes of tokens to text.  A character whose bytes are split over tokens
/// is held back until it is whole.
pub struct TokenDecoder {
    buf: Vec<u8>,
    safe_len: usize,
}

impl View for TokenDecoder {
    type V = TextState;

    closed spec fn view(&self) -> TextState {
        TextState {
            safe: self.buf@.take(self.safe_len as int),
            pending: self.buf@.skip(self.safe_len as int),
        }
    }
}

fn text_of(bytes: &[u8]) -> (text: String)
    requires
        valid_utf8(bytes@),
    ensures
        encode_utf8(text@) == bytes@,
{
    match string_from_utf8(slice_to_vec(bytes)) {
        Some(text) => text,
        None => String::new(),
    }
}

/// Scans bytes for UTF-8.
pub fn scan_bytes(bytes: &[u8]) -> (scan: Utf8Scan)
    ensures
        scan == scan_of(bytes@),
        scan_fits(bytes@, scan),
        scan matches Utf8Scan::Broken { valid_up_to, error_len } ==> valid_up_to < bytes@.len() && (
        error_len matches Some(n) ==> n >= 1),
{
    let scan = scan_utf8(bytes);
    proof {
        lemma_valid_prefix_len(bytes@);
    }
    scan
}

proof fn lemma_parts(a: Seq<u8>, b: Seq<u8>, c: Seq<u8>)
    ensures
        (a + b + c).len() == a.len() + b.len() + c.len(),
        (a + b + c).take(a.len() as int) == a,
        (a + b + c).subrange(a.len() as int, (a.len() + b.len()) as int) == b,
        (a + b + c).take((a.len() + b.len()) as int) == a + b,
        (a + b + c).skip((a.len() + b.len()) as int) == c,
        (a + b + c).skip(a.len() as int) == b + c,
{
}

fn replace(buf: &mut Vec<u8>, at: usize, n: usize)
    requires
        at + n <= old(buf)@.len(),
    ensures
        final(buf)@ == old(buf)@.take(at as int) + replacement() + old(buf)@.skip(at + n),
{
    let len = buf.len();
    let mut gone: usize = 0;
    assert(buf@ == old(buf)@.take(at as int) + old(buf)@.skip(at as int));
    while gone < n
        invariant
            gone <= n,
            at + n <= len,
            len == old(buf)@.len(),
            buf@ == old(buf)@.take(at as int) + old(buf)@.skip(at + gone),
        decreases n - gone,
    {
        buf.remove(at);
        gone = gone + 1;
        assert(buf@ == old(buf)@.take(at as int) + old(buf)@.skip(at + gone));
    }
    let ghost tail = old(buf)@.skip(at + n);
    buf.insert(at, 0xBD);
    buf.insert(at, 0xBF);
    buf.insert(at, 0xEF);
    assert(buf@ == old(buf)@.take(at as int) + replacement() + tail);
}

fn append(buf: &mut Vec<u8>, bytes: &[u8], from: usize, to: usize)
    requires
        from <= to <= bytes@.len(),
    ensures
        final(buf)@ == old(buf)@ + bytes@.subrange(from as int, to as int),
{
    let mut i: usize = from;
    assert(buf@ == old(buf)@ + bytes@.subrange(from as int, from as int));
    while i < to
        invariant
            from <= i <= to <= bytes@.len(),
            buf@ == old(buf)@ + bytes@.subrange(from as int, i as int),
        decreases to - i,
    {
        buf.push(bytes[i]);
        assert(bytes@.subrange(from as int, i + 1) == bytes@.subrange(from as int, i as int).push(
            bytes@[i as int],
        ));
        i = i + 1;
    }
}

proof fn lemma_added(safe: Seq<u8>, text: Seq<u8>, more: Seq<u8>)
    requires
        valid_utf8(text),
        more.len() > 0 ==> valid_utf8(more),
    ensures
        valid_utf8(text + more),
        safe + text + more == safe + (text + more),
        (safe + (text + more)).skip(safe.len() as int) == text + more,
{
    if more.len() > 0 {
        valid_utf8_concat(text, more);
    } else {
        assert(text + more == text);
    }
}

impl TokenDecoder {
    /// The settled bytes are valid UTF-8.
    pub closed spec fn wf(&self) -> bool {
        self.safe_len <= self.buf@.len() && valid_utf8(self@.safe)
    }

    /// The settled bytes of a well-formed decoder are valid UTF-8.
    pub proof fn lemma_wf(&self)
        requires
            self.wf(),
        ensures
            valid_utf8(self@.safe),
    {
    }

    proof fn lemma_layout(&self)
        requires
            self.wf(),
        ensures
            self.safe_len <= self.buf@.len(),
            self@.safe.len() == self.safe_len,
            self@.pending.len() == self.buf@.len() - self.safe_len,
            self@.safe + self@.pending == self.buf@,
            valid_utf8(self@.safe),
    {
    }

    /// A decoder that holds nothing.
    pub fn new() -> (out: TokenDecoder)
        ensures
            out@.safe.len() == 0,
            out@.pending.len() == 0,
            out.wf(),
    {
        TokenDecoder { buf: Vec::new(), safe_len: 0 }
    }

    /// Settles the pending bytes as a scan of them says: all of them where they are
    /// valid; where they hold an invalid sequence, what stands before it and U+FFFD in
    /// its place; nothing where they end inside a character.
    pub fn settle(&mut self, scan: Utf8Scan)
        requires
            old(self).wf(),
            scan_fits(old(self)@.pending, scan),
        ensures
            final(self).wf(),
            final(self)@ == settled_by(old(self)@, scan),
            valid_utf8(settled_text(old(self)@.pending, scan)),
    {
        proof {
            self.lemma_layout();
            lemma_replacement_valid();
        }
        let ghost before = self@;
        match scan {
            Utf8Scan::Valid => {
                self.safe_len = self.buf.len();
                proof {
                    lemma_parts(before.safe, before.pending, Seq::empty());
                    assert(self.buf@ == before.safe + before.pending + Seq::<u8>::empty());
                    valid_utf8_concat(before.safe, before.pending);
                }
            },
            Utf8Scan::Broken { valid_up_to, error_len } => {
                match error_len {
                    Some(n) => {
                        let ghost good = before.pending.take(valid_up_to as int);
                        let ghost gone = before.pending.subrange(
                            valid_up_to as int,
                            valid_up_to + n,
                        );
                        let ghost rest = before.pending.skip(valid_up_to + n);
                        proof {
                            assert(valid_up_to + n <= before.pending.len());
                            assert(before.pending.len() == self.buf@.len() - self.safe_len);
                            assert(before.pending == good + gone + rest);
                            assert(self.buf@ == before.safe + good + gone + rest);
                            lemma_parts(before.safe + good, gone, rest);
                        }
                        let left = self.buf.len() - self.safe_len - valid_up_to - n;
                        replace(&mut self.buf, self.safe_len + valid_up_to, n);
                        self.safe_len = self.buf.len() - left;
                        proof {
                            valid_utf8_concat(good, replacement());
                            valid_utf8_concat(before.safe, good + replacement());
                            assert(self.buf@ == before.safe + (good + replacement()) + rest);
                            lemma_parts(before.safe, good + replacement(), rest);
                            assert(before.safe + (good + replacement()) == before.safe + good
                                + replacement());
                        }
                    },
                    None => {
                        proof {
                            assert(before.safe + Seq::<u8>::empty() == before.safe);
                        }
                    },
                }
            },
        }
    }

    /// Settles the pending bytes if a scan found them valid.
    pub fn settle_if_valid(&mut self, scan: Utf8Scan)
        requires
            old(self).wf(),
            scan is Valid ==> valid_utf8(old(self)@.pending),
        ensures
            final(self).wf(),
            final(self)@ == settled_if_valid(old(self)@, scan),
    {
        match scan {
            Utf8Scan::Valid => {
                self.settle(scan);
            },
            Utf8Scan::Broken { .. } => {},
        }
    }

    fn push_pending(&mut self, byte: u8)
        requires
            old(self).wf(),
        ensures
            final(self).wf(),
            final(self)@ == (TextState {
                safe: old(self)@.safe,
                pending: old(self)@.pending.push(byte),
            }),
    {
        proof {
            self.lemma_layout();
        }
        let ghost before = self@;
        self.buf.push(byte);
        proof {
            assert(self.buf@ == before.safe + before.pending.push(byte));
            lemma_parts(before.safe, Seq::empty(), before.pending.push(byte));
            assert(self.buf@ == before.safe + Seq::<u8>::empty() + before.pending.push(byte));
            assert(before.safe + Seq::<u8>::empty() == before.safe);
        }
    }

    fn pending_scan(&self) -> (scan: Utf8Scan)
        requires
            self.wf(),
        ensures
            scan == scan_of(self@.pending),
            scan_fits(self@.pending, scan),
    {
        proof {
            self.lemma_layout();
        }
        let n = self.buf.len();
        proof {
            assert(self.buf@.subrange(self.safe_len as int, n as int) == self@.pending);
        }
        scan_bytes(slice_subrange(self.buf.as_slice(), self.safe_len, n))
    }

    fn settled_from(&self, from: usize) -> (text: String)
        requires
            self.wf(),
            from <= self@.safe.len(),
            valid_utf8(self@.safe.skip(from as int)),
        ensures
            encode_utf8(text@) == self@.safe.skip(from as int),
    {
        proof {
            self.lemma_layout();
            assert(self.buf@.subrange(from as int, self.safe_len as int) == self@.safe.skip(
                from as int,
            ));
        }
        text_of(slice_subrange(self.buf.as_slice(), from, self.safe_len))
    }

    /// Adds a byte, and returns the text that it settles.
    pub fn add_byte(&mut self, byte: u8) -> (piece: String)
        requires
            old(self).wf(),
        ensures
            final(self).wf(),
            final(self)@ == fed_byte(old(self)@, byte),
            final(self)@.safe == old(self)@.safe + encode_utf8(piece@),
    {
        proof {
            self.lemma_layout();
        }
        let old_len = self.safe_len;
        let ghost before = self@;
        self.push_pending(byte);
        let first = self.pending_scan();
        let ghost text = settled_text(self@.pending, first);
        self.settle(first);
        let ghost mid = self@;
        let ghost mut more: Seq<u8> = Seq::empty();
        match first {
            Utf8Scan::Broken { error_len: Some(_), .. } => {
                let second = self.pending_scan();
                self.settle_if_valid(second);
                proof {
                    if second is Valid {
                        more = mid.pending;
                    }
                }
            },
            _ => {},
        }
        proof {
            lemma_added(before.safe, text, more);
        }
        self.settled_from(old_len)
    }

    /// Feeds the bytes of a token from `from` on to a decoder with nothing pending, as
    /// a scan of them says, and returns the place from which to go on.  Valid bytes
    /// are settled; an invalid sequence is settled as U+FFFD with what stands before
    /// it; bytes that end inside a character are left pending after what stands
    /// before them.
    pub fn feed_chunk(&mut self, token: &[u8], from: usize, scan: Utf8Scan) -> (next: usize)
        requires
            old(self).wf(),
            old(self)@.pending.len() == 0,
            from <= token@.len(),
            scan_fits(token@.skip(from as int), scan),
        ensures
            final(self).wf(),
            final(self)@ == chunk_fed(old(self)@, token@.skip(from as int), scan),
            next == from + chunk_taken(token@.skip(from as int), scan),
            valid_utf8(chunk_text(token@.skip(from as int), scan)),
    {
        proof {
            self.lemma_layout();
            lemma_replacement_valid();
        }
        let ghost before = self@;
        let ghost rest = token@.skip(from as int);
        let n = token.len();
        proof {
            assert(before.safe == self.buf@) by {
                assert(before.safe + before.pending == before.safe);
            }
        }
        match scan {
            Utf8Scan::Valid => {
                append(&mut self.buf, token, from, n);
                self.safe_len = self.buf.len();
                proof {
                    assert(token@.subrange(from as int, n as int) == rest);
                    lemma_parts(before.safe + rest, Seq::empty(), Seq::empty());
                    assert(self.buf@ == before.safe + rest + Seq::<u8>::empty() + Seq::<
                        u8,
                    >::empty());
                    valid_utf8_concat(before.safe, rest);
                }
                n
            },
            Utf8Scan::Broken { valid_up_to, error_len } => {
                let ghost good = rest.take(valid_up_to as int);
                append(&mut self.buf, token, from, from + valid_up_to);
                proof {
                    assert(token@.subrange(from as int, from + valid_up_to) == good);
                    valid_utf8_concat(before.safe, good);
                }
                match error_len {
                    Some(len) => {
                        self.buf.push(0xEF);
                        self.buf.push(0xBF);
                        self.buf.push(0xBD);
                        self.safe_len = self.buf.len();
                        proof {
                            let all = before.safe + good + replacement();
                            assert(self.buf@ == all);
                            lemma_parts(all, Seq::empty(), Seq::empty());
                            assert(self.buf@ == all + Seq::<u8>::empty() + Seq::<u8>::empty());
                            valid_utf8_concat(before.safe + good, replacement());
                            valid_utf8_concat(good, replacement());
                            assert(all == before.safe + (good + replacement()));
                        }
                        from + valid_up_to + len
                    },
                    None => {
                        self.safe_len = self.buf.len();
                        let ghost tail = rest.skip(valid_up_to as int);
                        append(&mut self.buf, token, from + valid_up_to, n);
                        proof {
                            assert(token@.subrange(from + valid_up_to, n as int) == tail);
                            assert(self.buf@ == before.safe + good + Seq::<u8>::empty() + tail);
                            lemma_parts(before.safe + good, Seq::empty(), tail);
                        }
                        n
                    },
                }
            },
        }
    }

    /// Adds the bytes of a token, and returns the text that they settle.
    pub fn add_token(&mut self, token: &[u8]) -> (piece: String)
        requires
            old(self).wf(),
        ensures
            final(self).wf(),
            final(self)@ == fed_token(old(self)@, token@),
            final(self)@.safe == old(self)@.safe + encode_utf8(piece@),
    {
        proof {
            self.lemma_layout();
        }
        let old_len = self.safe_len;
        let ghost before = self@;
        let ghost mut fresh: Seq<u8> = Seq::empty();
        let n = token.len();
        let mut i: usize = 0;
        proof {
            assert(before.safe + fresh == before.safe);
        }
        while i < n && self.safe_len < self.buf.len()
            invariant
                i <= n,
                n == token@.len(),
                self.wf(),
                old_len == before.safe.len(),
                valid_utf8(fresh),
                self@.safe == before.safe + fresh,
                fed_pending(self@, token@, i as int) == fed_pending(before, token@, 0),
                fed_count(self@, token@, i as int) == fed_count(before, token@, 0),
            decreases n - i,
        {
            proof {
                self.lemma_layout();
            }
            let part = self.add_byte(token[i]);
            proof {
                encode_utf8_valid_utf8(part@);
                valid_utf8_concat(fresh, encode_utf8(part@));
                assert(before.safe + fresh + encode_utf8(part@) == before.safe + (fresh
                    + encode_utf8(part@)));
                fresh = fresh + encode_utf8(part@);
            }
            i = i + 1;
        }
        let ghost first = self@;
        let ghost split = i;
        proof {
            self.lemma_layout();
            assert(fed_pending(first, token@, split as int) == first);
            assert(fed_count(first, token@, split as int) == split);
        }
        while i < n
            invariant
                split <= i <= n,
                n == token@.len(),
                self.wf(),
                old_len == before.safe.len(),
                valid_utf8(fresh),
                self@.safe == before.safe + fresh,
                i < n ==> self@.pending.len() == 0,
                i < n ==> fed_chunks(self@, token@.skip(i as int)) == fed_chunks(
                    first,
                    token@.skip(split as int),
                ),
                i == n && split < n ==> self@ == fed_chunks(first, token@.skip(split as int)),
                split == n ==> self@ == first,
            decreases n - i,
        {
            let ghost was = self@;
            let ghost rest = token@.skip(i as int);
            proof {
                assert(token@.subrange(i as int, n as int) == rest);
            }
            let scan = scan_bytes(slice_subrange(token, i, n));
            let next = self.feed_chunk(token, i, scan);
            proof {
                let text = chunk_text(rest, scan);
                valid_utf8_concat(fresh, text);
                assert(before.safe + fresh + text == before.safe + (fresh + text));
                fresh = fresh + text;
                assert(rest.skip(next - i) == token@.skip(next as int));
            }
            i = next;
        }
        proof {
            lemma_added(before.safe, fresh, Seq::empty());
            assert(fresh + Seq::<u8>::empty() == fresh);
        }
        self.settled_from(old_len)
    }

    /// U+FFFD where a character is not finished, and else nothing.
    pub fn last_part(&self) -> (part: &'static str)
        requires
            self.wf(),
        ensures
            self@.pending.len() > 0 ==> part@ == "\u{FFFD}"@,
            self@.pending.len() == 0 ==> part@ == ""@,
    {
        proof {
            self.lemma_layout();
        }
        if self.safe_len < self.buf.len() {
            "\u{FFFD}"
        } else {
            ""
        }
    }

    /// The settled text.
    pub fn buffer(&self) -> (text: String)
        requires
            self.wf(),
        ensures
            encode_utf8(text@) == self@.safe,
    {
        proof {
            self.lemma_layout();
        }
        text_of(slice_subrange(self.buf.as_slice(), 0, self.safe_len))
    }

    /// The whole text: the settled text, and U+FFFD for a character that is not
    /// finished.
    pub fn into_string(self) -> (text: String)
        requires
            self.wf(),
        ensures
            encode_utf8(text@) == if self@.pending.len() > 0 {
                self@.safe + replacement()
            } else {
                self@.safe
            },
    {
        proof {
            self.lemma_layout();
            lemma_replacement_valid();
        }
        let mut buf = self.buf;
        let ghost safe = self@.safe;
        if self.safe_len < buf.len() {
            buf.truncate(self.safe_len);
            buf.push(0xEF);
            buf.push(0xBF);
            buf.push(0xBD);
            proof {
                assert(buf@ == safe + replacement());
                valid_utf8_concat(safe, replacement());
            }
        } else {
            assert(buf@ == safe);
        }
        match string_from_utf8(buf) {
            Some(text) => text,
            None => String::new(),
        }
    }
}

} // verus!
