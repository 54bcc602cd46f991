//! The wire format of a payload: four bytes of length, least significant first, then
//! the payload, each byte as eight bits, least significant first.

use vstd::prelude::*;

verus! {

/// The eight bits of a byte, least significant first.
pub open spec fn byte_bits(b: u8) -> Seq<bool> {
    seq![
        b % 2 == 1,
        (b / 2) % 2 == 1,
        (b / 4) % 2 == 1,
        (b / 8) % 2 == 1,
        (b / 16) % 2 == 1,
        (b / 32) % 2 == 1,
        (b / 64) % 2 == 1,
        (b / 128) % 2 == 1,
    ]
}

/// The bits of a byte string: byte after byte, eight bits each.
#[verifier::opaque]
pub open spec fn bits_of_bytes(bytes: Seq<u8>) -> Seq<bool> {
    Seq::new(8 * bytes.len(), |j: int| byte_bits(bytes[j / 8])[j % 8])
}

/// What a bit adds to its byte at place `i`.
pub open spec fn bit_weight(bit: bool, i: int) -> int {
    if !bit {
        0
    } else if i == 0 {
        1
    } else if i == 1 {
        2
    } else if i == 2 {
        4
    } else if i == 3 {
        8
    } else if i == 4 {
        16
    } else if i == 5 {
        32
    } else if i == 6 {
        64
    } else {
        128
    }
}

/// The byte that bits `8 * k` to `8 * k + 7` spell, least significant first.
pub open spec fn byte_at(bits: Seq<bool>, k: int) -> u8 {
    (bit_weight(bits[8 * k], 0) + bit_weight(bits[8 * k + 1], 1) + bit_weight(bits[8 * k + 2], 2)
        + bit_weight(bits[8 * k + 3], 3) + bit_weight(bits[8 * k + 4], 4) + bit_weight(
        bits[8 * k + 5],
        5,
    ) + bit_weight(bits[8 * k + 6], 6) + bit_weight(bits[8 * k + 7], 7)) as u8
}

/// The bytes that a bit string spells; bits after the last whole byte are dropped.
#[verifier::opaque]
pub open spec fn bytes_of_bits(bits: Seq<bool>) -> Seq<u8> {
    Seq::new((bits.len() / 8) as nat, |k: int| byte_at(bits, k))
}

/// The four bytes of a length, least significant first.  A length of 2^32 or more
/// keeps its low 32 bits.
pub open spec fn length_prefix(len: nat) -> Seq<u8> {
    seq![
        (len % 256) as u8,
        ((len / 0x100) % 256) as u8,
        ((len / 0x1_0000) % 256) as u8,
        ((len / 0x100_0000) % 256) as u8,
    ]
}

/// The length that the first four bytes spell, least significant first.
pub open spec fn prefix_length(bytes: Seq<u8>) -> nat {
    (bytes[0] + 0x100 * bytes[1] + 0x1_0000 * bytes[2] + 0x100_0000 * bytes[3]) as nat
}

/// A payload as bits: its length, then its bytes.
pub open spec fn framed(message: Seq<u8>) -> Seq<bool> {
    bits_of_bytes(length_prefix(message.len()) + message)
}

/// The payload that a bit string frames: the bytes after the length, cut to the
/// length where there are more.
pub open spec fn unframed(bits: Seq<bool>) -> Seq<u8> {
    let bytes = bytes_of_bits(bits);
    let body = bytes.skip(4);
    if prefix_length(bytes) < body.len() {
        body.take(prefix_length(bytes) as int)
    } else {
        body
    }
}

proof fn lemma_byte_weights(b: u8)
    by (bit_vector)
    ensures
        (if b % 2 == 1 { 1u8 } else { 0u8 }) + (if (b / 2) % 2 == 1 { 2u8 } else { 0u8 }) + (if (b
            / 4) % 2 == 1 { 4u8 } else { 0u8 }) + (if (b / 8) % 2 == 1 { 8u8 } else { 0u8 }) + (if (
        b / 16) % 2 == 1 { 16u8 } else { 0u8 }) + (if (b / 32) % 2 == 1 { 32u8 } else { 0u8 }) + (
        if (b / 64) % 2 == 1 { 64u8 } else { 0u8 }) + (if (b / 128) % 2 == 1 { 128u8 } else {
            0u8
        }) == b,
{
}

proof fn lemma_length_bytes(len: u32)
    by (bit_vector)
    ensures
        (len % 256) + 0x100 * ((len / 0x100) % 256) + 0x1_0000 * ((len / 0x1_0000) % 256)
            + 0x100_0000 * ((len / 0x100_0000) % 256) == len,
{
}

/// Nothing has no bits, and one byte more has eight bits more.
pub proof fn lemma_bits_of_bytes_push(bytes: Seq<u8>, b: u8)
    ensures
        bits_of_bytes(Seq::empty()) == Seq::<bool>::empty(),
        bits_of_bytes(bytes).len() == 8 * bytes.len(),
        bits_of_bytes(bytes.push(b)) == bits_of_bytes(bytes) + byte_bits(b),
{
    reveal(bits_of_bytes);
    let joined = bits_of_bytes(bytes) + byte_bits(b);
    let n = bytes.len() as int;
    assert forall|j: int| 0 <= j < 8 * (n + 1) implies bits_of_bytes(bytes.push(b))[j]
        == joined[j] by {
        if j < 8 * n {
            assert(bytes.push(b)[j / 8] == bytes[j / 8]);
        } else {
            assert(j / 8 == n);
            assert(j % 8 == j - 8 * n);
        }
    }
    assert(bits_of_bytes(bytes.push(b)) == joined);
}

/// The bits of a byte spell that byte.
pub proof fn lemma_byte_at_bits(bits: Seq<bool>, k: int, b: u8)
    requires
        0 <= k,
        8 * k + 8 <= bits.len(),
        bits.subrange(8 * k, 8 * k + 8) == byte_bits(b),
    ensures
        byte_at(bits, k) == b,
{
    let part = bits.subrange(8 * k, 8 * k + 8);
    assert(bits[8 * k] == part[0]);
    assert(bits[8 * k + 1] == part[1]);
    assert(bits[8 * k + 2] == part[2]);
    assert(bits[8 * k + 3] == part[3]);
    assert(bits[8 * k + 4] == part[4]);
    assert(bits[8 * k + 5] == part[5]);
    assert(bits[8 * k + 6] == part[6]);
    assert(bits[8 * k + 7] == part[7]);
    lemma_byte_weights(b);
}

/// Reading bytes back from their bits gives the bytes, whatever bits follow.
pub proof fn lemma_bytes_of_bits_of_bytes(bytes: Seq<u8>, rest: Seq<bool>)
    ensures
        bytes_of_bits(bits_of_bytes(bytes) + rest).len() >= bytes.len(),
        bytes_of_bits(bits_of_bytes(bytes) + rest).take(bytes.len() as int) == bytes,
        rest.len() < 8 ==> bytes_of_bits(bits_of_bytes(bytes) + rest) == bytes,
{
    reveal(bits_of_bytes);
    reveal(bytes_of_bits);
    let bits = bits_of_bytes(bytes) + rest;
    let back = bytes_of_bits(bits);
    assert forall|k: int| 0 <= k < bytes.len() implies back[k] == bytes[k] by {
        assert forall|i: int| 0 <= i < 8 implies #[trigger] bits.subrange(8 * k, 8 * k + 8)[i]
            == byte_bits(bytes[k])[i] by {
            assert((8 * k + i) / 8 == k);
            assert((8 * k + i) % 8 == i);
        }
        assert(bits.subrange(8 * k, 8 * k + 8) == byte_bits(bytes[k]));
        lemma_byte_at_bits(bits, k, bytes[k]);
    }
    assert(back.take(bytes.len() as int) == bytes);
    if rest.len() < 8 {
        assert(back.len() == bytes.len());
        assert(back.take(bytes.len() as int) == back);
    }
}

/// A frame read back gives the payload it was made from, whatever bits follow it.
pub proof fn lemma_unframed_framed(message: Seq<u8>, rest: Seq<bool>)
    requires
        message.len() < 0x1_0000_0000,
    ensures
        unframed(framed(message) + rest) == message,
{
    let all = length_prefix(message.len()) + message;
    let bytes = bytes_of_bits(framed(message) + rest);
    lemma_bytes_of_bits_of_bytes(all, rest);
    assert(bytes[0] == all[0] && bytes[1] == all[1] && bytes[2] == all[2] && bytes[3] == all[3])
        by {
        assert(bytes.take(all.len() as int)[0] == all[0]);
        assert(bytes.take(all.len() as int)[1] == all[1]);
        assert(bytes.take(all.len() as int)[2] == all[2]);
        assert(bytes.take(all.len() as int)[3] == all[3]);
    }
    assert(prefix_length(bytes) == message.len()) by {
        lemma_length_bytes(message.len() as u32);
        assert(all[0] == length_prefix(message.len())[0]);
        assert(all[1] == length_prefix(message.len())[1]);
        assert(all[2] == length_prefix(message.len())[2]);
        assert(all[3] == length_prefix(message.len())[3]);
    }
    let body = bytes.skip(4);
    assert forall|k: int| 0 <= k < message.len() implies body[k] == message[k] by {
        assert(bytes.take(all.len() as int)[k + 4] == all[k + 4]);
    }
    if message.len() < body.len() {
        assert(body.take(message.len() as int) == message);
    } else {
        assert(body == message);
    }
}

/// Framing and then reading back gives the payload: for every payload shorter than
/// 2^32 bytes, `message_from_bools` undoes `message_to_bools`.
pub proof fn lemma_framing_inverse(message: Seq<u8>)
    requires
        message.len() < 0x1_0000_0000,
    ensures
        framed(message).len() >= 32,
        unframed(framed(message)) == message,
{
    lemma_unframed_framed(message, Seq::empty());
    lemma_bits_of_bytes_push(length_prefix(message.len()) + message, 0);
    assert(framed(message) + Seq::<bool>::empty() == framed(message));
}

fn push_byte(out: &mut Vec<bool>, b: u8)
    ensures
        final(out)@ == old(out)@ + byte_bits(b),
{
    out.push(b % 2 == 1);
    out.push((b / 2) % 2 == 1);
    out.push((b / 4) % 2 == 1);
    out.push((b / 8) % 2 == 1);
    out.push((b / 16) % 2 == 1);
    out.push((b / 32) % 2 == 1);
    out.push((b / 64) % 2 == 1);
    out.push((b / 128) % 2 == 1);
}

fn weight(bit: bool, w: u8) -> (out: u8)
    ensures
        out == if bit {
            w
        } else {
            0
        },
{
    if bit {
        w
    } else {
        0
    }
}

/// Frames a payload: the bits of its length and of its bytes.
pub fn message_to_bools(message: Vec<u8>) -> (bits: Vec<bool>)
    ensures
        bits@ == framed(message@),
{
    let length = message.len();
    let mut out: Vec<bool> = Vec::new();
    let ghost prefix = length_prefix(message@.len());
    let ghost all = prefix + message@;
    push_byte(&mut out, (length % 256) as u8);
    push_byte(&mut out, ((length / 0x100) % 256) as u8);
    push_byte(&mut out, ((length / 0x1_0000) % 256) as u8);
    push_byte(&mut out, ((length / 0x100_0000) % 256) as u8);
    proof {
        let none = Seq::<u8>::empty();
        lemma_bits_of_bytes_push(none, prefix[0]);
        lemma_bits_of_bytes_push(none.push(prefix[0]), prefix[1]);
        lemma_bits_of_bytes_push(none.push(prefix[0]).push(prefix[1]), prefix[2]);
        lemma_bits_of_bytes_push(none.push(prefix[0]).push(prefix[1]).push(prefix[2]), prefix[3]);
        assert(all.take(4) == none.push(prefix[0]).push(prefix[1]).push(prefix[2]).push(
            prefix[3],
        ));
    }
    let mut k: usize = 0;
    while k < length
        invariant
            k <= length,
            length == message@.len(),
            all == length_prefix(message@.len()) + message@,
            out@ == bits_of_bytes(all.take(k + 4)),
        decreases length - k,
    {
        push_byte(&mut out, message[k]);
        proof {
            lemma_bits_of_bytes_push(all.take(k + 4), message@[k as int]);
            assert(all.take(k + 5) == all.take(k + 4).push(message@[k as int]));
        }
        k = k + 1;
    }
    assert(all.take(length + 4) == all);
    out
}

/// Reads a framed payload back: whole bytes from the bits, the length from the first
/// four, and at most that many of the bytes that follow.
pub fn message_from_bools(bools: &[bool]) -> (message: Vec<u8>)
    requires
        bools@.len() >= 32,
    ensures
        message@ == unframed(bools@),
{
    let count = bools.len() / 8;
    let mut bytes: Vec<u8> = Vec::new();
    let mut k: usize = 0;
    proof {
        reveal(bytes_of_bits);
    }
    while k < count
        invariant
            k <= count,
            bools@.len() <= usize::MAX,
            bytes_of_bits(bools@).len() == count,
            count == bools@.len() / 8,
            bytes@ == bytes_of_bits(bools@).take(k as int),
        decreases count - k,
    {
        assert(8 * k + 7 < bools@.len());
        let byte = weight(bools[8 * k], 1) + weight(bools[8 * k + 1], 2) + weight(
            bools[8 * k + 2],
            4,
        ) + weight(bools[8 * k + 3], 8) + weight(bools[8 * k + 4], 16) + weight(
            bools[8 * k + 5],
            32,
        ) + weight(bools[8 * k + 6], 64) + weight(bools[8 * k + 7], 128);
        bytes.push(byte);
        proof {
            reveal(bytes_of_bits);
            assert(byte == byte_at(bools@, k as int));
            assert(bytes@ == bytes_of_bits(bools@).take(k + 1));
        }
        k = k + 1;
    }
    assert(bytes@ == bytes_of_bits(bools@)) by {
        reveal(bytes_of_bits);
    }
    let length: u64 = bytes[0] as u64 + 0x100 * (bytes[1] as u64) + 0x1_0000 * (bytes[2] as u64)
        + 0x100_0000 * (bytes[3] as u64);
    let mut out: Vec<u8> = Vec::new();
    let mut i: usize = 4;
    while i < count && ((i - 4) as u64) < length
        invariant
            4 <= i <= count,
            count == bytes@.len(),
            (i - 4) <= length,
            out@ == bytes@.skip(4).take(i - 4),
        decreases count - i,
    {
        out.push(bytes[i]);
        assert(out@ == bytes@.skip(4).take(i - 3));
        i = i + 1;
    }
    proof {
        let body = bytes@.skip(4);
        if length < body.len() {
            assert(i - 4 == length);
        } else {
            assert(i == count);
            assert(body.take(body.len() as int) == body);
        }
    }
    out
}

} // verus!
