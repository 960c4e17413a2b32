//! The carrier codec: a text, closed by a sentinel byte, laid bit by bit over
//! the lowest bit of each carrier byte, and read back from there.
use vstd::prelude::*;
use vstd::utf8::{
    decode_utf8, decode_utf8_encode_utf8, encode_scalar, encode_utf8, encode_utf8_decode_utf8,
    encode_utf8_valid_utf8, is_ascii_chars, is_ascii_chars_encode_utf8, leading_byte_width_2,
    leading_byte_width_3, leading_byte_width_4, valid_utf8,
};
use crate::bits::{
    bit_at, bitify_bytes, bits_bytes, lemma_group_value_of_byte_bits, lemma_text_bits_group,
    set_bit_at, text_bits, unbitify_message, with_bit,
};
use crate::error::{CapacityError, DecodeError};
use crate::trusted::{pairing_at, zip_longest, Pairing};

verus! {

/// The byte that closes a hidden text: a line feed. A text that holds it
/// is read back only up to its first occurrence.
pub const SENTINEL: u8 = 0x0A;

/// The bits that hiding the bytes `text` lays over a carrier: those of the
/// text and then those of the sentinel.
pub open spec fn payload(text: Seq<u8>) -> Seq<bool> {
    text_bits(text.push(SENTINEL))
}

/// `carrier` with the lowest bit of its byte `i` made `bits[i]`, for each `i`
/// that `bits` reaches; every other bit and every other byte as it was.
pub open spec fn embed(carrier: Seq<u8>, bits: Seq<bool>) -> Seq<u8> {
    Seq::new(
        carrier.len(),
        |i: int|
            if i < bits.len() {
                with_bit(carrier[i], 0, bits[i])
            } else {
                carrier[i]
            },
    )
}

/// What hiding the bytes `text` in `carrier` gives: the carrier with the
/// payload embedded where it has a byte for every payload bit, and a capacity
/// error where it has not.
pub open spec fn injected(carrier: Seq<u8>, text: Seq<u8>) -> Result<Seq<u8>, CapacityError> {
    if payload(text).len() <= carrier.len() {
        Ok(embed(carrier, payload(text)))
    } else {
        Err(CapacityError)
    }
}

/// Hides `plain` in a copy of `carrier`. Fails, and hands out no bytes at
/// all, when the carrier is shorter than eight bytes for each byte of the
/// text and eight more for the sentinel.
pub fn inject(carrier: &Vec<u8>, plain: &str) -> (result: Result<Vec<u8>, CapacityError>)
    ensures
        match result {
            Ok(out) => injected(carrier@, encode_utf8(plain@)) == Ok::<Seq<u8>, CapacityError>(
                out@,
            ),
            Err(e) => injected(carrier@, encode_utf8(plain@)) == Err::<Seq<u8>, CapacityError>(e),
        },
        result is Ok <==> carrier@.len() >= 8 * (encode_utf8(plain@).len() + 1),
        result matches Ok(out) ==> out@.len() == carrier@.len() && forall|i: int, q: u32|
            0 <= i < carrier@.len() && 1 <= q < 8 ==> #[trigger] bit_at(out@[i], q) == bit_at(
                carrier@[i],
                q,
            ),
{
    let mut text = plain.as_bytes_vec();
    text.push(SENTINEL);
    let bits = bitify_bytes(text.as_slice());
    let ghost spread = bits@;
    assert(spread == payload(encode_utf8(plain@)));
    let pairs = zip_longest(carrier, bits);
    let mut out: Vec<u8> = Vec::new();
    let mut i: usize = 0;
    while i < pairs.len()
        invariant
            i <= pairs@.len(),
            i <= carrier@.len(),
            spread == payload(encode_utf8(plain@)),
            pairs@.len() == if carrier@.len() >= spread.len() {
                carrier@.len()
            } else {
                spread.len()
            },
            forall|k: int|
                0 <= k < pairs@.len() ==> #[trigger] pairs@[k] == pairing_at(carrier@, spread, k),
            out@.len() == i,
            forall|k: int| 0 <= k < i ==> out@[k] == #[trigger] embed(carrier@, spread)[k],
        decreases pairs@.len() - i,
    {
        match pairs[i] {
            Pairing::Both(byte, bit) => {
                out.push(set_bit_at(byte, 0, bit).unwrap());
            },
            Pairing::Left(byte) => {
                out.push(byte);
            },
            Pairing::Right(_) => {
                return Err(CapacityError);
            },
        }
        i += 1;
    }
    assert(out@ =~= embed(carrier@, spread));
    assert forall|i: int, q: u32| 0 <= i < carrier@.len() && 1 <= q < 8 implies #[trigger] bit_at(
        out@[i],
        q,
    ) == bit_at(carrier@[i], q) by {
        lemma_embed_keeps_higher_bits(carrier@, spread, i, q);
    }
    Ok(out)
}

/// The lowest bit of each byte of `carrier`.
pub open spec fn low_bits(carrier: Seq<u8>) -> Seq<bool> {
    Seq::new(carrier.len(), |i: int| carrier[i] % 2 == 1)
}

/// Whether `byte` reads as one character of hidden text: it is UTF-8 by
/// itself, which is to say ASCII, and it is not the sentinel.
pub open spec fn is_plain(byte: u8) -> bool {
    byte < 0x80 && byte != SENTINEL
}

/// How many bytes stand at the front of `bytes` before the first one that is
/// not a character of hidden text.
pub open spec fn plain_prefix_len(bytes: Seq<u8>) -> nat
    decreases bytes.len(),
{
    if bytes.len() == 0 || !is_plain(bytes[0]) {
        0
    } else {
        1 + plain_prefix_len(bytes.drop_first())
    }
}

/// The text that `bytes` hold, read one byte at a time: the characters
/// before the first sentinel. A byte before it that is not UTF-8 by itself
/// makes the bytes invalid, and without a sentinel there is no end to read
/// up to.
pub open spec fn decoded(bytes: Seq<u8>) -> Result<Seq<char>, DecodeError> {
    let n = plain_prefix_len(bytes) as int;
    if n == bytes.len() {
        Err(DecodeError::MissingSentinel)
    } else if bytes[n] == SENTINEL {
        Ok(Seq::new(n as nat, |i: int| bytes[i] as char))
    } else {
        Err(DecodeError::InvalidUtf8)
    }
}

/// What reading `carrier` gives: the text held by the bytes that the lowest
/// bits of the carrier spell.
pub open spec fn extracted(carrier: Seq<u8>) -> Result<Seq<char>, DecodeError> {
    decoded(bits_bytes(low_bits(carrier)))
}

/// The lowest bits of the carrier bytes from `start` up to `end`.
fn low_bits_between(carrier: &Vec<u8>, start: usize, end: usize) -> (bits: Vec<bool>)
    requires
        start <= end <= carrier@.len(),
    ensures
        bits@ == low_bits(carrier@).subrange(start as int, end as int),
{
    let mut bits: Vec<bool> = Vec::new();
    let mut i: usize = start;
    while i < end
        invariant
            start <= i <= end <= carrier@.len(),
            bits@ == low_bits(carrier@).subrange(start as int, i as int),
        decreases end - i,
    {
        bits.push(carrier[i] % 2 == 1);
        i += 1;
    }
    bits
}

/// Reads the hidden text back from `carrier`. The lowest bits of the carrier
/// are taken eight at a time, each group is decoded by itself, and reading
/// stops at the first group that spells the sentinel: nothing after it is
/// looked at. It is an error when a group before it is not valid UTF-8 and
/// when the carrier ends without a sentinel. Where the carrier's length is no
/// multiple of eight, its last bytes make a shorter group, which is decoded
/// as [`unbitify_message`] decodes leftover bits.
pub fn extract(carrier: &Vec<u8>) -> (result: Result<String, DecodeError>)
    ensures
        match result {
            Ok(text) => extracted(carrier@) == Ok::<Seq<char>, DecodeError>(text@),
            Err(e) => extracted(carrier@) == Err::<Seq<char>, DecodeError>(e),
        },
{
    let ghost bytes = bits_bytes(low_bits(carrier@));
    let mut text = String::new();
    let mut start: usize = 0;
    let mut done: Ghost<int> = Ghost(0);
    while start < carrier.len()
        invariant
            bytes == bits_bytes(low_bits(carrier@)),
            0 <= done@ <= bytes.len(),
            start <= carrier@.len(),
            start == if 8 * done@ <= carrier@.len() {
                8 * done@
            } else {
                carrier@.len() as int
            },
            forall|i: int| 0 <= i < done@ ==> is_plain(#[trigger] bytes[i]),
            text@ == Seq::new(done@ as nat, |i: int| bytes[i] as char),
        decreases carrier@.len() - start,
    {
        let end = if carrier.len() - start >= 8 {
            start + 8
        } else {
            carrier.len()
        };
        let group = low_bits_between(carrier, start, end);
        let ghost byte = bytes[done@];
        proof {
            assert(group@.subrange(0, group@.len() as int) == group@);
            assert(bits_bytes(group@) =~= seq![byte]);
            lemma_single_byte_utf8(byte);
        }
        match unbitify_message(group) {
            Ok(piece) => {
                let spelled = piece.as_str().as_bytes();
                proof {
                    decode_utf8_encode_utf8(seq![byte]);
                }
                if spelled[0] == SENTINEL {
                    proof {
                        lemma_plain_prefix_len(bytes, done@);
                    }
                    return Ok(text);
                }
                text.append(piece.as_str());
            },
            Err(e) => {
                proof {
                    lemma_plain_prefix_len(bytes, done@);
                }
                return Err(e);
            },
        }
        proof {
            done@ = done@ + 1;
        }
        start = end;
    }
    proof {
        lemma_plain_prefix_len(bytes, done@);
    }
    Err(DecodeError::MissingSentinel)
}

/// The plain prefix of `bytes` has length `n` when the first `n` bytes are
/// plain and the one after them, if there is one, is not.
pub proof fn lemma_plain_prefix_len(bytes: Seq<u8>, n: int)
    requires
        0 <= n <= bytes.len(),
        forall|i: int| 0 <= i < n ==> is_plain(#[trigger] bytes[i]),
        n < bytes.len() ==> !is_plain(bytes[n]),
    ensures
        plain_prefix_len(bytes) == n,
    decreases n,
{
    if n > 0 {
        let rest = bytes.drop_first();
        assert forall|i: int| 0 <= i < n - 1 implies is_plain(#[trigger] rest[i]) by {
            assert(rest[i] == bytes[i + 1]);
        }
        lemma_plain_prefix_len(rest, n - 1);
    }
}

/// One byte is valid UTF-8 exactly when it is ASCII, and then decodes to the
/// character with its number.
pub proof fn lemma_single_byte_utf8(byte: u8)
    ensures
        valid_utf8(seq![byte]) <==> byte < 0x80,
        byte < 0x80 ==> decode_utf8(seq![byte]) == seq![byte as char],
{
    if byte < 0x80 {
        let chars = seq![byte as char];
        assert(is_ascii_chars(chars));
        is_ascii_chars_encode_utf8(chars);
        assert(chars[0] as u8 == byte);
        assert(encode_utf8(chars) =~= seq![byte]);
        encode_utf8_valid_utf8(chars);
        encode_utf8_decode_utf8(chars);
    }
}

/// Embedding changes no bit of the carrier but the lowest of a byte: every
/// byte keeps its bits 1 to 7, and the carrier keeps its length.
pub proof fn lemma_embed_keeps_higher_bits(carrier: Seq<u8>, bits: Seq<bool>, i: int, q: u32)
    requires
        0 <= i < carrier.len(),
        1 <= q < 8,
    ensures
        embed(carrier, bits).len() == carrier.len(),
        bit_at(embed(carrier, bits)[i], q) == bit_at(carrier[i], q),
{
    let byte = carrier[i];
    let bit = bits[i];
    assert(bit_at(with_bit(byte, 0, bit), q) == bit_at(byte, q)) by (bit_vector)
        requires
            1 <= q < 8,
    ;
}

/// After embedding, the lowest bits of the carrier are the embedded bits, as
/// far as these reach.
pub proof fn lemma_low_bits_of_embed(carrier: Seq<u8>, bits: Seq<bool>)
    requires
        bits.len() <= carrier.len(),
    ensures
        low_bits(embed(carrier, bits)).subrange(0, bits.len() as int) == bits,
{
    let low = low_bits(embed(carrier, bits));
    assert forall|i: int| 0 <= i < bits.len() implies low[i] == bits[i] by {
        let byte = carrier[i];
        let bit = bits[i];
        assert((with_bit(byte, 0, bit) % 2 == 1) == bit) by (bit_vector);
    }
    assert(low.subrange(0, bits.len() as int) =~= bits);
}

/// The plain prefix of `bytes` ends within `bytes`, holds plain bytes only,
/// and the byte after it, if there is one, is not plain.
pub proof fn lemma_plain_prefix_is_plain(bytes: Seq<u8>)
    ensures
        plain_prefix_len(bytes) <= bytes.len(),
        forall|i: int| 0 <= i < plain_prefix_len(bytes) ==> is_plain(#[trigger] bytes[i]),
        plain_prefix_len(bytes) < bytes.len() ==> !is_plain(bytes[plain_prefix_len(bytes) as int]),
    decreases bytes.len(),
{
    if bytes.len() > 0 && is_plain(bytes[0]) {
        let rest = bytes.drop_first();
        lemma_plain_prefix_is_plain(rest);
        assert forall|i: int| 0 <= i < plain_prefix_len(bytes) implies is_plain(
            #[trigger] bytes[i],
        ) by {
            if i > 0 {
                assert(bytes[i] == rest[i - 1]);
            }
        }
    }
}

/// Reading stops at the first byte that is not plain: bytes that follow a
/// front part with such a byte in it change nothing.
pub proof fn lemma_decoded_of_front(bytes: Seq<u8>, m: int)
    requires
        0 <= m <= bytes.len(),
        plain_prefix_len(bytes.subrange(0, m)) < m,
    ensures
        decoded(bytes) == decoded(bytes.subrange(0, m)),
{
    let front = bytes.subrange(0, m);
    let n = plain_prefix_len(front) as int;
    lemma_plain_prefix_is_plain(front);
    assert forall|i: int| 0 <= i < n implies is_plain(#[trigger] bytes[i]) by {
        assert(bytes[i] == front[i]);
    }
    assert(bytes[n] == front[n]);
    lemma_plain_prefix_len(bytes, n);
    assert(Seq::new(n as nat, |i: int| bytes[i] as char) =~= Seq::new(
        n as nat,
        |i: int| front[i] as char,
    ));
}

/// Reading looks at nothing behind the group that ends it: where the first
/// `groups` groups of eight carrier bytes spell a byte that is not plain, the
/// carrier reads as those groups alone would.
pub proof fn lemma_extracted_of_front(carrier: Seq<u8>, groups: int)
    requires
        0 <= groups,
        8 * groups <= carrier.len(),
        plain_prefix_len(bits_bytes(low_bits(carrier.subrange(0, 8 * groups)))) < groups,
    ensures
        extracted(carrier) == extracted(carrier.subrange(0, 8 * groups)),
{
    let front = carrier.subrange(0, 8 * groups);
    let bytes = bits_bytes(low_bits(carrier));
    let front_bytes = bits_bytes(low_bits(front));
    assert forall|k: int| 0 <= k < groups implies bytes[k] == front_bytes[k] by {
        assert(low_bits(carrier).subrange(8 * k, 8 * k + 8) =~= low_bits(front).subrange(
            8 * k,
            8 * k + 8,
        ));
    }
    assert(bytes.subrange(0, groups) =~= front_bytes);
    lemma_decoded_of_front(bytes, groups);
}

/// After the bytes `text` were hidden in a carrier, the bytes that the
/// carrier's lowest bits spell begin with the text and the sentinel.
pub proof fn lemma_hidden_bytes(carrier: Seq<u8>, text: Seq<u8>)
    requires
        payload(text).len() <= carrier.len(),
    ensures
        text.len() < bits_bytes(low_bits(embed(carrier, payload(text)))).len(),
        bits_bytes(low_bits(embed(carrier, payload(text)))).subrange(0, text.len() as int + 1)
            == text.push(SENTINEL),
{
    let closed = text.push(SENTINEL);
    let bits = payload(text);
    let low = low_bits(embed(carrier, bits));
    let bytes = bits_bytes(low);
    lemma_low_bits_of_embed(carrier, bits);
    assert forall|k: int| 0 <= k <= text.len() implies bytes[k] == closed[k] by {
        assert(low.subrange(8 * k, 8 * k + 8) =~= low.subrange(0, bits.len() as int).subrange(
            8 * k,
            8 * k + 8,
        ));
        lemma_text_bits_group(closed, k);
        lemma_group_value_of_byte_bits(closed[k]);
    }
    assert(bytes.subrange(0, text.len() as int + 1) =~= closed);
}

/// What is read back from a carrier in which the bytes `text` were hidden is
/// what the text, closed by the sentinel, reads as by itself: neither the
/// carrier nor what it holds after the sentinel has a part in it.
pub proof fn lemma_inject_then_extract(carrier: Seq<u8>, text: Seq<u8>)
    requires
        carrier.len() >= 8 * (text.len() + 1),
    ensures
        injected(carrier, text) matches Ok(hidden) && extracted(hidden) == decoded(
            text.push(SENTINEL),
        ),
{
    let closed = text.push(SENTINEL);
    let bytes = bits_bytes(low_bits(embed(carrier, payload(text))));
    lemma_hidden_bytes(carrier, text);
    lemma_plain_prefix_is_plain(closed);
    if plain_prefix_len(closed) == closed.len() {
        assert(is_plain(closed[text.len() as int]));
    }
    lemma_decoded_of_front(bytes, text.len() as int + 1);
}

/// A text of ASCII characters without the sentinel, hidden in a carrier that
/// has room for it, is read back as it was.
///
/// A character outside ASCII takes several bytes, none of which is UTF-8 by
/// itself, so that reading such a text back fails
/// ([`lemma_text_beyond_ascii_is_not_read_back`]): the law is about ASCII.
pub proof fn lemma_round_trip(carrier: Seq<u8>, message: Seq<char>)
    requires
        is_ascii_chars(message),
        forall|i: int|
            0 <= i < encode_utf8(message).len() ==> encode_utf8(message)[i] != SENTINEL,
        carrier.len() >= 8 * (encode_utf8(message).len() + 1),
    ensures
        injected(carrier, encode_utf8(message)) matches Ok(hidden) && extracted(hidden) == Ok::<
            Seq<char>,
            DecodeError,
        >(message),
{
    let text = encode_utf8(message);
    let closed = text.push(SENTINEL);
    let n = text.len() as int;
    is_ascii_chars_encode_utf8(message);
    lemma_inject_then_extract(carrier, text);
    assert forall|k: int| 0 <= k < n implies is_plain(#[trigger] closed[k]) by {
        assert(text[k] == message[k] as u8);
    }
    lemma_plain_prefix_len(closed, n);
    assert forall|k: int| 0 <= k < n implies closed[k] as char == message[k] by {
        assert(text[k] == message[k] as u8);
    }
    assert(Seq::new(n as nat, |i: int| closed[i] as char) =~= message);
}

/// A character after U+007F has a number above 0x7F, and it is a scalar
/// value; no character comes before U+0000.
proof fn lemma_char_number(c: char)
    ensures
        '\0' <= c,
        vstd::utf8::is_scalar(c as u32),
        c > '\u{7f}' ==> c as u32 > 0x7f,
{
}

/// The UTF-8 bytes of a text with a character outside ASCII hold a byte that
/// is not ASCII.
pub proof fn lemma_beyond_ascii_has_high_byte(message: Seq<char>, j: int)
    requires
        0 <= j < message.len(),
        message[j] > '\u{7f}',
    ensures
        exists|i: int| 0 <= i < encode_utf8(message).len() && encode_utf8(message)[i] >= 0x80,
    decreases message.len(),
{
    let first = message[0] as u32;
    let head = encode_scalar(first);
    let tail = encode_utf8(message.drop_first());
    assert(encode_utf8(message) == head + tail);
    if j == 0 {
        lemma_char_number(message[0]);
        assert(leading_byte_width_2(first) >= 0x80 && leading_byte_width_3(first) >= 0x80
            && leading_byte_width_4(first) >= 0x80) by (bit_vector);
        assert(encode_utf8(message)[0] == head[0]);
        assert(encode_utf8(message)[0] >= 0x80);
    } else {
        lemma_beyond_ascii_has_high_byte(message.drop_first(), j - 1);
        let i = choose|i: int| 0 <= i < tail.len() && tail[i] >= 0x80;
        assert(encode_utf8(message)[head.len() + i] == tail[i]);
    }
}

/// A text with a character outside ASCII and without the sentinel byte,
/// hidden in a carrier that has room for it, is not read back: reading stops
/// at its first byte that is not ASCII and fails.
pub proof fn lemma_text_beyond_ascii_is_not_read_back(carrier: Seq<u8>, message: Seq<char>)
    requires
        !is_ascii_chars(message),
        forall|i: int|
            0 <= i < encode_utf8(message).len() ==> encode_utf8(message)[i] != SENTINEL,
        carrier.len() >= 8 * (encode_utf8(message).len() + 1),
    ensures
        injected(carrier, encode_utf8(message)) matches Ok(hidden) && extracted(hidden) == Err::<
            Seq<char>,
            DecodeError,
        >(DecodeError::InvalidUtf8),
{
    let text = encode_utf8(message);
    let closed = text.push(SENTINEL);
    lemma_inject_then_extract(carrier, text);
    let j = choose|j: int| 0 <= j < message.len() && !('\0' <= #[trigger] message[j] <= '\u{7f}');
    lemma_char_number(message[j]);
    lemma_beyond_ascii_has_high_byte(message, j);
    let i = choose|i: int| 0 <= i < text.len() && text[i] >= 0x80;
    lemma_plain_prefix_is_plain(closed);
    let n = plain_prefix_len(closed) as int;
    if n > i {
        assert(is_plain(closed[i]));
    }
    assert(closed[n] == text[n]);
}

} // verus!
