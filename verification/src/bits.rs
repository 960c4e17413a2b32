//! The bit codec: single bits of a byte, and text as a sequence of bits.
use vstd::prelude::*;
use vstd::utf8::{decode_utf8, encode_utf8, valid_utf8};
use vstd::arithmetic::power2::{lemma2_to64, lemma_pow2_strictly_increases, lemma_pow2_unfold, pow2};
use crate::error::{DecodeError, OutOfRangeBitPosition};
use crate::trusted::{chunks, group_end};

verus! {

/// Width in bits of the integers that the codec addresses.
pub const WIDTH: u32 = 8;

/// Whether bit `position` of `value` is set, position 0 being the least
/// significant. Meaningful for `position < WIDTH`.
pub open spec fn bit_at(value: u8, position: u32) -> bool {
    (value >> position) & 1 == 1
}

/// `value` with bit `position` made equal to `bit` and every other bit as it
/// was. Meaningful for `position < WIDTH`.
pub open spec fn with_bit(value: u8, position: u32, bit: bool) -> u8 {
    if bit {
        value | (1u8 << position)
    } else {
        value & !(1u8 << position)
    }
}

/// Reads bit `n` of `input`. A position at or beyond the width is an error.
pub fn get_bit_at(input: u8, n: u32) -> (result: Result<bool, OutOfRangeBitPosition>)
    ensures
        n < WIDTH ==> result == Ok::<bool, OutOfRangeBitPosition>(bit_at(input, n)),
        n >= WIDTH ==> result is Err,
{
    if n < WIDTH {
        Ok((input >> n) & 1 == 1)
    } else {
        Err(OutOfRangeBitPosition)
    }
}

/// Writes `val` into bit `n` of `input`. A position at or beyond the width is
/// an error.
pub fn set_bit_at(input: u8, n: u32, val: bool) -> (result: Result<u8, OutOfRangeBitPosition>)
    ensures
        n < WIDTH ==> result == Ok::<u8, OutOfRangeBitPosition>(with_bit(input, n, val)),
        n >= WIDTH ==> result is Err,
{
    if n < WIDTH {
        if val {
            Ok(input | (1u8 << n))
        } else {
            Ok(input & !(1u8 << n))
        }
    } else {
        Err(OutOfRangeBitPosition)
    }
}

/// Writing a bit and reading it back gives what was written, and the write
/// leaves every other bit of the byte as it was.
pub proof fn lemma_set_bit_then_get(value: u8, p: u32, q: u32, bit: bool)
    requires
        p < WIDTH,
        q < WIDTH,
    ensures
        bit_at(with_bit(value, p, bit), p) == bit,
        q != p ==> bit_at(with_bit(value, p, bit), q) == bit_at(value, q),
{
    assert(bit_at(with_bit(value, p, bit), p) == bit) by (bit_vector)
        requires
            p < 8,
    ;
    assert(q != p ==> bit_at(with_bit(value, p, bit), q) == bit_at(value, q)) by (bit_vector)
        requires
            p < 8,
            q < 8,
    ;
}

/// The bits of `bytes`: for each byte in order its eight bits, the most
/// significant first.
pub open spec fn text_bits(bytes: Seq<u8>) -> Seq<bool> {
    Seq::new(8 * bytes.len(), |i: int| bit_at(bytes[i / 8], (7 - i % 8) as u32))
}

/// Turns bytes into their bit sequence.
pub fn bitify_bytes(bytes: &[u8]) -> (bits: Vec<bool>)
    ensures
        bits@ == text_bits(bytes@),
{
    let mut bits: Vec<bool> = Vec::new();
    let mut i: usize = 0;
    while i < bytes.len()
        invariant
            i <= bytes@.len(),
            bits@.len() == 8 * i,
            forall|j: int| 0 <= j < bits@.len() ==> bits@[j] == #[trigger] text_bits(bytes@)[j],
        decreases bytes@.len() - i,
    {
        let byte = bytes[i];
        let mut n: u32 = WIDTH;
        while n > 0
            invariant
                i < bytes@.len(),
                byte == bytes@[i as int],
                n <= WIDTH,
                bits@.len() == 8 * i + (WIDTH - n),
                forall|j: int| 0 <= j < bits@.len() ==> bits@[j] == #[trigger] text_bits(bytes@)[j],
            decreases n,
        {
            n -= 1;
            bits.push(get_bit_at(byte, n).unwrap());
        }
        i += 1;
    }
    bits
}

/// Turns text into the bit sequence of its UTF-8 bytes.
pub fn bitify_message(cipher: &str) -> (bits: Vec<bool>)
    ensures
        bits@ == text_bits(encode_utf8(cipher@)),
{
    bitify_bytes(cipher.as_bytes())
}

/// The number that `bits` spell in binary, the first bit being the most
/// significant one.
pub open spec fn group_value(bits: Seq<bool>) -> nat
    decreases bits.len(),
{
    if bits.len() == 0 {
        0
    } else {
        2 * group_value(bits.drop_last()) + if bits.last() {
            1nat
        } else {
            0nat
        }
    }
}

/// The bytes that `bits` spell: each run of eight bits is one byte, its first
/// bit the most significant. Where the length is no multiple of eight, the
/// bits left over at the end make one more byte, whose value is the number
/// that they spell by themselves, as though zero bits stood before them.
pub open spec fn bits_bytes(bits: Seq<bool>) -> Seq<u8> {
    Seq::new(
        (bits.len() + 7) / 8,
        |k: int| group_value(bits.subrange(8 * k, group_end(8 * k, 8, bits.len() as int))) as u8,
    )
}

/// The eight bits of `byte`, the most significant first.
pub open spec fn byte_bits(byte: u8) -> Seq<bool> {
    Seq::new(8, |i: int| bit_at(byte, (7 - i) as u32))
}

/// The eight bits of a byte spell that byte.
pub proof fn lemma_group_value_of_byte_bits(byte: u8)
    ensures
        group_value(byte_bits(byte)) == byte,
{
    let s = byte_bits(byte);
    let s7 = s.drop_last();
    let s6 = s7.drop_last();
    let s5 = s6.drop_last();
    let s4 = s5.drop_last();
    let s3 = s4.drop_last();
    let s2 = s3.drop_last();
    let s1 = s2.drop_last();
    let s0 = s1.drop_last();
    assert(group_value(s0) == 0);
    assert(group_value(s1) == 2 * group_value(s0) + if bit_at(byte, 7) { 1nat } else { 0nat });
    assert(group_value(s2) == 2 * group_value(s1) + if bit_at(byte, 6) { 1nat } else { 0nat });
    assert(group_value(s3) == 2 * group_value(s2) + if bit_at(byte, 5) { 1nat } else { 0nat });
    assert(group_value(s4) == 2 * group_value(s3) + if bit_at(byte, 4) { 1nat } else { 0nat });
    assert(group_value(s5) == 2 * group_value(s4) + if bit_at(byte, 3) { 1nat } else { 0nat });
    assert(group_value(s6) == 2 * group_value(s5) + if bit_at(byte, 2) { 1nat } else { 0nat });
    assert(group_value(s7) == 2 * group_value(s6) + if bit_at(byte, 1) { 1nat } else { 0nat });
    assert(group_value(s) == 2 * group_value(s7) + if bit_at(byte, 0) { 1nat } else { 0nat });
    let b7: u8 = if bit_at(byte, 7) { 1 } else { 0 };
    let b6: u8 = if bit_at(byte, 6) { 1 } else { 0 };
    let b5: u8 = if bit_at(byte, 5) { 1 } else { 0 };
    let b4: u8 = if bit_at(byte, 4) { 1 } else { 0 };
    let b3: u8 = if bit_at(byte, 3) { 1 } else { 0 };
    let b2: u8 = if bit_at(byte, 2) { 1 } else { 0 };
    let b1: u8 = if bit_at(byte, 1) { 1 } else { 0 };
    let b0: u8 = if bit_at(byte, 0) { 1 } else { 0 };
    assert(byte == 128 * b7 + 64 * b6 + 32 * b5 + 16 * b4 + 8 * b3 + 4 * b2 + 2 * b1 + b0)
        by (bit_vector)
        requires
            b7 == if bit_at(byte, 7) { 1u8 } else { 0u8 },
            b6 == if bit_at(byte, 6) { 1u8 } else { 0u8 },
            b5 == if bit_at(byte, 5) { 1u8 } else { 0u8 },
            b4 == if bit_at(byte, 4) { 1u8 } else { 0u8 },
            b3 == if bit_at(byte, 3) { 1u8 } else { 0u8 },
            b2 == if bit_at(byte, 2) { 1u8 } else { 0u8 },
            b1 == if bit_at(byte, 1) { 1u8 } else { 0u8 },
            b0 == if bit_at(byte, 0) { 1u8 } else { 0u8 },
    ;
}

/// The bits of byte `k` of a text are the bits `8k` to `8k + 7` of the
/// text's bits.
pub proof fn lemma_text_bits_group(bytes: Seq<u8>, k: int)
    requires
        0 <= k < bytes.len(),
    ensures
        text_bits(bytes).subrange(8 * k, 8 * k + 8) == byte_bits(bytes[k]),
{
    assert(text_bits(bytes).subrange(8 * k, 8 * k + 8) =~= byte_bits(bytes[k]));
}

/// Turning bytes into bits and the bits back into bytes gives the bytes
/// again.
pub proof fn lemma_bits_bytes_of_text_bits(bytes: Seq<u8>)
    ensures
        bits_bytes(text_bits(bytes)) == bytes,
{
    let bits = text_bits(bytes);
    assert forall|k: int| 0 <= k < bytes.len() implies bits_bytes(bits)[k] == bytes[k] by {
        lemma_text_bits_group(bytes, k);
        lemma_group_value_of_byte_bits(bytes[k]);
    }
    assert(bits_bytes(bits) =~= bytes);
}

/// A group of `n` bits spells a number below two to the power `n`.
pub proof fn lemma_group_value_bound(bits: Seq<bool>)
    ensures
        group_value(bits) < pow2(bits.len()),
    decreases bits.len(),
{
    if bits.len() == 0 {
        lemma2_to64();
    } else {
        lemma_group_value_bound(bits.drop_last());
        lemma_pow2_unfold(bits.len());
    }
}

/// Folds at most eight bits into the byte that they spell.
fn fold_group(group: &Vec<bool>) -> (value: u8)
    requires
        group@.len() <= 8,
    ensures
        value == group_value(group@),
{
    let mut value: u8 = 0;
    let mut j: usize = 0;
    while j < group.len()
        invariant
            j <= group@.len() <= 8,
            value == group_value(group@.take(j as int)),
        decreases group@.len() - j,
    {
        proof {
            lemma_group_value_bound(group@.take(j as int));
            lemma2_to64();
            if j < 7 {
                lemma_pow2_strictly_increases(j as nat, 7);
            }
            assert(group@.take(j + 1).drop_last() == group@.take(j as int));
        }
        value = value * 2 + if group[j] {
            1
        } else {
            0
        };
        j += 1;
    }
    assert(group@.take(j as int) == group@);
    value
}

/// Reads text back from its bits. The bits are cut into bytes, eight bits to
/// a byte with the most significant first, and the bytes are decoded as
/// UTF-8; bytes that are not valid UTF-8 are an error.
///
/// Bits left over at the end, where the length is no multiple of eight, are
/// neither dropped nor refused: they make a last byte whose value is the
/// number that they spell, as [`bits_bytes`] says.
pub fn unbitify_message(bits: Vec<bool>) -> (result: Result<String, DecodeError>)
    ensures
        match result {
            Ok(text) => valid_utf8(bits_bytes(bits@)) && text@ == decode_utf8(bits_bytes(bits@)),
            Err(e) => !valid_utf8(bits_bytes(bits@)) && e == DecodeError::InvalidUtf8,
        },
{
    let groups = chunks(&bits, 8);
    let mut bytes: Vec<u8> = Vec::new();
    let mut k: usize = 0;
    while k < groups.len()
        invariant
            k <= groups@.len(),
            groups@.len() == (bits@.len() + 7) / 8,
            forall|g: int|
                0 <= g < groups@.len() ==> #[trigger] groups@[g]@ == bits@.subrange(
                    g * 8,
                    group_end(g * 8, 8, bits@.len() as int),
                ),
            bytes@.len() == k,
            forall|g: int| 0 <= g < k ==> bytes@[g] == #[trigger] bits_bytes(bits@)[g],
        decreases groups@.len() - k,
    {
        let byte = fold_group(&groups[k]);
        bytes.push(byte);
        k += 1;
    }
    assert(bytes@ =~= bits_bytes(bits@));
    match String::from_utf8(bytes) {
        Ok(text) => {
            proof {
                vstd::utf8::encode_utf8_decode_utf8(text@);
            }
            Ok(text)
        },
        Err(_) => Err(DecodeError::InvalidUtf8),
    }
}

} // verus!
