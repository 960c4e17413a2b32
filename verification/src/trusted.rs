//! What the library takes on trust: contracts for functions of `itertools`
//! and of `std` that are stated here and not proved.
use itertools::{EitherOrBoth, Itertools};
use vstd::prelude::*;
use vstd::utf8::{encode_utf8, valid_utf8};

verus! {

/// What stands at one position when a byte sequence and a bit sequence are
/// walked side by side: an item of each, or of the one that is longer.
#[derive(Debug, Clone, Copy, PartialEq, Eq, Structural)]
pub enum Pairing {
    /// Both sequences reach this position.
    Both(u8, bool),
    /// Only the bytes reach this position.
    Left(u8),
    /// Only the bits reach this position.
    Right(bool),
}

/// The pairing at position `i` of `bytes` walked beside `bits`.
pub open spec fn pairing_at(bytes: Seq<u8>, bits: Seq<bool>, i: int) -> Pairing {
    if i < bytes.len() && i < bits.len() {
        Pairing::Both(bytes[i], bits[i])
    } else if i < bytes.len() {
        Pairing::Left(bytes[i])
    } else {
        Pairing::Right(bits[i])
    }
}

/// Calls `Itertools::zip_longest` on the items of `bytes` and of `bits`.
///
/// Trusted: the result is as long as the longer of the two, and holds at each
/// position `Both` while both sequences last, then `Left` or `Right` with the
/// items of the one that goes on.
#[verifier::external_body]
pub(crate) fn zip_longest(bytes: &Vec<u8>, bits: Vec<bool>) -> (pairs: Vec<Pairing>)
    ensures
        pairs@.len() == if bytes@.len() >= bits@.len() {
            bytes@.len()
        } else {
            bits@.len()
        },
        forall|i: int| 0 <= i < pairs@.len() ==> #[trigger] pairs@[i] == pairing_at(bytes@, bits@, i),
{
    bytes.iter().zip_longest(bits).map(|pair| match pair {
        EitherOrBoth::Both(&byte, bit) => Pairing::Both(byte, bit),
        EitherOrBoth::Left(&byte) => Pairing::Left(byte),
        EitherOrBoth::Right(bit) => Pairing::Right(bit),
    }).collect()
}

/// The end of the group that starts at `start`, for groups of `size` items
/// cut from `len` items.
pub open spec fn group_end(start: int, size: int, len: int) -> int {
    if start + size <= len {
        start + size
    } else {
        len
    }
}

/// Calls `Itertools::chunks` on the items of `bits`.
///
/// Trusted: the groups are the consecutive runs of `size` items of `bits`, in
/// order, the last one shorter when the length is no multiple of `size`.
/// `chunks` panics on size 0, which `requires` leaves out.
#[verifier::external_body]
pub(crate) fn chunks(bits: &Vec<bool>, size: usize) -> (groups: Vec<Vec<bool>>)
    requires
        size > 0,
    ensures
        groups@.len() == (bits@.len() + size - 1) / (size as int),
        forall|k: int| 0 <= k < groups@.len() ==> #[trigger] groups@[k]@ == bits@.subrange(
            k * size,
            group_end(k * size, size as int, bits@.len() as int),
        ),
{
    bits.iter().chunks(size).into_iter().map(|group| group.copied().collect()).collect()
}

/// `std::string::FromUtf8Error`, the error of `String::from_utf8`: carried
/// through as it is, nothing is said of what it holds.
#[verifier::external_type_specification]
#[verifier::external_body]
pub struct ExFromUtf8Error(std::string::FromUtf8Error);

/// Contract for `String::from_utf8`.
///
/// Trusted: it succeeds exactly on valid UTF-8, and the string it returns is
/// made of the bytes it was given.
pub assume_specification[ String::from_utf8 ](vec: Vec<u8>) -> (result: Result<
    String,
    std::string::FromUtf8Error,
>)
    ensures
        result is Ok <==> valid_utf8(vec@),
        result matches Ok(text) ==> encode_utf8(text@) == vec@,
;

} // verus!
