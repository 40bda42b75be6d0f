//! Fixed-width big-endian integers, read by `nom`.

use nom::IResult;
use vstd::prelude::*;

verus! {

/// The big-endian value of the first two bytes of `s`.
pub open spec fn spec_be_u16(s: Seq<u8>) -> u16
    recommends
        s.len() >= 2,
{
    (s[0] as int * 0x100 + s[1] as int) as u16
}

/// The big-endian value of the first four bytes of `s`.
pub open spec fn spec_be_u32(s: Seq<u8>) -> u32
    recommends
        s.len() >= 4,
{
    (s[0] as int * 0x100_0000 + s[1] as int * 0x1_0000 + s[2] as int * 0x100 + s[3] as int) as u32
}

/// Trusted: calls `nom::be_u8`. The contract claims that it yields the first
/// byte of its input, and that it asks for more input, which is `None` here,
/// exactly when the input is empty.
#[verifier::external_body]
pub(crate) fn be_u8(input: &[u8]) -> (r: Option<u8>)
    ensures
        r == if input@.len() >= 1 { Some(input@[0]) } else { None::<u8> },
{
    match nom::be_u8(input) {
        IResult::Done(_, value) => Some(value),
        IResult::Error(_) => None,
        IResult::Incomplete(_) => None,
    }
}

/// Trusted: calls `nom::be_u16`. The contract claims that it reads the first
/// two bytes of its input as a big-endian integer, and that it asks for more
/// input, which is `None` here, exactly when there are fewer than two.
#[verifier::external_body]
pub(crate) fn be_u16(input: &[u8]) -> (r: Option<u16>)
    ensures
        r == if input@.len() >= 2 { Some(spec_be_u16(input@)) } else { None::<u16> },
{
    match nom::be_u16(input) {
        IResult::Done(_, value) => Some(value),
        IResult::Error(_) => None,
        IResult::Incomplete(_) => None,
    }
}

/// Trusted: calls `nom::be_u32`. The contract claims that it reads the first
/// four bytes of its input as a big-endian integer, and that it asks for more
/// input, which is `None` here, exactly when there are fewer than four.
#[verifier::external_body]
pub(crate) fn be_u32(input: &[u8]) -> (r: Option<u32>)
    ensures
        r == if input@.len() >= 4 { Some(spec_be_u32(input@)) } else { None::<u32> },
{
    match nom::be_u32(input) {
        IResult::Done(_, value) => Some(value),
        IResult::Error(_) => None,
        IResult::Incomplete(_) => None,
    }
}

} // verus!
