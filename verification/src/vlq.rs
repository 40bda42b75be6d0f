//! Variable-length quantities: base-128 integers of one to four bytes, most
//! significant byte first, each byte but the last with its high bit set.

use crate::error::ParseError;
use vstd::prelude::*;

verus! {

/// The seven payload bits of one byte of a variable-length quantity.
pub open spec fn vlq_digit(b: u8) -> nat {
    (b % 128) as nat
}

/// Whether the byte announces that another byte of the quantity follows.
pub open spec fn vlq_more(b: u8) -> bool {
    b >= 0x80
}

/// The number written by the payload bits of all bytes of `s` in base 128,
/// most significant byte first.
pub open spec fn vlq_value(s: Seq<u8>) -> nat
    decreases s.len(),
{
    if s.len() == 0 {
        0
    } else {
        vlq_value(s.drop_last()) * 128 + vlq_digit(s.last())
    }
}

/// How many bytes the quantity at the head of `s` takes: up to and including
/// the first byte without the continuation bit, which has to be among the
/// first four.
pub open spec fn vlq_len(s: Seq<u8>) -> Result<nat, ParseError> {
    if s.len() < 1 {
        Err(ParseError::UnexpectedEof)
    } else if !vlq_more(s[0]) {
        Ok(1)
    } else if s.len() < 2 {
        Err(ParseError::UnexpectedEof)
    } else if !vlq_more(s[1]) {
        Ok(2)
    } else if s.len() < 3 {
        Err(ParseError::UnexpectedEof)
    } else if !vlq_more(s[2]) {
        Ok(3)
    } else if s.len() < 4 {
        Err(ParseError::UnexpectedEof)
    } else if !vlq_more(s[3]) {
        Ok(4)
    } else {
        Err(ParseError::MalformedVarLength)
    }
}

/// The quantity at the head of `s` and the number of bytes it takes.
pub open spec fn spec_var_length(s: Seq<u8>) -> Result<(u32, usize), ParseError> {
    match vlq_len(s) {
        Ok(n) => Ok((vlq_value(s.take(n as int)) as u32, n as usize)),
        Err(e) => Err(e),
    }
}

/// The shortest encoding of `v` but for its last byte: the digits of `v` in
/// base 128, each with the continuation bit.
pub open spec fn vlq_continued(v: nat) -> Seq<u8>
    decreases v,
{
    if v == 0 {
        Seq::empty()
    } else {
        vlq_continued(v / 128).push((128 + v % 128) as u8)
    }
}

/// The shortest encoding of `v` as a variable-length quantity.
pub open spec fn vlq_encoding(v: nat) -> Seq<u8> {
    vlq_continued(v / 128).push((v % 128) as u8)
}

/// The continuation bytes of an encoding all carry the continuation bit, and
/// there is one of them for each base-128 digit of `v`.
proof fn lemma_continued(v: nat)
    ensures
        v == 0 <==> vlq_continued(v).len() == 0,
        v < 0x80 ==> vlq_continued(v).len() <= 1,
        v < 0x4000 ==> vlq_continued(v).len() <= 2,
        v < 0x20_0000 ==> vlq_continued(v).len() <= 3,
        v >= 0x80 ==> vlq_continued(v).len() >= 2,
        v >= 0x4000 ==> vlq_continued(v).len() >= 3,
        v >= 0x20_0000 ==> vlq_continued(v).len() >= 4,
        forall|j: int| 0 <= j < vlq_continued(v).len() ==> vlq_more(#[trigger] vlq_continued(v)[j]),
        vlq_value(vlq_continued(v)) == v,
    decreases v,
{
    if v != 0 {
        let head = vlq_continued(v / 128);
        let last = (128 + v % 128) as u8;
        lemma_continued(v / 128);
        assert(vlq_continued(v) == head.push(last));
        assert(head.push(last).drop_last() =~= head);
        assert(vlq_digit(last) == v % 128);
    }
}

/// Decoding the shortest encoding of a value of at most 28 bits gives the
/// value back, whatever follows the encoding, and reads exactly the encoding.
pub proof fn lemma_var_length_of_encoding(v: nat, rest: Seq<u8>)
    requires
        v <= 0x0FFF_FFFF,
    ensures
        1 <= vlq_encoding(v).len() <= 4,
        spec_var_length(vlq_encoding(v) + rest) == Ok::<(u32, usize), ParseError>(
            (v as u32, vlq_encoding(v).len() as usize),
        ),
{
    let head = vlq_continued(v / 128);
    let last = (v % 128) as u8;
    let e = vlq_encoding(v);
    let s = e + rest;
    lemma_continued(v / 128);
    assert(e == head.push(last));
    assert(e.drop_last() =~= head);
    assert(vlq_value(e) == v);
    assert(s.take(e.len() as int) =~= e);
    assert(forall|j: int| 0 <= j < head.len() ==> s[j] == head[j]);
    assert(s[head.len() as int] == last);
}

/// The shortest encoding of a value of more than 28 bits needs a fifth byte,
/// and decoding it fails after the fourth.
pub proof fn lemma_var_length_of_long_encoding(v: nat, rest: Seq<u8>)
    requires
        v > 0x0FFF_FFFF,
    ensures
        vlq_encoding(v).len() >= 5,
        spec_var_length(vlq_encoding(v) + rest) == Err::<(u32, usize), ParseError>(
            ParseError::MalformedVarLength,
        ),
{
    let head = vlq_continued(v / 128);
    let s = vlq_encoding(v) + rest;
    lemma_continued(v / 128);
    assert(forall|j: int| 0 <= j < head.len() ==> s[j] == head[j]);
}

/// A quantity that decodes takes one to four bytes of the input, and its
/// value is the base-128 number that they write, which fits in 28 bits.
pub proof fn lemma_var_length_bounds(s: Seq<u8>)
    ensures
        spec_var_length(s) matches Ok((value, used)) ==> 1 <= used <= 4 && used <= s.len() && value
            == vlq_value(s.take(used as int)) && value <= 0x0FFF_FFFF,
{
    if vlq_len(s) is Ok {
        let t = s.take(vlq_len(s)->Ok_0 as int);
        reveal_with_fuel(vlq_value, 5);
        assert(vlq_value(t) <= 0x0FFF_FFFF);
    }
}

/// Whatever follows them, four bytes with the continuation bit are rejected.
pub proof fn lemma_var_length_fifth_byte(s: Seq<u8>)
    requires
        s.len() >= 4,
        forall|j: int| 0 <= j < 4 ==> vlq_more(#[trigger] s[j]),
    ensures
        spec_var_length(s) == Err::<(u32, usize), ParseError>(ParseError::MalformedVarLength),
{
}

/// Decoding looks at the quantity's own bytes only.
pub proof fn lemma_var_length_prefix(s: Seq<u8>, t: Seq<u8>)
    requires
        spec_var_length(s) is Ok,
    ensures
        spec_var_length(s + t) == spec_var_length(s),
{
    let n = vlq_len(s)->Ok_0 as int;
    assert(forall|j: int| 0 <= j < n ==> (s + t)[j] == s[j]);
    assert((s + t).take(n) =~= s.take(n));
}

proof fn lemma_shift_in(acc: u32, b: u8)
    by (bit_vector)
    requires
        acc < 0x20_0000,
    ensures
        (acc << 7) | ((b & 0x7f) as u32) == acc * 128 + (b % 128),
        (b & 0x80 == 0) <==> b < 0x80,
{
}

/// Decodes the variable-length quantity at the head of `input`: the value and
/// the number of bytes read, which is at most four.
pub fn var_length(input: &[u8]) -> (r: Result<(u32, usize), ParseError>)
    ensures
        r == spec_var_length(input@),
        r matches Ok((value, used)) ==> 1 <= used <= 4 && used <= input@.len() && value
            <= 0x0FFF_FFFF,
        r matches Err(e) ==> e == ParseError::UnexpectedEof || e == ParseError::MalformedVarLength,
{
    let mut result: u32 = 0;
    let mut i: usize = 0;
    while i < 4
        invariant
            i <= 4,
            i <= input@.len(),
            forall|j: int| 0 <= j < i ==> vlq_more(#[trigger] input@[j]),
            result == vlq_value(input@.take(i as int)),
            i == 0 ==> result == 0,
            i == 1 ==> result < 0x80,
            i == 2 ==> result < 0x4000,
            i == 3 ==> result < 0x20_0000,
        decreases 4 - i,
    {
        if i >= input.len() {
            return Err(ParseError::UnexpectedEof);
        }
        let b: u8 = input[i];
        proof {
            lemma_shift_in(result, b);
            assert(input@.take(i + 1).drop_last() =~= input@.take(i as int));
        }
        result = (result << 7) | ((b & 0x7f) as u32);
        if b & 0x80 == 0 {
            return Ok((result, i + 1));
        }
        i += 1;
    }
    Err(ParseError::MalformedVarLength)
}

} // verus!
