//! Integers on the wire.
//!
//! Every integer of a frame travels in the postcard format: a `u8` as one raw
//! byte, wider unsigned integers as little-endian groups of seven bits, each
//! group but the last with its high bit set. The bytes themselves are produced
//! and consumed by the `postcard` crate; this module states what they are and
//! proves that reading undoes writing.

use vstd::prelude::*;

verus! {

/// Why a frame could not be read.
#[derive(Clone, Copy, Debug, PartialEq, Eq, Structural)]
pub enum WireError {
    /// The bytes ended before the value was complete.
    UnexpectedEnd,
    /// An integer used more groups than its type allows, or its last group
    /// does not fit the type.
    BadVarint,
    /// A list holds more entries than the count in front of it can say.
    TooLong,
    /// Any other failure reported by the codec.
    Other,
}

/// The groups of seven bits that encode `v`, least significant first.
pub open spec fn varint_bytes(v: nat) -> Seq<u8>
    decreases v,
{
    if v < 128 {
        seq![v as u8]
    } else {
        seq![(128 + v % 128) as u8] + varint_bytes(v / 128)
    }
}

/// Reads one integer of at most `groups` groups from the front of `bytes`.
/// The last permitted group may hold at most `last_max`. Gives the value and
/// the bytes that follow it.
pub open spec fn take_varint(bytes: Seq<u8>, groups: nat, last_max: nat) -> Result<
    (nat, Seq<u8>),
    WireError,
>
    decreases groups,
{
    if groups == 0 {
        Err(WireError::BadVarint)
    } else if bytes.len() == 0 {
        Err(WireError::UnexpectedEnd)
    } else if bytes[0] < 128 {
        if groups == 1 && bytes[0] > last_max {
            Err(WireError::BadVarint)
        } else {
            Ok((bytes[0] as nat, bytes.skip(1)))
        }
    } else {
        match take_varint(bytes.skip(1), (groups - 1) as nat, last_max) {
            Ok((high, rest)) => Ok((((bytes[0] - 128) + 128 * high) as nat, rest)),
            Err(e) => Err(e),
        }
    }
}

/// Whether `v` is written in at most `groups` groups with a last group of at
/// most `last_max`.
pub open spec fn varint_fits(v: nat, groups: nat, last_max: nat) -> bool
    decreases groups,
{
    if groups == 0 {
        false
    } else if groups == 1 {
        v <= last_max
    } else {
        v < 128 || varint_fits(v / 128, (groups - 1) as nat, last_max)
    }
}

/// What reading a `u8` from the front of `bytes` gives.
pub open spec fn take_u8(bytes: Seq<u8>) -> Result<(u8, Seq<u8>), WireError> {
    if bytes.len() == 0 {
        Err(WireError::UnexpectedEnd)
    } else {
        Ok((bytes[0], bytes.skip(1)))
    }
}

/// What reading a `u16` from the front of `bytes` gives.
pub open spec fn take_u16(bytes: Seq<u8>) -> Result<(u16, Seq<u8>), WireError> {
    match take_varint(bytes, 3, 3) {
        Ok((v, rest)) => Ok((v as u16, rest)),
        Err(e) => Err(e),
    }
}

/// What reading a `u32` from the front of `bytes` gives.
pub open spec fn take_u32(bytes: Seq<u8>) -> Result<(u32, Seq<u8>), WireError> {
    match take_varint(bytes, 5, 15) {
        Ok((v, rest)) => Ok((v as u32, rest)),
        Err(e) => Err(e),
    }
}

/// What reading a `u64` from the front of `bytes` gives.
pub open spec fn take_u64(bytes: Seq<u8>) -> Result<(u64, Seq<u8>), WireError> {
    match take_varint(bytes, 10, 1) {
        Ok((v, rest)) => Ok((v as u64, rest)),
        Err(e) => Err(e),
    }
}

/// Reading the encoding of a value that fits gives the value back and leaves
/// exactly what followed it.
pub proof fn lemma_take_varint_bytes(v: nat, groups: nat, last_max: nat, rest: Seq<u8>)
    requires
        varint_fits(v, groups, last_max),
        last_max < 128,
    ensures
        take_varint(varint_bytes(v) + rest, groups, last_max) == Ok::<(nat, Seq<u8>), WireError>(
            (v, rest),
        ),
    decreases v,
{
    let all = varint_bytes(v) + rest;
    if v < 128 {
        assert(all[0] == v as u8);
        assert(all.skip(1) =~= rest);
    } else {
        assert(all[0] == (128 + v % 128) as u8);
        assert(all.skip(1) =~= varint_bytes(v / 128) + rest);
        lemma_take_varint_bytes(v / 128, (groups - 1) as nat, last_max, rest);
    }
}

/// A successful read consumed between one and `groups` bytes, and its value
/// is below `128^(groups - 1) * (last_max + 1)`, stated here by `varint_fits`.
pub proof fn lemma_take_varint_consumes(bytes: Seq<u8>, groups: nat, last_max: nat)
    requires
        take_varint(bytes, groups, last_max) is Ok,
        last_max < 128,
    ensures
        ({
            let (v, rest) = take_varint(bytes, groups, last_max)->Ok_0;
            &&& rest.len() < bytes.len()
            &&& bytes.len() - rest.len() <= groups
            &&& rest == bytes.skip(bytes.len() - rest.len())
            &&& varint_fits(v, groups, last_max)
        }),
    decreases groups,
{
    if bytes[0] >= 128 {
        let tail = bytes.skip(1);
        lemma_take_varint_consumes(tail, (groups - 1) as nat, last_max);
        let (high, rest) = take_varint(tail, (groups - 1) as nat, last_max)->Ok_0;
        let v = ((bytes[0] - 128) + 128 * high) as nat;
        assert(tail.skip(tail.len() - rest.len()) =~= bytes.skip(bytes.len() - rest.len()));
        assert(v / 128 == high);
    }
}

/// Every `u16` fits the three groups of its encoding.
pub proof fn lemma_u16_fits(v: u16)
    ensures
        varint_fits(v as nat, 3, 3),
{
    reveal_with_fuel(varint_fits, 4);
}

/// Every `u32` fits the five groups of its encoding.
pub proof fn lemma_u32_fits(v: u32)
    ensures
        varint_fits(v as nat, 5, 15),
{
    reveal_with_fuel(varint_fits, 6);
}

/// Every `u64` fits the ten groups of its encoding.
pub proof fn lemma_u64_fits(v: u64)
    ensures
        varint_fits(v as nat, 10, 1),
{
    reveal_with_fuel(varint_fits, 11);
}

/// A value that fits the groups of a `u16` is a `u16`.
pub proof fn lemma_fits_u16(v: nat)
    requires
        varint_fits(v, 3, 3),
    ensures
        v <= u16::MAX,
{
    reveal_with_fuel(varint_fits, 4);
}

/// A value that fits the groups of a `u32` is a `u32`.
pub proof fn lemma_fits_u32(v: nat)
    requires
        varint_fits(v, 5, 15),
    ensures
        v <= u32::MAX,
{
    reveal_with_fuel(varint_fits, 6);
}

/// A value that fits the groups of a `u64` is a `u64`.
pub proof fn lemma_fits_u64(v: nat)
    requires
        varint_fits(v, 10, 1),
    ensures
        v <= u64::MAX,
{
    reveal_with_fuel(varint_fits, 11);
}

/// Trusted: `postcard::to_allocvec` on a `u8`. Postcard writes a `u8` as the
/// byte itself, into a fresh vector that cannot run full.
#[verifier::external_body]
pub(crate) fn encode_u8(value: u8) -> (r: Result<Vec<u8>, WireError>)
    ensures
        r is Ok,
        r->Ok_0@ == seq![value],
{
    match postcard::to_allocvec(&value) {
        Ok(bytes) => Ok(bytes),
        Err(_) => Err(WireError::Other),
    }
}

/// Trusted: `postcard::to_allocvec` on a `u16`. Postcard writes it as groups
/// of seven bits, least significant first, into a fresh vector that cannot
/// run full.
#[verifier::external_body]
pub(crate) fn encode_u16(value: u16) -> (r: Result<Vec<u8>, WireError>)
    ensures
        r is Ok,
        r->Ok_0@ == varint_bytes(value as nat),
{
    match postcard::to_allocvec(&value) {
        Ok(bytes) => Ok(bytes),
        Err(_) => Err(WireError::Other),
    }
}

/// Trusted: `postcard::to_allocvec` on a `u32`, written as `encode_u16` writes
/// a `u16`.
#[verifier::external_body]
pub(crate) fn encode_u32(value: u32) -> (r: Result<Vec<u8>, WireError>)
    ensures
        r is Ok,
        r->Ok_0@ == varint_bytes(value as nat),
{
    match postcard::to_allocvec(&value) {
        Ok(bytes) => Ok(bytes),
        Err(_) => Err(WireError::Other),
    }
}

/// Trusted: `postcard::to_allocvec` on a `u64`, written as `encode_u16` writes
/// a `u16`.
#[verifier::external_body]
pub(crate) fn encode_u64(value: u64) -> (r: Result<Vec<u8>, WireError>)
    ensures
        r is Ok,
        r->Ok_0@ == varint_bytes(value as nat),
{
    match postcard::to_allocvec(&value) {
        Ok(bytes) => Ok(bytes),
        Err(_) => Err(WireError::Other),
    }
}

/// Trusted: `postcard::take_from_bytes` for a `u8`. Postcard pops one byte, or
/// reports the end of the input.
#[verifier::external_body]
pub(crate) fn decode_u8<'a>(bytes: &'a [u8]) -> (r: Result<(u8, &'a [u8]), WireError>)
    ensures
        match r {
            Ok((v, rest)) => take_u8(bytes@) == Ok::<(u8, Seq<u8>), WireError>((v, rest@)),
            Err(e) => take_u8(bytes@) == Err::<(u8, Seq<u8>), WireError>(e),
        },
{
    match postcard::take_from_bytes::<u8>(bytes) {
        Ok((v, rest)) => Ok((v, rest)),
        Err(postcard::Error::DeserializeUnexpectedEnd) => Err(WireError::UnexpectedEnd),
        Err(postcard::Error::DeserializeBadVarint) => Err(WireError::BadVarint),
        Err(_) => Err(WireError::Other),
    }
}

/// Trusted: `postcard::take_from_bytes` for a `u16`. Postcard reads at most
/// three groups, the third of at most 3; it reports the end of the input where
/// a group is missing and a bad integer otherwise.
#[verifier::external_body]
pub(crate) fn decode_u16<'a>(bytes: &'a [u8]) -> (r: Result<(u16, &'a [u8]), WireError>)
    ensures
        match r {
            Ok((v, rest)) => take_u16(bytes@) == Ok::<(u16, Seq<u8>), WireError>((v, rest@)),
            Err(e) => take_u16(bytes@) == Err::<(u16, Seq<u8>), WireError>(e),
        },
{
    match postcard::take_from_bytes::<u16>(bytes) {
        Ok((v, rest)) => Ok((v, rest)),
        Err(postcard::Error::DeserializeUnexpectedEnd) => Err(WireError::UnexpectedEnd),
        Err(postcard::Error::DeserializeBadVarint) => Err(WireError::BadVarint),
        Err(_) => Err(WireError::Other),
    }
}

/// Trusted: `postcard::take_from_bytes` for a `u32`: at most five groups, the
/// fifth of at most 15.
#[verifier::external_body]
pub(crate) fn decode_u32<'a>(bytes: &'a [u8]) -> (r: Result<(u32, &'a [u8]), WireError>)
    ensures
        match r {
            Ok((v, rest)) => take_u32(bytes@) == Ok::<(u32, Seq<u8>), WireError>((v, rest@)),
            Err(e) => take_u32(bytes@) == Err::<(u32, Seq<u8>), WireError>(e),
        },
{
    match postcard::take_from_bytes::<u32>(bytes) {
        Ok((v, rest)) => Ok((v, rest)),
        Err(postcard::Error::DeserializeUnexpectedEnd) => Err(WireError::UnexpectedEnd),
        Err(postcard::Error::DeserializeBadVarint) => Err(WireError::BadVarint),
        Err(_) => Err(WireError::Other),
    }
}

/// Trusted: `postcard::take_from_bytes` for a `u64`: at most ten groups, the
/// tenth of at most 1.
#[verifier::external_body]
pub(crate) fn decode_u64<'a>(bytes: &'a [u8]) -> (r: Result<(u64, &'a [u8]), WireError>)
    ensures
        match r {
            Ok((v, rest)) => take_u64(bytes@) == Ok::<(u64, Seq<u8>), WireError>((v, rest@)),
            Err(e) => take_u64(bytes@) == Err::<(u64, Seq<u8>), WireError>(e),
        },
{
    match postcard::take_from_bytes::<u64>(bytes) {
        Ok((v, rest)) => Ok((v, rest)),
        Err(postcard::Error::DeserializeUnexpectedEnd) => Err(WireError::UnexpectedEnd),
        Err(postcard::Error::DeserializeBadVarint) => Err(WireError::BadVarint),
        Err(_) => Err(WireError::Other),
    }
}

/// Appends the encoding of a `u8` to `out`.
pub fn write_u8(value: u8, out: &mut Vec<u8>)
    ensures
        final(out)@ == old(out)@ + seq![value],
{
    let mut bytes = encode_u8(value).unwrap();
    out.append(&mut bytes);
}

/// Appends the encoding of a `u16` to `out`.
pub fn write_u16(value: u16, out: &mut Vec<u8>)
    ensures
        final(out)@ == old(out)@ + varint_bytes(value as nat),
{
    let mut bytes = encode_u16(value).unwrap();
    out.append(&mut bytes);
}

/// Appends the encoding of a `u32` to `out`.
pub fn write_u32(value: u32, out: &mut Vec<u8>)
    ensures
        final(out)@ == old(out)@ + varint_bytes(value as nat),
{
    let mut bytes = encode_u32(value).unwrap();
    out.append(&mut bytes);
}

/// Appends the encoding of a `u64` to `out`.
pub fn write_u64(value: u64, out: &mut Vec<u8>)
    ensures
        final(out)@ == old(out)@ + varint_bytes(value as nat),
{
    let mut bytes = encode_u64(value).unwrap();
    out.append(&mut bytes);
}

/// Reads a `u8` from the front of `bytes`.
pub fn read_u8<'a>(bytes: &'a [u8]) -> (r: Result<(u8, &'a [u8]), WireError>)
    ensures
        match r {
            Ok((v, rest)) => take_u8(bytes@) == Ok::<(u8, Seq<u8>), WireError>((v, rest@))
                && rest@.len() < bytes@.len(),
            Err(e) => take_u8(bytes@) == Err::<(u8, Seq<u8>), WireError>(e),
        },
{
    decode_u8(bytes)
}

/// Reads a `u16` from the front of `bytes`.
pub fn read_u16<'a>(bytes: &'a [u8]) -> (r: Result<(u16, &'a [u8]), WireError>)
    ensures
        match r {
            Ok((v, rest)) => {
                &&& take_u16(bytes@) == Ok::<(u16, Seq<u8>), WireError>((v, rest@))
                &&& take_varint(bytes@, 3, 3) == Ok::<(nat, Seq<u8>), WireError>(
                    (v as nat, rest@),
                )
                &&& rest@.len() < bytes@.len()
            },
            Err(e) => take_u16(bytes@) == Err::<(u16, Seq<u8>), WireError>(e),
        },
{
    let r = decode_u16(bytes);
    proof {
        if r is Ok {
            lemma_take_varint_consumes(bytes@, 3, 3);
            lemma_fits_u16(take_varint(bytes@, 3, 3)->Ok_0.0);
        }
    }
    r
}

/// Reads a `u32` from the front of `bytes`.
pub fn read_u32<'a>(bytes: &'a [u8]) -> (r: Result<(u32, &'a [u8]), WireError>)
    ensures
        match r {
            Ok((v, rest)) => {
                &&& take_u32(bytes@) == Ok::<(u32, Seq<u8>), WireError>((v, rest@))
                &&& take_varint(bytes@, 5, 15) == Ok::<(nat, Seq<u8>), WireError>(
                    (v as nat, rest@),
                )
                &&& rest@.len() < bytes@.len()
            },
            Err(e) => take_u32(bytes@) == Err::<(u32, Seq<u8>), WireError>(e),
        },
{
    let r = decode_u32(bytes);
    proof {
        if r is Ok {
            lemma_take_varint_consumes(bytes@, 5, 15);
            lemma_fits_u32(take_varint(bytes@, 5, 15)->Ok_0.0);
        }
    }
    r
}

/// Reads a `u64` from the front of `bytes`.
pub fn read_u64<'a>(bytes: &'a [u8]) -> (r: Result<(u64, &'a [u8]), WireError>)
    ensures
        match r {
            Ok((v, rest)) => {
                &&& take_u64(bytes@) == Ok::<(u64, Seq<u8>), WireError>((v, rest@))
                &&& take_varint(bytes@, 10, 1) == Ok::<(nat, Seq<u8>), WireError>(
                    (v as nat, rest@),
                )
                &&& rest@.len() < bytes@.len()
            },
            Err(e) => take_u64(bytes@) == Err::<(u64, Seq<u8>), WireError>(e),
        },
{
    let r = decode_u64(bytes);
    proof {
        if r is Ok {
            lemma_take_varint_consumes(bytes@, 10, 1);
            lemma_fits_u64(take_varint(bytes@, 10, 1)->Ok_0.0);
        }
    }
    r
}

} // verus!
