//! Fixed-width big-endian integers and length-prefixed byte strings.
//!
//! Every encoder appends to a byte vector and says exactly which bytes it
//! appended; every decoder takes a buffer and a position and is specified
//! against a spec-level parser, so that reading back what was written is a
//! provable round trip.

use vstd::prelude::*;

use crate::errors::SwarmError;

verus! {

/// Outcome of a spec-level parse: a value with the position one past its
/// frame, a buffer too short for the frame, or a malformed frame.
pub enum Parsed<T> {
    Found(T, int),
    Short,
    Bad,
}

// ---------------------------------------------------------------------------
// Big-endian encodings, spec level.
// ---------------------------------------------------------------------------

pub open spec fn spec_be16(v: u16) -> Seq<u8> {
    seq![((v >> 8) & 0xff) as u8, (v & 0xff) as u8]
}

pub open spec fn spec_be32(v: u32) -> Seq<u8> {
    seq![
        ((v >> 24) & 0xff) as u8,
        ((v >> 16) & 0xff) as u8,
        ((v >> 8) & 0xff) as u8,
        (v & 0xff) as u8,
    ]
}

pub open spec fn spec_be64(v: u64) -> Seq<u8> {
    seq![
        ((v >> 56) & 0xff) as u8,
        ((v >> 48) & 0xff) as u8,
        ((v >> 40) & 0xff) as u8,
        ((v >> 32) & 0xff) as u8,
        ((v >> 24) & 0xff) as u8,
        ((v >> 16) & 0xff) as u8,
        ((v >> 8) & 0xff) as u8,
        (v & 0xff) as u8,
    ]
}

pub open spec fn spec_u16_of(b0: u8, b1: u8) -> u16 {
    ((b0 as u16) << 8) | (b1 as u16)
}

pub open spec fn spec_u32_of(b0: u8, b1: u8, b2: u8, b3: u8) -> u32 {
    ((b0 as u32) << 24) | ((b1 as u32) << 16) | ((b2 as u32) << 8) | (b3 as u32)
}

pub open spec fn spec_u64_of(
    b0: u8,
    b1: u8,
    b2: u8,
    b3: u8,
    b4: u8,
    b5: u8,
    b6: u8,
    b7: u8,
) -> u64 {
    ((b0 as u64) << 56) | ((b1 as u64) << 48) | ((b2 as u64) << 40) | ((b3 as u64) << 32) | (
    (b4 as u64) << 24) | ((b5 as u64) << 16) | ((b6 as u64) << 8) | (b7 as u64)
}

/// Decoding the two bytes of a big-endian encoding recovers the integer.
pub proof fn lemma_be16_round_trip(v: u16)
    ensures
        spec_u16_of(spec_be16(v)[0], spec_be16(v)[1]) == v,
{
    assert((((((v >> 8) & 0xff) as u8) as u16) << 8) | (((v & 0xff) as u8) as u16) == v)
        by (bit_vector);
}

/// Decoding the four bytes of a big-endian encoding recovers the integer.
pub proof fn lemma_be32_round_trip(v: u32)
    ensures
        spec_u32_of(spec_be32(v)[0], spec_be32(v)[1], spec_be32(v)[2], spec_be32(v)[3]) == v,
{
    assert(((((v >> 24) & 0xff) as u8) as u32) << 24 | ((((v >> 16) & 0xff) as u8) as u32) << 16
        | ((((v >> 8) & 0xff) as u8) as u32) << 8 | (((v & 0xff) as u8) as u32) == v)
        by (bit_vector);
}

/// Decoding the eight bytes of a big-endian encoding recovers the integer.
pub proof fn lemma_be64_round_trip(v: u64)
    ensures
        spec_u64_of(
            spec_be64(v)[0],
            spec_be64(v)[1],
            spec_be64(v)[2],
            spec_be64(v)[3],
            spec_be64(v)[4],
            spec_be64(v)[5],
            spec_be64(v)[6],
            spec_be64(v)[7],
        ) == v,
{
    assert(((((v >> 56) & 0xff) as u8) as u64) << 56 | ((((v >> 48) & 0xff) as u8) as u64) << 48
        | ((((v >> 40) & 0xff) as u8) as u64) << 40 | ((((v >> 32) & 0xff) as u8) as u64) << 32
        | ((((v >> 24) & 0xff) as u8) as u64) << 24 | ((((v >> 16) & 0xff) as u8) as u64) << 16
        | ((((v >> 8) & 0xff) as u8) as u64) << 8 | (((v & 0xff) as u8) as u64) == v)
        by (bit_vector);
}

/// A big-endian 16-bit encoding sitting at `pos` parses to its integer.
pub proof fn lemma_parse_u16_at(b: Seq<u8>, pos: int, v: u16)
    requires
        0 <= pos,
        pos + 2 <= b.len(),
        b[pos] == spec_be16(v)[0],
        b[pos + 1] == spec_be16(v)[1],
    ensures
        spec_parse_u16(b, pos) == Parsed::Found(v, pos + 2),
{
    lemma_be16_round_trip(v);
    assert(spec_u16_of(b[pos], b[pos + 1]) == v);
}

/// A big-endian 32-bit encoding sitting at `pos` parses to its integer.
pub proof fn lemma_parse_u32_at(b: Seq<u8>, pos: int, v: u32)
    requires
        0 <= pos,
        pos + 4 <= b.len(),
        b[pos] == spec_be32(v)[0],
        b[pos + 1] == spec_be32(v)[1],
        b[pos + 2] == spec_be32(v)[2],
        b[pos + 3] == spec_be32(v)[3],
    ensures
        spec_parse_u32(b, pos) == Parsed::Found(v, pos + 4),
{
    lemma_be32_round_trip(v);
    assert(spec_u32_of(b[pos], b[pos + 1], b[pos + 2], b[pos + 3]) == v);
}

/// A big-endian 64-bit encoding sitting at `pos` parses to its integer.
pub proof fn lemma_parse_u64_at(b: Seq<u8>, pos: int, v: u64)
    requires
        0 <= pos,
        pos + 8 <= b.len(),
        b[pos] == spec_be64(v)[0],
        b[pos + 1] == spec_be64(v)[1],
        b[pos + 2] == spec_be64(v)[2],
        b[pos + 3] == spec_be64(v)[3],
        b[pos + 4] == spec_be64(v)[4],
        b[pos + 5] == spec_be64(v)[5],
        b[pos + 6] == spec_be64(v)[6],
        b[pos + 7] == spec_be64(v)[7],
    ensures
        spec_parse_u64(b, pos) == Parsed::Found(v, pos + 8),
{
    lemma_be64_round_trip(v);
    assert(spec_u64_of(
        b[pos],
        b[pos + 1],
        b[pos + 2],
        b[pos + 3],
        b[pos + 4],
        b[pos + 5],
        b[pos + 6],
        b[pos + 7],
    ) == v);
}

/// The four parts of a four-way concatenation sit at their offsets.
pub proof fn lemma_concat4_slices(p1: Seq<u8>, p2: Seq<u8>, p3: Seq<u8>, p4: Seq<u8>)
    ensures
        ({
            let b = p1 + p2 + p3 + p4;
            let l1 = p1.len() as int;
            let l2 = p2.len() as int;
            let l3 = p3.len() as int;
            &&& b.subrange(0, l1) == p1
            &&& b.subrange(l1, l1 + l2) == p2
            &&& b.subrange(l1 + l2, l1 + l2 + l3) == p3
            &&& b.subrange(l1 + l2 + l3, b.len() as int) == p4
        }),
{
    let b = p1 + p2 + p3 + p4;
    let l1 = p1.len() as int;
    let l2 = p2.len() as int;
    let l3 = p3.len() as int;
    assert(b.subrange(0, l1) =~= p1) by {
        assert(forall|j: int| 0 <= j < l1 ==> #[trigger] b.subrange(0, l1)[j] == b[j] && b[j]
            == p1[j]);
    }
    assert(b.subrange(l1, l1 + l2) =~= p2) by {
        assert(forall|j: int|
            0 <= j < l2 ==> #[trigger] b.subrange(l1, l1 + l2)[j] == b[l1 + j] && b[l1 + j]
                == p2[j]);
    }
    assert(b.subrange(l1 + l2, l1 + l2 + l3) =~= p3) by {
        assert(forall|j: int|
            0 <= j < l3 ==> #[trigger] b.subrange(l1 + l2, l1 + l2 + l3)[j] == b[l1 + l2 + j] && b[l1
                + l2 + j] == p3[j]);
    }
    assert(b.subrange(l1 + l2 + l3, b.len() as int) =~= p4) by {
        assert(forall|j: int|
            0 <= j < p4.len() ==> #[trigger] b.subrange(l1 + l2 + l3, b.len() as int)[j] == b[l1
                + l2 + l3 + j] && b[l1 + l2 + l3 + j] == p4[j]);
    }
}

// ---------------------------------------------------------------------------
// Byte-vector helpers.
// ---------------------------------------------------------------------------

/// Append every byte of `src` to `out`.
pub fn append_bytes(out: &mut Vec<u8>, src: &Vec<u8>)
    ensures
        final(out)@ == old(out)@ + src@,
{
    let mut i: usize = 0;
    while i < src.len()
        invariant
            i <= src@.len(),
            out@ == old(out)@ + src@.subrange(0, i as int),
        decreases src@.len() - i,
    {
        out.push(src[i]);
        i = i + 1;
        assert(out@ == old(out)@ + src@.subrange(0, i as int));
    }
    assert(src@.subrange(0, src@.len() as int) == src@);
}

/// Copy a whole byte vector.
pub fn take_all(src: &Vec<u8>) -> (r: Vec<u8>)
    ensures
        r@ == src@,
{
    let mut r: Vec<u8> = Vec::new();
    append_bytes(&mut r, src);
    r
}

/// Copy `n` bytes starting at `pos` out of `buf` into a fresh vector.
pub fn take_bytes(buf: &Vec<u8>, pos: usize, n: usize) -> (r: Vec<u8>)
    requires
        pos + n <= buf@.len(),
    ensures
        r@ == buf@.subrange(pos as int, pos + n),
{
    let len = buf.len();
    let mut r: Vec<u8> = Vec::new();
    let mut i: usize = 0;
    while i < n
        invariant
            i <= n,
            pos + n <= len,
            len == buf@.len(),
            r@ == buf@.subrange(pos as int, pos + i),
        decreases n - i,
    {
        r.push(buf[pos + i]);
        i = i + 1;
        assert(r@ == buf@.subrange(pos as int, pos + i));
    }
    r
}

// ---------------------------------------------------------------------------
// Executable encoders: append exactly the spec encoding.
// ---------------------------------------------------------------------------

pub fn write_u16(out: &mut Vec<u8>, v: u16)
    ensures
        final(out)@ == old(out)@ + spec_be16(v),
{
    proof {
        assert((v >> 8) & 0xff <= 0xff && v & 0xff <= 0xff) by (bit_vector);
    }
    out.push(((v >> 8) & 0xff) as u8);
    out.push((v & 0xff) as u8);
    assert(out@ == old(out)@ + spec_be16(v));
}

pub fn write_u32(out: &mut Vec<u8>, v: u32)
    ensures
        final(out)@ == old(out)@ + spec_be32(v),
{
    proof {
        assert((v >> 24) & 0xff <= 0xff && (v >> 16) & 0xff <= 0xff && (v >> 8) & 0xff <= 0xff
            && v & 0xff <= 0xff) by (bit_vector);
    }
    out.push(((v >> 24) & 0xff) as u8);
    out.push(((v >> 16) & 0xff) as u8);
    out.push(((v >> 8) & 0xff) as u8);
    out.push((v & 0xff) as u8);
    assert(out@ == old(out)@ + spec_be32(v));
}

pub fn write_u64(out: &mut Vec<u8>, v: u64)
    ensures
        final(out)@ == old(out)@ + spec_be64(v),
{
    proof {
        assert((v >> 56) & 0xff <= 0xff && (v >> 48) & 0xff <= 0xff && (v >> 40) & 0xff <= 0xff
            && (v >> 32) & 0xff <= 0xff && (v >> 24) & 0xff <= 0xff && (v >> 16) & 0xff <= 0xff
            && (v >> 8) & 0xff <= 0xff && v & 0xff <= 0xff) by (bit_vector);
    }
    out.push(((v >> 56) & 0xff) as u8);
    out.push(((v >> 48) & 0xff) as u8);
    out.push(((v >> 40) & 0xff) as u8);
    out.push(((v >> 32) & 0xff) as u8);
    out.push(((v >> 24) & 0xff) as u8);
    out.push(((v >> 16) & 0xff) as u8);
    out.push(((v >> 8) & 0xff) as u8);
    out.push((v & 0xff) as u8);
    assert(out@ == old(out)@ + spec_be64(v));
}

// ---------------------------------------------------------------------------
// Spec-level parsers and executable decoders.
// ---------------------------------------------------------------------------

pub open spec fn spec_parse_u8(b: Seq<u8>, pos: int) -> Parsed<u8> {
    if 0 <= pos && pos + 1 <= b.len() {
        Parsed::Found(b[pos], pos + 1)
    } else {
        Parsed::Short
    }
}

pub open spec fn spec_parse_u16(b: Seq<u8>, pos: int) -> Parsed<u16> {
    if 0 <= pos && pos + 2 <= b.len() {
        Parsed::Found(spec_u16_of(b[pos], b[pos + 1]), pos + 2)
    } else {
        Parsed::Short
    }
}

pub open spec fn spec_parse_u32(b: Seq<u8>, pos: int) -> Parsed<u32> {
    if 0 <= pos && pos + 4 <= b.len() {
        Parsed::Found(spec_u32_of(b[pos], b[pos + 1], b[pos + 2], b[pos + 3]), pos + 4)
    } else {
        Parsed::Short
    }
}

pub open spec fn spec_parse_u64(b: Seq<u8>, pos: int) -> Parsed<u64> {
    if 0 <= pos && pos + 8 <= b.len() {
        Parsed::Found(
            spec_u64_of(
                b[pos],
                b[pos + 1],
                b[pos + 2],
                b[pos + 3],
                b[pos + 4],
                b[pos + 5],
                b[pos + 6],
                b[pos + 7],
            ),
            pos + 8,
        )
    } else {
        Parsed::Short
    }
}

pub fn read_u8(buf: &Vec<u8>, pos: usize) -> (r: Result<(u8, usize), SwarmError>)
    ensures
        match r {
            Ok(vp) => spec_parse_u8(buf@, pos as int) == Parsed::Found(vp.0, vp.1 as int),
            Err(e) => e == SwarmError::Io && spec_parse_u8(buf@, pos as int) == Parsed::<u8>::Short,
        },
{
    if pos < buf.len() {
        Ok((buf[pos], pos + 1))
    } else {
        Err(SwarmError::Io)
    }
}

pub fn read_u16(buf: &Vec<u8>, pos: usize) -> (r: Result<(u16, usize), SwarmError>)
    ensures
        match r {
            Ok(vp) => spec_parse_u16(buf@, pos as int) == Parsed::Found(vp.0, vp.1 as int),
            Err(e) => e == SwarmError::Io && spec_parse_u16(buf@, pos as int)
                == Parsed::<u16>::Short,
        },
{
    if buf.len() >= 2 && pos <= buf.len() - 2 {
        let v = ((buf[pos] as u16) << 8) | (buf[pos + 1] as u16);
        Ok((v, pos + 2))
    } else {
        Err(SwarmError::Io)
    }
}

pub fn read_u32(buf: &Vec<u8>, pos: usize) -> (r: Result<(u32, usize), SwarmError>)
    ensures
        match r {
            Ok(vp) => spec_parse_u32(buf@, pos as int) == Parsed::Found(vp.0, vp.1 as int),
            Err(e) => e == SwarmError::Io && spec_parse_u32(buf@, pos as int)
                == Parsed::<u32>::Short,
        },
{
    if buf.len() >= 4 && pos <= buf.len() - 4 {
        let v = ((buf[pos] as u32) << 24) | ((buf[pos + 1] as u32) << 16) | ((buf[pos + 2] as u32)
            << 8) | (buf[pos + 3] as u32);
        Ok((v, pos + 4))
    } else {
        Err(SwarmError::Io)
    }
}

pub fn read_u64(buf: &Vec<u8>, pos: usize) -> (r: Result<(u64, usize), SwarmError>)
    ensures
        match r {
            Ok(vp) => spec_parse_u64(buf@, pos as int) == Parsed::Found(vp.0, vp.1 as int),
            Err(e) => e == SwarmError::Io && spec_parse_u64(buf@, pos as int)
                == Parsed::<u64>::Short,
        },
{
    if buf.len() >= 8 && pos <= buf.len() - 8 {
        let v = ((buf[pos] as u64) << 56) | ((buf[pos + 1] as u64) << 48) | ((buf[pos + 2] as u64)
            << 40) | ((buf[pos + 3] as u64) << 32) | ((buf[pos + 4] as u64) << 24) | ((buf[pos
            + 5] as u64) << 16) | ((buf[pos + 6] as u64) << 8) | (buf[pos + 7] as u64);
        Ok((v, pos + 8))
    } else {
        Err(SwarmError::Io)
    }
}

} // verus!
