use vstd::prelude::*;
use crate::nested_ser_output::NestedEncodeOutput;

verus! {

// Big-endian byte views of the fixed-width unsigned integers: most
// significant byte first, chosen for cross-platform determinism.

pub open spec fn u16_be(x: u16) -> Seq<u8> {
    seq![((x >> 8) & 0xff) as u8, (x & 0xff) as u8]
}

pub open spec fn u32_be(x: u32) -> Seq<u8> {
    seq![
        ((x >> 24) & 0xff) as u8,
        ((x >> 16) & 0xff) as u8,
        ((x >> 8) & 0xff) as u8,
        (x & 0xff) as u8,
    ]
}

pub open spec fn u64_be(x: u64) -> Seq<u8> {
    seq![
        ((x >> 56) & 0xff) as u8,
        ((x >> 48) & 0xff) as u8,
        ((x >> 40) & 0xff) as u8,
        ((x >> 32) & 0xff) as u8,
        ((x >> 24) & 0xff) as u8,
        ((x >> 16) & 0xff) as u8,
        ((x >> 8) & 0xff) as u8,
        (x & 0xff) as u8,
    ]
}

pub open spec fn u16_from_be(s: Seq<u8>) -> u16
    recommends
        s.len() == 2,
{
    (((s[0] as u16) << 8) | (s[1] as u16))
}

pub open spec fn u32_from_be(s: Seq<u8>) -> u32
    recommends
        s.len() == 4,
{
    (((s[0] as u32) << 24) | ((s[1] as u32) << 16) | ((s[2] as u32) << 8) | (s[3] as u32))
}

pub open spec fn u64_from_be(s: Seq<u8>) -> u64
    recommends
        s.len() == 8,
{
    (((s[0] as u64) << 56) | ((s[1] as u64) << 48) | ((s[2] as u64) << 40) | ((s[3] as u64) << 32)
        | ((s[4] as u64) << 24) | ((s[5] as u64) << 16) | ((s[6] as u64) << 8) | (s[7] as u64))
}

pub proof fn lemma_u16_be_round_trip(x: u16)
    ensures
        u16_be(x).len() == 2,
        u16_from_be(u16_be(x)) == x,
{
    assert((((((x >> 8) & 0xff) as u8) as u16) << 8) | (((x & 0xff) as u8) as u16) == x)
        by (bit_vector);
}

pub proof fn lemma_u16_from_be_round_trip(s: Seq<u8>)
    requires
        s.len() == 2,
    ensures
        u16_be(u16_from_be(s)) == s,
{
    let b0 = s[0];
    let b1 = s[1];
    let x = u16_from_be(s);
    assert({
        let y = ((b0 as u16) << 8) | (b1 as u16);
        ((y >> 8) & 0xff) as u8 == b0 && (y & 0xff) as u8 == b1
    }) by (bit_vector);
    assert(u16_be(x) =~= s);
}

pub proof fn lemma_u32_be_round_trip(x: u32)
    ensures
        u32_be(x).len() == 4,
        u32_from_be(u32_be(x)) == x,
{
    assert(((((((x >> 24) & 0xff) as u8) as u32) << 24) | (((((x >> 16) & 0xff) as u8) as u32)
        << 16) | (((((x >> 8) & 0xff) as u8) as u32) << 8) | (((x & 0xff) as u8) as u32)) == x)
        by (bit_vector);
}

pub proof fn lemma_u32_from_be_round_trip(s: Seq<u8>)
    requires
        s.len() == 4,
    ensures
        u32_be(u32_from_be(s)) == s,
{
    let b0 = s[0];
    let b1 = s[1];
    let b2 = s[2];
    let b3 = s[3];
    let x = u32_from_be(s);
    assert({
        let y = ((b0 as u32) << 24) | ((b1 as u32) << 16) | ((b2 as u32) << 8) | (b3 as u32);
        ((y >> 24) & 0xff) as u8 == b0 && ((y >> 16) & 0xff) as u8 == b1 && ((y >> 8) & 0xff) as u8
            == b2 && (y & 0xff) as u8 == b3
    }) by (bit_vector);
    assert(u32_be(x) =~= s);
}

pub proof fn lemma_u64_be_round_trip(x: u64)
    ensures
        u64_be(x).len() == 8,
        u64_from_be(u64_be(x)) == x,
{
    assert(((((((x >> 56) & 0xff) as u8) as u64) << 56) | (((((x >> 48) & 0xff) as u8) as u64)
        << 48) | (((((x >> 40) & 0xff) as u8) as u64) << 40) | (((((x >> 32) & 0xff) as u8) as u64)
        << 32) | (((((x >> 24) & 0xff) as u8) as u64) << 24) | (((((x >> 16) & 0xff) as u8) as u64)
        << 16) | (((((x >> 8) & 0xff) as u8) as u64) << 8) | (((x & 0xff) as u8) as u64)) == x)
        by (bit_vector);
}

pub proof fn lemma_u64_from_be_round_trip(s: Seq<u8>)
    requires
        s.len() == 8,
    ensures
        u64_be(u64_from_be(s)) == s,
{
    let b0 = s[0];
    let b1 = s[1];
    let b2 = s[2];
    let b3 = s[3];
    let b4 = s[4];
    let b5 = s[5];
    let b6 = s[6];
    let b7 = s[7];
    let x = u64_from_be(s);
    assert({
        let y = ((b0 as u64) << 56) | ((b1 as u64) << 48) | ((b2 as u64) << 40) | ((b3 as u64)
            << 32) | ((b4 as u64) << 24) | ((b5 as u64) << 16) | ((b6 as u64) << 8) | (b7 as u64);
        ((y >> 56) & 0xff) as u8 == b0 && ((y >> 48) & 0xff) as u8 == b1 && ((y >> 40) & 0xff) as u8
            == b2 && ((y >> 32) & 0xff) as u8 == b3 && ((y >> 24) & 0xff) as u8 == b4 && ((y >> 16)
            & 0xff) as u8 == b5 && ((y >> 8) & 0xff) as u8 == b6 && (y & 0xff) as u8 == b7
    }) by (bit_vector);
    assert(u64_be(x) =~= s);
}

// Exec writers: append the big-endian bytes of a value to an output.

pub fn write_u16_be<O: NestedEncodeOutput>(dest: &mut O, x: u16)
    ensures
        final(dest).bytes() == old(dest).bytes() + u16_be(x),
{
    proof {
        assert((x >> 8) & 0xff < 256 && x & 0xff < 256) by (bit_vector);
    }
    dest.push_byte(((x >> 8) & 0xff) as u8);
    dest.push_byte((x & 0xff) as u8);
    proof {
        assert(old(dest).bytes().push(u16_be(x)[0]).push(u16_be(x)[1]) =~= old(dest).bytes()
            + u16_be(x));
    }
}

pub fn write_u32_be<O: NestedEncodeOutput>(dest: &mut O, x: u32)
    ensures
        final(dest).bytes() == old(dest).bytes() + u32_be(x),
{
    proof {
        assert((x >> 24) & 0xff < 256 && (x >> 16) & 0xff < 256 && (x >> 8) & 0xff < 256 && x & 0xff
            < 256) by (bit_vector);
    }
    dest.push_byte(((x >> 24) & 0xff) as u8);
    dest.push_byte(((x >> 16) & 0xff) as u8);
    dest.push_byte(((x >> 8) & 0xff) as u8);
    dest.push_byte((x & 0xff) as u8);
    proof {
        assert(old(dest).bytes().push(u32_be(x)[0]).push(u32_be(x)[1]).push(u32_be(x)[2]).push(
            u32_be(x)[3],
        ) =~= old(dest).bytes() + u32_be(x));
    }
}

pub fn write_u64_be<O: NestedEncodeOutput>(dest: &mut O, x: u64)
    ensures
        final(dest).bytes() == old(dest).bytes() + u64_be(x),
{
    proof {
        assert((x >> 56) & 0xff < 256 && (x >> 48) & 0xff < 256 && (x >> 40) & 0xff < 256 && (x
            >> 32) & 0xff < 256 && (x >> 24) & 0xff < 256 && (x >> 16) & 0xff < 256 && (x >> 8)
            & 0xff < 256 && x & 0xff < 256) by (bit_vector);
    }
    dest.push_byte(((x >> 56) & 0xff) as u8);
    dest.push_byte(((x >> 48) & 0xff) as u8);
    dest.push_byte(((x >> 40) & 0xff) as u8);
    dest.push_byte(((x >> 32) & 0xff) as u8);
    dest.push_byte(((x >> 24) & 0xff) as u8);
    dest.push_byte(((x >> 16) & 0xff) as u8);
    dest.push_byte(((x >> 8) & 0xff) as u8);
    dest.push_byte((x & 0xff) as u8);
    proof {
        assert(old(dest).bytes().push(u64_be(x)[0]).push(u64_be(x)[1]).push(u64_be(x)[2]).push(
            u64_be(x)[3],
        ).push(u64_be(x)[4]).push(u64_be(x)[5]).push(u64_be(x)[6]).push(u64_be(x)[7]) =~= old(
            dest,
        ).bytes() + u64_be(x));
    }
}

// Exec readers: reassemble a value from big-endian bytes in a slice.

pub fn read_u16_be(input: &[u8], start: usize) -> (x: u16)
    requires
        start + 2 <= input@.len(),
    ensures
        x == u16_from_be(input@.subrange(start as int, start as int + 2)),
{
    let b0 = input[start];
    let b1 = input[start + 1];
    ((b0 as u16) << 8) | (b1 as u16)
}

pub fn read_u32_be(input: &[u8], start: usize) -> (x: u32)
    requires
        start + 4 <= input@.len(),
    ensures
        x == u32_from_be(input@.subrange(start as int, start as int + 4)),
{
    let b0 = input[start];
    let b1 = input[start + 1];
    let b2 = input[start + 2];
    let b3 = input[start + 3];
    ((b0 as u32) << 24) | ((b1 as u32) << 16) | ((b2 as u32) << 8) | (b3 as u32)
}

pub fn read_u64_be(input: &[u8], start: usize) -> (x: u64)
    requires
        start + 8 <= input@.len(),
    ensures
        x == u64_from_be(input@.subrange(start as int, start as int + 8)),
{
    let b0 = input[start];
    let b1 = input[start + 1];
    let b2 = input[start + 2];
    let b3 = input[start + 3];
    let b4 = input[start + 4];
    let b5 = input[start + 5];
    let b6 = input[start + 6];
    let b7 = input[start + 7];
    ((b0 as u64) << 56) | ((b1 as u64) << 48) | ((b2 as u64) << 40) | ((b3 as u64) << 32) | ((
    b4 as u64) << 24) | ((b5 as u64) << 16) | ((b6 as u64) << 8) | (b7 as u64)
}

// Two's complement reinterpretations: a signed integer of width W is
// encoded as the unsigned integer of the same width with the same bits.
// All conversions are written arithmetically, so no truncating cast is
// involved anywhere.

pub open spec fn i8_as_u8(x: i8) -> u8 {
    if x >= 0 {
        x as u8
    } else {
        (x + 0x100) as u8
    }
}

pub open spec fn i16_as_u16(x: i16) -> u16 {
    if x >= 0 {
        x as u16
    } else {
        (x + 0x1_0000) as u16
    }
}

pub open spec fn i32_as_u32(x: i32) -> u32 {
    if x >= 0 {
        x as u32
    } else {
        (x + 0x1_0000_0000) as u32
    }
}

pub open spec fn i64_as_u64(x: i64) -> u64 {
    if x >= 0 {
        x as u64
    } else {
        (x + 0x1_0000_0000_0000_0000) as u64
    }
}

pub open spec fn u8_as_i8(x: u8) -> i8 {
    if x < 0x80 {
        x as i8
    } else {
        (x - 0x100) as i8
    }
}

pub open spec fn u16_as_i16(x: u16) -> i16 {
    if x < 0x8000 {
        x as i16
    } else {
        (x - 0x1_0000) as i16
    }
}

pub open spec fn u32_as_i32(x: u32) -> i32 {
    if x < 0x8000_0000 {
        x as i32
    } else {
        (x - 0x1_0000_0000) as i32
    }
}

pub open spec fn u64_as_i64(x: u64) -> i64 {
    if x < 0x8000_0000_0000_0000 {
        x as i64
    } else {
        (x - 0x1_0000_0000_0000_0000) as i64
    }
}

/// The low 32 bits of a `usize`, the width the wire format gives
/// arch-dependent unsigned values.
pub open spec fn usize_low_u32(x: usize) -> u32 {
    (((x as u64) as int) % 0x1_0000_0000) as u32
}

/// The low 32 bits of the two's complement of an `isize`, the width the
/// wire format gives arch-dependent signed values.
pub open spec fn isize_low_u32(x: isize) -> u32 {
    ((i64_as_u64(x as i64) as int) % 0x1_0000_0000) as u32
}

pub fn exec_i8_as_u8(x: i8) -> (r: u8)
    ensures
        r == i8_as_u8(x),
{
    if x >= 0 {
        x as u8
    } else {
        ((x as i16) + 0x100) as u8
    }
}

pub fn exec_i16_as_u16(x: i16) -> (r: u16)
    ensures
        r == i16_as_u16(x),
{
    if x >= 0 {
        x as u16
    } else {
        ((x as i32) + 0x1_0000) as u16
    }
}

pub fn exec_i32_as_u32(x: i32) -> (r: u32)
    ensures
        r == i32_as_u32(x),
{
    if x >= 0 {
        x as u32
    } else {
        ((x as i64) + 0x1_0000_0000) as u32
    }
}

pub fn exec_i64_as_u64(x: i64) -> (r: u64)
    ensures
        r == i64_as_u64(x),
{
    if x >= 0 {
        x as u64
    } else {
        ((x as i128) + 0x1_0000_0000_0000_0000) as u64
    }
}

pub fn exec_u8_as_i8(x: u8) -> (r: i8)
    ensures
        r == u8_as_i8(x),
{
    if x < 0x80 {
        x as i8
    } else {
        ((x as i16) - 0x100) as i8
    }
}

pub fn exec_u16_as_i16(x: u16) -> (r: i16)
    ensures
        r == u16_as_i16(x),
{
    if x < 0x8000 {
        x as i16
    } else {
        ((x as i32) - 0x1_0000) as i16
    }
}

pub fn exec_u32_as_i32(x: u32) -> (r: i32)
    ensures
        r == u32_as_i32(x),
{
    if x < 0x8000_0000 {
        x as i32
    } else {
        ((x as i64) - 0x1_0000_0000) as i32
    }
}

pub fn exec_u64_as_i64(x: u64) -> (r: i64)
    ensures
        r == u64_as_i64(x),
{
    if x < 0x8000_0000_0000_0000 {
        x as i64
    } else {
        ((x as i128) - 0x1_0000_0000_0000_0000) as i64
    }
}

pub fn exec_usize_low_u32(x: usize) -> (r: u32)
    ensures
        r == usize_low_u32(x),
{
    ((x as u64) % 0x1_0000_0000) as u32
}

pub fn exec_isize_low_u32(x: isize) -> (r: u32)
    ensures
        r == isize_low_u32(x),
{
    (exec_i64_as_u64(x as i64) % 0x1_0000_0000) as u32
}

// Round trips between the signed and unsigned reinterpretations.

pub proof fn lemma_i8_u8_round_trip(x: i8, u: u8)
    ensures
        u8_as_i8(i8_as_u8(x)) == x,
        i8_as_u8(u8_as_i8(u)) == u,
{
}

pub proof fn lemma_i16_u16_round_trip(x: i16, u: u16)
    ensures
        u16_as_i16(i16_as_u16(x)) == x,
        i16_as_u16(u16_as_i16(u)) == u,
{
}

pub proof fn lemma_i32_u32_round_trip(x: i32, u: u32)
    ensures
        u32_as_i32(i32_as_u32(x)) == x,
        i32_as_u32(u32_as_i32(u)) == u,
{
}

pub proof fn lemma_i64_u64_round_trip(x: i64, u: u64)
    ensures
        u64_as_i64(i64_as_u64(x)) == x,
        i64_as_u64(u64_as_i64(u)) == u,
{
}

/// The truncation to 32 bits is lossless exactly on the values the wire
/// format can carry.
pub proof fn lemma_usize_low_u32_small(x: usize)
    requires
        x < 0x1_0000_0000,
    ensures
        usize_low_u32(x) == x,
{
}

pub proof fn lemma_isize_low_u32_small(x: isize)
    requires
        -0x8000_0000 <= x < 0x8000_0000,
    ensures
        u32_as_i32(isize_low_u32(x)) == x,
{
}

/// Every 32-bit unsigned value comes back unchanged through `usize`.
pub proof fn lemma_usize_from_u32(u: u32)
    ensures
        (u as usize) < 0x1_0000_0000,
        usize_low_u32(u as usize) == u,
{
}

/// Every 32-bit pattern, reinterpreted as a signed value, carries the
/// same low 32 bits through `isize`.
pub proof fn lemma_isize_from_u32(u: u32)
    ensures
        -0x8000_0000 <= (u32_as_i32(u) as isize) < 0x8000_0000,
        isize_low_u32(u32_as_i32(u) as isize) == u,
{
    let x = u32_as_i32(u) as isize;
    if u < 0x8000_0000 {
        assert(i64_as_u64(x as i64) == u);
    } else {
        assert(x as i64 == u - 0x1_0000_0000);
        assert(i64_as_u64(x as i64) == u + 0x1_0000_0000_0000_0000 - 0x1_0000_0000);
        vstd::arithmetic::div_mod::lemma_mod_multiples_vanish(
            0x1_0000_0000 - 1,
            u as int,
            0x1_0000_0000,
        );
        assert((u + 0x1_0000_0000_0000_0000 - 0x1_0000_0000) % 0x1_0000_0000 == (0x1_0000_0000 * (
        0x1_0000_0000 - 1) + u) % 0x1_0000_0000);
    }
}

// In-place writers: overwrite a region of a pre-sized buffer with the
// big-endian bytes of a value, leaving the rest unchanged.

pub fn set_u16_be(target: &mut Vec<u8>, offset: usize, x: u16)
    requires
        offset + 2 <= old(target)@.len(),
    ensures
        final(target)@ == old(target)@.subrange(0, offset as int) + u16_be(x) + old(
            target,
        )@.subrange(offset + 2, old(target)@.len() as int),
{
    proof {
        assert((x >> 8) & 0xff < 256 && x & 0xff < 256) by (bit_vector);
        assert(target.len() == target@.len());
    }
    target[offset] = ((x >> 8) & 0xff) as u8;
    target[offset + 1] = (x & 0xff) as u8;
    proof {
        assert(target@ =~= old(target)@.subrange(0, offset as int) + u16_be(x) + old(
            target,
        )@.subrange(offset + 2, old(target)@.len() as int));
    }
}

pub fn set_u32_be(target: &mut Vec<u8>, offset: usize, x: u32)
    requires
        offset + 4 <= old(target)@.len(),
    ensures
        final(target)@ == old(target)@.subrange(0, offset as int) + u32_be(x) + old(
            target,
        )@.subrange(offset + 4, old(target)@.len() as int),
{
    proof {
        assert((x >> 24) & 0xff < 256 && (x >> 16) & 0xff < 256 && (x >> 8) & 0xff < 256 && x & 0xff
            < 256) by (bit_vector);
        assert(target.len() == target@.len());
    }
    target[offset] = ((x >> 24) & 0xff) as u8;
    target[offset + 1] = ((x >> 16) & 0xff) as u8;
    target[offset + 2] = ((x >> 8) & 0xff) as u8;
    target[offset + 3] = (x & 0xff) as u8;
    proof {
        assert(target@ =~= old(target)@.subrange(0, offset as int) + u32_be(x) + old(
            target,
        )@.subrange(offset + 4, old(target)@.len() as int));
    }
}

pub fn set_u64_be(target: &mut Vec<u8>, offset: usize, x: u64)
    requires
        offset + 8 <= old(target)@.len(),
    ensures
        final(target)@ == old(target)@.subrange(0, offset as int) + u64_be(x) + old(
            target,
        )@.subrange(offset + 8, old(target)@.len() as int),
{
    proof {
        assert((x >> 56) & 0xff < 256 && (x >> 48) & 0xff < 256 && (x >> 40) & 0xff < 256 && (x
            >> 32) & 0xff < 256 && (x >> 24) & 0xff < 256 && (x >> 16) & 0xff < 256 && (x >> 8)
            & 0xff < 256 && x & 0xff < 256) by (bit_vector);
        assert(target.len() == target@.len());
    }
    target[offset] = ((x >> 56) & 0xff) as u8;
    target[offset + 1] = ((x >> 48) & 0xff) as u8;
    target[offset + 2] = ((x >> 40) & 0xff) as u8;
    target[offset + 3] = ((x >> 32) & 0xff) as u8;
    target[offset + 4] = ((x >> 24) & 0xff) as u8;
    target[offset + 5] = ((x >> 16) & 0xff) as u8;
    target[offset + 6] = ((x >> 8) & 0xff) as u8;
    target[offset + 7] = (x & 0xff) as u8;
    proof {
        assert(target@ =~= old(target)@.subrange(0, offset as int) + u64_be(x) + old(
            target,
        )@.subrange(offset + 8, old(target)@.len() as int));
    }
}

/// Overwrite `target[offset .. offset + bytes.len()]` with `bytes`,
/// leaving everything around it unchanged.
pub fn copy_into(target: &mut Vec<u8>, offset: usize, bytes: &[u8])
    requires
        offset + bytes@.len() <= old(target)@.len(),
    ensures
        final(target)@ == old(target)@.subrange(0, offset as int) + bytes@ + old(
            target,
        )@.subrange(offset + bytes@.len(), old(target)@.len() as int),
        final(target)@.len() == old(target)@.len(),
{
    proof {
        assert(target@ =~= old(target)@.subrange(0, offset as int) + bytes@.subrange(0, 0) + old(
            target,
        )@.subrange(offset as int, old(target)@.len() as int));
    }
    let mut i: usize = 0;
    while i < bytes.len()
        invariant
            i <= bytes@.len(),
            offset + bytes@.len() <= old(target)@.len(),
            target@.len() == old(target)@.len(),
            target@ == old(target)@.subrange(0, offset as int) + bytes@.subrange(0, i as int) + old(
                target,
            )@.subrange(offset + i, old(target)@.len() as int),
        decreases bytes@.len() - i,
    {
        proof {
            assert(target.len() == target@.len());
        }
        target[offset + i] = bytes[i];
        proof {
            assert(target@ =~= old(target)@.subrange(0, offset as int) + bytes@.subrange(
                0,
                i + 1,
            ) + old(target)@.subrange(offset + i + 1, old(target)@.len() as int));
        }
        i += 1;
    }
    proof {
        assert(bytes@.subrange(0, bytes@.len() as int) =~= bytes@);
    }
}

} // verus!
