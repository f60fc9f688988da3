//! Big-endian byte helpers: the exact bytes an integer serializes to, and
//! verified readers and writers over a byte buffer.

use vstd::prelude::*;

verus! {

/// The four big-endian bytes of a 32-bit value.
pub open spec fn be32(v: u32) -> Seq<u8> {
    seq![
        (v >> 24) as u8,
        ((v >> 16) & 0xff) as u8,
        ((v >> 8) & 0xff) as u8,
        (v & 0xff) as u8,
    ]
}

/// The three big-endian bytes of a 24-bit value (the high byte dropped).
pub open spec fn be24(v: u32) -> Seq<u8> {
    seq![((v >> 16) & 0xff) as u8, ((v >> 8) & 0xff) as u8, (v & 0xff) as u8]
}

/// The eight big-endian bytes of a 64-bit value.
pub open spec fn be64(v: u64) -> Seq<u8> {
    seq![
        (v >> 56) as u8,
        ((v >> 48) & 0xff) as u8,
        ((v >> 40) & 0xff) as u8,
        ((v >> 32) & 0xff) as u8,
        ((v >> 24) & 0xff) as u8,
        ((v >> 16) & 0xff) as u8,
        ((v >> 8) & 0xff) as u8,
        (v & 0xff) as u8,
    ]
}

/// The 32-bit value whose big-endian bytes start at `at` in `b`.
pub open spec fn spec_u32_at(b: Seq<u8>, at: int) -> u32 {
    (((b[at] as u32) << 24) | ((b[at + 1] as u32) << 16) | ((b[at + 2] as u32) << 8) | (b[at
        + 3] as u32)) as u32
}

/// The 24-bit value whose big-endian bytes start at `at` in `b`.
pub open spec fn spec_u24_at(b: Seq<u8>, at: int) -> u32 {
    (((b[at] as u32) << 16) | ((b[at + 1] as u32) << 8) | (b[at + 2] as u32)) as u32
}

/// The 64-bit value whose big-endian bytes start at `at` in `b`.
pub open spec fn spec_u64_at(b: Seq<u8>, at: int) -> u64 {
    (((b[at] as u64) << 56) | ((b[at + 1] as u64) << 48) | ((b[at + 2] as u64) << 40) | ((b[at
        + 3] as u64) << 32) | ((b[at + 4] as u64) << 24) | ((b[at + 5] as u64) << 16) | ((b[at
        + 6] as u64) << 8) | (b[at + 7] as u64)) as u64
}

/// Reading back the four big-endian bytes of `v` yields `v`.
pub proof fn lemma_be32_roundtrip(v: u32, b: Seq<u8>, at: int)
    requires
        0 <= at,
        at + 4 <= b.len(),
        b[at] == be32(v)[0],
        b[at + 1] == be32(v)[1],
        b[at + 2] == be32(v)[2],
        b[at + 3] == be32(v)[3],
    ensures
        spec_u32_at(b, at) == v,
{
    assert((((((v >> 24) as u8) as u32) << 24) | (((((v >> 16) & 0xff) as u8) as u32) << 16) | ((((
    (v >> 8) & 0xff) as u8) as u32) << 8) | (((v & 0xff) as u8) as u32)) as u32 == v)
        by (bit_vector);
}

/// Reading back the three big-endian bytes of `v < 2^24` yields `v`.
pub proof fn lemma_be24_roundtrip(v: u32, b: Seq<u8>, at: int)
    requires
        0 <= at,
        at + 3 <= b.len(),
        v < 0x1000000,
        b[at] == be24(v)[0],
        b[at + 1] == be24(v)[1],
        b[at + 2] == be24(v)[2],
    ensures
        spec_u24_at(b, at) == v,
{
    assert(v < 0x1000000 ==> ((((((v >> 16) & 0xff) as u8) as u32) << 16) | (((((v >> 8)
        & 0xff) as u8) as u32) << 8) | (((v & 0xff) as u8) as u32)) as u32 == v) by (bit_vector);
}

/// Reading back the eight big-endian bytes of `v` yields `v`.
pub proof fn lemma_be64_roundtrip(v: u64, b: Seq<u8>, at: int)
    requires
        0 <= at,
        at + 8 <= b.len(),
        b[at] == be64(v)[0],
        b[at + 1] == be64(v)[1],
        b[at + 2] == be64(v)[2],
        b[at + 3] == be64(v)[3],
        b[at + 4] == be64(v)[4],
        b[at + 5] == be64(v)[5],
        b[at + 6] == be64(v)[6],
        b[at + 7] == be64(v)[7],
    ensures
        spec_u64_at(b, at) == v,
{
    assert((((((v >> 56) as u8) as u64) << 56) | (((((v >> 48) & 0xff) as u8) as u64) << 48) | ((((
    (v >> 40) & 0xff) as u8) as u64) << 40) | (((((v >> 32) & 0xff) as u8) as u64) << 32) | (((((v
        >> 24) & 0xff) as u8) as u64) << 24) | (((((v >> 16) & 0xff) as u8) as u64) << 16) | (((((v
        >> 8) & 0xff) as u8) as u64) << 8) | (((v & 0xff) as u8) as u64)) as u64 == v)
        by (bit_vector);
}

/// Write the four big-endian bytes of `v` at `at`.
pub fn write_u32_at(buf: &mut Vec<u8>, at: usize, v: u32)
    requires
        at + 4 <= old(buf).len(),
    ensures
        final(buf).len() == old(buf).len(),
        final(buf)@.subrange(at as int, at as int + 4) == be32(v),
        forall|i: int|
            0 <= i < old(buf).len() && !(at <= i < at + 4) ==> final(buf)@[i] == old(buf)@[i],
{
    buf[at] = (v >> 24) as u8;
    buf[at + 1] = ((v >> 16) & 0xff) as u8;
    buf[at + 2] = ((v >> 8) & 0xff) as u8;
    buf[at + 3] = (v & 0xff) as u8;
    proof {
        assert(buf@.subrange(at as int, at as int + 4) =~= be32(v));
    }
}

/// Write the three low big-endian bytes of `v` at `at`.
pub fn write_u24_at(buf: &mut Vec<u8>, at: usize, v: u32)
    requires
        at + 3 <= old(buf).len(),
    ensures
        final(buf).len() == old(buf).len(),
        final(buf)@.subrange(at as int, at as int + 3) == be24(v),
        forall|i: int|
            0 <= i < old(buf).len() && !(at <= i < at + 3) ==> final(buf)@[i] == old(buf)@[i],
{
    buf[at] = ((v >> 16) & 0xff) as u8;
    buf[at + 1] = ((v >> 8) & 0xff) as u8;
    buf[at + 2] = (v & 0xff) as u8;
    proof {
        assert(buf@.subrange(at as int, at as int + 3) =~= be24(v));
    }
}

/// Write the eight big-endian bytes of `v` at `at`.
pub fn write_u64_at(buf: &mut Vec<u8>, at: usize, v: u64)
    requires
        at + 8 <= old(buf).len(),
    ensures
        final(buf).len() == old(buf).len(),
        final(buf)@.subrange(at as int, at as int + 8) == be64(v),
        forall|i: int|
            0 <= i < old(buf).len() && !(at <= i < at + 8) ==> final(buf)@[i] == old(buf)@[i],
{
    buf[at] = (v >> 56) as u8;
    buf[at + 1] = ((v >> 48) & 0xff) as u8;
    buf[at + 2] = ((v >> 40) & 0xff) as u8;
    buf[at + 3] = ((v >> 32) & 0xff) as u8;
    buf[at + 4] = ((v >> 24) & 0xff) as u8;
    buf[at + 5] = ((v >> 16) & 0xff) as u8;
    buf[at + 6] = ((v >> 8) & 0xff) as u8;
    buf[at + 7] = (v & 0xff) as u8;
    proof {
        assert(buf@.subrange(at as int, at as int + 8) =~= be64(v));
    }
}

/// Copy `src` into `buf` at `at`, touching exactly those bytes.
pub fn write_bytes_at(buf: &mut Vec<u8>, at: usize, src: &Vec<u8>)
    requires
        at + src.len() <= old(buf).len(),
    ensures
        final(buf).len() == old(buf).len(),
        final(buf)@.subrange(at as int, at + src@.len()) == src@,
        forall|i: int|
            0 <= i < old(buf).len() && !(at <= i < at + src@.len()) ==> final(buf)@[i] == old(
                buf,
            )@[i],
{
    let mut j: usize = 0;
    while j < src.len()
        invariant
            j <= src.len(),
            at + src.len() <= old(buf).len(),
            buf.len() == old(buf).len(),
            buf@.subrange(at as int, at + j as int) == src@.take(j as int),
            forall|i: int|
                0 <= i < old(buf).len() && !(at <= i < at + j) ==> buf@[i] == old(buf)@[i],
        decreases src.len() - j,
    {
        buf[at + j] = src[j];
        proof {
            assert(buf@.subrange(at as int, at + j as int + 1) =~= src@.take(j as int + 1));
        }
        j = j + 1;
    }
    proof {
        assert(src@.take(src@.len() as int) =~= src@);
    }
}

/// Copy the `len` bytes of `buf` starting at `at` into a fresh vector.
pub fn read_bytes(buf: &[u8], at: usize, len: usize) -> (r: Vec<u8>)
    requires
        at + len <= buf.len(),
    ensures
        r@ == buf@.subrange(at as int, at + len as int),
{
    let mut out: Vec<u8> = Vec::new();
    let mut j: usize = 0;
    while j < len
        invariant
            j <= len,
            at + len <= buf.len(),
            out@ == buf@.subrange(at as int, at + j as int),
        decreases len - j,
    {
        out.push(buf[at + j]);
        proof {
            assert(out@ =~= buf@.subrange(at as int, at + j as int + 1));
        }
        j = j + 1;
    }
    out
}

/// Read the 32-bit big-endian value at `at`.
pub fn read_u32_at(buf: &[u8], at: usize) -> (r: u32)
    requires
        at + 4 <= buf.len(),
    ensures
        r == spec_u32_at(buf@, at as int),
{
    ((buf[at] as u32) << 24) | ((buf[at + 1] as u32) << 16) | ((buf[at + 2] as u32) << 8) | (buf[at
        + 3] as u32)
}

/// Read the 24-bit big-endian value at `at`.
pub fn read_u24_at(buf: &[u8], at: usize) -> (r: u32)
    requires
        at + 3 <= buf.len(),
    ensures
        r == spec_u24_at(buf@, at as int),
        r < 0x1000000,
{
    let r: u32 = ((buf[at] as u32) << 16) | ((buf[at + 1] as u32) << 8) | (buf[at + 2] as u32);
    proof {
        let b0 = buf@[at as int];
        let b1 = buf@[at as int + 1];
        let b2 = buf@[at as int + 2];
        assert((((b0 as u32) << 16) | ((b1 as u32) << 8) | (b2 as u32)) < 0x1000000)
            by (bit_vector);
    }
    r
}

/// Read the 64-bit big-endian value at `at`.
pub fn read_u64_at(buf: &[u8], at: usize) -> (r: u64)
    requires
        at + 8 <= buf.len(),
    ensures
        r == spec_u64_at(buf@, at as int),
{
    ((buf[at] as u64) << 56) | ((buf[at + 1] as u64) << 48) | ((buf[at + 2] as u64) << 40) | ((
    buf[at + 3] as u64) << 32) | ((buf[at + 4] as u64) << 24) | ((buf[at + 5] as u64) << 16) | ((
    buf[at + 6] as u64) << 8) | (buf[at + 7] as u64)
}

} // verus!
