use vstd::prelude::*;

verus! {

/// The `u16` encoded big-endian by the two given bytes.
pub open spec fn be16(b0: u8, b1: u8) -> u16 {
    (b0 * 256 + b1) as u16
}

/// The `u32` encoded big-endian by the four given bytes.
pub open spec fn be32(b0: u8, b1: u8, b2: u8, b3: u8) -> u32 {
    (b0 * 0x1000000 + b1 * 0x10000 + b2 * 256 + b3) as u32
}

/// The two big-endian bytes of a `u16`.
pub open spec fn u16_bytes(x: u16) -> Seq<u8> {
    seq![(x / 256) as u8, (x % 256) as u8]
}

/// Reading back the two big-endian bytes of a `u16` recovers it.
pub proof fn lemma_u16_bytes_be16(x: u16)
    ensures
        be16(u16_bytes(x)[0], u16_bytes(x)[1]) == x,
{
    assert((x / 256) * 256 + x % 256 == x) by (nonlinear_arith);
}

/// Appends the two big-endian bytes of `x` to `out`.
pub fn push_u16_be(out: &mut Vec<u8>, x: u16)
    ensures
        final(out)@ == old(out)@ + u16_bytes(x),
{
    out.push((x / 256) as u8);
    out.push((x % 256) as u8);
    proof {
        assert(out@ =~= old(out)@ + u16_bytes(x));
    }
}

/// Reads the big-endian `u16` at offset `i`.
pub fn read_u16_be(buf: &[u8], i: usize) -> (r: u16)
    requires
        i + 2 <= buf@.len(),
    ensures
        r == be16(buf@[i as int], buf@[i as int + 1]),
{
    (buf[i] as u16) * 256 + (buf[i + 1] as u16)
}

/// Reads the big-endian `u32` at offset `i`.
pub fn read_u32_be(buf: &[u8], i: usize) -> (r: u32)
    requires
        i + 4 <= buf@.len(),
    ensures
        r == be32(buf@[i as int], buf@[i as int + 1], buf@[i as int + 2], buf@[i as int + 3]),
{
    (buf[i] as u32) * 0x1000000 + (buf[i + 1] as u32) * 0x10000 + (buf[i + 2] as u32) * 256 + (buf[
        i + 3
    ] as u32)
}

} // verus!
