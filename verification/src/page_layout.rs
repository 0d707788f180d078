use vstd::prelude::*;

verus! {

/// Size in bytes of one page of the backing store.
pub const PAGE_SIZE: usize = 4096;

/// Width in bytes of an on-disk pointer (offsets, counts).
pub const PTR_SIZE: usize = 8;

/// Byte position of the node type tag within a page.
pub const NODE_TYPE_OFFSET: usize = 0;

/// Byte position of the root flag within a page.
pub const IS_ROOT_OFFSET: usize = 1;

/// Byte position of the parent pointer within a page.
pub const PARENT_POINTER_OFFSET: usize = 2;

/// Byte position of the child/pair count within a page.
pub const COUNT_OFFSET: usize = 10;

/// Total size of the fixed page header.
pub const HEADER_SIZE: usize = 18;

/// Tag byte marking an internal node.
pub const INTERNAL_TAG: u8 = 0x01;

/// Tag byte marking a leaf node.
pub const LEAF_TAG: u8 = 0x02;

/// The big-endian encoding of a `u64`, most significant byte first.
pub open spec fn spec_u64_be(v: u64) -> Seq<u8> {
    seq![
        (v >> 56) as u8,
        (v >> 48) as u8,
        (v >> 40) as u8,
        (v >> 32) as u8,
        (v >> 24) as u8,
        (v >> 16) as u8,
        (v >> 8) as u8,
        v as u8,
    ]
}

/// The `u64` denoted by eight big-endian bytes.
pub open spec fn spec_u64_of_be(s: Seq<u8>) -> u64
    recommends
        s.len() == 8,
{
    ((s[0] as u64) << 56) | ((s[1] as u64) << 48) | ((s[2] as u64) << 40) | ((s[3] as u64) << 32)
        | ((s[4] as u64) << 24) | ((s[5] as u64) << 16) | ((s[6] as u64) << 8) | (s[7] as u64)
}

/// The big-endian encoding of a `u32`, most significant byte first.
pub open spec fn spec_u32_be(v: u32) -> Seq<u8> {
    seq![(v >> 24) as u8, (v >> 16) as u8, (v >> 8) as u8, v as u8]
}

/// The `u32` denoted by four big-endian bytes.
pub open spec fn spec_u32_of_be(s: Seq<u8>) -> u32
    recommends
        s.len() == 4,
{
    ((s[0] as u32) << 24) | ((s[1] as u32) << 16) | ((s[2] as u32) << 8) | (s[3] as u32)
}

/// Reading back the eight big-endian bytes of `v` yields `v` again.
pub proof fn lemma_u64_be_roundtrip(v: u64)
    ensures
        spec_u64_of_be(spec_u64_be(v)) == v,
{
    assert((((v >> 56) as u8 as u64) << 56) | (((v >> 48) as u8 as u64) << 48) | (((v >> 40)
        as u8 as u64) << 40) | (((v >> 32) as u8 as u64) << 32) | (((v >> 24) as u8 as u64) << 24)
        | (((v >> 16) as u8 as u64) << 16) | (((v >> 8) as u8 as u64) << 8) | (v as u8 as u64)
        == v) by (bit_vector);
}

/// Reading back the four big-endian bytes of `v` yields `v` again.
pub proof fn lemma_u32_be_roundtrip(v: u32)
    ensures
        spec_u32_of_be(spec_u32_be(v)) == v,
{
    assert((((v >> 24) as u8 as u32) << 24) | (((v >> 16) as u8 as u32) << 16) | (((v >> 8)
        as u8 as u32) << 8) | (v as u8 as u32) == v) by (bit_vector);
}

/// Appends the big-endian bytes of `v` to `buf`.
pub fn push_u64_be(buf: &mut Vec<u8>, v: u64)
    ensures
        final(buf)@ == old(buf)@ + spec_u64_be(v),
{
    buf.push((v >> 56) as u8);
    buf.push((v >> 48) as u8);
    buf.push((v >> 40) as u8);
    buf.push((v >> 32) as u8);
    buf.push((v >> 24) as u8);
    buf.push((v >> 16) as u8);
    buf.push((v >> 8) as u8);
    buf.push(v as u8);
    proof {
        assert(buf@ =~= old(buf)@ + spec_u64_be(v));
    }
}

/// Appends the big-endian bytes of `v` to `buf`.
pub fn push_u32_be(buf: &mut Vec<u8>, v: u32)
    ensures
        final(buf)@ == old(buf)@ + spec_u32_be(v),
{
    buf.push((v >> 24) as u8);
    buf.push((v >> 16) as u8);
    buf.push((v >> 8) as u8);
    buf.push(v as u8);
    proof {
        assert(buf@ =~= old(buf)@ + spec_u32_be(v));
    }
}

/// Appends all bytes of `b` to `buf`.
pub fn push_bytes(buf: &mut Vec<u8>, b: &[u8])
    ensures
        final(buf)@ == old(buf)@ + b@,
{
    let n = b.len();
    let mut i: usize = 0;
    proof {
        assert(old(buf)@ + b@.subrange(0, 0) =~= old(buf)@);
    }
    while i < n
        invariant
            0 <= i <= n,
            n == b@.len(),
            buf@ == old(buf)@ + b@.subrange(0, i as int),
        decreases n - i,
    {
        buf.push(b[i]);
        proof {
            assert(b@.subrange(0, i + 1) =~= b@.subrange(0, i as int).push(b@[i as int]));
            assert(buf@ =~= old(buf)@ + b@.subrange(0, i + 1));
        }
        i += 1;
    }
    proof {
        assert(b@.subrange(0, n as int) =~= b@);
    }
}

/// Reads the `u64` stored big-endian at `pos` in `bytes`.
pub fn read_u64_be(bytes: &Vec<u8>, pos: usize) -> (v: u64)
    requires
        pos + 8 <= bytes@.len(),
    ensures
        v == spec_u64_of_be(bytes@.subrange(pos as int, pos as int + 8)),
{
    let n = bytes.len();
    assert(pos + 8 <= n);
    let v = ((bytes[pos] as u64) << 56) | ((bytes[pos + 1] as u64) << 48) | ((bytes[pos + 2]
        as u64) << 40) | ((bytes[pos + 3] as u64) << 32) | ((bytes[pos + 4] as u64) << 24) | ((
    bytes[pos + 5] as u64) << 16) | ((bytes[pos + 6] as u64) << 8) | (bytes[pos + 7] as u64);
    proof {
        let s = bytes@.subrange(pos as int, pos as int + 8);
        assert(s[0] == bytes@[pos as int]);
        assert(s[7] == bytes@[pos as int + 7]);
    }
    v
}

/// Reads the `u32` stored big-endian at `pos` in `bytes`.
pub fn read_u32_be(bytes: &Vec<u8>, pos: usize) -> (v: u32)
    requires
        pos + 4 <= bytes@.len(),
    ensures
        v == spec_u32_of_be(bytes@.subrange(pos as int, pos as int + 4)),
{
    let n = bytes.len();
    assert(pos + 4 <= n);
    let v = ((bytes[pos] as u32) << 24) | ((bytes[pos + 1] as u32) << 16) | ((bytes[pos + 2]
        as u32) << 8) | (bytes[pos + 3] as u32);
    proof {
        let s = bytes@.subrange(pos as int, pos as int + 4);
        assert(s[0] == bytes@[pos as int]);
        assert(s[3] == bytes@[pos as int + 3]);
    }
    v
}

} // verus!
