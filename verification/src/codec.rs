use vstd::prelude::*;

verus! {

/// Little-endian value of the two bytes of `d` that start at `off`.
pub open spec fn u16_le(d: Seq<u8>, off: int) -> int {
    d[off] + 256 * d[off + 1]
}

/// Little-endian value of the four bytes of `d` that start at `off`.
pub open spec fn u32_le(d: Seq<u8>, off: int) -> int {
    u16_le(d, off) + 65536 * u16_le(d, off + 2)
}

/// Little-endian value of the eight bytes of `d` that start at `off`.
pub open spec fn u64_le(d: Seq<u8>, off: int) -> int {
    u32_le(d, off) + 0x1_0000_0000 * u32_le(d, off + 4)
}

/// The two little-endian bytes of `v` (taken modulo 2^16).
pub open spec fn le16(v: int) -> Seq<u8> {
    seq![(v % 256) as u8, ((v / 256) % 256) as u8]
}

/// The four little-endian bytes of `v` (taken modulo 2^32).
pub open spec fn le32(v: int) -> Seq<u8> {
    le16(v % 65536) + le16((v / 65536) % 65536)
}

/// The eight little-endian bytes of `v` (taken modulo 2^64).
pub open spec fn le64(v: int) -> Seq<u8> {
    le32(v % 0x1_0000_0000) + le32((v / 0x1_0000_0000) % 0x1_0000_0000)
}

/// `d` with the bytes of `src` written over it from position `off` on.
pub open spec fn splice(d: Seq<u8>, off: int, src: Seq<u8>) -> Seq<u8> {
    Seq::new(
        d.len(),
        |i: int|
            if off <= i < off + src.len() {
                src[i - off]
            } else {
                d[i]
            },
    )
}

/// `n` zero bytes.
pub open spec fn zeros(n: nat) -> Seq<u8> {
    Seq::new(n, |i: int| 0u8)
}

pub proof fn lemma_le16(v: int)
    requires
        0 <= v < 0x1_0000,
    ensures
        le16(v).len() == 2,
        u16_le(le16(v), 0) == v,
{
}

pub proof fn lemma_le32(v: int)
    requires
        0 <= v < 0x1_0000_0000,
    ensures
        le32(v).len() == 4,
        u32_le(le32(v), 0) == v,
{
    lemma_le16(v % 65536);
    lemma_le16((v / 65536) % 65536);
    let s = le32(v);
    assert(u16_le(s, 0) == v % 65536);
    assert(u16_le(s, 2) == (v / 65536) % 65536);
}

pub proof fn lemma_le64(v: int)
    requires
        0 <= v < 0x1_0000_0000_0000_0000,
    ensures
        le64(v).len() == 8,
        u64_le(le64(v), 0) == v,
{
    let lo = v % 0x1_0000_0000;
    let hi = (v / 0x1_0000_0000) % 0x1_0000_0000;
    lemma_le32(lo);
    lemma_le32(hi);
    let s = le64(v);
    assert(u32_le(s, 0) == u32_le(le32(lo), 0)) by {
        assert(s.subrange(0, 4) =~= le32(lo));
    }
    assert(u32_le(s, 4) == u32_le(le32(hi), 0)) by {
        assert(s.subrange(4, 8) =~= le32(hi));
    }
}

/// A value written with `splice` reads back unchanged.
pub proof fn lemma_read_u16_after_write(d: Seq<u8>, off: int, v: int)
    requires
        0 <= off,
        off + 2 <= d.len(),
        0 <= v < 0x1_0000,
    ensures
        u16_le(splice(d, off, le16(v)), off) == v,
{
    lemma_le16(v);
}

pub proof fn lemma_read_u32_after_write(d: Seq<u8>, off: int, v: int)
    requires
        0 <= off,
        off + 4 <= d.len(),
        0 <= v < 0x1_0000_0000,
    ensures
        u32_le(splice(d, off, le32(v)), off) == v,
{
    lemma_le32(v);
    let s = le32(v);
    let e = splice(d, off, s);
    assert(u16_le(e, off) == u16_le(s, 0));
    assert(u16_le(e, off + 2) == u16_le(s, 2));
}

pub proof fn lemma_read_u64_after_write(d: Seq<u8>, off: int, v: int)
    requires
        0 <= off,
        off + 8 <= d.len(),
        0 <= v < 0x1_0000_0000_0000_0000,
    ensures
        u64_le(splice(d, off, le64(v)), off) == v,
{
    lemma_le64(v);
    let s = le64(v);
    let e = splice(d, off, s);
    assert(u32_le(e, off) == u32_le(s, 0));
    assert(u32_le(e, off + 4) == u32_le(s, 4));
}

/// Two adjacent writes are one write of the concatenated bytes.
pub proof fn lemma_splice_concat(d: Seq<u8>, off: int, a: Seq<u8>, b: Seq<u8>)
    requires
        0 <= off,
        off + a.len() + b.len() <= d.len(),
    ensures
        splice(splice(d, off, a), off + a.len(), b) == splice(d, off, a + b),
{
    assert(splice(splice(d, off, a), off + a.len(), b) =~= splice(d, off, a + b));
}

/// Reads a little-endian `u16` from `data` at `off`.
pub fn read_u16<const N: usize>(data: &[u8; N], off: usize) -> (r: u16)
    requires
        off + 2 <= N,
    ensures
        r == u16_le(data@, off as int),
{
    let b0 = data[off] as u16;
    let b1 = data[off + 1] as u16;
    b0 + b1 * 256
}

/// Reads a little-endian `u32` from `data` at `off`.
pub fn read_u32<const N: usize>(data: &[u8; N], off: usize) -> (r: u32)
    requires
        off + 4 <= N,
    ensures
        r == u32_le(data@, off as int),
{
    let lo = read_u16(data, off) as u32;
    let hi = read_u16(data, off + 2) as u32;
    lo + hi * 65536
}

/// Reads a little-endian `u64` from `data` at `off`.
pub fn read_u64<const N: usize>(data: &[u8; N], off: usize) -> (r: u64)
    requires
        off + 8 <= N,
    ensures
        r == u64_le(data@, off as int),
{
    let lo = read_u32(data, off) as u64;
    let hi = read_u32(data, off + 4) as u64;
    lo + hi * 0x1_0000_0000
}

/// Writes `v` in little-endian order into `data` at `off`.
pub fn write_u16<const N: usize>(data: &mut [u8; N], off: usize, v: u16)
    requires
        off + 2 <= N,
    ensures
        final(data)@ == splice(old(data)@, off as int, le16(v as int)),
{
    data[off] = (v % 256) as u8;
    data[off + 1] = (v / 256) as u8;
    assert(final(data)@ =~= splice(old(data)@, off as int, le16(v as int)));
}

/// Writes `v` in little-endian order into `data` at `off`.
pub fn write_u32<const N: usize>(data: &mut [u8; N], off: usize, v: u32)
    requires
        off + 4 <= N,
    ensures
        final(data)@ == splice(old(data)@, off as int, le32(v as int)),
{
    let ghost d0 = data@;
    let lo = (v % 65536) as u16;
    let hi = (v / 65536) as u16;
    write_u16(data, off, lo);
    write_u16(data, off + 2, hi);
    proof {
        assert(lo as int == v as int % 65536);
        assert(hi as int == (v as int / 65536) % 65536);
        assert(le16(lo as int).len() == 2);
        lemma_splice_concat(d0, off as int, le16(lo as int), le16(hi as int));
        assert(le32(v as int) == le16(lo as int) + le16(hi as int));
    }
}

/// Writes `v` in little-endian order into `data` at `off`.
pub fn write_u64<const N: usize>(data: &mut [u8; N], off: usize, v: u64)
    requires
        off + 8 <= N,
    ensures
        final(data)@ == splice(old(data)@, off as int, le64(v as int)),
{
    let ghost d0 = data@;
    let lo = (v % 0x1_0000_0000) as u32;
    let hi = (v / 0x1_0000_0000) as u32;
    write_u32(data, off, lo);
    write_u32(data, off + 4, hi);
    proof {
        assert(lo as int == v as int % 0x1_0000_0000);
        assert(hi as int == (v as int / 0x1_0000_0000) % 0x1_0000_0000);
        assert(le32(lo as int).len() == 4);
        lemma_splice_concat(d0, off as int, le32(lo as int), le32(hi as int));
        assert(le64(v as int) == le32(lo as int) + le32(hi as int));
    }
}

/// Copies `src` into `data` from position `off` on.
pub fn write_bytes<const N: usize>(data: &mut [u8; N], off: usize, src: &[u8])
    requires
        off + src@.len() <= N,
    ensures
        final(data)@ == splice(old(data)@, off as int, src@),
{
    let ghost d0 = data@;
    let mut i: usize = 0;
    while i < src.len()
        invariant
            i <= src@.len(),
            off + src@.len() <= N,
            data@.len() == N,
            forall|k: int|
                0 <= k < N ==> #[trigger] data@[k] == (if off <= k < off + i {
                    src@[k - off]
                } else {
                    d0[k]
                }),
        decreases src@.len() - i,
    {
        data[off + i] = src[i];
        i = i + 1;
    }
    assert(data@ =~= splice(d0, off as int, src@));
}

} // verus!
