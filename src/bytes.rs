use vstd::prelude::*;

verus! {

/// Little-endian bytes of a `u16`.
pub open spec fn le16(x: u16) -> Seq<u8> {
    seq![x as u8, (x >> 8u16) as u8]
}

/// Little-endian bytes of a `u32`.
pub open spec fn le32(x: u32) -> Seq<u8> {
    seq![x as u8, (x >> 8u32) as u8, (x >> 16u32) as u8, (x >> 24u32) as u8]
}

/// Little-endian bytes of a `u64`.
pub open spec fn le64(x: u64) -> Seq<u8> {
    seq![
        x as u8,
        (x >> 8u64) as u8,
        (x >> 16u64) as u8,
        (x >> 24u64) as u8,
        (x >> 32u64) as u8,
        (x >> 40u64) as u8,
        (x >> 48u64) as u8,
        (x >> 56u64) as u8,
    ]
}

/// The `u16` whose little-endian bytes are `s`.
pub open spec fn u16_of(s: Seq<u8>) -> u16 {
    choose|x: u16| le16(x) == s
}

pub proof fn lemma_u16_of(x: u16)
    ensures
        u16_of(le16(x)) == x,
{
    let y = u16_of(le16(x));
    assert(le16(y) == le16(x));
    assert(le16(y)[0] == le16(x)[0] && le16(y)[1] == le16(x)[1]);
    assert(y as u8 == x as u8 && (y >> 8u16) as u8 == (x >> 8u16) as u8 ==> y == x) by (bit_vector);
}

/// The `u64` whose little-endian bytes are `s`.
pub open spec fn u64_of(s: Seq<u8>) -> u64 {
    choose|x: u64| le64(x) == s
}

pub proof fn lemma_u64_of(x: u64)
    ensures
        u64_of(le64(x)) == x,
{
    let y = u64_of(le64(x));
    assert(le64(y) == le64(x));
    lemma_le64_inj(y, x);
}

pub fn put_u16(out: &mut Vec<u8>, x: u16)
    ensures
        final(out)@ == old(out)@ + le16(x),
{
    out.push(x as u8);
    out.push((x >> 8u16) as u8);
    assert(out@ =~= old(out)@ + le16(x));
}

pub fn put_u32(out: &mut Vec<u8>, x: u32)
    ensures
        final(out)@ == old(out)@ + le32(x),
{
    out.push(x as u8);
    out.push((x >> 8u32) as u8);
    out.push((x >> 16u32) as u8);
    out.push((x >> 24u32) as u8);
    assert(out@ =~= old(out)@ + le32(x));
}

pub fn put_u64(out: &mut Vec<u8>, x: u64)
    ensures
        final(out)@ == old(out)@ + le64(x),
{
    out.push(x as u8);
    out.push((x >> 8u64) as u8);
    out.push((x >> 16u64) as u8);
    out.push((x >> 24u64) as u8);
    out.push((x >> 32u64) as u8);
    out.push((x >> 40u64) as u8);
    out.push((x >> 48u64) as u8);
    out.push((x >> 56u64) as u8);
    assert(out@ =~= old(out)@ + le64(x));
}

/// Appends `data` to `out`.
pub fn put_bytes(out: &mut Vec<u8>, data: &[u8])
    ensures
        final(out)@ == old(out)@ + data@,
{
    let mut i: usize = 0;
    while i < data.len()
        invariant
            i <= data@.len(),
            out@ == old(out)@ + data@.subrange(0, i as int),
        decreases data@.len() - i,
    {
        out.push(data[i]);
        i = i + 1;
        assert(out@ =~= old(out)@ + data@.subrange(0, i as int));
    }
    assert(data@.subrange(0, i as int) =~= data@);
}

pub fn get_u16(b: &[u8], pos: usize) -> (r: u16)
    requires
        pos + 2 <= b@.len(),
    ensures
        le16(r) == b@.subrange(pos as int, pos + 2),
{
    let b0 = b[pos];
    let b1 = b[pos + 1];
    let r = (b0 as u16) | ((b1 as u16) << 8u16);
    assert(r as u8 == b0 && (r >> 8u16) as u8 == b1) by (bit_vector)
        requires
            r == (b0 as u16) | ((b1 as u16) << 8u16),
    ;
    assert(le16(r) =~= b@.subrange(pos as int, pos + 2));
    r
}

pub fn get_u32(b: &[u8], pos: usize) -> (r: u32)
    requires
        pos + 4 <= b@.len(),
    ensures
        le32(r) == b@.subrange(pos as int, pos + 4),
{
    let b0 = b[pos];
    let b1 = b[pos + 1];
    let b2 = b[pos + 2];
    let b3 = b[pos + 3];
    let r = (b0 as u32) | ((b1 as u32) << 8u32) | ((b2 as u32) << 16u32) | ((b3 as u32) << 24u32);
    assert(r as u8 == b0 && (r >> 8u32) as u8 == b1 && (r >> 16u32) as u8 == b2 && (r >> 24u32) as u8
        == b3) by (bit_vector)
        requires
            r == (b0 as u32) | ((b1 as u32) << 8u32) | ((b2 as u32) << 16u32) | ((b3 as u32) << 24u32),
    ;
    assert(le32(r) =~= b@.subrange(pos as int, pos + 4));
    r
}

pub fn get_u64(b: &[u8], pos: usize) -> (r: u64)
    requires
        pos + 8 <= b@.len(),
    ensures
        le64(r) == b@.subrange(pos as int, pos + 8),
{
    let n = b.len();
    let lo = get_u32(b, pos) as u64;
    let hi = get_u32(b, pos + 4) as u64;
    let r = lo | (hi << 32u64);
    assert(r as u8 == lo as u8 && (r >> 8u64) as u8 == (lo >> 8u64) as u8 && (r >> 16u64) as u8 == (lo
        >> 16u64) as u8 && (r >> 24u64) as u8 == (lo >> 24u64) as u8 && (r >> 32u64) as u8 == hi as u8
        && (r >> 40u64) as u8 == (hi >> 8u64) as u8 && (r >> 48u64) as u8 == (hi >> 16u64) as u8 && (r
        >> 56u64) as u8 == (hi >> 24u64) as u8) by (bit_vector)
        requires
            r == lo | (hi << 32u64),
            lo <= 0xffff_ffffu64,
            hi <= 0xffff_ffffu64,
    ;
    let ghost l32 = lo as u32;
    let ghost h32 = hi as u32;
    assert(l32 as u8 == lo as u8 && (l32 >> 8u32) as u8 == (lo >> 8u64) as u8 && (l32 >> 16u32) as u8
        == (lo >> 16u64) as u8 && (l32 >> 24u32) as u8 == (lo >> 24u64) as u8) by (bit_vector)
        requires
            l32 == lo as u32,
            lo <= 0xffff_ffffu64,
    ;
    assert(h32 as u8 == hi as u8 && (h32 >> 8u32) as u8 == (hi >> 8u64) as u8 && (h32 >> 16u32) as u8
        == (hi >> 16u64) as u8 && (h32 >> 24u32) as u8 == (hi >> 24u64) as u8) by (bit_vector)
        requires
            h32 == hi as u32,
            hi <= 0xffff_ffffu64,
    ;
    assert(le64(r) =~= b@.subrange(pos as int, pos + 8));
    r
}

pub proof fn lemma_le32_inj(a: u32, b: u32)
    requires
        le32(a) == le32(b),
    ensures
        a == b,
{
    assert(le32(a)[0] == le32(b)[0] && le32(a)[1] == le32(b)[1] && le32(a)[2] == le32(b)[2] && le32(a)[3]
        == le32(b)[3]);
    assert(a as u8 == b as u8 && (a >> 8u32) as u8 == (b >> 8u32) as u8 && (a >> 16u32) as u8 == (b
        >> 16u32) as u8 && (a >> 24u32) as u8 == (b >> 24u32) as u8 ==> a == b) by (bit_vector);
}

pub proof fn lemma_le64_inj(a: u64, b: u64)
    requires
        le64(a) == le64(b),
    ensures
        a == b,
{
    assert(le64(a)[0] == le64(b)[0] && le64(a)[1] == le64(b)[1] && le64(a)[2] == le64(b)[2] && le64(a)[3]
        == le64(b)[3] && le64(a)[4] == le64(b)[4] && le64(a)[5] == le64(b)[5] && le64(a)[6] == le64(b)[6]
        && le64(a)[7] == le64(b)[7]);
    assert(a as u8 == b as u8 && (a >> 8u64) as u8 == (b >> 8u64) as u8 && (a >> 16u64) as u8 == (b
        >> 16u64) as u8 && (a >> 24u64) as u8 == (b >> 24u64) as u8 && (a >> 32u64) as u8 == (b >> 32u64)
        as u8 && (a >> 40u64) as u8 == (b >> 40u64) as u8 && (a >> 48u64) as u8 == (b >> 48u64) as u8 && (a
        >> 56u64) as u8 == (b >> 56u64) as u8 ==> a == b) by (bit_vector);
}

} // verus!
