//! Fixed-width little-endian integers and length-prefixed byte strings:
//! the primitive layer of the archive's binary layout.
use vstd::prelude::*;

verus! {

/// The eight little-endian bytes of `x`.
pub open spec fn enc_u64(x: u64) -> Seq<u8> {
    seq![
        (x & 0xff) as u8,
        ((x >> 8u64) & 0xff) as u8,
        ((x >> 16u64) & 0xff) as u8,
        ((x >> 24u64) & 0xff) as u8,
        ((x >> 32u64) & 0xff) as u8,
        ((x >> 40u64) & 0xff) as u8,
        ((x >> 48u64) & 0xff) as u8,
        ((x >> 56u64) & 0xff) as u8,
    ]
}

/// The value of eight little-endian bytes.
pub open spec fn le_u64(s: Seq<u8>) -> u64
    recommends
        s.len() == 8,
{
    (s[0] as u64) | ((s[1] as u64) << 8u64) | ((s[2] as u64) << 16u64) | ((s[3] as u64) << 24u64)
        | ((s[4] as u64) << 32u64) | ((s[5] as u64) << 40u64) | ((s[6] as u64) << 48u64) | ((
    s[7] as u64) << 56u64)
}

/// Reading a `u64` at `pos`: the value and the position after it.
pub open spec fn parse_u64(data: Seq<u8>, pos: int) -> Option<(u64, int)> {
    if 0 <= pos && pos + 8 <= data.len() {
        Some((le_u64(data.subrange(pos, pos + 8)), pos + 8))
    } else {
        None
    }
}

proof fn lemma_le_of_enc(x: u64)
    ensures
        le_u64(enc_u64(x)) == x,
{
    let b0 = (x & 0xff) as u8;
    let b1 = ((x >> 8u64) & 0xff) as u8;
    let b2 = ((x >> 16u64) & 0xff) as u8;
    let b3 = ((x >> 24u64) & 0xff) as u8;
    let b4 = ((x >> 32u64) & 0xff) as u8;
    let b5 = ((x >> 40u64) & 0xff) as u8;
    let b6 = ((x >> 48u64) & 0xff) as u8;
    let b7 = ((x >> 56u64) & 0xff) as u8;
    assert((b0 as u64) | ((b1 as u64) << 8u64) | ((b2 as u64) << 16u64) | ((b3 as u64) << 24u64)
        | ((b4 as u64) << 32u64) | ((b5 as u64) << 40u64) | ((b6 as u64) << 48u64) | ((
    b7 as u64) << 56u64) == x) by (bit_vector)
        requires
            b0 == (x & 0xff) as u8,
            b1 == ((x >> 8u64) & 0xff) as u8,
            b2 == ((x >> 16u64) & 0xff) as u8,
            b3 == ((x >> 24u64) & 0xff) as u8,
            b4 == ((x >> 32u64) & 0xff) as u8,
            b5 == ((x >> 40u64) & 0xff) as u8,
            b6 == ((x >> 48u64) & 0xff) as u8,
            b7 == ((x >> 56u64) & 0xff) as u8,
    ;
}

/// Appends the encoding of `x` to `out`.
pub fn write_u64(out: &mut Vec<u8>, x: u64)
    ensures
        final(out)@ == old(out)@ + enc_u64(x),
{
    out.push((x & 0xff) as u8);
    out.push(((x >> 8u64) & 0xff) as u8);
    out.push(((x >> 16u64) & 0xff) as u8);
    out.push(((x >> 24u64) & 0xff) as u8);
    out.push(((x >> 32u64) & 0xff) as u8);
    out.push(((x >> 40u64) & 0xff) as u8);
    out.push(((x >> 48u64) & 0xff) as u8);
    out.push(((x >> 56u64) & 0xff) as u8);
    assert(final(out)@ =~= old(out)@ + enc_u64(x));
}

/// Reads a `u64` at `pos`.
pub fn read_u64(data: &[u8], pos: usize) -> (r: Option<(u64, usize)>)
    ensures
        r matches Some((x, e)) ==> parse_u64(data@, pos as int) == Some((x, e as int)),
        r is None ==> parse_u64(data@, pos as int) is None,
{
    if pos > data.len() || data.len() - pos < 8 {
        return None;
    }
    let x: u64 = (data[pos] as u64) | ((data[pos + 1] as u64) << 8u64) | ((data[pos + 2] as u64)
        << 16u64) | ((data[pos + 3] as u64) << 24u64) | ((data[pos + 4] as u64) << 32u64) | ((
    data[pos + 5] as u64) << 40u64) | ((data[pos + 6] as u64) << 48u64) | ((data[pos + 7] as u64)
        << 56u64);
    assert(x == le_u64(data@.subrange(pos as int, pos + 8)));
    Some((x, pos + 8))
}

/// Bytes in `data` from `pos` on start with the encoding of `x`.
pub proof fn lemma_parse_enc_u64(data: Seq<u8>, pos: int, x: u64)
    requires
        0 <= pos,
        pos + 8 <= data.len(),
        data.subrange(pos, pos + 8) == enc_u64(x),
    ensures
        parse_u64(data, pos) == Some((x, pos + 8)),
{
    lemma_le_of_enc(x);
}

/// The four little-endian bytes of `x`.
pub open spec fn enc_u32(x: u32) -> Seq<u8> {
    seq![
        (x & 0xff) as u8,
        ((x >> 8u32) & 0xff) as u8,
        ((x >> 16u32) & 0xff) as u8,
        ((x >> 24u32) & 0xff) as u8,
    ]
}

/// The value of four little-endian bytes.
pub open spec fn le_u32(s: Seq<u8>) -> u32
    recommends
        s.len() == 4,
{
    (s[0] as u32) | ((s[1] as u32) << 8u32) | ((s[2] as u32) << 16u32) | ((s[3] as u32) << 24u32)
}

/// Reading a `u32` at `pos`.
pub open spec fn parse_u32(data: Seq<u8>, pos: int) -> Option<(u32, int)> {
    if 0 <= pos && pos + 4 <= data.len() {
        Some((le_u32(data.subrange(pos, pos + 4)), pos + 4))
    } else {
        None
    }
}

/// Reading one byte at `pos`.
pub open spec fn parse_u8(data: Seq<u8>, pos: int) -> Option<(u8, int)> {
    if 0 <= pos && pos < data.len() {
        Some((data[pos], pos + 1))
    } else {
        None
    }
}

/// A byte string: its length as a `u64`, then its bytes.
pub open spec fn enc_bytes(s: Seq<u8>) -> Seq<u8> {
    enc_u64(s.len() as u64) + s
}

/// Reading a byte string at `pos`.
pub open spec fn parse_bytes(data: Seq<u8>, pos: int) -> Option<(Seq<u8>, int)> {
    match parse_u64(data, pos) {
        Some((n, p)) => if p + n <= data.len() {
            Some((data.subrange(p, p + n), p + n))
        } else {
            None
        },
        None => None,
    }
}

proof fn lemma_le_of_enc_u32(x: u32)
    ensures
        le_u32(enc_u32(x)) == x,
{
    let b0 = (x & 0xff) as u8;
    let b1 = ((x >> 8u32) & 0xff) as u8;
    let b2 = ((x >> 16u32) & 0xff) as u8;
    let b3 = ((x >> 24u32) & 0xff) as u8;
    assert((b0 as u32) | ((b1 as u32) << 8u32) | ((b2 as u32) << 16u32) | ((b3 as u32) << 24u32)
        == x) by (bit_vector)
        requires
            b0 == (x & 0xff) as u8,
            b1 == ((x >> 8u32) & 0xff) as u8,
            b2 == ((x >> 16u32) & 0xff) as u8,
            b3 == ((x >> 24u32) & 0xff) as u8,
    ;
}

/// Appends the encoding of `x` to `out`.
pub fn write_u32(out: &mut Vec<u8>, x: u32)
    ensures
        final(out)@ == old(out)@ + enc_u32(x),
{
    out.push((x & 0xff) as u8);
    out.push(((x >> 8u32) & 0xff) as u8);
    out.push(((x >> 16u32) & 0xff) as u8);
    out.push(((x >> 24u32) & 0xff) as u8);
    assert(final(out)@ =~= old(out)@ + enc_u32(x));
}

/// Reads a `u32` at `pos`.
pub fn read_u32(data: &[u8], pos: usize) -> (r: Option<(u32, usize)>)
    ensures
        r matches Some((x, e)) ==> parse_u32(data@, pos as int) == Some((x, e as int)),
        r is None ==> parse_u32(data@, pos as int) is None,
{
    if pos > data.len() || data.len() - pos < 4 {
        return None;
    }
    let x: u32 = (data[pos] as u32) | ((data[pos + 1] as u32) << 8u32) | ((data[pos + 2] as u32)
        << 16u32) | ((data[pos + 3] as u32) << 24u32);
    assert(x == le_u32(data@.subrange(pos as int, pos + 4)));
    Some((x, pos + 4))
}

/// Reads one byte at `pos`.
pub fn read_u8(data: &[u8], pos: usize) -> (r: Option<(u8, usize)>)
    ensures
        r matches Some((x, e)) ==> parse_u8(data@, pos as int) == Some((x, e as int)),
        r is None ==> parse_u8(data@, pos as int) is None,
{
    if pos >= data.len() {
        return None;
    }
    Some((data[pos], pos + 1))
}

/// Appends the bytes of `s` to `out`.
pub fn write_raw(out: &mut Vec<u8>, s: &[u8])
    ensures
        final(out)@ == old(out)@ + s@,
{
    let mut i: usize = 0;
    while i < s.len()
        invariant
            i <= s.len(),
            out@ == old(out)@ + s@.subrange(0, i as int),
        decreases s.len() - i,
    {
        out.push(s[i]);
        i = i + 1;
        assert(out@ =~= old(out)@ + s@.subrange(0, i as int));
    }
    assert(s@.subrange(0, s@.len() as int) =~= s@);
}

/// Appends the encoding of the byte string `s` to `out`.
pub fn write_bytes(out: &mut Vec<u8>, s: &[u8])
    ensures
        final(out)@ == old(out)@ + enc_bytes(s@),
{
    write_u64(out, s.len() as u64);
    write_raw(out, s);
    assert(final(out)@ =~= old(out)@ + enc_bytes(s@));
}

/// A copy of `data[start..end]`.
pub fn copy_range(data: &[u8], start: usize, end: usize) -> (r: Vec<u8>)
    requires
        start <= end <= data@.len(),
    ensures
        r@ == data@.subrange(start as int, end as int),
{
    let mut r: Vec<u8> = Vec::new();
    let mut i: usize = start;
    while i < end
        invariant
            start <= i <= end <= data@.len(),
            r@ == data@.subrange(start as int, i as int),
        decreases end - i,
    {
        r.push(data[i]);
        i = i + 1;
        assert(r@ =~= data@.subrange(start as int, i as int));
    }
    r
}

/// Reads a byte string at `pos`.
pub fn read_bytes(data: &[u8], pos: usize) -> (r: Option<(Vec<u8>, usize)>)
    ensures
        r matches Some((s, e)) ==> parse_bytes(data@, pos as int) == Some((s@, e as int)),
        r is None ==> parse_bytes(data@, pos as int) is None,
{
    match read_u64(data, pos) {
        None => None,
        Some((n, p)) => {
            if n > (data.len() - p) as u64 {
                None
            } else {
                let e = p + n as usize;
                Some((copy_range(data, p, e), e))
            }
        },
    }
}

/// Where `data[pos..]` begins with `a + b`, it begins with `a`, and `b` follows.
pub proof fn lemma_split(data: Seq<u8>, pos: int, a: Seq<u8>, b: Seq<u8>)
    requires
        0 <= pos,
        pos + a.len() + b.len() <= data.len(),
        data.subrange(pos, pos + a.len() + b.len()) == a + b,
    ensures
        data.subrange(pos, pos + a.len()) == a,
        data.subrange(pos + a.len(), pos + a.len() + b.len()) == b,
{
    assert(data.subrange(pos, pos + a.len()) =~= (a + b).subrange(0, a.len() as int));
    assert(data.subrange(pos + a.len(), pos + a.len() + b.len()) =~= (a + b).subrange(
        a.len() as int,
        (a.len() + b.len()) as int,
    ));
}

/// Bytes from `pos` on that start with the encoding of `x` read back as `x`.
pub proof fn lemma_parse_enc_u32(data: Seq<u8>, pos: int, x: u32)
    requires
        0 <= pos,
        pos + 4 <= data.len(),
        data.subrange(pos, pos + 4) == enc_u32(x),
    ensures
        parse_u32(data, pos) == Some((x, pos + 4)),
{
    lemma_le_of_enc_u32(x);
}

/// Bytes from `pos` on that start with the encoding of `s` read back as `s`.
pub proof fn lemma_parse_enc_bytes(data: Seq<u8>, pos: int, s: Seq<u8>)
    requires
        0 <= pos,
        s.len() <= u64::MAX,
        pos + enc_bytes(s).len() <= data.len(),
        data.subrange(pos, pos + enc_bytes(s).len()) == enc_bytes(s),
    ensures
        parse_bytes(data, pos) == Some((s, pos + enc_bytes(s).len())),
{
    lemma_split(data, pos, enc_u64(s.len() as u64), s);
    lemma_parse_enc_u64(data, pos, s.len() as u64);
}

} // verus!
