//! Positional big-endian reads, varint-prefixed byte strings and CRC32C
//! protected length-prefixed frames.
use vstd::prelude::*;
use crate::error::IndexError;
use vstd::utf8::{valid_utf8, decode_utf8};

verus! {

/// The big-endian `u32` stored at `b[i..i + 4]`.
pub open spec fn be_u32(b: Seq<u8>, i: int) -> int {
    (b[i] as int) * 0x1000000 + (b[i + 1] as int) * 0x10000 + (b[i + 2] as int) * 0x100 + (b[i + 3] as int)
}

/// The big-endian `u64` stored at `b[i..i + 8]`.
pub open spec fn be_u64(b: Seq<u8>, i: int) -> int {
    be_u32(b, i) * 0x100000000 + be_u32(b, i + 4)
}

/// Reads the big-endian `u32` at `off`.
pub fn read_u32_be(b: &[u8], off: usize) -> (r: u32)
    requires
        off + 4 <= b@.len(),
    ensures
        r as int == be_u32(b@, off as int),
{
    let b0 = b[off] as u32;
    let b1 = b[off + 1] as u32;
    let b2 = b[off + 2] as u32;
    let b3 = b[off + 3] as u32;
    assert(b0 * 0x1000000 + b1 * 0x10000 + b2 * 0x100 + b3 <= 0xffffffff) by (nonlinear_arith)
        requires b0 <= 255, b1 <= 255, b2 <= 255, b3 <= 255;
    b0 * 0x1000000 + b1 * 0x10000 + b2 * 0x100 + b3
}

/// Reads the big-endian `u64` at `off`.
pub fn read_u64_be(b: &[u8], off: usize) -> (r: u64)
    requires
        off + 8 <= b@.len(),
    ensures
        r as int == be_u64(b@, off as int),
{
    let _n = b.len();
    let hi = read_u32_be(b, off) as u64;
    let lo = read_u32_be(b, off + 4) as u64;
    assert(hi * 0x100000000 + lo <= 0xffffffffffffffff) by (nonlinear_arith)
        requires hi <= 0xffffffff, lo <= 0xffffffff;
    hi * 0x100000000 + lo
}

/// The big-endian bytes of `v`.
pub open spec fn be_u32_bytes(v: u32) -> Seq<u8> {
    seq![(v / 0x1000000) as u8, ((v / 0x10000) % 0x100) as u8, ((v / 0x100) % 0x100) as u8, (v % 0x100) as u8]
}

proof fn lemma_be_u32_bytes(v: u32, pre: Seq<u8>, post: Seq<u8>)
    ensures
        be_u32(pre + be_u32_bytes(v) + post, pre.len() as int) == v,
{
    let b = pre + be_u32_bytes(v) + post;
    let i = pre.len() as int;
    assert(b[i] == (v / 0x1000000) as u8);
    assert(b[i + 1] == ((v / 0x10000) % 0x100) as u8);
    assert(b[i + 2] == ((v / 0x100) % 0x100) as u8);
    assert(b[i + 3] == (v % 0x100) as u8);
    assert((v / 0x1000000) * 0x1000000 + ((v / 0x10000) % 0x100) * 0x10000 + ((v / 0x100) % 0x100) * 0x100 + v % 0x100 == v) by (nonlinear_arith);
}

/// Appends the big-endian bytes of `v`.
pub fn write_u32_be(buf: &mut Vec<u8>, v: u32)
    ensures
        final(buf)@ == old(buf)@ + be_u32_bytes(v),
{
    buf.push((v / 0x1000000) as u8);
    buf.push(((v / 0x10000) % 0x100) as u8);
    buf.push(((v / 0x100) % 0x100) as u8);
    buf.push((v % 0x100) as u8);
    assert(buf@ =~= old(buf)@ + be_u32_bytes(v));
}

/// CRC32C (Castagnoli) of the bytes.
pub uninterp spec fn crc32c_of(b: Seq<u8>) -> u32;

/// Relies on crc::Crc::<u32>::checksum with crc::CRC_32_ISCSI, the CRC32C
/// (Castagnoli) parameters: the checksum is a function of the bytes alone.
#[verifier::external_body]
pub(crate) fn crc32c(b: &[u8]) -> (r: u32)
    ensures
        r == crc32c_of(b@),
{
    crc::Crc::<u32>::new(&crc::CRC_32_ISCSI).checksum(b)
}

/// The unsigned LEB128 varint at the start of the bytes and how many bytes
/// it took.
pub uninterp spec fn uvarint_of(b: Seq<u8>) -> Option<(u64, usize)>;

/// Relies on integer_encoding::VarInt::decode_var for u64: the value and the
/// number of bytes read, at least one and never past the end, or None where
/// the bytes end inside the varint.
#[verifier::external_body]
fn decode_uvarint(b: &[u8], pos: usize) -> (r: Option<(u64, usize)>)
    requires
        pos <= b@.len(),
    ensures
        r == uvarint_of(b@.subrange(pos as int, b@.len() as int)),
        match r {
            Some((_, n)) => 1 <= n && pos + n <= b@.len(),
            None => true,
        },
{
    <u64 as integer_encoding::VarInt>::decode_var(&b[pos..])
}

/// The unsigned LEB128 encoding of `v`.
pub uninterp spec fn uvarint_bytes(v: u64) -> Seq<u8>;

/// Relies on integer_encoding::VarInt::encode_var_vec for u64: the encoding
/// of `v`, a function of `v` alone.
#[verifier::external_body]
fn encode_uvarint(v: u64) -> (r: Vec<u8>)
    ensures
        r@ == uvarint_bytes(v),
{
    <u64 as integer_encoding::VarInt>::encode_var_vec(v)
}

/// The varint at `pos`, and the position just past it.
pub open spec fn uvarint_at(b: Seq<u8>, pos: int) -> Option<(u64, int)> {
    if 0 <= pos <= b.len() {
        match uvarint_of(b.subrange(pos, b.len() as int)) {
            Some((v, n)) => if 1 <= n && pos + n <= b.len() {
                Some((v, pos + n))
            } else {
                None
            },
            None => None,
        }
    } else {
        None
    }
}

/// The varint-prefixed byte string at `pos`, and the position just past it.
pub open spec fn bytes_at(b: Seq<u8>, pos: int) -> Option<(Seq<u8>, int)> {
    match uvarint_at(b, pos) {
        Some((n, p)) => if p + n <= b.len() {
            Some((b.subrange(p, p + n), p + n))
        } else {
            None
        },
        None => None,
    }
}

/// Reads the varint at `pos`; returns it and the position just past it.
pub fn read_uvarint(b: &[u8], pos: usize) -> (r: Result<(u64, usize), IndexError>)
    requires
        pos <= b@.len(),
    ensures
        match r {
            Ok((v, p)) => uvarint_at(b@, pos as int) == Some((v, p as int)),
            Err(e) => uvarint_at(b@, pos as int) is None && e == IndexError::UnexpectedEnd,
        },
{
    let _n = b.len();
    match decode_uvarint(b, pos) {
        Some((v, n)) => Ok((v, pos + n)),
        None => Err(IndexError::UnexpectedEnd),
    }
}

/// Reads the varint-prefixed byte string at `pos`; returns where its bytes
/// start and end.
pub fn read_varint_span(b: &[u8], pos: usize) -> (r: Result<(usize, usize), IndexError>)
    requires
        pos <= b@.len(),
    ensures
        match r {
            Ok((s, e)) => s <= e <= b@.len() && bytes_at(b@, pos as int) == Some((b@.subrange(s as int, e as int), e as int)),
            Err(err) => bytes_at(b@, pos as int) is None && err == IndexError::UnexpectedEnd,
        },
{
    let (n, p) = read_uvarint(b, pos)?;
    if n > (b.len() - p) as u64 {
        return Err(IndexError::UnexpectedEnd);
    }
    Ok((p, p + n as usize))
}

/// A copy of `b[s..e]`.
pub fn copy_range(b: &[u8], s: usize, e: usize) -> (r: Vec<u8>)
    requires
        s <= e <= b@.len(),
    ensures
        r@ == b@.subrange(s as int, e as int),
{
    let mut r: Vec<u8> = Vec::new();
    let mut i = s;
    while i < e
        invariant
            s <= i <= e <= b@.len(),
            r@ == b@.subrange(s as int, i as int),
        decreases e - i,
    {
        r.push(b[i]);
        i += 1;
        assert(r@ =~= b@.subrange(s as int, i as int));
    }
    r
}

/// Appends `b` prefixed by its length as a varint.
pub fn write_varint_bytes(buf: &mut Vec<u8>, b: &[u8])
    ensures
        final(buf)@ == old(buf)@ + uvarint_bytes(b@.len() as u64) + b@,
{
    let mut len = encode_uvarint(b.len() as u64);
    buf.append(&mut len);
    let mut i: usize = 0;
    let ghost mid = buf@;
    while i < b.len()
        invariant
            i <= b@.len(),
            buf@ == mid + b@.subrange(0, i as int),
        decreases b@.len() - i,
    {
        buf.push(b[i]);
        i += 1;
        assert(buf@ =~= mid + b@.subrange(0, i as int));
    }
    assert(b@.subrange(0, b@.len() as int) =~= b@);
}

/// The end a frame at `off` needs, clamped to `u64`.
pub open spec fn clamp_u64(x: int) -> u64 {
    if x > u64::MAX { u64::MAX } else { x as u64 }
}

/// The frame at `off`: a big-endian `u32` length, the payload, and, where
/// `crc` is set, the CRC32C of the payload as a big-endian `u32`.
pub open spec fn frame_at(data: Seq<u8>, off: int, crc: bool) -> Result<Seq<u8>, IndexError> {
    if off + 4 > data.len() {
        Err(IndexError::InvalidBufSize(clamp_u64(off + 4), data.len() as u64))
    } else {
        let len = be_u32(data, off);
        let end = off + 4 + len + if crc { 4int } else { 0int };
        if end > data.len() {
            Err(IndexError::InvalidBufSize(clamp_u64(end), data.len() as u64))
        } else {
            let payload = data.subrange(off + 4, off + 4 + len);
            if crc && be_u32(data, off + 4 + len) != crc32c_of(payload) as int {
                Err(IndexError::InvalidChecksum(be_u32(data, off + 4 + len) as u32, crc32c_of(payload)))
            } else {
                Ok(payload)
            }
        }
    }
}

/// Reads the length-prefixed frame at `offset`, checking its CRC32C where
/// `crc` is set.
pub fn new_decbuf_at(data: &[u8], offset: u64, crc: bool) -> (r: Result<Vec<u8>, IndexError>)
    ensures
        match r {
            Ok(v) => frame_at(data@, offset as int, crc) == Ok::<Seq<u8>, IndexError>(v@),
            Err(e) => frame_at(data@, offset as int, crc) == Err::<Seq<u8>, IndexError>(e),
        },
{
    let size = data.len();
    if offset > size as u64 || size as u64 - offset < 4 {
        return Err(IndexError::InvalidBufSize(offset.saturating_add(4), size as u64));
    }
    let off = offset as usize;
    let len = read_u32_be(data, off) as usize;
    let tail: usize = if crc { 4 } else { 0 };
    if len > size - off - 4 || tail > size - off - 4 - len {
        let end = (offset as u128 + 4 + len as u128 + tail as u128);
        let e: u64 = if end > u64::MAX as u128 { u64::MAX } else { end as u64 };
        return Err(IndexError::InvalidBufSize(e, size as u64));
    }
    let start = off + 4;
    let payload = copy_range(data, start, start + len);
    if crc {
        let expected = read_u32_be(data, start + len);
        let actual = crc32c(payload.as_slice());
        if expected != actual {
            return Err(IndexError::InvalidChecksum(expected, actual));
        }
    }
    Ok(payload)
}

/// The bytes of a frame around `payload`, with its CRC32C.
pub open spec fn frame_bytes(payload: Seq<u8>) -> Seq<u8> {
    be_u32_bytes(payload.len() as u32) + payload + be_u32_bytes(crc32c_of(payload))
}

/// Writes `payload` as a frame, with its CRC32C.
pub fn write_frame(payload: &[u8]) -> (r: Vec<u8>)
    requires
        payload@.len() <= u32::MAX,
    ensures
        r@ == frame_bytes(payload@),
{
    let mut r: Vec<u8> = Vec::new();
    write_u32_be(&mut r, payload.len() as u32);
    let mut i: usize = 0;
    let ghost head = r@;
    while i < payload.len()
        invariant
            i <= payload@.len(),
            r@ == head + payload@.subrange(0, i as int),
        decreases payload@.len() - i,
    {
        r.push(payload[i]);
        i += 1;
        assert(r@ =~= head + payload@.subrange(0, i as int));
    }
    assert(payload@.subrange(0, payload@.len() as int) =~= payload@);
    write_u32_be(&mut r, crc32c(payload));
    assert(r@ =~= frame_bytes(payload@));
    r
}

/// A frame written with its checksum reads back as its payload.
pub proof fn lemma_frame_round_trip(payload: Seq<u8>)
    requires
        payload.len() <= u32::MAX,
    ensures
        frame_at(frame_bytes(payload), 0, true) == Ok::<Seq<u8>, IndexError>(payload),
{
    let b = frame_bytes(payload);
    let len = payload.len() as u32;
    lemma_be_u32_bytes(len, Seq::empty(), payload + be_u32_bytes(crc32c_of(payload)));
    assert(Seq::<u8>::empty() + be_u32_bytes(len) + (payload + be_u32_bytes(crc32c_of(payload))) =~= b);
    lemma_be_u32_bytes(crc32c_of(payload), be_u32_bytes(len) + payload, Seq::empty());
    assert(be_u32_bytes(len) + payload + be_u32_bytes(crc32c_of(payload)) + Seq::<u8>::empty() =~= b);
    assert(b.subrange(4, 4 + payload.len() as int) =~= payload);
}

/// Relies on std::str::from_utf8: it accepts exactly the valid UTF-8 byte
/// strings, and the string holds the characters they encode.
#[verifier::external_body]
pub(crate) fn utf8_string(b: &[u8]) -> (r: Option<String>)
    ensures
        match r {
            Some(s) => valid_utf8(b@) && s@ == decode_utf8(b@),
            None => !valid_utf8(b@),
        },
{
    match std::str::from_utf8(b) {
        Ok(s) => Some(s.to_string()),
        Err(_) => None,
    }
}

/// A frame written with its checksum decodes, without checksum error, to
/// its payload wherever it stands in a file.
pub proof fn lemma_frame_in_file(pre: Seq<u8>, payload: Seq<u8>, post: Seq<u8>)
    requires
        payload.len() <= u32::MAX,
    ensures
        frame_at(pre + frame_bytes(payload) + post, pre.len() as int, true) == Ok::<Seq<u8>, IndexError>(payload),
{
    let data = pre + frame_bytes(payload) + post;
    let i = pre.len() as int;
    let len = payload.len() as u32;
    let c = crc32c_of(payload);
    lemma_be_u32_bytes(len, pre, payload + be_u32_bytes(c) + post);
    assert(pre + be_u32_bytes(len) + (payload + be_u32_bytes(c) + post) =~= data);
    lemma_be_u32_bytes(c, pre + be_u32_bytes(len) + payload, post);
    assert(pre + be_u32_bytes(len) + payload + be_u32_bytes(c) + post =~= data);
    assert(data.subrange(i + 4, i + 4 + payload.len() as int) =~= payload);
}

} // verus!
