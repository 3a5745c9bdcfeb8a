use vstd::prelude::*;
use vstd::slice::{slice_subrange, slice_to_vec};
use vstd::utf8::{decode_utf8, encode_utf8, valid_utf8};
use crate::pack_types::PackError;

verus! {

broadcast use vstd::utf8::encode_utf8_valid_utf8, vstd::utf8::encode_utf8_decode_utf8;

/// The unsigned integer that four bytes stand for, most significant byte first.
pub open spec fn be32(b0: u8, b1: u8, b2: u8, b3: u8) -> u32 {
    ((b0 as u32) << 24u32) | ((b1 as u32) << 16u32) | ((b2 as u32) << 8u32) | (b3 as u32)
}

/// The 32-bit integer stored big-endian at `pos` in `b`.
pub open spec fn be32_at(b: Seq<u8>, pos: int) -> u32 {
    be32(b[pos], b[pos + 1], b[pos + 2], b[pos + 3])
}

/// The 64-bit integer stored big-endian at `pos` in `b`.
pub open spec fn be64_at(b: Seq<u8>, pos: int) -> u64 {
    ((be32_at(b, pos) as u64) << 32u64) | (be32_at(b, pos + 4) as u64)
}

/// The four bytes of `v`, most significant first.
pub open spec fn u32_bytes(v: u32) -> Seq<u8> {
    seq![(v >> 24u32) as u8, (v >> 16u32) as u8, (v >> 8u32) as u8, v as u8]
}

/// The eight bytes of `v`, most significant first.
pub open spec fn u64_bytes(v: u64) -> Seq<u8> {
    u32_bytes((v >> 32u64) as u32) + u32_bytes(v as u32)
}

/// Reading back the four bytes of a 32-bit integer gives the integer.
pub proof fn lemma_u32_bytes(v: u32)
    ensures
        be32_at(u32_bytes(v), 0) == v,
        u32_bytes(v).len() == 4,
{
    let b = u32_bytes(v);
    assert(be32((v >> 24u32) as u8, (v >> 16u32) as u8, (v >> 8u32) as u8, v as u8) == v)
        by (bit_vector);
}

/// Reading back the eight bytes of a 64-bit integer gives the integer.
pub proof fn lemma_u64_bytes(v: u64)
    ensures
        be64_at(u64_bytes(v), 0) == v,
        u64_bytes(v).len() == 8,
{
    let hi = (v >> 32u64) as u32;
    let lo = v as u32;
    lemma_u32_bytes(hi);
    lemma_u32_bytes(lo);
    let b = u64_bytes(v);
    assert(b.subrange(0, 4) =~= u32_bytes(hi));
    assert(b.subrange(4, 8) =~= u32_bytes(lo));
    assert(be32_at(b, 0) == be32_at(u32_bytes(hi), 0));
    assert(be32_at(b, 4) == be32_at(u32_bytes(lo), 0));
    assert((((v >> 32u64) as u32) as u64) << 32u64 | ((v as u32) as u64) == v) by (bit_vector);
}

/// Bytes of a name on the wire: its length plus one, then its UTF-8 bytes.
pub open spec fn name_bytes(s: Seq<char>) -> Seq<u8> {
    u32_bytes((encode_utf8(s).len() + 1) as u32) + encode_utf8(s)
}

/// Whether the length of a name can be stored in its length field.
pub open spec fn name_fits(s: Seq<char>) -> bool {
    encode_utf8(s).len() + 1 <= u32::MAX
}

/// Outcome of reading a name at `pos` in `b`: the name and the position after it.
pub open spec fn spec_read_name(b: Seq<u8>, pos: int) -> Result<(Seq<char>, int), PackError> {
    if pos + 4 > b.len() {
        Err(PackError::IoError)
    } else {
        let n = be32_at(b, pos) as int;
        if n == 0 || pos + 4 + (n - 1) > b.len() {
            Err(PackError::IoError)
        } else {
            let bytes = b.subrange(pos + 4, pos + 4 + (n - 1));
            if valid_utf8(bytes) {
                Ok((decode_utf8(bytes), pos + 4 + (n - 1)))
            } else {
                Err(PackError::IoError)
            }
        }
    }
}

/// Relies on String::from_utf8: it succeeds exactly on valid UTF-8 and then holds
/// the characters those bytes encode.
#[verifier::external_body]
pub(crate) fn string_from_utf8(bytes: Vec<u8>) -> (r: Option<String>)
    ensures
        r is Some <==> valid_utf8(bytes@),
        r matches Some(s) ==> s@ == decode_utf8(bytes@),
{
    String::from_utf8(bytes).ok()
}

/// Reads the big-endian 32-bit integer at `pos`.
pub(crate) fn read_u32(buf: &[u8], pos: usize) -> (r: Result<(u32, usize), PackError>)
    requires
        pos <= buf@.len(),
    ensures
        pos + 4 <= buf@.len() ==> (r matches Ok((v, p)) && v == be32_at(buf@, pos as int) && p == pos + 4),
        pos + 4 > buf@.len() ==> r == Err::<(u32, usize), PackError>(PackError::IoError),
{
    if buf.len() - pos < 4 {
        return Err(PackError::IoError);
    }
    let v = ((buf[pos] as u32) << 24u32) | ((buf[pos + 1] as u32) << 16u32) | ((buf[pos + 2] as u32) << 8u32)
        | (buf[pos + 3] as u32);
    Ok((v, pos + 4))
}

/// Reads the big-endian 64-bit integer at `pos`.
pub(crate) fn read_u64(buf: &[u8], pos: usize) -> (r: Result<(u64, usize), PackError>)
    requires
        pos <= buf@.len(),
    ensures
        pos + 8 <= buf@.len() ==> (r matches Ok((v, p)) && v == be64_at(buf@, pos as int) && p == pos + 8),
        pos + 8 > buf@.len() ==> r == Err::<(u64, usize), PackError>(PackError::IoError),
{
    if buf.len() - pos < 8 {
        return Err(PackError::IoError);
    }
    let (hi, p) = read_u32(buf, pos)?;
    let (lo, q) = read_u32(buf, p)?;
    Ok((((hi as u64) << 32u64) | (lo as u64), q))
}

/// Appends the four bytes of `v`, most significant first.
pub(crate) fn write_u32(w: &mut Vec<u8>, v: u32)
    ensures
        final(w)@ == old(w)@ + u32_bytes(v),
{
    w.push((v >> 24u32) as u8);
    w.push((v >> 16u32) as u8);
    w.push((v >> 8u32) as u8);
    w.push(v as u8);
    assert(final(w)@ =~= old(w)@ + u32_bytes(v));
}

/// Appends the eight bytes of `v`, most significant first.
pub(crate) fn write_u64(w: &mut Vec<u8>, v: u64)
    ensures
        final(w)@ == old(w)@ + u64_bytes(v),
{
    write_u32(w, (v >> 32u64) as u32);
    write_u32(w, v as u32);
    assert(final(w)@ =~= old(w)@ + u64_bytes(v));
}

/// Appends the bytes of `b`.
pub(crate) fn write_bytes(w: &mut Vec<u8>, b: &[u8])
    ensures
        final(w)@ == old(w)@ + b@,
{
    let mut i: usize = 0;
    let ghost w0 = w@;
    while i < b.len()
        invariant
            0 <= i <= b@.len(),
            w@ == w0 + b@.subrange(0, i as int),
        decreases b@.len() - i,
    {
        w.push(b[i]);
        i += 1;
        assert(w@ =~= w0 + b@.subrange(0, i as int));
    }
    assert(b@.subrange(0, b@.len() as int) =~= b@);
}

/// Reads a name at `pos`: a length field holding the byte length plus one
/// (zero is refused), then that many UTF-8 bytes.
pub fn read_buf_str(buf: &[u8], pos: usize) -> (r: Result<(String, usize), PackError>)
    requires
        pos <= buf@.len(),
    ensures
        match r {
            Ok((s, p)) => spec_read_name(buf@, pos as int) == Ok::<(Seq<char>, int), PackError>((s@, p as int)),
            Err(e) => spec_read_name(buf@, pos as int) == Err::<(Seq<char>, int), PackError>(e),
        },
{
    let (num, p) = read_u32(buf, pos)?;
    if num == 0 {
        return Err(PackError::IoError);
    }
    let n = (num - 1) as usize;
    if buf.len() - p < n {
        return Err(PackError::IoError);
    }
    let bytes = slice_to_vec(slice_subrange(buf, p, p + n));
    match string_from_utf8(bytes) {
        Some(s) => Ok((s, p + n)),
        None => Err(PackError::IoError),
    }
}

/// Appends a name: its byte length plus one, then its UTF-8 bytes. A name
/// whose length field would not fit in 32 bits is refused with `SizeOver`,
/// and nothing is written.
pub fn write_buf_str(w: &mut Vec<u8>, s: &str) -> (r: Result<(), PackError>)
    ensures
        name_fits(s@) ==> r is Ok && final(w)@ == old(w)@ + name_bytes(s@),
        !name_fits(s@) ==> r == Err::<(), PackError>(PackError::SizeOver) && final(w)@ == old(w)@,
{
    let b = s.as_bytes();
    if b.len() >= 0xFFFF_FFFFusize {
        return Err(PackError::SizeOver);
    }
    let num = (b.len() + 1) as u32;
    write_u32(w, num);
    write_bytes(w, b);
    assert(final(w)@ =~= old(w)@ + name_bytes(s@));
    Ok(())
}

} // verus!
