//! Reading and writing of binary fields.
//!
//! A reader is specified as a function from the bytes that are left to the
//! field and the bytes behind it, `None` where the field does not fit.

use crate::outside::{text_from_utf8, utf8_failure};
use crate::text::{decimal, decimal_text, join2, join3};
use crate::types::{storage_error, ErrorKind, XtableError};
use vstd::bytes::*;
use vstd::prelude::*;
use vstd::slice::*;
use vstd::utf8::*;

verus! {

/// A field of `n` bytes.
pub open spec fn p_bytes(s: Seq<u8>, n: nat) -> Option<(Seq<u8>, Seq<u8>)> {
    if n <= s.len() {
        Some((s.take(n as int), s.skip(n as int)))
    } else {
        None
    }
}

/// A field of one byte.
pub open spec fn p_u8(s: Seq<u8>) -> Option<(u8, Seq<u8>)> {
    if s.len() >= 1 {
        Some((s[0], s.skip(1)))
    } else {
        None
    }
}

/// A little-endian 16-bit number.
pub open spec fn p_u16(s: Seq<u8>) -> Option<(u16, Seq<u8>)> {
    match p_bytes(s, 2) {
        Some((b, rest)) => Some((spec_u16_from_le_bytes(b), rest)),
        None => None,
    }
}

/// A little-endian 32-bit number.
pub open spec fn p_u32(s: Seq<u8>) -> Option<(u32, Seq<u8>)> {
    match p_bytes(s, 4) {
        Some((b, rest)) => Some((spec_u32_from_le_bytes(b), rest)),
        None => None,
    }
}

/// A little-endian 64-bit number.
pub open spec fn p_u64(s: Seq<u8>) -> Option<(u64, Seq<u8>)> {
    match p_bytes(s, 8) {
        Some((b, rest)) => Some((spec_u64_from_le_bytes(b), rest)),
        None => None,
    }
}

/// A text of `n` bytes of UTF-8.
pub open spec fn p_text(s: Seq<u8>, n: nat) -> Option<(Seq<char>, Seq<u8>)> {
    match p_bytes(s, n) {
        Some((b, rest)) => if valid_utf8(b) {
            Some((decode_utf8(b), rest))
        } else {
            None
        },
        None => None,
    }
}

pub proof fn lemma_p_bytes(b: Seq<u8>, rest: Seq<u8>)
    ensures
        p_bytes(b + rest, b.len()) == Some((b, rest)),
{
    assert((b + rest).take(b.len() as int) =~= b);
    assert((b + rest).skip(b.len() as int) =~= rest);
}

pub proof fn lemma_p_u8(x: u8, rest: Seq<u8>)
    ensures
        p_u8(seq![x] + rest) == Some((x, rest)),
{
    assert((seq![x] + rest).skip(1) =~= rest);
}

pub proof fn lemma_p_u16(x: u16, rest: Seq<u8>)
    ensures
        p_u16(spec_u16_to_le_bytes(x) + rest) == Some((x, rest)),
{
    lemma_auto_spec_u16_to_from_le_bytes();
    lemma_p_bytes(spec_u16_to_le_bytes(x), rest);
}

pub proof fn lemma_p_u32(x: u32, rest: Seq<u8>)
    ensures
        p_u32(spec_u32_to_le_bytes(x) + rest) == Some((x, rest)),
{
    lemma_auto_spec_u32_to_from_le_bytes();
    lemma_p_bytes(spec_u32_to_le_bytes(x), rest);
}

pub proof fn lemma_p_u64(x: u64, rest: Seq<u8>)
    ensures
        p_u64(spec_u64_to_le_bytes(x) + rest) == Some((x, rest)),
{
    lemma_auto_spec_u64_to_from_le_bytes();
    lemma_p_bytes(spec_u64_to_le_bytes(x), rest);
}

pub proof fn lemma_p_text(t: Seq<char>, rest: Seq<u8>)
    ensures
        p_text(encode_utf8(t) + rest, encode_utf8(t).len()) == Some((t, rest)),
{
    lemma_p_bytes(encode_utf8(t), rest);
    encode_utf8_valid_utf8(t);
    encode_utf8_decode_utf8(t);
}

/// Bytes behind what is read change no field of `n` bytes.
pub proof fn lemma_p_bytes_extend(s: Seq<u8>, n: nat, t: Seq<u8>)
    requires
        n <= s.len(),
    ensures
        p_bytes(s + t, n) == Some((s.take(n as int), s.skip(n as int) + t)),
{
    assert((s + t).take(n as int) =~= s.take(n as int));
    assert((s + t).skip(n as int) =~= s.skip(n as int) + t);
}

/// The error of a field that does not fit.
pub open spec fn truncated_error(need: nat, offset: nat, have: nat) -> (ErrorKind, Seq<char>) {
    (
        ErrorKind::Storage,
        "chunk: truncated, need "@ + decimal(need) + " bytes at offset "@ + decimal(offset)
            + ", have "@ + decimal(have),
    )
}

/// Text of the error of a field of `n` bytes that does not fit. `s` is what is
/// left of `total` bytes.
pub open spec fn f_bytes(s: Seq<u8>, n: nat, total: nat) -> Seq<char> {
    truncated_error(n, (total - s.len()) as nat, total).1
}

/// Text of the error of a text of `n` bytes: it does not fit, or is no UTF-8.
pub open spec fn f_text(s: Seq<u8>, n: nat, field: Seq<char>, total: nat) -> Seq<char> {
    if n <= s.len() {
        field + utf8_failure(s.take(n as int))
    } else {
        f_bytes(s, n, total)
    }
}

/// The error of a field that does not fit.
pub(crate) fn truncated(need: usize, offset: usize, have: usize) -> (r: XtableError)
    ensures
        r@ == truncated_error(need as nat, offset as nat, have as nat),
{
    let n = decimal_text(need as u64);
    let o = decimal_text(offset as u64);
    let h = decimal_text(have as u64);
    let a = join3("chunk: truncated, need ", n.as_str(), " bytes at offset ");
    let b = join3(a.as_str(), o.as_str(), ", have ");
    XtableError::Storage(join2(b.as_str(), h.as_str()))
}

/// Reads `n` bytes at `pos`.
pub fn read_bytes(buf: &[u8], pos: usize, n: usize) -> (r: Result<(Vec<u8>, usize), XtableError>)
    ensures
        match r {
            Ok((v, next)) => pos <= next <= buf@.len() && p_bytes(
                buf@.skip(pos as int),
                n as nat,
            ) == Some((v@, buf@.skip(next as int))),
            Err(e) => e@ == truncated_error(n as nat, pos as nat, buf@.len()) && (pos <= buf@.len()
                ==> p_bytes(buf@.skip(pos as int), n as nat) is None),
        },
{
    if pos > buf.len() || n > buf.len() - pos {
        return Err(truncated(n, pos, buf.len()));
    }
    let part = slice_subrange(buf, pos, pos + n);
    let v = slice_to_vec(part);
    proof {
        assert(buf@.skip(pos as int).take(n as int) =~= v@);
        assert(buf@.skip(pos as int).skip(n as int) =~= buf@.skip(pos + n));
    }
    Ok((v, pos + n))
}

/// Reads one byte at `pos`.
pub fn read_u8(buf: &[u8], pos: usize) -> (r: Result<(u8, usize), XtableError>)
    ensures
        match r {
            Ok((v, next)) => pos < next <= buf@.len() && p_u8(buf@.skip(pos as int)) == Some(
                (v, buf@.skip(next as int)),
            ),
            Err(e) => e@ == truncated_error(1, pos as nat, buf@.len()) && (pos <= buf@.len() ==> p_u8(
                buf@.skip(pos as int),
            ) is None),
        },
{
    if pos >= buf.len() {
        return Err(truncated(1, pos, buf.len()));
    }
    proof {
        assert(buf@.skip(pos as int).skip(1) =~= buf@.skip(pos + 1));
    }
    Ok((buf[pos], pos + 1))
}

/// Reads a 16-bit number at `pos`.
pub fn read_u16(buf: &[u8], pos: usize) -> (r: Result<(u16, usize), XtableError>)
    ensures
        match r {
            Ok((v, next)) => pos < next <= buf@.len() && p_u16(buf@.skip(pos as int)) == Some(
                (v, buf@.skip(next as int)),
            ),
            Err(e) => e@ == truncated_error(2, pos as nat, buf@.len()) && (pos <= buf@.len() ==> p_u16(
                buf@.skip(pos as int),
            ) is None),
        },
{
    if pos > buf.len() || buf.len() - pos < 2 {
        return Err(truncated(2, pos, buf.len()));
    }
    let part = slice_subrange(buf, pos, pos + 2);
    proof {
        assert(buf@.skip(pos as int).take(2) =~= part@);
        assert(buf@.skip(pos as int).skip(2) =~= buf@.skip(pos + 2));
    }
    Ok((u16_from_le_bytes(part), pos + 2))
}

/// Reads a 32-bit number at `pos`.
pub fn read_u32(buf: &[u8], pos: usize) -> (r: Result<(u32, usize), XtableError>)
    ensures
        match r {
            Ok((v, next)) => pos < next <= buf@.len() && p_u32(buf@.skip(pos as int)) == Some(
                (v, buf@.skip(next as int)),
            ),
            Err(e) => e@ == truncated_error(4, pos as nat, buf@.len()) && (pos <= buf@.len() ==> p_u32(
                buf@.skip(pos as int),
            ) is None),
        },
{
    if pos > buf.len() || buf.len() - pos < 4 {
        return Err(truncated(4, pos, buf.len()));
    }
    let part = slice_subrange(buf, pos, pos + 4);
    proof {
        assert(buf@.skip(pos as int).take(4) =~= part@);
        assert(buf@.skip(pos as int).skip(4) =~= buf@.skip(pos + 4));
    }
    Ok((u32_from_le_bytes(part), pos + 4))
}

/// Reads a 64-bit number at `pos`.
pub fn read_u64(buf: &[u8], pos: usize) -> (r: Result<(u64, usize), XtableError>)
    ensures
        match r {
            Ok((v, next)) => pos < next <= buf@.len() && p_u64(buf@.skip(pos as int)) == Some(
                (v, buf@.skip(next as int)),
            ),
            Err(e) => e@ == truncated_error(8, pos as nat, buf@.len()) && (pos <= buf@.len() ==> p_u64(
                buf@.skip(pos as int),
            ) is None),
        },
{
    if pos > buf.len() || buf.len() - pos < 8 {
        return Err(truncated(8, pos, buf.len()));
    }
    let part = slice_subrange(buf, pos, pos + 8);
    proof {
        assert(buf@.skip(pos as int).take(8) =~= part@);
        assert(buf@.skip(pos as int).skip(8) =~= buf@.skip(pos + 8));
    }
    Ok((u64_from_le_bytes(part), pos + 8))
}

/// The text that `bytes` encode; the error names the field.
pub fn decode_text(bytes: &[u8], field: &str) -> (r: Result<String, XtableError>)
    ensures
        match r {
            Ok(t) => valid_utf8(bytes@) && t@ == decode_utf8(bytes@),
            Err(e) => !valid_utf8(bytes@) && e@ == (
                ErrorKind::Storage,
                field@ + utf8_failure(bytes@),
            ),
        },
{
    match text_from_utf8(bytes) {
        Ok(t) => {
            proof {
                encode_utf8_decode_utf8(t@);
            }
            Ok(t)
        },
        Err(m) => Err(storage_error(field, m.as_str())),
    }
}

/// Reads a text of `n` bytes at `pos`; the error names the field.
pub fn read_text(buf: &[u8], pos: usize, n: usize, field: &str) -> (r: Result<
    (String, usize),
    XtableError,
>)
    ensures
        match r {
            Ok((t, next)) => pos <= next <= buf@.len() && p_text(
                buf@.skip(pos as int),
                n as nat,
            ) == Some((t@, buf@.skip(next as int))),
            Err(e) => if pos <= buf@.len() {
                &&& p_text(buf@.skip(pos as int), n as nat) is None
                &&& e@ == (
                    ErrorKind::Storage,
                    f_text(buf@.skip(pos as int), n as nat, field@, buf@.len()),
                )
            } else {
                e@ == truncated_error(n as nat, pos as nat, buf@.len())
            },
        },
{
    match read_bytes(buf, pos, n) {
        Ok((b, next)) => match decode_text(b.as_slice(), field) {
            Ok(t) => Ok((t, next)),
            Err(e) => Err(e),
        },
        Err(e) => Err(e),
    }
}

/// Appends bytes.
pub fn put_bytes(buf: &mut Vec<u8>, bytes: &[u8])
    ensures
        final(buf)@ == old(buf)@ + bytes@,
{
    let ghost before = buf@;
    buf.extend_from_slice(bytes);
    assert(buf@ =~= before + bytes@);
}

/// Appends one byte.
pub fn put_u8(buf: &mut Vec<u8>, x: u8)
    ensures
        final(buf)@ == old(buf)@ + seq![x],
{
    let ghost before = buf@;
    buf.push(x);
    assert(buf@ =~= before + seq![x]);
}

/// Appends a 16-bit number.
pub fn put_u16(buf: &mut Vec<u8>, x: u16)
    ensures
        final(buf)@ == old(buf)@ + spec_u16_to_le_bytes(x),
{
    put_bytes(buf, u16_to_le_bytes(x).as_slice());
}

/// Appends a 32-bit number.
pub fn put_u32(buf: &mut Vec<u8>, x: u32)
    ensures
        final(buf)@ == old(buf)@ + spec_u32_to_le_bytes(x),
{
    put_bytes(buf, u32_to_le_bytes(x).as_slice());
}

/// Appends a 64-bit number.
pub fn put_u64(buf: &mut Vec<u8>, x: u64)
    ensures
        final(buf)@ == old(buf)@ + spec_u64_to_le_bytes(x),
{
    put_bytes(buf, u64_to_le_bytes(x).as_slice());
}

} // verus!
