//! The byte-level wire format.
//!
//! Every message crossing a connection is encoded by this module's writers
//! and read back by its readers. Each value kind has a specification-level
//! encoder (`enc_*`), a specification-level decoder (`dec_*_at`, which
//! yields the decoded value and the number of bytes consumed), executable
//! counterparts proved to match them, and a round-trip lemma: decoding an
//! encoding, followed by arbitrary trailing bytes, yields the encoded value.
//!
//! Integers travel little-endian; signed coordinates are biased into the
//! unsigned range; variable-length data is length-prefixed.

use vstd::prelude::*;

use crate::frame::DrawItem;
use crate::frame::Frame;
use crate::frame::FrameView;
use crate::frame::ItemView;
use crate::frame::PlatformOutput;
use crate::frame::PlatformView;
use crate::frame::Point;
use crate::frame::Rect;
use crate::frame::ShapeData;
use crate::frame::ShapeView;
use crate::frame::TextJob;
use crate::frame::TextJobView;

use crate::delta_encoding::PartialUpdate;
use crate::delta_encoding::PartialView;
use crate::delta_encoding::UpdateData;
use crate::delta_encoding::UpdateView;
use crate::delta_encoding::ops_view;

verus! {

/// Failure of a wire-level read: the bytes do not hold a value of the
/// expected kind. Decoding failures are fatal to the connection that
/// produced them; no partial recovery is attempted.
#[derive(Clone, Copy, PartialEq, Eq, Structural, Debug)]
pub enum WireError {
    /// The input ended before the value did, or a length prefix exceeds it.
    Truncated,
    /// A tag byte names no variant, or a length does not fit this machine.
    Malformed,
}

/// Specification encoding of a `u32`, little-endian.
pub open spec fn enc_u32(x: u32) -> Seq<u8> {
    seq![
        (x & 0xff) as u8,
        ((x >> 8) & 0xff) as u8,
        ((x >> 16) & 0xff) as u8,
        ((x >> 24) & 0xff) as u8,
    ]
}

/// Specification decoding of a `u32` from the front of `s`.
pub open spec fn dec_u32_at(s: Seq<u8>) -> Option<(u32, int)> {
    if s.len() >= 4 {
        Some(
            (
                (s[0] as u32) | ((s[1] as u32) << 8) | ((s[2] as u32) << 16) | (
                (s[3] as u32) << 24),
                4,
            ),
        )
    } else {
        None
    }
}

/// Decoding inverts encoding for `u32`.
pub proof fn lemma_u32_round_trip(x: u32, rest: Seq<u8>)
    ensures
        dec_u32_at(enc_u32(x) + rest) == Some((x, 4int)),
{
    let s = enc_u32(x) + rest;
    assert(s[0] == (x & 0xff) as u8);
    assert(s[1] == ((x >> 8) & 0xff) as u8);
    assert(s[2] == ((x >> 16) & 0xff) as u8);
    assert(s[3] == ((x >> 24) & 0xff) as u8);
    assert((((x & 0xff) as u8) as u32) | (((((x >> 8) & 0xff) as u8) as u32) << 8) | (((((x >> 16)
        & 0xff) as u8) as u32) << 16) | (((((x >> 24) & 0xff) as u8) as u32) << 24) == x)
        by (bit_vector);
}

/// Writes a `u32` onto `out`, little-endian.
pub fn write_u32(out: &mut Vec<u8>, x: u32)
    ensures
        final(out)@ == old(out)@ + enc_u32(x),
{
    proof {
        assert(x & 0xff < 256 && (x >> 8) & 0xff < 256 && (x >> 16) & 0xff < 256 && (x >> 24)
            & 0xff < 256) by (bit_vector);
    }
    out.push((x & 0xff) as u8);
    out.push(((x >> 8) & 0xff) as u8);
    out.push(((x >> 16) & 0xff) as u8);
    out.push(((x >> 24) & 0xff) as u8);
    proof {
        assert(final(out)@ =~= old(out)@ + enc_u32(x));
    }
}

/// Reads a `u32` at `*pos`, advancing `*pos` past it on success.
pub fn read_u32(bytes: &Vec<u8>, pos: &mut usize) -> (r: Result<u32, WireError>)
    requires
        *old(pos) <= bytes@.len(),
    ensures
        match r {
            Ok(v) => {
                &&& dec_u32_at(bytes@.skip(*old(pos) as int)) == Some((v, 4int))
                &&& *final(pos) == *old(pos) + 4
            },
            Err(_) => {
                &&& dec_u32_at(bytes@.skip(*old(pos) as int)) is None
                &&& *final(pos) == *old(pos)
            },
        },
        *final(pos) <= bytes@.len(),
        *old(pos) <= *final(pos),
{
    if bytes.len() - *pos >= 4 {
        let b0 = bytes[*pos] as u32;
        let b1 = bytes[*pos + 1] as u32;
        let b2 = bytes[*pos + 2] as u32;
        let b3 = bytes[*pos + 3] as u32;
        let v = b0 | (b1 << 8) | (b2 << 16) | (b3 << 24);
        *pos = *pos + 4;
        Ok(v)
    } else {
        Err(WireError::Truncated)
    }
}

/// Specification encoding of a `u64`, little-endian.
pub open spec fn enc_u64(x: u64) -> Seq<u8> {
    seq![
        (x & 0xff) as u8,
        ((x >> 8) & 0xff) as u8,
        ((x >> 16) & 0xff) as u8,
        ((x >> 24) & 0xff) as u8,
        ((x >> 32) & 0xff) as u8,
        ((x >> 40) & 0xff) as u8,
        ((x >> 48) & 0xff) as u8,
        ((x >> 56) & 0xff) as u8,
    ]
}

/// Specification decoding of a `u64` from the front of `s`.
pub open spec fn dec_u64_at(s: Seq<u8>) -> Option<(u64, int)> {
    if s.len() >= 8 {
        Some(
            (
                (s[0] as u64) | ((s[1] as u64) << 8) | ((s[2] as u64) << 16) | ((s[3] as u64) << 24)
                    | ((s[4] as u64) << 32) | ((s[5] as u64) << 40) | ((s[6] as u64) << 48) | (
                (s[7] as u64) << 56),
                8,
            ),
        )
    } else {
        None
    }
}

/// Decoding inverts encoding for `u64`.
pub proof fn lemma_u64_round_trip(x: u64, rest: Seq<u8>)
    ensures
        dec_u64_at(enc_u64(x) + rest) == Some((x, 8int)),
{
    let s = enc_u64(x) + rest;
    assert(s[0] == (x & 0xff) as u8);
    assert(s[1] == ((x >> 8) & 0xff) as u8);
    assert(s[2] == ((x >> 16) & 0xff) as u8);
    assert(s[3] == ((x >> 24) & 0xff) as u8);
    assert(s[4] == ((x >> 32) & 0xff) as u8);
    assert(s[5] == ((x >> 40) & 0xff) as u8);
    assert(s[6] == ((x >> 48) & 0xff) as u8);
    assert(s[7] == ((x >> 56) & 0xff) as u8);
    assert((((x & 0xff) as u8) as u64) | (((((x >> 8) & 0xff) as u8) as u64) << 8) | (((((x >> 16)
        & 0xff) as u8) as u64) << 16) | (((((x >> 24) & 0xff) as u8) as u64) << 24) | (((((x >> 32)
        & 0xff) as u8) as u64) << 32) | (((((x >> 40) & 0xff) as u8) as u64) << 40) | (((((x >> 48)
        & 0xff) as u8) as u64) << 48) | (((((x >> 56) & 0xff) as u8) as u64) << 56) == x)
        by (bit_vector);
}

/// Writes a `u64` onto `out`, little-endian.
pub fn write_u64(out: &mut Vec<u8>, x: u64)
    ensures
        final(out)@ == old(out)@ + enc_u64(x),
{
    proof {
        assert(x & 0xff < 256 && (x >> 8) & 0xff < 256 && (x >> 16) & 0xff < 256 && (x >> 24)
            & 0xff < 256 && (x >> 32) & 0xff < 256 && (x >> 40) & 0xff < 256 && (x >> 48) & 0xff
            < 256 && (x >> 56) & 0xff < 256) by (bit_vector);
    }
    out.push((x & 0xff) as u8);
    out.push(((x >> 8) & 0xff) as u8);
    out.push(((x >> 16) & 0xff) as u8);
    out.push(((x >> 24) & 0xff) as u8);
    out.push(((x >> 32) & 0xff) as u8);
    out.push(((x >> 40) & 0xff) as u8);
    out.push(((x >> 48) & 0xff) as u8);
    out.push(((x >> 56) & 0xff) as u8);
    proof {
        assert(final(out)@ =~= old(out)@ + enc_u64(x));
    }
}

/// Reads a `u64` at `*pos`, advancing `*pos` past it on success.
pub fn read_u64(bytes: &Vec<u8>, pos: &mut usize) -> (r: Result<u64, WireError>)
    requires
        *old(pos) <= bytes@.len(),
    ensures
        match r {
            Ok(v) => {
                &&& dec_u64_at(bytes@.skip(*old(pos) as int)) == Some((v, 8int))
                &&& *final(pos) == *old(pos) + 8
            },
            Err(_) => {
                &&& dec_u64_at(bytes@.skip(*old(pos) as int)) is None
                &&& *final(pos) == *old(pos)
            },
        },
        *final(pos) <= bytes@.len(),
        *old(pos) <= *final(pos),
{
    if bytes.len() - *pos >= 8 {
        let b0 = bytes[*pos] as u64;
        let b1 = bytes[*pos + 1] as u64;
        let b2 = bytes[*pos + 2] as u64;
        let b3 = bytes[*pos + 3] as u64;
        let b4 = bytes[*pos + 4] as u64;
        let b5 = bytes[*pos + 5] as u64;
        let b6 = bytes[*pos + 6] as u64;
        let b7 = bytes[*pos + 7] as u64;
        let v = b0 | (b1 << 8) | (b2 << 16) | (b3 << 24) | (b4 << 32) | (b5 << 40) | (b6 << 48) | (
        b7 << 56);
        *pos = *pos + 8;
        Ok(v)
    } else {
        Err(WireError::Truncated)
    }
}

/// The bias that maps an `i32` into the unsigned range for transport.
pub open spec fn bias_i32(x: i32) -> u32 {
    (x as int + 0x8000_0000) as u32
}

/// The inverse of [`bias_i32`].
pub open spec fn unbias_u32(v: u32) -> i32 {
    (v as int - 0x8000_0000) as i32
}

/// Specification encoding of an `i32`: its biased form, little-endian.
pub open spec fn enc_i32(x: i32) -> Seq<u8> {
    enc_u32(bias_i32(x))
}

/// Specification decoding of an `i32` from the front of `s`.
pub open spec fn dec_i32_at(s: Seq<u8>) -> Option<(i32, int)> {
    match dec_u32_at(s) {
        Some((v, n)) => Some((unbias_u32(v), n)),
        None => None,
    }
}

/// Decoding inverts encoding for `i32`.
pub proof fn lemma_i32_round_trip(x: i32, rest: Seq<u8>)
    ensures
        dec_i32_at(enc_i32(x) + rest) == Some((x, 4int)),
{
    lemma_u32_round_trip(bias_i32(x), rest);
}

/// Writes an `i32` onto `out` in biased form.
pub fn write_i32(out: &mut Vec<u8>, x: i32)
    ensures
        final(out)@ == old(out)@ + enc_i32(x),
{
    let biased: u32 = ((x as i64) + 0x8000_0000i64) as u32;
    write_u32(out, biased);
}

/// Reads an `i32` at `*pos`, advancing `*pos` past it on success.
pub fn read_i32(bytes: &Vec<u8>, pos: &mut usize) -> (r: Result<i32, WireError>)
    requires
        *old(pos) <= bytes@.len(),
    ensures
        match r {
            Ok(v) => {
                &&& dec_i32_at(bytes@.skip(*old(pos) as int)) == Some((v, 4int))
                &&& *final(pos) == *old(pos) + 4
            },
            Err(_) => {
                &&& dec_i32_at(bytes@.skip(*old(pos) as int)) is None
                &&& *final(pos) == *old(pos)
            },
        },
        *final(pos) <= bytes@.len(),
        *old(pos) <= *final(pos),
{
    match read_u32(bytes, pos) {
        Ok(v) => Ok(((v as i64) - 0x8000_0000i64) as i32),
        Err(e) => Err(e),
    }
}

/// Specification encoding of a byte string: a length prefix, then the bytes.
pub open spec fn enc_byte_seq(s: Seq<u8>) -> Seq<u8> {
    enc_u64(s.len() as u64) + s
}

/// Specification decoding of a byte string from the front of `s`.
pub open spec fn dec_byte_seq_at(s: Seq<u8>) -> Option<(Seq<u8>, int)> {
    match dec_u64_at(s) {
        Some((n, _)) => if n <= usize::MAX as u64 && s.len() >= 8 + n {
            Some((s.subrange(8, 8 + n as int), 8 + n as int))
        } else {
            None
        },
        None => None,
    }
}

/// Decoding inverts encoding for byte strings.
pub proof fn lemma_byte_seq_round_trip(s: Seq<u8>, rest: Seq<u8>)
    requires
        s.len() <= usize::MAX,
    ensures
        dec_byte_seq_at(enc_byte_seq(s) + rest) == Some((s, enc_byte_seq(s).len() as int)),
{
    let whole = enc_byte_seq(s) + rest;
    assert(whole =~= enc_u64(s.len() as u64) + (s + rest));
    lemma_u64_round_trip(s.len() as u64, s + rest);
    assert(whole.subrange(8, 8 + s.len() as int) =~= s);
}

/// Writes a length-prefixed byte string onto `out`.
pub fn write_byte_seq(out: &mut Vec<u8>, v: &Vec<u8>)
    ensures
        final(out)@ == old(out)@ + enc_byte_seq(v@),
{
    write_u64(out, v.len() as u64);
    let mut i: usize = 0;
    while i < v.len()
        invariant
            i <= v.len(),
            out@ == old(out)@ + enc_u64(v@.len() as u64) + v@.subrange(0, i as int),
        decreases v.len() - i,
    {
        out.push(v[i]);
        i += 1;
        proof {
            assert(out@ =~= old(out)@ + enc_u64(v@.len() as u64) + v@.subrange(0, i as int));
        }
    }
    proof {
        assert(out@ =~= old(out)@ + enc_byte_seq(v@));
    }
}

/// Reads a length-prefixed byte string at `*pos`, advancing `*pos` past it
/// on success.
pub fn read_byte_seq(bytes: &Vec<u8>, pos: &mut usize) -> (r: Result<Vec<u8>, WireError>)
    requires
        *old(pos) <= bytes@.len(),
    ensures
        match r {
            Ok(v) => {
                &&& dec_byte_seq_at(bytes@.skip(*old(pos) as int)) matches Some((d, n)) && d == v@
                    && *final(pos) == *old(pos) + n
            },
            Err(_) => {
                &&& dec_byte_seq_at(bytes@.skip(*old(pos) as int)) is None
                &&& *final(pos) == *old(pos)
            },
        },
        *final(pos) <= bytes@.len(),
        *old(pos) <= *final(pos),
{
    let start: usize = *pos;
    let n = match read_u64(bytes, pos) {
        Ok(n) => n,
        Err(e) => {
            return Err(e);
        },
    };
    if n > usize::MAX as u64 {
        *pos = start;
        return Err(WireError::Malformed);
    }
    let len = n as usize;
    if bytes.len() - *pos < len {
        *pos = start;
        return Err(WireError::Truncated);
    }
    let base: usize = *pos;
    let mut out: Vec<u8> = Vec::new();
    let mut i: usize = 0;
    while i < len
        invariant
            i <= len,
            base + len <= bytes@.len(),
            base + len <= usize::MAX,
            out@ == bytes@.subrange(base as int, base + i as int),
        decreases len - i,
    {
        out.push(bytes[base + i]);
        i += 1;
        proof {
            assert(out@ =~= bytes@.subrange(base as int, base + i as int));
        }
    }
    proof {
        let s = bytes@.skip(start as int);
        assert(dec_u64_at(s) == Some((n, 8int)));
        assert(s.subrange(8, 8 + n as int) =~= bytes@.subrange(start + 8, start + 8 + n as int));
    }
    *pos = base + len;
    Ok(out)
}

/// Skipping twice is skipping the summed amount.
pub proof fn lemma_skip_twice<A>(s: Seq<A>, a: int, b: int)
    requires
        0 <= a,
        0 <= b,
        a + b <= s.len(),
    ensures
        s.skip(a).skip(b) == s.skip(a + b),
{
    assert(s.skip(a).skip(b) =~= s.skip(a + b));
}

/// Concatenation is associative.
pub proof fn lemma_add_assoc<A>(a: Seq<A>, b: Seq<A>, c: Seq<A>)
    ensures
        (a + b) + c == a + (b + c),
{
    assert((a + b) + c =~= a + (b + c));
}

/// Skipping a leading concatenand leaves the rest.
pub proof fn lemma_skip_concat<A>(a: Seq<A>, b: Seq<A>)
    ensures
        (a + b).skip(a.len() as int) == b,
{
    assert((a + b).skip(a.len() as int) =~= b);
}

/// Specification encoding of a [`Point`]: both coordinates, biased.
pub open spec fn enc_point(p: Point) -> Seq<u8> {
    enc_i32(p.x) + enc_i32(p.y)
}

/// Specification decoding of a [`Point`] from the front of `s`.
pub open spec fn dec_point_at(s: Seq<u8>) -> Option<(Point, int)> {
    match dec_i32_at(s) {
        Some((x, n1)) => match dec_i32_at(s.skip(n1)) {
            Some((y, n2)) => Some((Point { x, y }, n1 + n2)),
            None => None,
        },
        None => None,
    }
}

/// Decoding inverts encoding for [`Point`].
pub proof fn lemma_point_round_trip(p: Point, rest: Seq<u8>)
    ensures
        dec_point_at(enc_point(p) + rest) == Some((p, enc_point(p).len() as int)),
{
    let whole = enc_point(p) + rest;
    assert(whole =~= enc_i32(p.x) + (enc_i32(p.y) + rest));
    lemma_i32_round_trip(p.x, enc_i32(p.y) + rest);
    assert(whole.skip(4) =~= enc_i32(p.y) + rest);
    lemma_i32_round_trip(p.y, rest);
}

/// Writes a [`Point`] onto `out`.
pub fn write_point(out: &mut Vec<u8>, p: Point)
    ensures
        final(out)@ == old(out)@ + enc_point(p),
{
    write_i32(out, p.x);
    write_i32(out, p.y);
    proof {
        assert(final(out)@ =~= old(out)@ + enc_point(p));
    }
}

/// Reads a [`Point`] at `*pos`, advancing `*pos` past it on success.
pub fn read_point(bytes: &Vec<u8>, pos: &mut usize) -> (r: Result<Point, WireError>)
    requires
        *old(pos) <= bytes@.len(),
    ensures
        match r {
            Ok(v) => {
                &&& dec_point_at(bytes@.skip(*old(pos) as int)) matches Some((d, n)) && d == v
                    && *final(pos) == *old(pos) + n
            },
            Err(_) => {
                &&& dec_point_at(bytes@.skip(*old(pos) as int)) is None
                &&& *final(pos) == *old(pos)
            },
        },
        *final(pos) <= bytes@.len(),
        *old(pos) <= *final(pos),
{
    let start: usize = *pos;
    let x = match read_i32(bytes, pos) {
        Ok(x) => x,
        Err(e) => {
            return Err(e);
        },
    };
    let y = match read_i32(bytes, pos) {
        Ok(y) => y,
        Err(e) => {
            *pos = start;
            proof {
                assert(bytes@.skip(start as int).skip(4) =~= bytes@.skip(start + 4));
            }
            return Err(e);
        },
    };
    proof {
        assert(bytes@.skip(start as int).skip(4) =~= bytes@.skip(start + 4));
    }
    Ok(Point { x, y })
}

/// Specification encoding of a [`Rect`]: the four bounds, biased.
pub open spec fn enc_rect(rc: Rect) -> Seq<u8> {
    enc_i32(rc.min_x) + enc_i32(rc.min_y) + enc_i32(rc.max_x) + enc_i32(rc.max_y)
}

/// Specification decoding of a [`Rect`] from the front of `s`.
pub open spec fn dec_rect_at(s: Seq<u8>) -> Option<(Rect, int)> {
    if s.len() >= 16 {
        match (dec_i32_at(s), dec_i32_at(s.skip(4)), dec_i32_at(s.skip(8)), dec_i32_at(s.skip(12))) {
            (Some((a, _)), Some((b, _)), Some((c, _)), Some((d, _))) => Some(
                (Rect { min_x: a, min_y: b, max_x: c, max_y: d }, 16),
            ),
            _ => None,
        }
    } else {
        None
    }
}

/// Decoding inverts encoding for [`Rect`].
pub proof fn lemma_rect_round_trip(rc: Rect, rest: Seq<u8>)
    ensures
        dec_rect_at(enc_rect(rc) + rest) == Some((rc, 16int)),
{
    let whole = enc_rect(rc) + rest;
    assert(whole =~= enc_i32(rc.min_x) + (enc_i32(rc.min_y) + (enc_i32(rc.max_x) + (enc_i32(
        rc.max_y,
    ) + rest))));
    lemma_i32_round_trip(rc.min_x, enc_i32(rc.min_y) + (enc_i32(rc.max_x) + (enc_i32(rc.max_y)
        + rest)));
    assert(whole.skip(4) =~= enc_i32(rc.min_y) + (enc_i32(rc.max_x) + (enc_i32(rc.max_y) + rest)));
    lemma_i32_round_trip(rc.min_y, enc_i32(rc.max_x) + (enc_i32(rc.max_y) + rest));
    assert(whole.skip(8) =~= enc_i32(rc.max_x) + (enc_i32(rc.max_y) + rest));
    lemma_i32_round_trip(rc.max_x, enc_i32(rc.max_y) + rest);
    assert(whole.skip(12) =~= enc_i32(rc.max_y) + rest);
    lemma_i32_round_trip(rc.max_y, rest);
}

/// Writes a [`Rect`] onto `out`.
pub fn write_rect(out: &mut Vec<u8>, rc: Rect)
    ensures
        final(out)@ == old(out)@ + enc_rect(rc),
{
    write_i32(out, rc.min_x);
    write_i32(out, rc.min_y);
    write_i32(out, rc.max_x);
    write_i32(out, rc.max_y);
    proof {
        assert(final(out)@ =~= old(out)@ + enc_rect(rc));
    }
}

/// Reads a [`Rect`] at `*pos`, advancing `*pos` past it on success.
pub fn read_rect(bytes: &Vec<u8>, pos: &mut usize) -> (r: Result<Rect, WireError>)
    requires
        *old(pos) <= bytes@.len(),
    ensures
        match r {
            Ok(v) => {
                &&& dec_rect_at(bytes@.skip(*old(pos) as int)) == Some((v, 16int))
                &&& *final(pos) == *old(pos) + 16
            },
            Err(_) => {
                &&& dec_rect_at(bytes@.skip(*old(pos) as int)) is None
                &&& *final(pos) == *old(pos)
            },
        },
        *final(pos) <= bytes@.len(),
        *old(pos) <= *final(pos),
{
    let start: usize = *pos;
    if bytes.len() - *pos < 16 {
        return Err(WireError::Truncated);
    }
    proof {
        assert(bytes@.skip(start as int).skip(4) =~= bytes@.skip(start + 4));
        assert(bytes@.skip(start as int).skip(8) =~= bytes@.skip(start + 8));
        assert(bytes@.skip(start as int).skip(12) =~= bytes@.skip(start + 12));
    }
    let a = match read_i32(bytes, pos) {
        Ok(v) => v,
        Err(_) => {
            *pos = start;
            return Err(WireError::Truncated);
        },
    };
    let b = match read_i32(bytes, pos) {
        Ok(v) => v,
        Err(_) => {
            *pos = start;
            return Err(WireError::Truncated);
        },
    };
    let c = match read_i32(bytes, pos) {
        Ok(v) => v,
        Err(_) => {
            *pos = start;
            return Err(WireError::Truncated);
        },
    };
    let d = match read_i32(bytes, pos) {
        Ok(v) => v,
        Err(_) => {
            *pos = start;
            return Err(WireError::Truncated);
        },
    };
    Ok(Rect { min_x: a, min_y: b, max_x: c, max_y: d })
}

/// Specification encoding of a [`TextJob`]: text, style, wrap width.
pub open spec fn enc_job(j: TextJobView) -> Seq<u8> {
    enc_byte_seq(j.text) + enc_u32(j.style) + enc_u32(j.wrap_width)
}

/// Specification decoding of a [`TextJob`] from the front of `s`.
pub open spec fn dec_job_at(s: Seq<u8>) -> Option<(TextJobView, int)> {
    match dec_byte_seq_at(s) {
        Some((text, n1)) => match dec_u32_at(s.skip(n1)) {
            Some((style, _)) => match dec_u32_at(s.skip(n1 + 4)) {
                Some((wrap_width, _)) => Some((TextJobView { text, style, wrap_width }, n1 + 8)),
                None => None,
            },
            None => None,
        },
        None => None,
    }
}

/// Decoding inverts encoding for [`TextJob`].
pub proof fn lemma_job_round_trip(j: TextJobView, rest: Seq<u8>)
    requires
        j.text.len() <= usize::MAX,
    ensures
        dec_job_at(enc_job(j) + rest) == Some((j, enc_job(j).len() as int)),
{
    let whole = enc_job(j) + rest;
    let tail1 = enc_u32(j.style) + (enc_u32(j.wrap_width) + rest);
    assert(whole =~= enc_byte_seq(j.text) + tail1);
    lemma_byte_seq_round_trip(j.text, tail1);
    let n1 = enc_byte_seq(j.text).len() as int;
    assert(whole.skip(n1) =~= tail1);
    lemma_u32_round_trip(j.style, enc_u32(j.wrap_width) + rest);
    assert(whole.skip(n1 + 4) =~= enc_u32(j.wrap_width) + rest);
    lemma_u32_round_trip(j.wrap_width, rest);
    assert(dec_job_at(whole) == Some((j, n1 + 8)));
}

/// Writes a [`TextJob`] onto `out`.
pub fn write_job(out: &mut Vec<u8>, j: &TextJob)
    ensures
        final(out)@ == old(out)@ + enc_job(j@),
{
    write_byte_seq(out, &j.text);
    write_u32(out, j.style);
    write_u32(out, j.wrap_width);
    proof {
        assert(final(out)@ =~= old(out)@ + enc_job(j@));
    }
}

/// Reads a [`TextJob`] at `*pos`, advancing `*pos` past it on success.
pub fn read_job(bytes: &Vec<u8>, pos: &mut usize) -> (r: Result<TextJob, WireError>)
    requires
        *old(pos) <= bytes@.len(),
    ensures
        match r {
            Ok(v) => {
                &&& dec_job_at(bytes@.skip(*old(pos) as int)) matches Some((d, n)) && d == v@
                    && *final(pos) == *old(pos) + n
            },
            Err(_) => {
                &&& dec_job_at(bytes@.skip(*old(pos) as int)) is None
                &&& *final(pos) == *old(pos)
            },
        },
        *final(pos) <= bytes@.len(),
        *old(pos) <= *final(pos),
{
    let start: usize = *pos;
    let text = match read_byte_seq(bytes, pos) {
        Ok(v) => v,
        Err(e) => {
            return Err(e);
        },
    };
    let ghost n1: int = *pos as int - start as int;
    proof {
        assert(bytes@.skip(start as int).skip(n1) =~= bytes@.skip(start + n1));
    }
    let style = match read_u32(bytes, pos) {
        Ok(v) => v,
        Err(e) => {
            *pos = start;
            return Err(e);
        },
    };
    proof {
        assert(bytes@.skip(start as int).skip(n1 + 4) =~= bytes@.skip(start + n1 + 4));
    }
    let wrap_width = match read_u32(bytes, pos) {
        Ok(v) => v,
        Err(e) => {
            *pos = start;
            return Err(e);
        },
    };
    Ok(TextJob { text, style, wrap_width })
}

/// Specification encoding of a [`ShapeData`]: a tag byte, then the payload.
pub open spec fn enc_shape(sh: ShapeView) -> Seq<u8> {
    match sh {
        ShapeView::Path { points, color } => seq![0u8] + enc_point_seq_with_len(points) + enc_u32(
            color,
        ),
        ShapeView::Text(j) => seq![1u8] + enc_job(j),
        ShapeView::Image { texture, uv } => seq![2u8] + enc_u64(texture) + enc_rect(uv),
    }
}

/// Specification encoding of a point list without its length prefix.
pub open spec fn enc_point_seq(s: Seq<Point>) -> Seq<u8>
    decreases s.len(),
{
    if s.len() == 0 {
        Seq::empty()
    } else {
        enc_point(s[0]) + enc_point_seq(s.skip(1))
    }
}

/// Specification encoding of a point list: a length prefix, then the points.
pub open spec fn enc_point_seq_with_len(s: Seq<Point>) -> Seq<u8> {
    enc_u64(s.len() as u64) + enc_point_seq(s)
}

/// Specification decoding of `count` points from the front of `s`.
pub open spec fn dec_point_seq_at(s: Seq<u8>, count: nat) -> Option<(Seq<Point>, int)>
    decreases count,
{
    if count == 0 {
        Some((Seq::empty(), 0))
    } else {
        match dec_point_at(s) {
            Some((p, n)) => match dec_point_seq_at(s.skip(n), (count - 1) as nat) {
                Some((ps, m)) => Some((seq![p] + ps, n + m)),
                None => None,
            },
            None => None,
        }
    }
}

/// Specification decoding of a length-prefixed point list.
pub open spec fn dec_point_seq_with_len_at(s: Seq<u8>) -> Option<(Seq<Point>, int)> {
    match dec_u64_at(s) {
        Some((count, _)) => if count <= usize::MAX as u64 {
            match dec_point_seq_at(s.skip(8), count as nat) {
                Some((ps, m)) => Some((ps, 8 + m)),
                None => None,
            }
        } else {
            None
        },
        None => None,
    }
}

/// Appending one point extends the encoding by that point's bytes.
pub proof fn lemma_enc_point_seq_push(s: Seq<Point>, p: Point)
    ensures
        enc_point_seq(s.push(p)) == enc_point_seq(s) + enc_point(p),
    decreases s.len(),
{
    let sp = s.push(p);
    if s.len() == 0 {
        assert(sp[0] == p);
        assert(sp.skip(1) =~= Seq::<Point>::empty());
        assert(enc_point_seq(sp.skip(1)) == Seq::<u8>::empty());
        assert(enc_point_seq(sp) == enc_point(p) + enc_point_seq(sp.skip(1)));
        assert(enc_point_seq(s) == Seq::<u8>::empty());
        assert(enc_point_seq(sp) =~= enc_point_seq(s) + enc_point(p));
    } else {
        assert(sp[0] == s[0]);
        assert(sp.skip(1) =~= s.skip(1).push(p));
        lemma_enc_point_seq_push(s.skip(1), p);
        assert(enc_point_seq(sp) == enc_point(s[0]) + enc_point_seq(sp.skip(1)));
        assert(enc_point_seq(sp.skip(1)) == enc_point_seq(s.skip(1)) + enc_point(p));
        assert(enc_point_seq(s) == enc_point(s[0]) + enc_point_seq(s.skip(1)));
        assert(enc_point_seq(sp) =~= enc_point_seq(s) + enc_point(p));
    }
}

/// Decoding inverts encoding for a point list of known count.
pub proof fn lemma_point_seq_round_trip(s: Seq<Point>, rest: Seq<u8>)
    ensures
        dec_point_seq_at(enc_point_seq(s) + rest, s.len() as nat) == Some(
            (s, enc_point_seq(s).len() as int),
        ),
    decreases s.len(),
{
    if s.len() == 0 {
        assert(enc_point_seq(s) + rest =~= rest);
        assert(dec_point_seq_at(rest, 0) == Some((Seq::<Point>::empty(), 0int)));
        assert(s =~= Seq::<Point>::empty());
    } else {
        let whole = enc_point_seq(s) + rest;
        assert(whole =~= enc_point(s[0]) + (enc_point_seq(s.skip(1)) + rest));
        lemma_point_round_trip(s[0], enc_point_seq(s.skip(1)) + rest);
        let n = enc_point(s[0]).len() as int;
        assert(whole.skip(n) =~= enc_point_seq(s.skip(1)) + rest);
        lemma_point_seq_round_trip(s.skip(1), rest);
        assert(seq![s[0]] + s.skip(1) =~= s);
    }
}

/// Decoding inverts encoding for a length-prefixed point list.
pub proof fn lemma_point_seq_with_len_round_trip(s: Seq<Point>, rest: Seq<u8>)
    requires
        s.len() <= usize::MAX,
    ensures
        dec_point_seq_with_len_at(enc_point_seq_with_len(s) + rest) == Some(
            (s, enc_point_seq_with_len(s).len() as int),
        ),
{
    let whole = enc_point_seq_with_len(s) + rest;
    assert(whole =~= enc_u64(s.len() as u64) + (enc_point_seq(s) + rest));
    lemma_u64_round_trip(s.len() as u64, enc_point_seq(s) + rest);
    assert(whole.skip(8) =~= enc_point_seq(s) + rest);
    lemma_point_seq_round_trip(s, rest);
}

/// Writes a length-prefixed point list onto `out`.
pub fn write_point_seq(out: &mut Vec<u8>, ps: &Vec<Point>)
    ensures
        final(out)@ == old(out)@ + enc_point_seq_with_len(ps@),
{
    write_u64(out, ps.len() as u64);
    let mut i: usize = 0;
    while i < ps.len()
        invariant
            i <= ps.len(),
            out@ == old(out)@ + enc_u64(ps@.len() as u64) + enc_point_seq(ps@.subrange(0, i as int)),
        decreases ps.len() - i,
    {
        let ghost prefix = ps@.subrange(0, i as int);
        write_point(out, ps[i]);
        i += 1;
        proof {
            lemma_enc_point_seq_push(prefix, ps@[i - 1]);
            assert(prefix.push(ps@[i - 1]) =~= ps@.subrange(0, i as int));
            assert(out@ =~= old(out)@ + enc_u64(ps@.len() as u64) + enc_point_seq(
                ps@.subrange(0, i as int),
            ));
        }
    }
    proof {
        assert(ps@.subrange(0, ps@.len() as int) =~= ps@);
        assert(out@ =~= old(out)@ + enc_point_seq_with_len(ps@));
    }
}

/// Reads a length-prefixed point list at `*pos`.
pub fn read_point_seq(bytes: &Vec<u8>, pos: &mut usize) -> (r: Result<Vec<Point>, WireError>)
    requires
        *old(pos) <= bytes@.len(),
    ensures
        match r {
            Ok(v) => {
                &&& dec_point_seq_with_len_at(bytes@.skip(*old(pos) as int)) matches Some((d, n))
                    && d == v@ && *final(pos) == *old(pos) + n
            },
            Err(_) => {
                &&& dec_point_seq_with_len_at(bytes@.skip(*old(pos) as int)) is None
                &&& *final(pos) == *old(pos)
            },
        },
        *final(pos) <= bytes@.len(),
        *old(pos) <= *final(pos),
{
    let start: usize = *pos;
    let count64 = match read_u64(bytes, pos) {
        Ok(v) => v,
        Err(e) => {
            return Err(e);
        },
    };
    if count64 > usize::MAX as u64 {
        *pos = start;
        return Err(WireError::Malformed);
    }
    let count = count64 as usize;
    let mut out: Vec<Point> = Vec::new();
    let mut k: usize = 0;
    proof {
        assert(bytes@.skip(start as int).skip(8) =~= bytes@.skip(start + 8));
    }
    while k < count
        invariant
            k <= count,
            *pos <= bytes@.len(),
            out@.len() == k,
            start == *old(pos),
            start <= bytes@.len(),
            dec_u64_at(bytes@.skip(start as int)) == Some((count as u64, 8int)),
            count <= usize::MAX,
            start + 8 <= *pos,
            ({
                match dec_point_seq_at(bytes@.skip(*pos as int), (count - k) as nat) {
                    Some((ps, m)) => dec_point_seq_at(bytes@.skip(start + 8), count as nat)
                        == Some((out@ + ps, (*pos - (start + 8)) + m)),
                    None => dec_point_seq_at(bytes@.skip(start + 8), count as nat) is None,
                }
            }),
        decreases count - k,
    {
        let ghost pos0: usize = *pos;
        let p = match read_point(bytes, pos) {
            Ok(v) => v,
            Err(_) => {
                proof {
                    assert(dec_point_seq_at(bytes@.skip(*pos as int), (count - k) as nat)
                        is None);
                    assert(bytes@.skip(start as int).skip(8) =~= bytes@.skip(start + 8));
                    assert(dec_point_seq_with_len_at(bytes@.skip(start as int)) is None);
                }
                *pos = start;
                return Err(WireError::Truncated);
            },
        };
        out.push(p);
        k += 1;
        proof {
            let n: int = *pos as int - pos0 as int;
            assert(bytes@.skip(pos0 as int).skip(n as int) =~= bytes@.skip(*pos as int));
            match dec_point_seq_at(bytes@.skip(*pos as int), (count - k) as nat) {
                Some((ps, m)) => {
                    assert(dec_point_seq_at(bytes@.skip(pos0 as int), (count - (k - 1)) as nat)
                        == Some((seq![p] + ps, n + m)));
                    assert(out@.drop_last() + (seq![p] + ps) =~= out@ + ps);
                },
                None => {
                    assert(dec_point_seq_at(bytes@.skip(pos0 as int), (count - (k - 1)) as nat)
                        is None);
                },
            }
        }
    }
    proof {
        assert(dec_point_seq_at(bytes@.skip(*pos as int), 0) == Some((Seq::<Point>::empty(), 0int)));
        assert(out@ + Seq::<Point>::empty() =~= out@);
        assert(dec_point_seq_at(bytes@.skip(start + 8), count as nat) == Some(
            (out@, *pos - (start + 8)),
        ));
        assert(bytes@.skip(start as int).skip(8) =~= bytes@.skip(start + 8));
        assert(dec_point_seq_with_len_at(bytes@.skip(start as int)) == Some((out@, *pos - start)));
    }
    Ok(out)
}

/// Specification decoding of a [`ShapeData`] from the front of `s`.
pub open spec fn dec_shape_at(s: Seq<u8>) -> Option<(ShapeView, int)> {
    if s.len() < 1 {
        None
    } else if s[0] == 0u8 {
        match dec_point_seq_with_len_at(s.skip(1)) {
            Some((ps, n1)) => match dec_u32_at(s.skip(1 + n1)) {
                Some((color, _)) => Some((ShapeView::Path { points: ps, color }, 1 + n1 + 4)),
                None => None,
            },
            None => None,
        }
    } else if s[0] == 1u8 {
        match dec_job_at(s.skip(1)) {
            Some((j, n1)) => Some((ShapeView::Text(j), 1 + n1)),
            None => None,
        }
    } else if s[0] == 2u8 {
        match dec_u64_at(s.skip(1)) {
            Some((texture, _)) => match dec_rect_at(s.skip(9)) {
                Some((uv, _)) => Some((ShapeView::Image { texture, uv }, 25)),
                None => None,
            },
            None => None,
        }
    } else {
        None
    }
}

/// Decoding inverts encoding for [`ShapeData`].
#[verifier::rlimit(100)]
pub proof fn lemma_shape_round_trip(sh: ShapeView, rest: Seq<u8>)
    requires
        wf_shape(sh),
    ensures
        dec_shape_at(enc_shape(sh) + rest) == Some((sh, enc_shape(sh).len() as int)),
{
    let whole = enc_shape(sh) + rest;
    match sh {
        ShapeView::Path { points, color } => {
            let tail1 = enc_point_seq_with_len(points) + (enc_u32(color) + rest);
            assert(whole =~= seq![0u8] + tail1);
            assert(whole[0] == 0u8);
            assert(whole.skip(1) =~= tail1);
            lemma_point_seq_with_len_round_trip(points, enc_u32(color) + rest);
            let n1 = enc_point_seq_with_len(points).len() as int;
            assert(whole.skip(1 + n1) =~= enc_u32(color) + rest);
            lemma_u32_round_trip(color, rest);
        },
        ShapeView::Text(j) => {
            assert(whole =~= seq![1u8] + (enc_job(j) + rest));
            assert(whole[0] == 1u8);
            assert(whole.skip(1) =~= enc_job(j) + rest);
            lemma_job_round_trip(j, rest);
        },
        ShapeView::Image { texture, uv } => {
            assert(whole =~= seq![2u8] + (enc_u64(texture) + (enc_rect(uv) + rest)));
            assert(whole[0] == 2u8);
            assert(whole.skip(1) =~= enc_u64(texture) + (enc_rect(uv) + rest));
            lemma_u64_round_trip(texture, enc_rect(uv) + rest);
            assert(whole.skip(9) =~= enc_rect(uv) + rest);
            lemma_rect_round_trip(uv, rest);
        },
    }
}

/// Machine-size bounds under which a shape can exist in memory: its
/// variable-length parts fit a `usize`.
pub open spec fn wf_shape(sh: ShapeView) -> bool {
    match sh {
        ShapeView::Path { points, .. } => points.len() <= usize::MAX,
        ShapeView::Text(j) => j.text.len() <= usize::MAX,
        ShapeView::Image { .. } => true,
    }
}

/// Writes a [`ShapeData`] onto `out`.
pub fn write_shape(out: &mut Vec<u8>, sh: &ShapeData)
    ensures
        final(out)@ == old(out)@ + enc_shape(sh@),
{
    match sh {
        ShapeData::Path { points, color } => {
            out.push(0u8);
            write_point_seq(out, points);
            write_u32(out, *color);
            proof {
                assert(final(out)@ =~= old(out)@ + enc_shape(sh@));
            }
        },
        ShapeData::Text(j) => {
            out.push(1u8);
            write_job(out, j);
            proof {
                assert(final(out)@ =~= old(out)@ + enc_shape(sh@));
            }
        },
        ShapeData::Image { texture, uv } => {
            out.push(2u8);
            write_u64(out, *texture);
            write_rect(out, *uv);
            proof {
                assert(final(out)@ =~= old(out)@ + enc_shape(sh@));
            }
        },
    }
}

/// Reads a [`ShapeData`] at `*pos`, advancing `*pos` past it on success.
#[verifier::rlimit(100)]
pub fn read_shape(bytes: &Vec<u8>, pos: &mut usize) -> (r: Result<ShapeData, WireError>)
    requires
        *old(pos) <= bytes@.len(),
    ensures
        match r {
            Ok(v) => {
                &&& dec_shape_at(bytes@.skip(*old(pos) as int)) matches Some((d, n)) && d == v@
                    && *final(pos) == *old(pos) + n
            },
            Err(_) => {
                &&& dec_shape_at(bytes@.skip(*old(pos) as int)) is None
                &&& *final(pos) == *old(pos)
            },
        },
        *final(pos) <= bytes@.len(),
        *old(pos) <= *final(pos),
{
    let start: usize = *pos;
    if bytes.len() - *pos < 1 {
        return Err(WireError::Truncated);
    }
    let tag = bytes[*pos];
    *pos = *pos + 1;
    proof {
        assert(bytes@.skip(start as int)[0] == tag);
        assert(bytes@.skip(start as int).skip(1) =~= bytes@.skip(start + 1));
    }
    if tag == 0 {
        let points = match read_point_seq(bytes, pos) {
            Ok(v) => v,
            Err(e) => {
                proof {
                    assert(dec_shape_at(bytes@.skip(start as int)) is None);
                }
                *pos = start;
                return Err(e);
            },
        };
        let ghost n1: int = *pos as int - (start as int + 1);
        proof {
            lemma_skip_twice(bytes@, start as int, 1 + n1);
            assert(bytes@.skip(start as int).skip(1 + n1) == bytes@.skip(*pos as int));
        }
        let color = match read_u32(bytes, pos) {
            Ok(v) => v,
            Err(e) => {
                proof {
                    assert(dec_shape_at(bytes@.skip(start as int)) is None);
                }
                *pos = start;
                return Err(e);
            },
        };
        Ok(ShapeData::Path { points, color })
    } else if tag == 1 {
        let j = match read_job(bytes, pos) {
            Ok(v) => v,
            Err(e) => {
                proof {
                    assert(dec_shape_at(bytes@.skip(start as int)) is None);
                }
                *pos = start;
                return Err(e);
            },
        };
        Ok(ShapeData::Text(j))
    } else if tag == 2 {
        let texture = match read_u64(bytes, pos) {
            Ok(v) => v,
            Err(e) => {
                proof {
                    assert(dec_shape_at(bytes@.skip(start as int)) is None);
                }
                *pos = start;
                return Err(e);
            },
        };
        proof {
            assert(bytes@.skip(start as int).skip(9) =~= bytes@.skip(start + 9));
        }
        let uv = match read_rect(bytes, pos) {
            Ok(v) => v,
            Err(e) => {
                proof {
                    assert(dec_shape_at(bytes@.skip(start as int)) is None);
                }
                *pos = start;
                return Err(e);
            },
        };
        Ok(ShapeData::Image { texture, uv })
    } else {
        *pos = start;
        Err(WireError::Malformed)
    }
}

/// Specification encoding of a [`DrawItem`]: clip rectangle, then shape.
pub open spec fn enc_item(it: ItemView) -> Seq<u8> {
    enc_rect(it.clip) + enc_shape(it.shape)
}

/// Specification decoding of a [`DrawItem`] from the front of `s`.
pub open spec fn dec_item_at(s: Seq<u8>) -> Option<(ItemView, int)> {
    match dec_rect_at(s) {
        Some((clip, n1)) => match dec_shape_at(s.skip(n1)) {
            Some((shape, n2)) => Some((ItemView { clip, shape }, n1 + n2)),
            None => None,
        },
        None => None,
    }
}

/// Machine-size bounds under which a draw item can exist in memory.
pub open spec fn wf_item(it: ItemView) -> bool {
    wf_shape(it.shape)
}

/// Decoding inverts encoding for [`DrawItem`].
#[verifier::rlimit(50)]
pub proof fn lemma_item_round_trip(it: ItemView, rest: Seq<u8>)
    requires
        wf_item(it),
    ensures
        dec_item_at(enc_item(it) + rest) == Some((it, enc_item(it).len() as int)),
{
    let whole = enc_item(it) + rest;
    let tail = enc_shape(it.shape) + rest;
    lemma_add_assoc(enc_rect(it.clip), enc_shape(it.shape), rest);
    lemma_rect_round_trip(it.clip, tail);
    lemma_skip_concat(enc_rect(it.clip), tail);
    assert(enc_rect(it.clip).len() == 16);
    lemma_shape_round_trip(it.shape, rest);
}

/// Writes a [`DrawItem`] onto `out`.
pub fn write_item(out: &mut Vec<u8>, it: &DrawItem)
    ensures
        final(out)@ == old(out)@ + enc_item(it@),
{
    write_rect(out, it.clip);
    write_shape(out, &it.shape);
    proof {
        assert(final(out)@ =~= old(out)@ + enc_item(it@));
    }
}

/// Reads a [`DrawItem`] at `*pos`, advancing `*pos` past it on success.
pub fn read_item(bytes: &Vec<u8>, pos: &mut usize) -> (r: Result<DrawItem, WireError>)
    requires
        *old(pos) <= bytes@.len(),
    ensures
        match r {
            Ok(v) => {
                &&& dec_item_at(bytes@.skip(*old(pos) as int)) matches Some((d, n)) && d == v@
                    && *final(pos) == *old(pos) + n
            },
            Err(_) => {
                &&& dec_item_at(bytes@.skip(*old(pos) as int)) is None
                &&& *final(pos) == *old(pos)
            },
        },
        *final(pos) <= bytes@.len(),
        *old(pos) <= *final(pos),
{
    let start: usize = *pos;
    let clip = match read_rect(bytes, pos) {
        Ok(v) => v,
        Err(e) => {
            return Err(e);
        },
    };
    proof {
        assert(bytes@.skip(start as int).skip(16) =~= bytes@.skip(start + 16));
    }
    let shape = match read_shape(bytes, pos) {
        Ok(v) => v,
        Err(e) => {
            *pos = start;
            return Err(e);
        },
    };
    Ok(DrawItem { clip, shape })
}

/// Specification encoding of an item list without its length prefix.
pub open spec fn enc_item_seq(s: Seq<ItemView>) -> Seq<u8>
    decreases s.len(),
{
    if s.len() == 0 {
        Seq::empty()
    } else {
        enc_item(s[0]) + enc_item_seq(s.skip(1))
    }
}

/// Specification encoding of an item list: a length prefix, then the items.
pub open spec fn enc_items(s: Seq<ItemView>) -> Seq<u8> {
    enc_u64(s.len() as u64) + enc_item_seq(s)
}

/// Specification decoding of `count` items from the front of `s`.
pub open spec fn dec_item_seq_at(s: Seq<u8>, count: nat) -> Option<(Seq<ItemView>, int)>
    decreases count,
{
    if count == 0 {
        Some((Seq::empty(), 0))
    } else {
        match dec_item_at(s) {
            Some((v, n)) => match dec_item_seq_at(s.skip(n), (count - 1) as nat) {
                Some((vs, m)) => Some((seq![v] + vs, n + m)),
                None => None,
            },
            None => None,
        }
    }
}

/// Specification decoding of a length-prefixed item list.
pub open spec fn dec_items_at(s: Seq<u8>) -> Option<(Seq<ItemView>, int)> {
    match dec_u64_at(s) {
        Some((count, _)) => if count <= usize::MAX as u64 {
            match dec_item_seq_at(s.skip(8), count as nat) {
                Some((vs, m)) => Some((vs, 8 + m)),
                None => None,
            }
        } else {
            None
        },
        None => None,
    }
}

/// Machine-size bounds under which an item list can exist in memory.
pub open spec fn wf_items(s: Seq<ItemView>) -> bool {
    &&& s.len() <= usize::MAX
    &&& forall|i: int| 0 <= i < s.len() ==> wf_item(#[trigger] s[i])
}

/// Appending one item extends the encoding by that item's bytes.
pub proof fn lemma_enc_item_seq_push(s: Seq<ItemView>, it: ItemView)
    ensures
        enc_item_seq(s.push(it)) == enc_item_seq(s) + enc_item(it),
    decreases s.len(),
{
    let sp = s.push(it);
    if s.len() == 0 {
        assert(sp[0] == it);
        assert(sp.skip(1) =~= Seq::<ItemView>::empty());
        assert(enc_item_seq(sp.skip(1)) == Seq::<u8>::empty());
        assert(enc_item_seq(sp) == enc_item(it) + enc_item_seq(sp.skip(1)));
        assert(enc_item_seq(s) == Seq::<u8>::empty());
        assert(enc_item_seq(sp) =~= enc_item_seq(s) + enc_item(it));
    } else {
        assert(sp[0] == s[0]);
        assert(sp.skip(1) =~= s.skip(1).push(it));
        lemma_enc_item_seq_push(s.skip(1), it);
        assert(enc_item_seq(sp) == enc_item(s[0]) + enc_item_seq(sp.skip(1)));
        assert(enc_item_seq(sp.skip(1)) == enc_item_seq(s.skip(1)) + enc_item(it));
        assert(enc_item_seq(s) == enc_item(s[0]) + enc_item_seq(s.skip(1)));
        lemma_add_assoc(enc_item(s[0]), enc_item_seq(s.skip(1)), enc_item(it));
        assert(enc_item_seq(sp) =~= enc_item_seq(s) + enc_item(it));
    }
}

/// Decoding inverts encoding for an item list of known count.
#[verifier::rlimit(100)]
pub proof fn lemma_item_seq_round_trip(s: Seq<ItemView>, rest: Seq<u8>)
    requires
        forall|i: int| 0 <= i < s.len() ==> wf_item(#[trigger] s[i]),
    ensures
        dec_item_seq_at(enc_item_seq(s) + rest, s.len() as nat) == Some(
            (s, enc_item_seq(s).len() as int),
        ),
    decreases s.len(),
{
    if s.len() == 0 {
        assert(enc_item_seq(s) + rest =~= rest);
        assert(s =~= Seq::<ItemView>::empty());
    } else {
        let whole = enc_item_seq(s) + rest;
        let tail = enc_item_seq(s.skip(1)) + rest;
        lemma_add_assoc(enc_item(s[0]), enc_item_seq(s.skip(1)), rest);
        assert(whole == enc_item(s[0]) + tail);
        lemma_item_round_trip(s[0], tail);
        lemma_skip_concat(enc_item(s[0]), tail);
        lemma_item_seq_round_trip(s.skip(1), rest);
        assert(seq![s[0]] + s.skip(1) =~= s);
    }
}

/// Decoding inverts encoding for a length-prefixed item list.
#[verifier::rlimit(100)]
pub proof fn lemma_items_round_trip(s: Seq<ItemView>, rest: Seq<u8>)
    requires
        wf_items(s),
    ensures
        dec_items_at(enc_items(s) + rest) == Some((s, enc_items(s).len() as int)),
{
    let whole = enc_items(s) + rest;
    let tail = enc_item_seq(s) + rest;
    lemma_add_assoc(enc_u64(s.len() as u64), enc_item_seq(s), rest);
    assert(whole == enc_u64(s.len() as u64) + tail);
    lemma_u64_round_trip(s.len() as u64, tail);
    lemma_skip_concat(enc_u64(s.len() as u64), tail);
    lemma_item_seq_round_trip(s, rest);
}

/// Writes a length-prefixed item list onto `out`.
pub fn write_items(out: &mut Vec<u8>, items: &Vec<DrawItem>)
    ensures
        final(out)@ == old(out)@ + enc_items(crate::frame::items_view(items@)),
{
    write_u64(out, items.len() as u64);
    let mut i: usize = 0;
    while i < items.len()
        invariant
            i <= items.len(),
            out@ == old(out)@ + enc_u64(items@.len() as u64) + enc_item_seq(
                crate::frame::items_view(items@).subrange(0, i as int),
            ),
        decreases items.len() - i,
    {
        let ghost prefix = crate::frame::items_view(items@).subrange(0, i as int);
        write_item(out, &items[i]);
        i += 1;
        proof {
            lemma_enc_item_seq_push(prefix, items@[i - 1]@);
            assert(prefix.push(items@[i - 1]@) =~= crate::frame::items_view(items@).subrange(
                0,
                i as int,
            ));
            assert(out@ =~= old(out)@ + enc_u64(items@.len() as u64) + enc_item_seq(
                crate::frame::items_view(items@).subrange(0, i as int),
            ));
        }
    }
    proof {
        let all = crate::frame::items_view(items@);
        assert(all.subrange(0, all.len() as int) =~= all);
        assert(out@ =~= old(out)@ + enc_items(all));
    }
}

/// The decoding state half-way through an item list: what was decoded so
/// far, joined with whatever the remaining bytes decode to, is what the
/// whole list decodes to.
#[verifier::opaque]
pub open spec fn items_cont(bytes: Seq<u8>, base: int, cur: int, done: Seq<ItemView>, total: nat) -> bool {
    match dec_item_seq_at(bytes.skip(cur), (total - done.len()) as nat) {
        Some((vs, m)) => dec_item_seq_at(bytes.skip(base), total) == Some(
            (done + vs, (cur - base) + m),
        ),
        None => dec_item_seq_at(bytes.skip(base), total) is None,
    }
}

/// At the start, with nothing decoded, the continuation holds trivially.
pub proof fn lemma_items_cont_init(bytes: Seq<u8>, base: int, total: nat)
    requires
        0 <= base <= bytes.len(),
    ensures
        items_cont(bytes, base, base, Seq::empty(), total),
{
    reveal(items_cont);
    match dec_item_seq_at(bytes.skip(base), total) {
        Some((vs, m)) => {
            assert(Seq::<ItemView>::empty() + vs =~= vs);
        },
        None => {},
    }
}

/// One decoded item advances the continuation.
pub proof fn lemma_items_cont_step(
    bytes: Seq<u8>,
    base: int,
    cur: int,
    nxt: int,
    done: Seq<ItemView>,
    it: ItemView,
    total: nat,
)
    requires
        items_cont(bytes, base, cur, done, total),
        done.len() < total,
        dec_item_at(bytes.skip(cur)) == Some((it, nxt - cur)),
        0 <= base <= cur <= nxt <= bytes.len(),
    ensures
        items_cont(bytes, base, nxt, done.push(it), total),
{
    reveal(items_cont);
    let rem0 = (total - done.len()) as nat;
    let rem1 = (total - done.len() - 1) as nat;
    lemma_skip_twice(bytes, cur, nxt - cur);
    assert(bytes.skip(cur).skip(nxt - cur) == bytes.skip(nxt));
    match dec_item_seq_at(bytes.skip(nxt), rem1) {
        Some((vs, m)) => {
            assert(dec_item_seq_at(bytes.skip(cur), rem0) == Some((seq![it] + vs, (nxt - cur) + m)));
            assert(done + (seq![it] + vs) =~= done.push(it) + vs);
        },
        None => {
            assert(dec_item_seq_at(bytes.skip(cur), rem0) is None);
        },
    }
}

/// A failing item read half-way through means the whole list fails.
pub proof fn lemma_items_cont_fail(bytes: Seq<u8>, base: int, cur: int, done: Seq<ItemView>, total: nat)
    requires
        items_cont(bytes, base, cur, done, total),
        done.len() < total,
        dec_item_at(bytes.skip(cur)) is None,
    ensures
        dec_item_seq_at(bytes.skip(base), total) is None,
{
    reveal(items_cont);
    assert(dec_item_seq_at(bytes.skip(cur), (total - done.len()) as nat) is None);
}

/// When every item was decoded, the continuation gives the whole result.
pub proof fn lemma_items_cont_finish(bytes: Seq<u8>, base: int, cur: int, done: Seq<ItemView>, total: nat)
    requires
        items_cont(bytes, base, cur, done, total),
        done.len() == total,
    ensures
        dec_item_seq_at(bytes.skip(base), total) == Some((done, cur - base)),
{
    reveal(items_cont);
    assert(dec_item_seq_at(bytes.skip(cur), 0) == Some((Seq::<ItemView>::empty(), 0int)));
    assert(done + Seq::<ItemView>::empty() =~= done);
}

/// Reads a length-prefixed item list at `*pos`.
#[verifier::rlimit(100)]
pub fn read_items(bytes: &Vec<u8>, pos: &mut usize) -> (r: Result<Vec<DrawItem>, WireError>)
    requires
        *old(pos) <= bytes@.len(),
    ensures
        match r {
            Ok(v) => {
                &&& dec_items_at(bytes@.skip(*old(pos) as int)) matches Some((d, n)) && d
                    == crate::frame::items_view(v@) && *final(pos) == *old(pos) + n
            },
            Err(_) => {
                &&& dec_items_at(bytes@.skip(*old(pos) as int)) is None
                &&& *final(pos) == *old(pos)
            },
        },
        *final(pos) <= bytes@.len(),
        *old(pos) <= *final(pos),
{
    let start: usize = *pos;
    let count64 = match read_u64(bytes, pos) {
        Ok(v) => v,
        Err(e) => {
            return Err(e);
        },
    };
    if count64 > usize::MAX as u64 {
        *pos = start;
        return Err(WireError::Malformed);
    }
    let count = count64 as usize;
    let mut out: Vec<DrawItem> = Vec::new();
    let mut k: usize = 0;
    proof {
        assert(bytes@.skip(start as int).skip(8) =~= bytes@.skip(start + 8));
        lemma_items_cont_init(bytes@, start + 8, count as nat);
        assert(crate::frame::items_view(out@) =~= Seq::<ItemView>::empty());
    }
    while k < count
        invariant
            k <= count,
            *pos <= bytes@.len(),
            out@.len() == k,
            start == *old(pos),
            start <= bytes@.len(),
            dec_u64_at(bytes@.skip(start as int)) == Some((count as u64, 8int)),
            count <= usize::MAX,
            start + 8 <= *pos,
            items_cont(bytes@, start + 8, *pos as int, crate::frame::items_view(out@), count as nat),
        decreases count - k,
    {
        let ghost pos0: usize = *pos;
        let ghost done0 = crate::frame::items_view(out@);
        let it = match read_item(bytes, pos) {
            Ok(v) => v,
            Err(_) => {
                proof {
                    lemma_items_cont_fail(bytes@, start + 8, *pos as int, done0, count as nat);
                    assert(bytes@.skip(start as int).skip(8) =~= bytes@.skip(start + 8));
                    assert(dec_items_at(bytes@.skip(start as int)) is None);
                }
                *pos = start;
                return Err(WireError::Truncated);
            },
        };
        out.push(it);
        k += 1;
        proof {
            lemma_items_cont_step(
                bytes@,
                start + 8,
                pos0 as int,
                *pos as int,
                done0,
                it@,
                count as nat,
            );
            assert(done0.push(it@) =~= crate::frame::items_view(out@));
        }
    }
    proof {
        lemma_items_cont_finish(
            bytes@,
            start + 8,
            *pos as int,
            crate::frame::items_view(out@),
            count as nat,
        );
        assert(bytes@.skip(start as int).skip(8) =~= bytes@.skip(start + 8));
        assert(dec_items_at(bytes@.skip(start as int)) == Some(
            (crate::frame::items_view(out@), *pos - start),
        ));
    }
    Ok(out)
}


/// Specification encoding of a [`PlatformOutput`].
pub open spec fn enc_platform(p: PlatformView) -> Seq<u8> {
    enc_u32(p.cursor_icon) + enc_byte_seq(p.copied_text) + (match p.open_url {
        None => seq![0u8],
        Some(u) => seq![1u8] + enc_byte_seq(u),
    })
}

/// Specification decoding of a [`PlatformOutput`] from the front of `s`.
pub open spec fn dec_platform_at(s: Seq<u8>) -> Option<(PlatformView, int)> {
    match dec_u32_at(s) {
        Some((cursor_icon, _)) => match dec_byte_seq_at(s.skip(4)) {
            Some((copied_text, n2)) => {
                let t = s.skip(4 + n2);
                if t.len() < 1 {
                    None
                } else if t[0] == 0u8 {
                    Some(
                        (
                            PlatformView { cursor_icon, copied_text, open_url: None },
                            4 + n2 + 1,
                        ),
                    )
                } else if t[0] == 1u8 {
                    match dec_byte_seq_at(t.skip(1)) {
                        Some((u, n3)) => Some(
                            (
                                PlatformView { cursor_icon, copied_text, open_url: Some(u) },
                                4 + n2 + 1 + n3,
                            ),
                        ),
                        None => None,
                    }
                } else {
                    None
                }
            },
            None => None,
        },
        None => None,
    }
}

/// Machine-size bounds under which a platform record can exist in memory.
pub open spec fn wf_platform(p: PlatformView) -> bool {
    &&& p.copied_text.len() <= usize::MAX
    &&& match p.open_url {
        Some(u) => u.len() <= usize::MAX,
        None => true,
    }
}

/// Decoding inverts encoding for [`PlatformOutput`].
#[verifier::rlimit(50)]
pub proof fn lemma_platform_round_trip(p: PlatformView, rest: Seq<u8>)
    requires
        wf_platform(p),
    ensures
        dec_platform_at(enc_platform(p) + rest) == Some((p, enc_platform(p).len() as int)),
{
    let whole = enc_platform(p) + rest;
    let opt = match p.open_url {
        None => seq![0u8],
        Some(u) => seq![1u8] + enc_byte_seq(u),
    };
    let tail1 = enc_byte_seq(p.copied_text) + (opt + rest);
    lemma_add_assoc(enc_u32(p.cursor_icon) + enc_byte_seq(p.copied_text), opt, rest);
    lemma_add_assoc(enc_u32(p.cursor_icon), enc_byte_seq(p.copied_text), opt + rest);
    assert(whole == enc_u32(p.cursor_icon) + tail1);
    lemma_u32_round_trip(p.cursor_icon, tail1);
    lemma_skip_concat(enc_u32(p.cursor_icon), tail1);
    assert(whole.skip(4) == tail1);
    lemma_byte_seq_round_trip(p.copied_text, opt + rest);
    let n2 = enc_byte_seq(p.copied_text).len() as int;
    lemma_skip_twice(whole, 4, n2);
    lemma_skip_concat(enc_byte_seq(p.copied_text), opt + rest);
    assert(whole.skip(4 + n2) == opt + rest);
    let t = whole.skip(4 + n2);
    match p.open_url {
        None => {
            assert(t[0] == 0u8);
        },
        Some(u) => {
            assert(t == (seq![1u8] + enc_byte_seq(u)) + rest);
            lemma_add_assoc(seq![1u8], enc_byte_seq(u), rest);
            assert(t[0] == 1u8);
            lemma_skip_concat(seq![1u8], enc_byte_seq(u) + rest);
            assert(t.skip(1) == enc_byte_seq(u) + rest);
            lemma_byte_seq_round_trip(u, rest);
        },
    }
}

/// Writes a [`PlatformOutput`] onto `out`.
pub fn write_platform(out: &mut Vec<u8>, p: &PlatformOutput)
    ensures
        final(out)@ == old(out)@ + enc_platform(p@),
{
    write_u32(out, p.cursor_icon);
    write_byte_seq(out, &p.copied_text);
    match &p.open_url {
        None => {
            out.push(0u8);
        },
        Some(u) => {
            out.push(1u8);
            write_byte_seq(out, u);
        },
    }
    proof {
        assert(final(out)@ =~= old(out)@ + enc_platform(p@));
    }
}

/// Reads a [`PlatformOutput`] at `*pos`, advancing `*pos` past it on success.
#[verifier::rlimit(50)]
pub fn read_platform(bytes: &Vec<u8>, pos: &mut usize) -> (r: Result<PlatformOutput, WireError>)
    requires
        *old(pos) <= bytes@.len(),
    ensures
        match r {
            Ok(v) => {
                &&& dec_platform_at(bytes@.skip(*old(pos) as int)) matches Some((d, n)) && d == v@
                    && *final(pos) == *old(pos) + n
            },
            Err(_) => {
                &&& dec_platform_at(bytes@.skip(*old(pos) as int)) is None
                &&& *final(pos) == *old(pos)
            },
        },
        *final(pos) <= bytes@.len(),
        *old(pos) <= *final(pos),
{
    let start: usize = *pos;
    let cursor_icon = match read_u32(bytes, pos) {
        Ok(v) => v,
        Err(e) => {
            return Err(e);
        },
    };
    proof {
        assert(bytes@.skip(start as int).skip(4) =~= bytes@.skip(start + 4));
    }
    let copied_text = match read_byte_seq(bytes, pos) {
        Ok(v) => v,
        Err(e) => {
            *pos = start;
            return Err(e);
        },
    };
    let ghost n2: int = *pos as int - (start as int + 4);
    proof {
        lemma_skip_twice(bytes@, start as int, 4 + n2);
        assert(bytes@.skip(start as int).skip(4 + n2) == bytes@.skip(*pos as int));
    }
    if bytes.len() - *pos < 1 {
        *pos = start;
        return Err(WireError::Truncated);
    }
    let tag = bytes[*pos];
    *pos = *pos + 1;
    let ghost t = bytes@.skip(start as int).skip(4 + n2);
    proof {
        assert(t[0] == tag);
        lemma_skip_twice(bytes@, start as int + 4 + n2, 1);
        assert(t.skip(1) == bytes@.skip(*pos as int));
    }
    if tag == 0 {
        Ok(PlatformOutput { cursor_icon, copied_text, open_url: None })
    } else if tag == 1 {
        let u = match read_byte_seq(bytes, pos) {
            Ok(v) => v,
            Err(e) => {
                *pos = start;
                return Err(e);
            },
        };
        Ok(PlatformOutput { cursor_icon, copied_text, open_url: Some(u) })
    } else {
        *pos = start;
        Err(WireError::Malformed)
    }
}

/// Specification encoding of a [`Frame`]: its items, then its platform
/// record.
pub open spec fn enc_frame(f: FrameView) -> Seq<u8> {
    enc_items(f.items) + enc_platform(f.platform)
}

/// Specification decoding of a [`Frame`] from the front of `s`.
pub open spec fn dec_frame_at(s: Seq<u8>) -> Option<(FrameView, int)> {
    match dec_items_at(s) {
        Some((items, n1)) => match dec_platform_at(s.skip(n1)) {
            Some((platform, n2)) => Some((FrameView { items, platform }, n1 + n2)),
            None => None,
        },
        None => None,
    }
}

/// Machine-size bounds under which a frame can exist in memory.
pub open spec fn wf_frame(f: FrameView) -> bool {
    &&& wf_items(f.items)
    &&& wf_platform(f.platform)
}

/// Decoding inverts encoding for [`Frame`].
pub proof fn lemma_frame_round_trip(f: FrameView, rest: Seq<u8>)
    requires
        wf_frame(f),
    ensures
        dec_frame_at(enc_frame(f) + rest) == Some((f, enc_frame(f).len() as int)),
{
    let whole = enc_frame(f) + rest;
    let tail = enc_platform(f.platform) + rest;
    lemma_add_assoc(enc_items(f.items), enc_platform(f.platform), rest);
    assert(whole == enc_items(f.items) + tail);
    lemma_items_round_trip(f.items, tail);
    lemma_skip_concat(enc_items(f.items), tail);
    lemma_platform_round_trip(f.platform, rest);
}

/// Writes a [`Frame`] onto `out`.
pub fn write_frame(out: &mut Vec<u8>, f: &Frame)
    ensures
        final(out)@ == old(out)@ + enc_frame(f@),
{
    write_items(out, &f.items);
    write_platform(out, &f.platform);
    proof {
        assert(final(out)@ =~= old(out)@ + enc_frame(f@));
    }
}

/// Reads a [`Frame`] at `*pos`, advancing `*pos` past it on success.
pub fn read_frame(bytes: &Vec<u8>, pos: &mut usize) -> (r: Result<Frame, WireError>)
    requires
        *old(pos) <= bytes@.len(),
    ensures
        match r {
            Ok(v) => {
                &&& dec_frame_at(bytes@.skip(*old(pos) as int)) matches Some((d, n)) && d == v@
                    && *final(pos) == *old(pos) + n
            },
            Err(_) => {
                &&& dec_frame_at(bytes@.skip(*old(pos) as int)) is None
                &&& *final(pos) == *old(pos)
            },
        },
        *final(pos) <= bytes@.len(),
        *old(pos) <= *final(pos),
{
    let start: usize = *pos;
    let items = match read_items(bytes, pos) {
        Ok(v) => v,
        Err(e) => {
            return Err(e);
        },
    };
    let ghost n1: int = *pos as int - start as int;
    proof {
        lemma_skip_twice(bytes@, start as int, n1);
        assert(bytes@.skip(start as int).skip(n1) == bytes@.skip(*pos as int));
    }
    let platform = match read_platform(bytes, pos) {
        Ok(v) => v,
        Err(e) => {
            *pos = start;
            return Err(e);
        },
    };
    Ok(Frame { items, platform })
}


/// Specification encoding of a [`PartialUpdate`]: a tag byte, then either
/// the referenced position or the inline item.
pub open spec fn enc_op(op: PartialView) -> Seq<u8> {
    match op {
        PartialView::Reference(p) => seq![0u8] + enc_u64(p as u64),
        PartialView::Shape(it) => seq![1u8] + enc_item(it),
    }
}

/// Specification decoding of a [`PartialUpdate`] from the front of `s`.
pub open spec fn dec_op_at(s: Seq<u8>) -> Option<(PartialView, int)> {
    if s.len() < 1 {
        None
    } else if s[0] == 0u8 {
        match dec_u64_at(s.skip(1)) {
            Some((p, _)) => if p <= usize::MAX as u64 {
                Some((PartialView::Reference(p as usize), 9))
            } else {
                None
            },
            None => None,
        }
    } else if s[0] == 1u8 {
        match dec_item_at(s.skip(1)) {
            Some((it, n)) => Some((PartialView::Shape(it), 1 + n)),
            None => None,
        }
    } else {
        None
    }
}

/// Machine-size bounds under which an operation can exist in memory.
pub open spec fn wf_op(op: PartialView) -> bool {
    match op {
        PartialView::Reference(_) => true,
        PartialView::Shape(it) => wf_item(it),
    }
}

/// Decoding inverts encoding for [`PartialUpdate`].
pub proof fn lemma_op_round_trip(op: PartialView, rest: Seq<u8>)
    requires
        wf_op(op),
    ensures
        dec_op_at(enc_op(op) + rest) == Some((op, enc_op(op).len() as int)),
{
    let whole = enc_op(op) + rest;
    match op {
        PartialView::Reference(p) => {
            lemma_add_assoc(seq![0u8], enc_u64(p as u64), rest);
            assert(whole[0] == 0u8);
            lemma_skip_concat(seq![0u8], enc_u64(p as u64) + rest);
            assert(whole.skip(1) == enc_u64(p as u64) + rest);
            lemma_u64_round_trip(p as u64, rest);
        },
        PartialView::Shape(it) => {
            lemma_add_assoc(seq![1u8], enc_item(it), rest);
            assert(whole[0] == 1u8);
            lemma_skip_concat(seq![1u8], enc_item(it) + rest);
            assert(whole.skip(1) == enc_item(it) + rest);
            lemma_item_round_trip(it, rest);
        },
    }
}

/// Writes a [`PartialUpdate`] onto `out`.
pub fn write_op(out: &mut Vec<u8>, op: &PartialUpdate)
    ensures
        final(out)@ == old(out)@ + enc_op(op@),
{
    match op {
        PartialUpdate::Reference(p) => {
            out.push(0u8);
            write_u64(out, *p as u64);
            proof {
                assert(final(out)@ =~= old(out)@ + enc_op(op@));
            }
        },
        PartialUpdate::Shape(it) => {
            out.push(1u8);
            write_item(out, it);
            proof {
                assert(final(out)@ =~= old(out)@ + enc_op(op@));
            }
        },
    }
}

/// Reads a [`PartialUpdate`] at `*pos`, advancing `*pos` past it on
/// success.
pub fn read_op(bytes: &Vec<u8>, pos: &mut usize) -> (r: Result<PartialUpdate, WireError>)
    requires
        *old(pos) <= bytes@.len(),
    ensures
        match r {
            Ok(v) => {
                &&& dec_op_at(bytes@.skip(*old(pos) as int)) matches Some((d, n)) && d == v@
                    && *final(pos) == *old(pos) + n
            },
            Err(_) => {
                &&& dec_op_at(bytes@.skip(*old(pos) as int)) is None
                &&& *final(pos) == *old(pos)
            },
        },
        *final(pos) <= bytes@.len(),
        *old(pos) <= *final(pos),
{
    let start: usize = *pos;
    if bytes.len() - *pos < 1 {
        return Err(WireError::Truncated);
    }
    let tag = bytes[*pos];
    *pos = *pos + 1;
    proof {
        assert(bytes@.skip(start as int)[0] == tag);
        assert(bytes@.skip(start as int).skip(1) =~= bytes@.skip(start + 1));
    }
    if tag == 0 {
        let p64 = match read_u64(bytes, pos) {
            Ok(v) => v,
            Err(e) => {
                *pos = start;
                return Err(e);
            },
        };
        if p64 > usize::MAX as u64 {
            *pos = start;
            return Err(WireError::Malformed);
        }
        Ok(PartialUpdate::Reference(p64 as usize))
    } else if tag == 1 {
        let it = match read_item(bytes, pos) {
            Ok(v) => v,
            Err(e) => {
                *pos = start;
                return Err(e);
            },
        };
        Ok(PartialUpdate::Shape(it))
    } else {
        *pos = start;
        Err(WireError::Malformed)
    }
}

/// Specification encoding of an operation list without its length prefix.
pub open spec fn enc_op_seq(s: Seq<PartialView>) -> Seq<u8>
    decreases s.len(),
{
    if s.len() == 0 {
        Seq::empty()
    } else {
        enc_op(s[0]) + enc_op_seq(s.skip(1))
    }
}

/// Specification encoding of an operation list: a length prefix, then the
/// operations.
pub open spec fn enc_ops(s: Seq<PartialView>) -> Seq<u8> {
    enc_u64(s.len() as u64) + enc_op_seq(s)
}

/// Specification decoding of `count` operations from the front of `s`.
pub open spec fn dec_op_seq_at(s: Seq<u8>, count: nat) -> Option<(Seq<PartialView>, int)>
    decreases count,
{
    if count == 0 {
        Some((Seq::empty(), 0))
    } else {
        match dec_op_at(s) {
            Some((v, n)) => match dec_op_seq_at(s.skip(n), (count - 1) as nat) {
                Some((vs, m)) => Some((seq![v] + vs, n + m)),
                None => None,
            },
            None => None,
        }
    }
}

/// Specification decoding of a length-prefixed operation list.
pub open spec fn dec_ops_at(s: Seq<u8>) -> Option<(Seq<PartialView>, int)> {
    match dec_u64_at(s) {
        Some((count, _)) => if count <= usize::MAX as u64 {
            match dec_op_seq_at(s.skip(8), count as nat) {
                Some((vs, m)) => Some((vs, 8 + m)),
                None => None,
            }
        } else {
            None
        },
        None => None,
    }
}

/// Machine-size bounds under which an operation list can exist in memory.
pub open spec fn wf_ops(s: Seq<PartialView>) -> bool {
    &&& s.len() <= usize::MAX
    &&& forall|i: int| 0 <= i < s.len() ==> wf_op(#[trigger] s[i])
}

/// Appending one operation extends the encoding by that operation's bytes.
pub proof fn lemma_enc_op_seq_push(s: Seq<PartialView>, op: PartialView)
    ensures
        enc_op_seq(s.push(op)) == enc_op_seq(s) + enc_op(op),
    decreases s.len(),
{
    let sp = s.push(op);
    if s.len() == 0 {
        assert(sp[0] == op);
        assert(sp.skip(1) =~= Seq::<PartialView>::empty());
        assert(enc_op_seq(sp.skip(1)) == Seq::<u8>::empty());
        assert(enc_op_seq(sp) == enc_op(op) + enc_op_seq(sp.skip(1)));
        assert(enc_op_seq(s) == Seq::<u8>::empty());
        assert(enc_op_seq(sp) =~= enc_op_seq(s) + enc_op(op));
    } else {
        assert(sp[0] == s[0]);
        assert(sp.skip(1) =~= s.skip(1).push(op));
        lemma_enc_op_seq_push(s.skip(1), op);
        assert(enc_op_seq(sp) == enc_op(s[0]) + enc_op_seq(sp.skip(1)));
        assert(enc_op_seq(sp.skip(1)) == enc_op_seq(s.skip(1)) + enc_op(op));
        assert(enc_op_seq(s) == enc_op(s[0]) + enc_op_seq(s.skip(1)));
        lemma_add_assoc(enc_op(s[0]), enc_op_seq(s.skip(1)), enc_op(op));
        assert(enc_op_seq(sp) =~= enc_op_seq(s) + enc_op(op));
    }
}

/// Decoding inverts encoding for an operation list of known count.
#[verifier::rlimit(100)]
pub proof fn lemma_op_seq_round_trip(s: Seq<PartialView>, rest: Seq<u8>)
    requires
        forall|i: int| 0 <= i < s.len() ==> wf_op(#[trigger] s[i]),
    ensures
        dec_op_seq_at(enc_op_seq(s) + rest, s.len() as nat) == Some(
            (s, enc_op_seq(s).len() as int),
        ),
    decreases s.len(),
{
    if s.len() == 0 {
        assert(enc_op_seq(s) + rest =~= rest);
        assert(s =~= Seq::<PartialView>::empty());
    } else {
        let whole = enc_op_seq(s) + rest;
        let tail = enc_op_seq(s.skip(1)) + rest;
        lemma_add_assoc(enc_op(s[0]), enc_op_seq(s.skip(1)), rest);
        assert(whole == enc_op(s[0]) + tail);
        lemma_op_round_trip(s[0], tail);
        lemma_skip_concat(enc_op(s[0]), tail);
        lemma_op_seq_round_trip(s.skip(1), rest);
        assert(seq![s[0]] + s.skip(1) =~= s);
    }
}

/// Decoding inverts encoding for a length-prefixed operation list.
#[verifier::rlimit(100)]
pub proof fn lemma_ops_round_trip(s: Seq<PartialView>, rest: Seq<u8>)
    requires
        wf_ops(s),
    ensures
        dec_ops_at(enc_ops(s) + rest) == Some((s, enc_ops(s).len() as int)),
{
    let whole = enc_ops(s) + rest;
    let tail = enc_op_seq(s) + rest;
    lemma_add_assoc(enc_u64(s.len() as u64), enc_op_seq(s), rest);
    assert(whole == enc_u64(s.len() as u64) + tail);
    lemma_u64_round_trip(s.len() as u64, tail);
    lemma_skip_concat(enc_u64(s.len() as u64), tail);
    lemma_op_seq_round_trip(s, rest);
}

/// Writes a length-prefixed operation list onto `out`.
pub fn write_ops(out: &mut Vec<u8>, ops: &Vec<PartialUpdate>)
    ensures
        final(out)@ == old(out)@ + enc_ops(ops_view(ops@)),
{
    write_u64(out, ops.len() as u64);
    let mut i: usize = 0;
    while i < ops.len()
        invariant
            i <= ops.len(),
            out@ == old(out)@ + enc_u64(ops@.len() as u64) + enc_op_seq(
                ops_view(ops@).subrange(0, i as int),
            ),
        decreases ops.len() - i,
    {
        let ghost prefix = ops_view(ops@).subrange(0, i as int);
        write_op(out, &ops[i]);
        i += 1;
        proof {
            lemma_enc_op_seq_push(prefix, ops@[i - 1]@);
            assert(prefix.push(ops@[i - 1]@) =~= ops_view(ops@).subrange(0, i as int));
            assert(out@ =~= old(out)@ + enc_u64(ops@.len() as u64) + enc_op_seq(
                ops_view(ops@).subrange(0, i as int),
            ));
        }
    }
    proof {
        let all = ops_view(ops@);
        assert(all.subrange(0, all.len() as int) =~= all);
        assert(out@ =~= old(out)@ + enc_ops(all));
    }
}

/// The decoding state half-way through an operation list.
#[verifier::opaque]
pub open spec fn ops_cont(
    bytes: Seq<u8>,
    base: int,
    cur: int,
    done: Seq<PartialView>,
    total: nat,
) -> bool {
    match dec_op_seq_at(bytes.skip(cur), (total - done.len()) as nat) {
        Some((vs, m)) => dec_op_seq_at(bytes.skip(base), total) == Some(
            (done + vs, (cur - base) + m),
        ),
        None => dec_op_seq_at(bytes.skip(base), total) is None,
    }
}

/// At the start, with nothing decoded, the continuation holds trivially.
pub proof fn lemma_ops_cont_init(bytes: Seq<u8>, base: int, total: nat)
    requires
        0 <= base <= bytes.len(),
    ensures
        ops_cont(bytes, base, base, Seq::empty(), total),
{
    reveal(ops_cont);
    match dec_op_seq_at(bytes.skip(base), total) {
        Some((vs, m)) => {
            assert(Seq::<PartialView>::empty() + vs =~= vs);
        },
        None => {},
    }
}

/// One decoded operation advances the continuation.
pub proof fn lemma_ops_cont_step(
    bytes: Seq<u8>,
    base: int,
    cur: int,
    nxt: int,
    done: Seq<PartialView>,
    op: PartialView,
    total: nat,
)
    requires
        ops_cont(bytes, base, cur, done, total),
        done.len() < total,
        dec_op_at(bytes.skip(cur)) == Some((op, nxt - cur)),
        0 <= base <= cur <= nxt <= bytes.len(),
    ensures
        ops_cont(bytes, base, nxt, done.push(op), total),
{
    reveal(ops_cont);
    let rem0 = (total - done.len()) as nat;
    let rem1 = (total - done.len() - 1) as nat;
    lemma_skip_twice(bytes, cur, nxt - cur);
    assert(bytes.skip(cur).skip(nxt - cur) == bytes.skip(nxt));
    match dec_op_seq_at(bytes.skip(nxt), rem1) {
        Some((vs, m)) => {
            assert(dec_op_seq_at(bytes.skip(cur), rem0) == Some((seq![op] + vs, (nxt - cur) + m)));
            assert(done + (seq![op] + vs) =~= done.push(op) + vs);
        },
        None => {
            assert(dec_op_seq_at(bytes.skip(cur), rem0) is None);
        },
    }
}

/// A failing operation read half-way through means the whole list fails.
pub proof fn lemma_ops_cont_fail(
    bytes: Seq<u8>,
    base: int,
    cur: int,
    done: Seq<PartialView>,
    total: nat,
)
    requires
        ops_cont(bytes, base, cur, done, total),
        done.len() < total,
        dec_op_at(bytes.skip(cur)) is None,
    ensures
        dec_op_seq_at(bytes.skip(base), total) is None,
{
    reveal(ops_cont);
    assert(dec_op_seq_at(bytes.skip(cur), (total - done.len()) as nat) is None);
}

/// When every operation was decoded, the continuation gives the whole
/// result.
pub proof fn lemma_ops_cont_finish(
    bytes: Seq<u8>,
    base: int,
    cur: int,
    done: Seq<PartialView>,
    total: nat,
)
    requires
        ops_cont(bytes, base, cur, done, total),
        done.len() == total,
    ensures
        dec_op_seq_at(bytes.skip(base), total) == Some((done, cur - base)),
{
    reveal(ops_cont);
    assert(dec_op_seq_at(bytes.skip(cur), 0) == Some((Seq::<PartialView>::empty(), 0int)));
    assert(done + Seq::<PartialView>::empty() =~= done);
}

/// Reads a length-prefixed operation list at `*pos`.
#[verifier::rlimit(100)]
pub fn read_ops(bytes: &Vec<u8>, pos: &mut usize) -> (r: Result<Vec<PartialUpdate>, WireError>)
    requires
        *old(pos) <= bytes@.len(),
    ensures
        match r {
            Ok(v) => {
                &&& dec_ops_at(bytes@.skip(*old(pos) as int)) matches Some((d, n)) && d == ops_view(
                    v@,
                ) && *final(pos) == *old(pos) + n
            },
            Err(_) => {
                &&& dec_ops_at(bytes@.skip(*old(pos) as int)) is None
                &&& *final(pos) == *old(pos)
            },
        },
        *final(pos) <= bytes@.len(),
        *old(pos) <= *final(pos),
{
    let start: usize = *pos;
    let count64 = match read_u64(bytes, pos) {
        Ok(v) => v,
        Err(e) => {
            return Err(e);
        },
    };
    if count64 > usize::MAX as u64 {
        *pos = start;
        return Err(WireError::Malformed);
    }
    let count = count64 as usize;
    let mut out: Vec<PartialUpdate> = Vec::new();
    let mut k: usize = 0;
    proof {
        assert(bytes@.skip(start as int).skip(8) =~= bytes@.skip(start + 8));
        lemma_ops_cont_init(bytes@, start + 8, count as nat);
        assert(ops_view(out@) =~= Seq::<PartialView>::empty());
    }
    while k < count
        invariant
            k <= count,
            *pos <= bytes@.len(),
            out@.len() == k,
            start == *old(pos),
            start <= bytes@.len(),
            dec_u64_at(bytes@.skip(start as int)) == Some((count as u64, 8int)),
            count <= usize::MAX,
            start + 8 <= *pos,
            ops_cont(bytes@, start + 8, *pos as int, ops_view(out@), count as nat),
        decreases count - k,
    {
        let ghost pos0: usize = *pos;
        let ghost done0 = ops_view(out@);
        let op = match read_op(bytes, pos) {
            Ok(v) => v,
            Err(_) => {
                proof {
                    lemma_ops_cont_fail(bytes@, start + 8, *pos as int, done0, count as nat);
                    assert(bytes@.skip(start as int).skip(8) =~= bytes@.skip(start + 8));
                    assert(dec_ops_at(bytes@.skip(start as int)) is None);
                }
                *pos = start;
                return Err(WireError::Truncated);
            },
        };
        out.push(op);
        k += 1;
        proof {
            lemma_ops_cont_step(
                bytes@,
                start + 8,
                pos0 as int,
                *pos as int,
                done0,
                out@[k - 1]@,
                count as nat,
            );
            assert(done0.push(out@[k - 1]@) =~= ops_view(out@));
        }
    }
    proof {
        lemma_ops_cont_finish(bytes@, start + 8, *pos as int, ops_view(out@), count as nat);
        assert(bytes@.skip(start as int).skip(8) =~= bytes@.skip(start + 8));
        assert(dec_ops_at(bytes@.skip(start as int)) == Some((ops_view(out@), *pos - start)));
    }
    Ok(out)
}

/// Specification encoding of an [`UpdateData`]: a tag byte, then the frame,
/// then (for a partial update) the operations.
pub open spec fn enc_update(u: UpdateView) -> Seq<u8> {
    match u {
        UpdateView::FullUpdate(f) => seq![0u8] + enc_frame(f),
        UpdateView::Partial(f, ops) => seq![1u8] + enc_frame(f) + enc_ops(ops),
    }
}

/// Specification decoding of an [`UpdateData`] from the front of `s`.
pub open spec fn dec_update_at(s: Seq<u8>) -> Option<(UpdateView, int)> {
    if s.len() < 1 {
        None
    } else if s[0] == 0u8 {
        match dec_frame_at(s.skip(1)) {
            Some((f, n)) => Some((UpdateView::FullUpdate(f), 1 + n)),
            None => None,
        }
    } else if s[0] == 1u8 {
        match dec_frame_at(s.skip(1)) {
            Some((f, n)) => match dec_ops_at(s.skip(1 + n)) {
                Some((ops, m)) => Some((UpdateView::Partial(f, ops), 1 + n + m)),
                None => None,
            },
            None => None,
        }
    } else {
        None
    }
}

/// Machine-size bounds under which an update can exist in memory.
pub open spec fn wf_update(u: UpdateView) -> bool {
    match u {
        UpdateView::FullUpdate(f) => wf_frame(f),
        UpdateView::Partial(f, ops) => wf_frame(f) && wf_ops(ops),
    }
}

/// Decoding inverts encoding for [`UpdateData`].
pub proof fn lemma_update_round_trip(u: UpdateView, rest: Seq<u8>)
    requires
        wf_update(u),
    ensures
        dec_update_at(enc_update(u) + rest) == Some((u, enc_update(u).len() as int)),
{
    let whole = enc_update(u) + rest;
    match u {
        UpdateView::FullUpdate(f) => {
            lemma_add_assoc(seq![0u8], enc_frame(f), rest);
            assert(whole[0] == 0u8);
            lemma_skip_concat(seq![0u8], enc_frame(f) + rest);
            assert(whole.skip(1) == enc_frame(f) + rest);
            lemma_frame_round_trip(f, rest);
        },
        UpdateView::Partial(f, ops) => {
            let tail = enc_frame(f) + (enc_ops(ops) + rest);
            lemma_add_assoc(seq![1u8] + enc_frame(f), enc_ops(ops), rest);
            lemma_add_assoc(seq![1u8], enc_frame(f), enc_ops(ops) + rest);
            assert(whole == seq![1u8] + tail);
            assert(whole[0] == 1u8);
            lemma_skip_concat(seq![1u8], tail);
            assert(whole.skip(1) == tail);
            lemma_frame_round_trip(f, enc_ops(ops) + rest);
            let n = enc_frame(f).len() as int;
            lemma_skip_twice(whole, 1, n);
            lemma_skip_concat(enc_frame(f), enc_ops(ops) + rest);
            assert(whole.skip(1 + n) == enc_ops(ops) + rest);
            lemma_ops_round_trip(ops, rest);
        },
    }
}

/// Writes an [`UpdateData`] onto `out`.
pub fn write_update(out: &mut Vec<u8>, u: &UpdateData)
    ensures
        final(out)@ == old(out)@ + enc_update(u@),
{
    match u {
        UpdateData::FullUpdate(f) => {
            out.push(0u8);
            write_frame(out, f);
            proof {
                assert(final(out)@ =~= old(out)@ + enc_update(u@));
            }
        },
        UpdateData::Partial(f, ops) => {
            out.push(1u8);
            write_frame(out, f);
            write_ops(out, ops);
            proof {
                assert(final(out)@ =~= old(out)@ + enc_update(u@));
            }
        },
    }
}

/// Reads an [`UpdateData`] at `*pos`, advancing `*pos` past it on success.
pub fn read_update(bytes: &Vec<u8>, pos: &mut usize) -> (r: Result<UpdateData, WireError>)
    requires
        *old(pos) <= bytes@.len(),
    ensures
        match r {
            Ok(v) => {
                &&& dec_update_at(bytes@.skip(*old(pos) as int)) matches Some((d, n)) && d == v@
                    && *final(pos) == *old(pos) + n
            },
            Err(_) => {
                &&& dec_update_at(bytes@.skip(*old(pos) as int)) is None
                &&& *final(pos) == *old(pos)
            },
        },
        *final(pos) <= bytes@.len(),
        *old(pos) <= *final(pos),
{
    let start: usize = *pos;
    if bytes.len() - *pos < 1 {
        return Err(WireError::Truncated);
    }
    let tag = bytes[*pos];
    *pos = *pos + 1;
    proof {
        assert(bytes@.skip(start as int)[0] == tag);
        assert(bytes@.skip(start as int).skip(1) =~= bytes@.skip(start + 1));
    }
    if tag == 0 {
        let f = match read_frame(bytes, pos) {
            Ok(v) => v,
            Err(e) => {
                *pos = start;
                return Err(e);
            },
        };
        Ok(UpdateData::FullUpdate(f))
    } else if tag == 1 {
        let f = match read_frame(bytes, pos) {
            Ok(v) => v,
            Err(e) => {
                *pos = start;
                return Err(e);
            },
        };
        let ghost n1: int = *pos as int - (start as int + 1);
        proof {
            lemma_skip_twice(bytes@, start as int, 1 + n1);
            assert(bytes@.skip(start as int).skip(1 + n1) == bytes@.skip(*pos as int));
        }
        let ops = match read_ops(bytes, pos) {
            Ok(v) => v,
            Err(e) => {
                proof {
                    assert(dec_update_at(bytes@.skip(start as int)) is None);
                }
                *pos = start;
                return Err(e);
            },
        };
        Ok(UpdateData::Partial(f, ops))
    } else {
        *pos = start;
        Err(WireError::Malformed)
    }
}

} // verus!
