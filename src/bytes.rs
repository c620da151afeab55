//! Binary primitives: little-endian integers, NUL-terminated byte strings
//! and UTF-16 wide strings.

use vstd::prelude::*;
use vstd::utf8::{char_is_scalar, decode_utf8, valid_utf8};

use crate::error::VdfrError;

verus! {

broadcast use vstd::std_specs::vec::group_vec_axioms;

/// The little-endian `u32` held by `d[p..p + 4]`.
pub open spec fn le_u32(d: Seq<u8>, p: int) -> u32 {
    (d[p] as int + d[p + 1] as int * 0x100 + d[p + 2] as int * 0x10000 + d[p + 3] as int
        * 0x1000000) as u32
}

/// The little-endian `u64` held by `d[p..p + 8]`.
pub open spec fn le_u64(d: Seq<u8>, p: int) -> u64 {
    (le_u32(d, p) as int + le_u32(d, p + 4) as int * 0x1_0000_0000) as u64
}

/// The four little-endian bytes of `x`.
pub open spec fn u32_le(x: u32) -> Seq<u8> {
    seq![
        (x % 0x100) as u8,
        (x / 0x100 % 0x100) as u8,
        (x / 0x10000 % 0x100) as u8,
        (x / 0x1000000) as u8,
    ]
}

/// The eight little-endian bytes of `x`.
pub open spec fn u64_le(x: u64) -> Seq<u8> {
    u32_le((x % 0x1_0000_0000) as u32) + u32_le((x / 0x1_0000_0000) as u32)
}

/// Position of the first zero byte at or after `p`.
pub open spec fn find_nul(d: Seq<u8>, p: int) -> Option<int>
    decreases d.len() - p,
{
    if p < 0 || p >= d.len() {
        None
    } else if d[p] == 0 {
        Some(p)
    } else {
        find_nul(d, p + 1)
    }
}

/// Position of the first zero 16-bit unit at `p`, `p + 2`, `p + 4`, ...
pub open spec fn find_zero_unit(d: Seq<u8>, p: int) -> Option<int>
    decreases d.len() - p,
{
    if p < 0 || p + 1 >= d.len() {
        None
    } else if d[p] == 0 && d[p + 1] == 0 {
        Some(p)
    } else {
        find_zero_unit(d, p + 2)
    }
}

/// What `String::from_utf8_lossy` makes of `b`.
pub uninterp spec fn utf8_lossy_of(b: Seq<u8>) -> Seq<char>;

/// The text of the bytes `b`: valid UTF-8 decodes to its characters,
/// anything else as `String::from_utf8_lossy` replaces it.
pub open spec fn utf8_text(b: Seq<u8>) -> Seq<char> {
    if valid_utf8(b) {
        decode_utf8(b)
    } else {
        utf8_lossy_of(b)
    }
}

/// The text of the UTF-16 units `u`, or `None` where a surrogate is
/// unpaired: a unit outside D800..DFFF is a character of its own, a high
/// surrogate (D800..DBFF) followed by a low one (DC00..DFFF) is one
/// character from U+10000 on.
pub open spec fn utf16_decode(u: Seq<u16>) -> Option<Seq<char>>
    decreases u.len(),
{
    if u.len() == 0 {
        Some(Seq::empty())
    } else if u[0] < 0xD800 || u[0] > 0xDFFF {
        match utf16_decode(u.drop_first()) {
            Some(rest) => Some(seq![u[0] as u32 as char] + rest),
            None => None,
        }
    } else if u[0] <= 0xDBFF && u.len() >= 2 && 0xDC00 <= u[1] <= 0xDFFF {
        let c = (0x10000 + (u[0] - 0xD800) * 0x400 + (u[1] - 0xDC00)) as u32 as char;
        match utf16_decode(u.subrange(2, u.len() as int)) {
            Some(rest) => Some(seq![c] + rest),
            None => None,
        }
    } else {
        None
    }
}

/// The UTF-16 code units of `c`: one below U+10000, else a surrogate pair.
pub open spec fn utf16_of_char(c: char) -> Seq<u16> {
    let u = c as u32;
    if u < 0x10000 {
        seq![u as u16]
    } else {
        seq![(0xD800 + (u - 0x10000) / 0x400) as u16, (0xDC00 + (u - 0x10000) % 0x400) as u16]
    }
}

/// The UTF-16 code units of `s`.
pub open spec fn utf16_encode(s: Seq<char>) -> Seq<u16>
    decreases s.len(),
{
    if s.len() == 0 {
        Seq::empty()
    } else {
        utf16_of_char(s[0]) + utf16_encode(s.drop_first())
    }
}

/// Encoding one more character appends its units.
proof fn lemma_utf16_encode_push(s: Seq<char>, c: char)
    ensures
        utf16_encode(s.push(c)) == utf16_encode(s) + utf16_of_char(c),
    decreases s.len(),
{
    if s.len() == 0 {
        assert(s.push(c).drop_first() =~= Seq::<char>::empty());
        assert(s.push(c)[0] == c);
        let e = s.push(c).drop_first();
        assert(utf16_encode(e) == Seq::<u16>::empty());
        assert(utf16_encode(s) == Seq::<u16>::empty());
        assert(utf16_encode(s.push(c)) == utf16_of_char(c) + utf16_encode(e));
        assert(utf16_of_char(c) + Seq::<u16>::empty() =~= utf16_of_char(c));
        assert(Seq::<u16>::empty() + utf16_of_char(c) =~= utf16_of_char(c));
    } else {
        assert(s.push(c).drop_first() =~= s.drop_first().push(c));
        assert(s.push(c)[0] == s[0]);
        assert(utf16_encode(s.push(c)) == utf16_of_char(s[0]) + utf16_encode(s.push(c).drop_first()));
        lemma_utf16_encode_push(s.drop_first(), c);
        assert(utf16_of_char(s[0]) + (utf16_encode(s.drop_first()) + utf16_of_char(c)) =~= (
        utf16_of_char(s[0]) + utf16_encode(s.drop_first())) + utf16_of_char(c));
    }
}

/// The 16-bit units held by `b`, two bytes each, big- or little-endian.
pub open spec fn units_of(b: Seq<u8>, big_endian: bool) -> Seq<u16> {
    Seq::new(
        b.len() / 2,
        |i: int|
            if big_endian {
                (b[2 * i] as int * 0x100 + b[2 * i + 1] as int) as u16
            } else {
                (b[2 * i] as int + b[2 * i + 1] as int * 0x100) as u16
            },
    )
}

/// The bytes of a wide string's body with its byte-order mark removed, and
/// whether they are big-endian: `FE FF` marks big-endian, `FF FE`
/// little-endian, and no mark means big-endian.
pub open spec fn strip_bom(c: Seq<u8>) -> (Seq<u8>, bool) {
    if c.len() >= 2 && c[0] == 0xFE && c[1] == 0xFF {
        (c.subrange(2, c.len() as int), true)
    } else if c.len() >= 2 && c[0] == 0xFF && c[1] == 0xFE {
        (c.subrange(2, c.len() as int), false)
    } else {
        (c, true)
    }
}

/// A NUL-terminated byte string at `p`, decoded lossily, and the position
/// after its terminator.
pub open spec fn spec_cstring(d: Seq<u8>, p: int) -> Result<(Seq<char>, int), VdfrError> {
    match find_nul(d, p) {
        Some(e) => Ok((utf8_text(d.subrange(p, e)), e + 1)),
        None => Err(VdfrError::UnexpectedEof),
    }
}

/// A wide string at `p`, ended by a zero unit, and the position after it.
pub open spec fn spec_wide_string(d: Seq<u8>, p: int) -> Result<(Seq<char>, int), VdfrError> {
    match find_zero_unit(d, p) {
        Some(e) => {
            let (body, big) = strip_bom(d.subrange(p, e));
            match utf16_decode(units_of(body, big)) {
                Some(s) => Ok((s, e + 2)),
                None => Err(VdfrError::InvalidUtf16),
            }
        },
        None => Err(VdfrError::UnexpectedEof),
    }
}

/// Relies on `String::from_utf8_lossy`: valid UTF-8 decodes to its own
/// characters, and U+0000 comes only from a zero byte (an invalid sequence
/// becomes U+FFFD).
#[verifier::external_body]
fn decode_utf8_lossy(b: &[u8]) -> (r: String)
    ensures
        r@ == utf8_lossy_of(b@),
        valid_utf8(b@) ==> r@ == decode_utf8(b@),
        !b@.contains(0u8) ==> !r@.contains('\0'),
{
    String::from_utf8_lossy(b).into_owned()
}

/// Relies on `String::from_utf16`: UTF-16 decoding, failing on an unpaired
/// surrogate.
#[verifier::external_body]
fn decode_utf16(u: &[u16]) -> (r: Option<String>)
    ensures
        match r {
            Some(s) => utf16_decode(u@) == Some(s@),
            None => utf16_decode(u@) is None,
        },
{
    String::from_utf16(u).ok()
}

/// The UTF-16 code units of `s`.
fn encode_utf16(s: &str) -> (r: Vec<u16>)
    ensures
        r@ == utf16_encode(s@),
{
    let n = s.unicode_len();
    let mut r: Vec<u16> = Vec::new();
    let mut i: usize = 0;
    assert(s@.subrange(0, 0) =~= Seq::<char>::empty());
    while i < n
        invariant
            n == s@.len(),
            i <= n,
            r@ == utf16_encode(s@.subrange(0, i as int)),
        decreases n - i,
    {
        let ch = s.get_char(i);
        let c = ch as u32;
        proof {
            char_is_scalar(ch);
        }
        let ghost before = r@;
        if c < 0x10000 {
            r.push(c as u16);
        } else {
            r.push((0xD800 + (c - 0x10000) / 0x400) as u16);
            r.push((0xDC00 + (c - 0x10000) % 0x400) as u16);
        }
        assert(r@ =~= before + utf16_of_char(ch));
        proof {
            lemma_utf16_encode_push(s@.subrange(0, i as int), ch);
            assert(s@.subrange(0, i as int).push(ch) =~= s@.subrange(0, i + 1));
        }
        i += 1;
    }
    assert(s@.subrange(0, n as int) =~= s@);
    r
}

/// One byte at `pos`.
pub fn read_u8(d: &[u8], pos: usize) -> (r: Result<u8, VdfrError>)
    ensures
        pos < d@.len() ==> r == Ok::<u8, VdfrError>(d@[pos as int]),
        pos >= d@.len() ==> r == Err::<u8, VdfrError>(VdfrError::UnexpectedEof),
{
    if pos < d.len() {
        Ok(d[pos])
    } else {
        Err(VdfrError::UnexpectedEof)
    }
}

/// A little-endian `u32` at `pos`.
pub fn read_u32(d: &[u8], pos: usize) -> (r: Result<u32, VdfrError>)
    ensures
        pos + 4 <= d@.len() ==> r == Ok::<u32, VdfrError>(le_u32(d@, pos as int)),
        pos + 4 > d@.len() ==> r == Err::<u32, VdfrError>(VdfrError::UnexpectedEof),
{
    if d.len() < 4 || pos > d.len() - 4 {
        return Err(VdfrError::UnexpectedEof);
    }
    let v: u32 = d[pos] as u32 + d[pos + 1] as u32 * 0x100 + d[pos + 2] as u32 * 0x10000
        + d[pos + 3] as u32 * 0x1000000;
    Ok(v)
}

/// A little-endian `u64` at `pos`.
pub fn read_u64(d: &[u8], pos: usize) -> (r: Result<u64, VdfrError>)
    ensures
        pos + 8 <= d@.len() ==> r == Ok::<u64, VdfrError>(le_u64(d@, pos as int)),
        pos + 8 > d@.len() ==> r == Err::<u64, VdfrError>(VdfrError::UnexpectedEof),
{
    if d.len() < 8 || pos > d.len() - 8 {
        return Err(VdfrError::UnexpectedEof);
    }
    let lo = read_u32(d, pos)?;
    let hi = read_u32(d, pos + 4)?;
    Ok(lo as u64 + hi as u64 * 0x1_0000_0000)
}

/// Append the little-endian bytes of `x`.
pub fn push_u32(out: &mut Vec<u8>, x: u32)
    ensures
        final(out)@ == old(out)@ + u32_le(x),
{
    out.push((x % 0x100) as u8);
    out.push((x / 0x100 % 0x100) as u8);
    out.push((x / 0x10000 % 0x100) as u8);
    out.push((x / 0x1000000) as u8);
    assert(out@ =~= old(out)@ + u32_le(x));
}

/// Append the little-endian bytes of `x`.
pub fn push_u64(out: &mut Vec<u8>, x: u64)
    ensures
        final(out)@ == old(out)@ + u64_le(x),
{
    push_u32(out, (x % 0x1_0000_0000) as u32);
    push_u32(out, (x / 0x1_0000_0000) as u32);
    assert(out@ =~= old(out)@ + u64_le(x));
}

/// Append all of `b`.
pub fn push_all(out: &mut Vec<u8>, b: &[u8])
    ensures
        final(out)@ == old(out)@ + b@,
{
    let mut i: usize = 0;
    while i < b.len()
        invariant
            i <= b@.len(),
            out@ == old(out)@ + b@.subrange(0, i as int),
        decreases b.len() - i,
    {
        out.push(b[i]);
        i += 1;
        assert(out@ =~= old(out)@ + b@.subrange(0, i as int));
    }
    assert(b@.subrange(0, b@.len() as int) =~= b@);
}

/// The bytes `d[from..to]`.
pub fn copy_range(d: &[u8], from: usize, to: usize) -> (r: Vec<u8>)
    requires
        from <= to <= d@.len(),
    ensures
        r@ == d@.subrange(from as int, to as int),
{
    let mut r: Vec<u8> = Vec::new();
    let mut i: usize = from;
    while i < to
        invariant
            from <= i <= to <= d@.len(),
            r@ == d@.subrange(from as int, i as int),
        decreases to - i,
    {
        r.push(d[i]);
        i += 1;
        assert(r@ =~= d@.subrange(from as int, i as int));
    }
    r
}

/// A NUL-terminated byte string at `pos`.
pub fn read_cstring(d: &[u8], pos: usize) -> (r: Result<(String, usize), VdfrError>)
    ensures
        match r {
            Ok((s, q)) => spec_cstring(d@, pos as int) == Ok::<(Seq<char>, int), VdfrError>(
                (s@, q as int),
            ) && pos < q <= d@.len() && !s@.contains('\0'),
            Err(e) => spec_cstring(d@, pos as int) == Err::<(Seq<char>, int), VdfrError>(e),
        },
{
    let mut e: usize = pos;
    while e < d.len()
        invariant
            pos <= e,
            find_nul(d@, pos as int) == find_nul(d@, e as int),
            forall|j: int| pos <= j < e ==> d@[j] != 0,
        decreases d.len() - e,
    {
        if d[e] == 0 {
            let body = copy_range(d, pos, e);
            assert(!body@.contains(0u8)) by {
                if body@.contains(0u8) {
                    let j = choose|j: int| 0 <= j < body@.len() && body@[j] == 0u8;
                    assert(d@[pos + j] == 0);
                }
            }
            let s = decode_utf8_lossy(body.as_slice());
            return Ok((s, e + 1));
        }
        e += 1;
    }
    Err(VdfrError::UnexpectedEof)
}

/// A wide string at `pos`: units up to the first zero unit, with an
/// optional byte-order mark.
pub fn read_wide_string(d: &[u8], pos: usize) -> (r: Result<(String, usize), VdfrError>)
    ensures
        match r {
            Ok((s, q)) => spec_wide_string(d@, pos as int) == Ok::<(Seq<char>, int), VdfrError>(
                (s@, q as int),
            ) && pos < q <= d@.len(),
            Err(e) => spec_wide_string(d@, pos as int) == Err::<(Seq<char>, int), VdfrError>(e),
        },
{
    let mut e: usize = pos;
    while e < d.len() && d.len() - e >= 2
        invariant
            pos <= e,
            (e - pos) % 2 == 0,
            find_zero_unit(d@, pos as int) == find_zero_unit(d@, e as int),
        decreases d.len() - e,
    {
        if d[e] == 0 && d[e + 1] == 0 {
            let c = copy_range(d, pos, e);
            let ghost cs = c@;
            let n = c.len();
            let (start, big) = if n >= 2 && c[0] == 0xFE && c[1] == 0xFF {
                (2usize, true)
            } else if n >= 2 && c[0] == 0xFF && c[1] == 0xFE {
                (2usize, false)
            } else {
                (0usize, true)
            };
            let ghost body = cs.subrange(start as int, n as int);
            assert(strip_bom(cs) == (body, big)) by {
                assert(cs.subrange(0, n as int) =~= cs);
            }
            let mut units: Vec<u16> = Vec::new();
            let mut i: usize = 0;
            while i < (n - start) / 2
                invariant
                    start <= n,
                    n == cs.len(),
                    c@ == cs,
                    body == cs.subrange(start as int, n as int),
                    i <= (n - start) / 2,
                    units@ =~= units_of(body, big).subrange(0, i as int),
                decreases (n - start) / 2 - i,
            {
                let b0 = c[start + 2 * i] as u16;
                let b1 = c[start + 2 * i + 1] as u16;
                let u: u16 = if big {
                    b0 * 0x100 + b1
                } else {
                    b0 + b1 * 0x100
                };
                units.push(u);
                i += 1;
            }
            assert(units@ =~= units_of(body, big));
            return match decode_utf16(units.as_slice()) {
                Some(s) => Ok((s, e + 2)),
                None => Err(VdfrError::InvalidUtf16),
            };
        }
        e += 2;
    }
    Err(VdfrError::UnexpectedEof)
}

/// Append `s` as UTF-8 bytes and a zero byte.
pub fn write_utf8(out: &mut Vec<u8>, s: &str)
    ensures
        final(out)@ == old(out)@ + vstd::utf8::encode_utf8(s@).push(0u8),
{
    push_all(out, s.as_bytes());
    out.push(0);
}

/// The little-endian bytes of the units `u`.
pub open spec fn units_le(u: Seq<u16>) -> Seq<u8>
    decreases u.len(),
{
    if u.len() == 0 {
        Seq::empty()
    } else {
        units_le(u.drop_last()) + seq![(u.last() % 0x100) as u8, (u.last() / 0x100) as u8]
    }
}

/// Append `s` as little-endian UTF-16 units, then a zero unit and one more
/// zero byte.
pub fn write_utf16(out: &mut Vec<u8>, s: &str)
    ensures
        final(out)@ == old(out)@ + units_le(utf16_encode(s@)) + seq![0u8, 0u8, 0u8],
{
    let units = encode_utf16(s);
    let mut i: usize = 0;
    while i < units.len()
        invariant
            i <= units@.len(),
            out@ == old(out)@ + units_le(units@.subrange(0, i as int)),
        decreases units.len() - i,
    {
        let c = units[i];
        out.push((c % 0x100) as u8);
        out.push((c / 0x100) as u8);
        i += 1;
        assert(units@.subrange(0, i as int).drop_last() =~= units@.subrange(0, i - 1));
        assert(out@ =~= old(out)@ + units_le(units@.subrange(0, i as int)));
    }
    assert(units@.subrange(0, units@.len() as int) =~= units@);
    out.push(0);
    out.push(0);
    out.push(0);
    assert(out@ =~= old(out)@ + units_le(utf16_encode(s@)) + seq![0u8, 0u8, 0u8]);
}

} // verus!
