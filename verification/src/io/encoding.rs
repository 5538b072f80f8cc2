//! Character encodings: byte-order-mark detection, decoding of UTF-8,
//! UTF-16 and UTF-32 payloads, the single-byte legacy encodings, and
//! line-ending normalization.

use vstd::prelude::*;
use crate::error::XmlError;
use crate::text::{push_char, str_chars};
use vstd::utf8::{
    decode_utf8, decode_utf8_encode_utf8, encode_scalar, encode_utf8, encode_utf8_valid_utf8, valid_utf8,
};

verus! {

/// The encoding of a byte stream.
#[derive(Debug, Clone, Copy, PartialEq, Eq, Structural)]
pub enum Format {
    Utf8,
    Utf8Bom,
    Utf16Be,
    Utf16Le,
    Utf32Be,
    Utf32Le,
}

impl Default for Format {
    fn default() -> (r: Self)
        ensures
            r == Format::Utf8,
    {
        Format::Utf8
    }
}

/// The UTF-8 encoding of a character sequence followed by one more character.
pub proof fn lemma_utf8_push(cs: Seq<char>, c: char)
    ensures
        encode_utf8(cs.push(c)) == encode_utf8(cs) + encode_scalar(c as u32),
    decreases cs.len(),
{
    if cs.len() == 0 {
        assert(cs.push(c).drop_first() =~= Seq::<char>::empty());
        assert(encode_utf8(Seq::<char>::empty()) == Seq::<u8>::empty());
        assert(encode_utf8(cs.push(c)) =~= encode_scalar(c as u32));
    } else {
        lemma_utf8_push(cs.drop_first(), c);
        assert(cs.push(c).drop_first() =~= cs.drop_first().push(c));
        assert(encode_utf8(cs.push(c)) =~= encode_utf8(cs) + encode_scalar(c as u32));
    }
}

/// The UTF-16 code units of one character.
pub open spec fn utf16_char(c: char) -> Seq<u16> {
    let u = c as u32;
    if u < 0x10000 {
        seq![u as u16]
    } else {
        let v = (u - 0x10000) as u32;
        seq![(0xD800u32 + (v >> 10u32)) as u16, (0xDC00u32 + (v & 0x3FFu32)) as u16]
    }
}

/// The UTF-16 code units of a character sequence.
pub open spec fn utf16_seq(cs: Seq<char>) -> Seq<u16>
    decreases cs.len(),
{
    if cs.len() == 0 {
        Seq::empty()
    } else {
        utf16_seq(cs.drop_last()) + utf16_char(cs.last())
    }
}

/// Byte `k` (0 is the most significant) of a 16-bit unit.
pub open spec fn u16_byte(x: u16, k: int) -> u8 {
    if k == 0 {
        (x >> 8u16) as u8
    } else {
        (x & 0xFFu16) as u8
    }
}

/// Byte `k` (0 is the most significant) of a 32-bit value.
pub open spec fn u32_byte(x: u32, k: int) -> u8 {
    if k == 0 {
        (x >> 24u32) as u8
    } else if k == 1 {
        ((x >> 16u32) & 0xFFu32) as u8
    } else if k == 2 {
        ((x >> 8u32) & 0xFFu32) as u8
    } else {
        (x & 0xFFu32) as u8
    }
}

/// Code units written as bytes, most significant byte first when `big` holds.
pub open spec fn units_bytes(us: Seq<u16>, big: bool) -> Seq<u8> {
    Seq::new(2 * us.len(), |i: int| u16_byte(us[i / 2], if big { i % 2 } else { 1 - i % 2 }))
}

/// Code points written as four bytes each, most significant first when `big` holds.
pub open spec fn points_bytes(cs: Seq<char>, big: bool) -> Seq<u8> {
    Seq::new(4 * cs.len(), |i: int| u32_byte(cs[i / 4] as u32, if big { i % 4 } else { 3 - i % 4 }))
}

/// The bytes that encode `cs` in `format`, without a byte-order mark.
pub open spec fn encode(format: Format, cs: Seq<char>) -> Seq<u8> {
    match format {
        Format::Utf8 | Format::Utf8Bom => encode_utf8(cs),
        Format::Utf16Be => units_bytes(utf16_seq(cs), true),
        Format::Utf16Le => units_bytes(utf16_seq(cs), false),
        Format::Utf32Be => points_bytes(cs, true),
        Format::Utf32Le => points_bytes(cs, false),
    }
}

/// The byte-order mark a destination writes before its text.
pub open spec fn written_bom(format: Format) -> Seq<u8> {
    match format {
        Format::Utf8Bom => seq![0xEFu8, 0xBBu8, 0xBFu8],
        _ => Seq::empty(),
    }
}

/// The encoding and mark length `detect_bom` reports for a byte stream.
pub open spec fn bom_of(b: Seq<u8>) -> (Format, nat) {
    if b.len() >= 4 && b[0] == 0x00 && b[1] == 0x00 && b[2] == 0xFE && b[3] == 0xFF {
        (Format::Utf32Be, 4)
    } else if b.len() >= 4 && b[0] == 0xFF && b[1] == 0xFE && b[2] == 0x00 && b[3] == 0x00 {
        (Format::Utf32Le, 4)
    } else if b.len() >= 3 && b[0] == 0xEF && b[1] == 0xBB && b[2] == 0xBF {
        (Format::Utf8Bom, 3)
    } else if b.len() >= 2 && b[0] == 0xFE && b[1] == 0xFF {
        (Format::Utf16Be, 2)
    } else if b.len() >= 2 && b[0] == 0xFF && b[1] == 0xFE {
        (Format::Utf16Le, 2)
    } else {
        (Format::Utf8, 0)
    }
}

/// Detects a byte-order mark: the encoding it announces and its length.
pub fn detect_bom(bytes: &[u8]) -> (r: (Format, usize))
    ensures
        r.0 == bom_of(bytes@).0,
        r.1 == bom_of(bytes@).1,
{
    if bytes.len() >= 4 {
        if bytes[0] == 0x00 && bytes[1] == 0x00 && bytes[2] == 0xFE && bytes[3] == 0xFF {
            return (Format::Utf32Be, 4);
        }
        if bytes[0] == 0xFF && bytes[1] == 0xFE && bytes[2] == 0x00 && bytes[3] == 0x00 {
            return (Format::Utf32Le, 4);
        }
    }
    if bytes.len() >= 3 && bytes[0] == 0xEF && bytes[1] == 0xBB && bytes[2] == 0xBF {
        return (Format::Utf8Bom, 3);
    }
    if bytes.len() >= 2 {
        if bytes[0] == 0xFE && bytes[1] == 0xFF {
            return (Format::Utf16Be, 2);
        }
        if bytes[0] == 0xFF && bytes[1] == 0xFE {
            return (Format::Utf16Le, 2);
        }
    }
    (Format::Utf8, 0)
}

/// Calls `String::from_utf8`: `Some` exactly when the bytes are valid UTF-8,
/// and then the text they decode to.
#[verifier::external_body]
fn string_from_utf8(bytes: Vec<u8>) -> (r: Option<String>)
    ensures
        r is Some <==> valid_utf8(bytes@),
        r matches Some(s) ==> s@ == decode_utf8(bytes@),
{
    String::from_utf8(bytes).ok()
}

/// Calls `String::from_utf16`: `Some` exactly when the units are the UTF-16
/// encoding of some text, and then that text.
#[verifier::external_body]
fn string_from_utf16(units: &[u16]) -> (r: Option<String>)
    ensures
        r matches Some(s) ==> utf16_seq(s@) == units@,
        r is None ==> forall|cs: Seq<char>| #[trigger] utf16_seq(cs) != units@,
{
    String::from_utf16(units).ok()
}

/// A syntax error at the start of the input.
fn encoding_error(message: &str) -> (e: XmlError)
    ensures
        e is SyntaxError,
        e matches XmlError::SyntaxError { message: m, line, col } && m@ == message@ && line == 1 && col == 1,
{
    XmlError::SyntaxError { message: message.to_owned(), line: 1, col: 1 }
}

proof fn lemma_u16_bytes(a: u8, b: u8)
    ensures
        u16_byte((((a as u16) << 8u16) | (b as u16)) as u16, 0) == a,
        u16_byte((((a as u16) << 8u16) | (b as u16)) as u16, 1) == b,
{
    let x: u16 = (((a as u16) << 8u16) | (b as u16)) as u16;
    assert(((x >> 8u16) as u8) == a) by (bit_vector)
        requires
            x == (((a as u16) << 8u16) | (b as u16)) as u16,
    ;
    assert(((x & 0xFFu16) as u8) == b) by (bit_vector)
        requires
            x == (((a as u16) << 8u16) | (b as u16)) as u16,
    ;
}

proof fn lemma_u16_join(x: u16)
    ensures
        ((((u16_byte(x, 0) as u16) << 8u16) | (u16_byte(x, 1) as u16)) as u16) == x,
{
    let a = (x >> 8u16) as u8;
    let b = (x & 0xFFu16) as u8;
    assert(((((a as u16) << 8u16) | (b as u16)) as u16) == x) by (bit_vector)
        requires
            a == (x >> 8u16) as u8,
            b == (x & 0xFFu16) as u8,
    ;
}

proof fn lemma_u32_bytes(a: u8, b: u8, c: u8, d: u8)
    ensures
        ({
            let x = (((a as u32) << 24u32) | ((b as u32) << 16u32) | ((c as u32) << 8u32) | (d as u32)) as u32;
            u32_byte(x, 0) == a && u32_byte(x, 1) == b && u32_byte(x, 2) == c && u32_byte(x, 3) == d
        }),
{
    let x = (((a as u32) << 24u32) | ((b as u32) << 16u32) | ((c as u32) << 8u32) | (d as u32)) as u32;
    assert((x >> 24u32) as u8 == a && ((x >> 16u32) & 0xFFu32) as u8 == b && ((x >> 8u32) & 0xFFu32) as u8
        == c && (x & 0xFFu32) as u8 == d) by (bit_vector)
        requires
            x == (((a as u32) << 24u32) | ((b as u32) << 16u32) | ((c as u32) << 8u32) | (d as u32)) as u32,
    ;
}

proof fn lemma_u32_join(x: u32)
    ensures
        ((((u32_byte(x, 0) as u32) << 24u32) | ((u32_byte(x, 1) as u32) << 16u32) | ((u32_byte(x, 2) as u32)
            << 8u32) | (u32_byte(x, 3) as u32)) as u32) == x,
{
    let a = (x >> 24u32) as u8;
    let b = ((x >> 16u32) & 0xFFu32) as u8;
    let c = ((x >> 8u32) & 0xFFu32) as u8;
    let d = (x & 0xFFu32) as u8;
    assert(((((a as u32) << 24u32) | ((b as u32) << 16u32) | ((c as u32) << 8u32) | (d as u32)) as u32) == x)
        by (bit_vector)
        requires
            a == (x >> 24u32) as u8,
            b == ((x >> 16u32) & 0xFFu32) as u8,
            c == ((x >> 8u32) & 0xFFu32) as u8,
            d == (x & 0xFFu32) as u8,
    ;
}

/// The 16-bit units of a UTF-16 payload.
fn payload_units(p: &[u8], big: bool) -> (r: Vec<u16>)
    requires
        p@.len() % 2 == 0,
    ensures
        r@.len() * 2 == p@.len(),
        units_bytes(r@, big) == p@,
        forall|us: Seq<u16>| units_bytes(us, big) == p@ ==> us == r@,
{
    let mut r: Vec<u16> = Vec::new();
    let mut k: usize = 0;
    while k < p.len() / 2
        invariant
            p@.len() % 2 == 0,
            k <= p@.len() / 2,
            r@.len() == k,
            forall|j: int|
                0 <= j < k ==> u16_byte(#[trigger] r@[j], 0) == p@[2 * j + if big { 0int } else { 1int }]
                    && u16_byte(r@[j], 1) == p@[2 * j + if big { 1int } else { 0int }],
        decreases p@.len() / 2 - k,
    {
        let (a, b) = if big {
            (p[2 * k], p[2 * k + 1])
        } else {
            (p[2 * k + 1], p[2 * k])
        };
        let u: u16 = (((a as u16) << 8u16) | (b as u16)) as u16;
        proof {
            lemma_u16_bytes(a, b);
        }
        r.push(u);
        k = k + 1;
    }
    proof {
        let ub = units_bytes(r@, big);
        assert forall|i: int| 0 <= i < p@.len() implies ub[i] == p@[i] by {
            let j = i / 2;
            assert(0 <= j < r@.len());
            assert(i == 2 * j + i % 2);
        }
        assert(ub =~= p@);
        assert forall|us: Seq<u16>| units_bytes(us, big) == p@ implies us == r@ by {
            assert(us.len() == r@.len());
            assert forall|j: int| 0 <= j < us.len() implies us[j] == r@[j] by {
                let b0 = units_bytes(us, big)[2 * j];
                let b1 = units_bytes(us, big)[2 * j + 1];
                assert((2 * j) / 2 == j && (2 * j) % 2 == 0);
                assert((2 * j + 1) / 2 == j && (2 * j + 1) % 2 == 1);
                lemma_u16_join(us[j]);
                lemma_u16_join(r@[j]);
            }
            assert(us =~= r@);
        }
    }
    r
}

/// Decodes a UTF-32 payload, four bytes per character.
fn decode_utf32(p: &[u8], big: bool) -> (r: Option<String>)
    requires
        p@.len() % 4 == 0,
    ensures
        r matches Some(s) ==> points_bytes(s@, big) == p@,
        r is None ==> forall|cs: Seq<char>| #[trigger] points_bytes(cs, big) != p@,
{
    let mut out = String::new();
    let mut k: usize = 0;
    while k < p.len() / 4
        invariant
            p@.len() % 4 == 0,
            k <= p@.len() / 4,
            out@.len() == k,
            forall|j: int, q: int|
                0 <= j < k && 0 <= q < 4 ==> u32_byte(#[trigger] out@[j] as u32, if big { q } else { 3 - q })
                    == #[trigger] p@[4 * j + q],
        decreases p@.len() / 4 - k,
    {
        let (a, b, c, d) = if big {
            (p[4 * k], p[4 * k + 1], p[4 * k + 2], p[4 * k + 3])
        } else {
            (p[4 * k + 3], p[4 * k + 2], p[4 * k + 1], p[4 * k])
        };
        let code: u32 = (((a as u32) << 24u32) | ((b as u32) << 16u32) | ((c as u32) << 8u32) | (d as u32)) as u32;
        proof {
            lemma_u32_bytes(a, b, c, d);
        }
        match crate::numbers::char_from_u32(code) {
            None => {
                proof {
                    assert forall|cs: Seq<char>| #[trigger] points_bytes(cs, big) != p@ by {
                        if points_bytes(cs, big) == p@ {
                            let pb = points_bytes(cs, big);
                            assert(cs.len() * 4 == p@.len());
                            let x = cs[k as int] as u32;
                            let kk = k as int;
                            assert((4 * kk) / 4 == kk && (4 * kk) % 4 == 0);
                            assert((4 * kk + 1) / 4 == kk && (4 * kk + 1) % 4 == 1);
                            assert((4 * kk + 2) / 4 == kk && (4 * kk + 2) % 4 == 2);
                            assert((4 * kk + 3) / 4 == kk && (4 * kk + 3) % 4 == 3);
                            assert(pb[4 * kk] == p@[4 * kk]);
                            assert(pb[4 * kk + 1] == p@[4 * kk + 1]);
                            assert(pb[4 * kk + 2] == p@[4 * kk + 2]);
                            assert(pb[4 * kk + 3] == p@[4 * kk + 3]);
                            lemma_u32_join(x);
                            assert(x == code);
                            crate::numbers::lemma_char_scalar(cs[k as int]);
                        }
                    }
                }
                return None;
            },
            Some(ch) => {
                let ghost prev = out@;
                push_char(&mut out, ch);
                proof {
                    assert forall|j: int, q: int|
                        0 <= j < k + 1 && 0 <= q < 4 implies u32_byte(#[trigger] out@[j] as u32, if big { q } else { 3 - q })
                            == #[trigger] p@[4 * j + q] by {
                        if j < k {
                            assert(out@[j] == prev[j]);
                        }
                    }
                }
            },
        }
        k = k + 1;
    }
    proof {
        let pb = points_bytes(out@, big);
        assert forall|i: int| 0 <= i < p@.len() implies pb[i] == p@[i] by {
            let j = i / 4;
            let q = i % 4;
            assert(i == 4 * j + q);
        }
        assert(pb =~= p@);
    }
    Some(out)
}

/// Decodes `bytes[bom_offset..]` in the given encoding. Fails with a syntax
/// error exactly when no text has that encoding.
pub fn decode_to_utf8(bytes: &[u8], format: Format, bom_offset: usize) -> (r: Result<String, XmlError>)
    requires
        bom_offset <= bytes@.len(),
    ensures
        r matches Ok(s) ==> encode(format, s@) == bytes@.skip(bom_offset as int),
        r matches Err(e) ==> e is SyntaxError && forall|cs: Seq<char>| #[trigger] encode(format, cs) != bytes@.skip(
            bom_offset as int,
        ),
        r matches Err(XmlError::SyntaxError { line, col, .. }) ==> line == 1 && col == 1,
{
    let mut payload: Vec<u8> = Vec::new();
    let mut i = bom_offset;
    while i < bytes.len()
        invariant
            bom_offset <= i <= bytes@.len(),
            payload@ == bytes@.subrange(bom_offset as int, i as int),
        decreases bytes@.len() - i,
    {
        payload.push(bytes[i]);
        assert(bytes@.subrange(bom_offset as int, i + 1) == bytes@.subrange(bom_offset as int, i as int).push(bytes@[i as int]));
        i = i + 1;
    }
    let ghost p = bytes@.skip(bom_offset as int);
    assert(payload@ == p);
    match format {
        Format::Utf8 | Format::Utf8Bom => {
            match string_from_utf8(payload) {
                Some(s) => {
                    proof {
                        decode_utf8_encode_utf8(p);
                    }
                    Ok(s)
                },
                None => {
                    proof {
                        assert forall|cs: Seq<char>| #[trigger] encode(format, cs) != p by {
                            encode_utf8_valid_utf8(cs);
                        }
                    }
                    Err(encoding_error("Invalid UTF-8 sequence"))
                },
            }
        },
        Format::Utf16Be | Format::Utf16Le => {
            let big = match format {
                Format::Utf16Be => true,
                _ => false,
            };
            if payload.len() % 2 != 0 {
                proof {
                    assert forall|cs: Seq<char>| #[trigger] encode(format, cs) != p by {
                        assert(encode(format, cs) == units_bytes(utf16_seq(cs), big));
                    }
                }
                return Err(encoding_error("Invalid UTF-16 byte length"));
            }
            let units = payload_units(&payload, big);
            match string_from_utf16(&units) {
                Some(s) => Ok(s),
                None => {
                    proof {
                        assert forall|cs: Seq<char>| #[trigger] encode(format, cs) != p by {
                            assert(encode(format, cs) == units_bytes(utf16_seq(cs), big));
                            if units_bytes(utf16_seq(cs), big) == p {
                                assert(utf16_seq(cs) == units@);
                            }
                        }
                    }
                    Err(encoding_error("Invalid UTF-16 sequence"))
                },
            }
        },
        Format::Utf32Be | Format::Utf32Le => {
            let big = match format {
                Format::Utf32Be => true,
                _ => false,
            };
            if payload.len() % 4 != 0 {
                proof {
                    assert forall|cs: Seq<char>| #[trigger] encode(format, cs) != p by {
                        assert(encode(format, cs) == points_bytes(cs, big));
                    }
                }
                return Err(encoding_error("Invalid UTF-32 byte length"));
            }
            match decode_utf32(&payload, big) {
                Some(s) => Ok(s),
                None => {
                    proof {
                        assert forall|cs: Seq<char>| #[trigger] encode(format, cs) != p by {
                            assert(encode(format, cs) == points_bytes(cs, big));
                        }
                    }
                    Err(encoding_error("Invalid Unicode codepoint"))
                },
            }
        },
    }
}

/// Text with every `\r\n` pair and every lone `\r` turned into `\n`.
pub open spec fn normalize_newlines(s: Seq<char>) -> Seq<char>
    decreases s.len(),
{
    if s.len() == 0 {
        Seq::empty()
    } else if s[0] == '\r' {
        if s.len() >= 2 && s[1] == '\n' {
            seq!['\n'] + normalize_newlines(s.skip(2))
        } else {
            seq!['\n'] + normalize_newlines(s.skip(1))
        }
    } else {
        seq![s[0]] + normalize_newlines(s.skip(1))
    }
}

/// The characters of `s` with line endings normalized.
pub fn normalize_chars(s: &[char]) -> (r: Vec<char>)
    ensures
        r@ == normalize_newlines(s@),
{
    let mut out: Vec<char> = Vec::new();
    let mut i: usize = 0;
    assert(s@.skip(0) == s@);
    while i < s.len()
        invariant
            i <= s@.len(),
            normalize_newlines(s@) == out@ + normalize_newlines(s@.skip(i as int)),
        decreases s@.len() - i,
    {
        let ghost rest = s@.skip(i as int);
        assert(rest[0] == s@[i as int]);
        if s[i] == '\r' {
            if i + 1 < s.len() && s[i + 1] == '\n' {
                assert(rest[1] == s@[i + 1]);
                assert(rest.skip(2) == s@.skip(i + 2));
                out.push('\n');
                assert(out@ + normalize_newlines(s@.skip(i + 2)) == (out@.drop_last() + seq!['\n']) + normalize_newlines(rest.skip(2)));
                i = i + 2;
            } else {
                assert(rest.skip(1) == s@.skip(i + 1));
                out.push('\n');
                i = i + 1;
            }
        } else {
            assert(rest.skip(1) == s@.skip(i + 1));
            out.push(s[i]);
            i = i + 1;
        }
    }
    assert(s@.skip(i as int) == Seq::<char>::empty());
    out
}

/// Text with line endings normalized to `\n`.
pub fn normalize_line_endings(input: &str) -> (r: String)
    ensures
        r@ == normalize_newlines(input@),
{
    let cs = normalize_chars(&str_chars(input));
    crate::text::string_from_chars(&cs)
}

/// Decodes a byte stream in the encoding its byte-order mark announces
/// (UTF-8 when there is none), and reports that encoding.
pub fn detect_encoding_and_strip_bom(bytes: &[u8]) -> (r: Result<(String, Format), XmlError>)
    ensures
        r matches Ok((s, f)) ==> f == bom_of(bytes@).0 && encode(f, s@) == bytes@.skip(bom_of(bytes@).1 as int),
        r matches Err(e) ==> e is SyntaxError && forall|cs: Seq<char>| #[trigger] encode(bom_of(bytes@).0, cs)
            != bytes@.skip(bom_of(bytes@).1 as int),
{
    let (format, offset) = detect_bom(bytes);
    match decode_to_utf8(bytes, format, offset) {
        Ok(s) => Ok((s, format)),
        Err(e) => Err(e),
    }
}

/// The Windows-1252 character of a byte; bytes that code page leaves
/// unassigned stand for the control character of the same number.
pub open spec fn cp1252_char(b: u8) -> char {
    if b == 0x80 { '\u{20AC}' }
    else if b == 0x82 { '\u{201A}' }
    else if b == 0x83 { '\u{0192}' }
    else if b == 0x84 { '\u{201E}' }
    else if b == 0x85 { '\u{2026}' }
    else if b == 0x86 { '\u{2020}' }
    else if b == 0x87 { '\u{2021}' }
    else if b == 0x88 { '\u{02C6}' }
    else if b == 0x89 { '\u{2030}' }
    else if b == 0x8A { '\u{0160}' }
    else if b == 0x8B { '\u{2039}' }
    else if b == 0x8C { '\u{0152}' }
    else if b == 0x8E { '\u{017D}' }
    else if b == 0x91 { '\u{2018}' }
    else if b == 0x92 { '\u{2019}' }
    else if b == 0x93 { '\u{201C}' }
    else if b == 0x94 { '\u{201D}' }
    else if b == 0x95 { '\u{2022}' }
    else if b == 0x96 { '\u{2013}' }
    else if b == 0x97 { '\u{2014}' }
    else if b == 0x98 { '\u{02DC}' }
    else if b == 0x99 { '\u{2122}' }
    else if b == 0x9A { '\u{0161}' }
    else if b == 0x9B { '\u{203A}' }
    else if b == 0x9C { '\u{0153}' }
    else if b == 0x9E { '\u{017E}' }
    else if b == 0x9F { '\u{0178}' }
    else { b as char }
}

/// The Windows-1252 character of a byte.
fn cp1252(b: u8) -> (c: char)
    ensures
        c == cp1252_char(b),
{
    if b == 0x80 { '\u{20AC}' }
    else if b == 0x82 { '\u{201A}' }
    else if b == 0x83 { '\u{0192}' }
    else if b == 0x84 { '\u{201E}' }
    else if b == 0x85 { '\u{2026}' }
    else if b == 0x86 { '\u{2020}' }
    else if b == 0x87 { '\u{2021}' }
    else if b == 0x88 { '\u{02C6}' }
    else if b == 0x89 { '\u{2030}' }
    else if b == 0x8A { '\u{0160}' }
    else if b == 0x8B { '\u{2039}' }
    else if b == 0x8C { '\u{0152}' }
    else if b == 0x8E { '\u{017D}' }
    else if b == 0x91 { '\u{2018}' }
    else if b == 0x92 { '\u{2019}' }
    else if b == 0x93 { '\u{201C}' }
    else if b == 0x94 { '\u{201D}' }
    else if b == 0x95 { '\u{2022}' }
    else if b == 0x96 { '\u{2013}' }
    else if b == 0x97 { '\u{2014}' }
    else if b == 0x98 { '\u{02DC}' }
    else if b == 0x99 { '\u{2122}' }
    else if b == 0x9A { '\u{0161}' }
    else if b == 0x9B { '\u{203A}' }
    else if b == 0x9C { '\u{0153}' }
    else if b == 0x9E { '\u{017E}' }
    else if b == 0x9F { '\u{0178}' }
    else { b as char }
}

/// A single-byte character set.
pub enum ByteCharset {
    /// ISO-8859-1: each byte is the character of the same number.
    Latin1,
    /// Windows-1252.
    Cp1252,
    /// US-ASCII: bytes below 0x80 only.
    Ascii,
}

/// The character a byte stands for in a single-byte character set, if any.
pub open spec fn byte_char(cs: ByteCharset, b: u8) -> Option<char> {
    match cs {
        ByteCharset::Latin1 => Some(b as char),
        ByteCharset::Cp1252 => Some(cp1252_char(b)),
        ByteCharset::Ascii => if b < 0x80 { Some(b as char) } else { None },
    }
}

/// Decodes bytes in a single-byte character set: one character per byte,
/// failing on the first byte the set leaves out.
pub fn decode_single_byte(bytes: &[u8], charset: ByteCharset) -> (r: Result<String, XmlError>)
    ensures
        r matches Ok(s) ==> s@.len() == bytes@.len() && forall|i: int| 0 <= i < bytes@.len() ==> byte_char(charset, bytes@[i]) == Some(#[trigger] s@[i]),
        r matches Err(e) ==> e is SyntaxError && exists|i: int| 0 <= i < bytes@.len() && #[trigger] byte_char(charset, bytes@[i]) is None,
{
    let mut out = String::new();
    let mut i: usize = 0;
    while i < bytes.len()
        invariant
            i <= bytes@.len(),
            out@.len() == i,
            forall|j: int| 0 <= j < i ==> byte_char(charset, bytes@[j]) == Some(#[trigger] out@[j]),
        decreases bytes@.len() - i,
    {
        let b = bytes[i];
        let c = match charset {
            ByteCharset::Latin1 => b as char,
            ByteCharset::Cp1252 => cp1252(b),
            ByteCharset::Ascii => {
                if b >= 0x80 {
                    assert(byte_char(charset, bytes@[i as int]) is None);
                    return Err(encoding_error("Byte outside US-ASCII range"));
                }
                b as char
            },
        };
        let ghost prev = out@;
        push_char(&mut out, c);
        proof {
            assert forall|j: int| 0 <= j < i + 1 implies byte_char(charset, bytes@[j]) == Some(#[trigger] out@[j]) by {
                if j < i {
                    assert(out@[j] == prev[j]);
                }
            }
        }
        i = i + 1;
    }
    Ok(out)
}

/// An encoding name in upper case.
pub open spec fn upper_name(s: Seq<char>) -> Seq<char> {
    s.map_values(|c: char| if 'a' <= c <= 'z' { ((c as u32) - 32) as char } else { c })
}

/// What an encoding name selects.
pub enum EncodingChoice {
    /// Detect the encoding from the byte-order mark.
    Detect,
    /// A UTF-16 or UTF-32 encoding, with its mark skipped when present.
    Unicode(Format),
    /// A single-byte character set.
    Single(ByteCharset),
    /// A name this library does not know.
    Unknown,
}

/// What an encoding name selects, compared without regard to case.
pub open spec fn encoding_choice(name: Seq<char>) -> EncodingChoice {
    let u = upper_name(name);
    if u == seq!['U', 'T', 'F', '-', '8'] || u == seq!['U', 'T', 'F', '8'] || u == seq!['U', 'T', 'F', '-', '1', '6'] || u == seq!['U', 'T', 'F', '-', '3', '2'] {
        EncodingChoice::Detect
    } else if u == seq!['U', 'T', 'F', '-', '1', '6', 'B', 'E'] {
        EncodingChoice::Unicode(Format::Utf16Be)
    } else if u == seq!['U', 'T', 'F', '-', '1', '6', 'L', 'E'] {
        EncodingChoice::Unicode(Format::Utf16Le)
    } else if u == seq!['U', 'T', 'F', '-', '3', '2', 'B', 'E'] {
        EncodingChoice::Unicode(Format::Utf32Be)
    } else if u == seq!['U', 'T', 'F', '-', '3', '2', 'L', 'E'] {
        EncodingChoice::Unicode(Format::Utf32Le)
    } else if u == seq!['I', 'S', 'O', '-', '8', '8', '5', '9', '-', '1'] || u == seq!['L', 'A', 'T', 'I', 'N', '1'] || u == seq!['L', 'A', 'T', 'I', 'N', '-', '1'] {
        EncodingChoice::Single(ByteCharset::Latin1)
    } else if u == seq!['W', 'I', 'N', 'D', 'O', 'W', 'S', '-', '1', '2', '5', '2'] || u == seq!['C', 'P', '1', '2', '5', '2'] {
        EncodingChoice::Single(ByteCharset::Cp1252)
    } else if u == seq!['U', 'S', '-', 'A', 'S', 'C', 'I', 'I'] || u == seq!['A', 'S', 'C', 'I', 'I'] {
        EncodingChoice::Single(ByteCharset::Ascii)
    } else {
        EncodingChoice::Unknown
    }
}

/// The characters of an encoding name in upper case.
fn upper_chars(name: &str) -> (r: Vec<char>)
    ensures
        r@ == upper_name(name@),
{
    let cs = str_chars(name);
    let mut out: Vec<char> = Vec::new();
    let mut i: usize = 0;
    while i < cs.len()
        invariant
            i <= cs@.len(),
            cs@ == name@,
            out@ == upper_name(cs@.take(i as int)),
        decreases cs@.len() - i,
    {
        let c = cs[i];
        let u = if 'a' <= c && c <= 'z' {
            ((c as u32) - 32) as u8 as char
        } else {
            c
        };
        out.push(u);
        assert(upper_name(cs@.take(i + 1)) =~= upper_name(cs@.take(i as int)).push(u));
        i = i + 1;
    }
    assert(cs@.take(cs@.len() as int) =~= cs@);
    out
}

/// What an encoding name selects.
fn choose_encoding(name: &str) -> (r: EncodingChoice)
    ensures
        r == encoding_choice(name@),
{
    let u = upper_chars(name);
    let v = u.as_slice();
    if crate::text::chars_eq(v, &['U', 'T', 'F', '-', '8']) || crate::text::chars_eq(v, &['U', 'T', 'F', '8'])
        || crate::text::chars_eq(v, &['U', 'T', 'F', '-', '1', '6']) || crate::text::chars_eq(v, &['U', 'T', 'F', '-', '3', '2']) {
        EncodingChoice::Detect
    } else if crate::text::chars_eq(v, &['U', 'T', 'F', '-', '1', '6', 'B', 'E']) {
        EncodingChoice::Unicode(Format::Utf16Be)
    } else if crate::text::chars_eq(v, &['U', 'T', 'F', '-', '1', '6', 'L', 'E']) {
        EncodingChoice::Unicode(Format::Utf16Le)
    } else if crate::text::chars_eq(v, &['U', 'T', 'F', '-', '3', '2', 'B', 'E']) {
        EncodingChoice::Unicode(Format::Utf32Be)
    } else if crate::text::chars_eq(v, &['U', 'T', 'F', '-', '3', '2', 'L', 'E']) {
        EncodingChoice::Unicode(Format::Utf32Le)
    } else if crate::text::chars_eq(v, &['I', 'S', 'O', '-', '8', '8', '5', '9', '-', '1'])
        || crate::text::chars_eq(v, &['L', 'A', 'T', 'I', 'N', '1']) || crate::text::chars_eq(v, &['L', 'A', 'T', 'I', 'N', '-', '1']) {
        EncodingChoice::Single(ByteCharset::Latin1)
    } else if crate::text::chars_eq(v, &['W', 'I', 'N', 'D', 'O', 'W', 'S', '-', '1', '2', '5', '2'])
        || crate::text::chars_eq(v, &['C', 'P', '1', '2', '5', '2']) {
        EncodingChoice::Single(ByteCharset::Cp1252)
    } else if crate::text::chars_eq(v, &['U', 'S', '-', 'A', 'S', 'C', 'I', 'I']) || crate::text::chars_eq(v, &['A', 'S', 'C', 'I', 'I']) {
        EncodingChoice::Single(ByteCharset::Ascii)
    } else {
        EncodingChoice::Unknown
    }
}

/// The length of the byte-order mark of `format` at the start of `b`, or 0.
pub open spec fn mark_len(b: Seq<u8>, format: Format) -> nat {
    if bom_of(b).0 == format {
        bom_of(b).1
    } else {
        0
    }
}

/// Decodes bytes in the named encoding (compared without regard to case):
/// UTF-8, UTF-16 and UTF-32 by their byte-order mark, UTF-16/32 BE/LE with
/// their mark skipped when present, ISO-8859-1, Windows-1252 and US-ASCII one
/// byte per character (reported as UTF-8). An unknown name is a syntax error.
pub fn decode_with_encoding(bytes: &[u8], encoding: &str) -> (r: Result<(String, Format), XmlError>)
    ensures
        match encoding_choice(encoding@) {
            EncodingChoice::Detect => match r {
                Ok((s, f)) => f == bom_of(bytes@).0 && encode(f, s@) == bytes@.skip(bom_of(bytes@).1 as int),
                Err(e) => e is SyntaxError && forall|cs: Seq<char>| #[trigger] encode(bom_of(bytes@).0, cs)
                    != bytes@.skip(bom_of(bytes@).1 as int),
            },
            EncodingChoice::Unicode(g) => match r {
                Ok((s, f)) => f == g && encode(g, s@) == bytes@.skip(mark_len(bytes@, g) as int),
                Err(e) => e is SyntaxError && forall|cs: Seq<char>| #[trigger] encode(g, cs) != bytes@.skip(
                    mark_len(bytes@, g) as int,
                ),
            },
            EncodingChoice::Single(c) => match r {
                Ok((s, f)) => f == Format::Utf8 && s@.len() == bytes@.len() && forall|i: int|
                    0 <= i < bytes@.len() ==> byte_char(c, bytes@[i]) == Some(#[trigger] s@[i]),
                Err(e) => e is SyntaxError && exists|i: int| 0 <= i < bytes@.len() && #[trigger] byte_char(c, bytes@[i]) is None,
            },
            EncodingChoice::Unknown => r matches Err(e) && e is SyntaxError,
        },
{
    match choose_encoding(encoding) {
        EncodingChoice::Detect => detect_encoding_and_strip_bom(bytes),
        EncodingChoice::Unicode(g) => {
            let (f, off) = detect_bom(bytes);
            let skip = if f == g { off } else { 0 };
            match decode_to_utf8(bytes, g, skip) {
                Ok(s) => Ok((s, g)),
                Err(e) => Err(e),
            }
        },
        EncodingChoice::Single(c) => match decode_single_byte(bytes, c) {
            Ok(s) => Ok((s, Format::Utf8)),
            Err(e) => Err(e),
        },
        EncodingChoice::Unknown => Err(encoding_error("Unsupported character encoding")),
    }
}

proof fn lemma_surrogate_parts(v1: u32, v2: u32)
    requires
        v1 < 0x100000,
        v2 < 0x100000,
        (0xD800u32 + (v1 >> 10u32)) as u16 == (0xD800u32 + (v2 >> 10u32)) as u16,
        (0xDC00u32 + (v1 & 0x3FFu32)) as u16 == (0xDC00u32 + (v2 & 0x3FFu32)) as u16,
    ensures
        v1 == v2,
{
    assert(v1 == v2) by (bit_vector)
        requires
            v1 < 0x100000,
            v2 < 0x100000,
            (0xD800u32 + (v1 >> 10u32)) as u16 == (0xD800u32 + (v2 >> 10u32)) as u16,
            (0xDC00u32 + (v1 & 0x3FFu32)) as u16 == (0xDC00u32 + (v2 & 0x3FFu32)) as u16,
    ;
}

/// The last unit of a character's UTF-16 encoding is a low surrogate exactly
/// when the character needs two units.
proof fn lemma_utf16_last(c: char)
    ensures
        utf16_char(c).len() == 1 || utf16_char(c).len() == 2,
        (utf16_char(c).len() == 2) == (0xDC00 <= utf16_char(c).last() <= 0xDFFF),
{
    crate::numbers::lemma_char_scalar(c);
    let u = c as u32;
    if u >= 0x10000 {
        let v = (u - 0x10000) as u32;
        assert(0xDC00 <= (0xDC00u32 + (v & 0x3FFu32)) as u16 <= 0xDFFF) by (bit_vector)
            requires
                v < 0x100000,
        ;
    } else {
        assert((u as u16) as u32 == u);
    }
}

/// Different texts have different UTF-16 encodings.
proof fn lemma_utf16_injective(a: Seq<char>, b: Seq<char>)
    requires
        utf16_seq(a) == utf16_seq(b),
    ensures
        a == b,
    decreases a.len() + b.len(),
{
    if a.len() == 0 || b.len() == 0 {
        if a.len() > 0 {
            lemma_utf16_last(a.last());
            assert(utf16_seq(a).len() >= 1);
        }
        if b.len() > 0 {
            lemma_utf16_last(b.last());
            assert(utf16_seq(b).len() >= 1);
        }
        assert(a =~= b);
    } else {
        let ca = a.last();
        let cb = b.last();
        let ua = utf16_char(ca);
        let ub = utf16_char(cb);
        let sa = utf16_seq(a.drop_last());
        let sb = utf16_seq(b.drop_last());
        lemma_utf16_last(ca);
        lemma_utf16_last(cb);
        let whole = utf16_seq(a);
        assert(whole == sa + ua);
        assert(whole == sb + ub);
        assert(whole.last() == ua.last());
        assert(whole.last() == ub.last());
        assert(ua.len() == ub.len());
        crate::numbers::lemma_char_scalar(ca);
        crate::numbers::lemma_char_scalar(cb);
        let xa = ca as u32;
        let xb = cb as u32;
        if ua.len() == 1 {
            assert(ua[0] == whole[whole.len() - 1]);
            assert(ub[0] == whole[whole.len() - 1]);
            assert((xa as u16) as u32 == xa);
            assert((xb as u16) as u32 == xb);
        } else {
            assert(ua[0] == whole[whole.len() - 2]);
            assert(ub[0] == whole[whole.len() - 2]);
            assert(ua[1] == whole[whole.len() - 1]);
            assert(ub[1] == whole[whole.len() - 1]);
            lemma_surrogate_parts((xa - 0x10000) as u32, (xb - 0x10000) as u32);
        }
        vstd::utf8::char_u32_cast(ca, xa);
        vstd::utf8::char_u32_cast(cb, xb);
        assert(ca == cb);
        assert(sa =~= whole.subrange(0, whole.len() - ua.len()));
        assert(sb =~= whole.subrange(0, whole.len() - ub.len()));
        lemma_utf16_injective(a.drop_last(), b.drop_last());
        assert(a =~= a.drop_last().push(ca));
        assert(b =~= b.drop_last().push(cb));
    }
}

/// Different texts have different UTF-32 encodings.
proof fn lemma_points_injective(a: Seq<char>, b: Seq<char>, big: bool)
    requires
        points_bytes(a, big) == points_bytes(b, big),
    ensures
        a == b,
{
    assert(points_bytes(a, big).len() == 4 * a.len());
    assert(points_bytes(b, big).len() == 4 * b.len());
    assert forall|j: int| 0 <= j < a.len() implies a[j] == b[j] by {
        let pa = points_bytes(a, big);
        let pb = points_bytes(b, big);
        assert((4 * j) / 4 == j && (4 * j) % 4 == 0);
        assert((4 * j + 1) / 4 == j && (4 * j + 1) % 4 == 1);
        assert((4 * j + 2) / 4 == j && (4 * j + 2) % 4 == 2);
        assert((4 * j + 3) / 4 == j && (4 * j + 3) % 4 == 3);
        assert(pa[4 * j] == pb[4 * j]);
        assert(pa[4 * j + 1] == pb[4 * j + 1]);
        assert(pa[4 * j + 2] == pb[4 * j + 2]);
        assert(pa[4 * j + 3] == pb[4 * j + 3]);
        lemma_u32_join(a[j] as u32);
        lemma_u32_join(b[j] as u32);
        vstd::utf8::char_u32_cast(a[j], a[j] as u32);
        vstd::utf8::char_u32_cast(b[j], b[j] as u32);
    }
    assert(a =~= b);
}

/// Two 16-bit unit sequences with the same bytes are equal.
proof fn lemma_units_injective(a: Seq<u16>, b: Seq<u16>, big: bool)
    requires
        units_bytes(a, big) == units_bytes(b, big),
    ensures
        a == b,
{
    assert(units_bytes(a, big).len() == 2 * a.len());
    assert(units_bytes(b, big).len() == 2 * b.len());
    assert forall|j: int| 0 <= j < a.len() implies a[j] == b[j] by {
        let pa = units_bytes(a, big);
        let pb = units_bytes(b, big);
        assert((2 * j) / 2 == j && (2 * j) % 2 == 0);
        assert((2 * j + 1) / 2 == j && (2 * j + 1) % 2 == 1);
        assert(pa[2 * j] == pb[2 * j]);
        assert(pa[2 * j + 1] == pb[2 * j + 1]);
        lemma_u16_join(a[j]);
        lemma_u16_join(b[j]);
    }
    assert(a =~= b);
}

/// In every format, the bytes determine the text: what a destination
/// emits (after its byte-order mark) decodes back to exactly the text
/// that was written to it.
pub proof fn law_encoding_round_trip(format: Format, written: Seq<char>, decoded: Seq<char>)
    requires
        encode(format, decoded) == encode(format, written),
    ensures
        decoded == written,
{
    match format {
        Format::Utf8 | Format::Utf8Bom => {
            vstd::utf8::encode_utf8_decode_utf8(decoded);
            vstd::utf8::encode_utf8_decode_utf8(written);
        },
        Format::Utf16Be | Format::Utf16Le => {
            let big = format is Utf16Be;
            lemma_units_injective(utf16_seq(decoded), utf16_seq(written), big);
            lemma_utf16_injective(decoded, written);
        },
        Format::Utf32Be | Format::Utf32Le => {
            let big = format is Utf32Be;
            lemma_points_injective(decoded, written, big);
        },
    }
}

} // verus!
