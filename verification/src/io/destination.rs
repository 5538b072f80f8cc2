//! An output buffer that is written as text and turned into bytes in a
//! chosen encoding.

use vstd::prelude::*;
use crate::io::encoding::{
    encode, lemma_utf8_push, points_bytes, u16_byte, u32_byte, units_bytes, utf16_char, utf16_seq,
    written_bom, Format,
};
use vstd::utf8::{encode_scalar, encode_utf8};
use crate::text::{push_char, push_str, str_chars};

verus! {

/// Text written so far and the encoding it will be emitted in.
#[derive(Debug, Clone)]
pub struct XmlDestination {
    pub buffer: String,
    pub format: Format,
}

/// The UTF-8 bytes of one character.
fn utf8_bytes_of(c: char) -> (r: Vec<u8>)
    ensures
        r@ == encode_scalar(c as u32),
{
    let u = c as u32;
    proof {
        vstd::utf8::char_is_scalar(c);
    }
    if u <= 0x7F {
        vec![(u & 0x7F) as u8]
    } else if u <= 0x7FF {
        vec![0xC0u8 | ((u >> 6u32) & 0x1F) as u8, 0x80u8 | (u & 0x3F) as u8]
    } else if u <= 0xFFFF {
        vec![0xE0u8 | ((u >> 12u32) & 0x0F) as u8, 0x80u8 | ((u >> 6u32) & 0x3F) as u8, 0x80u8 | (u & 0x3F) as u8]
    } else {
        vec![
            0xF0u8 | ((u >> 18u32) & 0x7) as u8,
            0x80u8 | ((u >> 12u32) & 0x3F) as u8,
            0x80u8 | ((u >> 6u32) & 0x3F) as u8,
            0x80u8 | (u & 0x3F) as u8,
        ]
    }
}

/// The UTF-16 units of one character.
fn utf16_units_of(c: char) -> (r: Vec<u16>)
    ensures
        r@ == utf16_char(c),
{
    let u = c as u32;
    if u < 0x10000 {
        vec![u as u16]
    } else {
        let v = (u - 0x10000) as u32;
        proof {
            crate::numbers::lemma_char_scalar(c);
        }
        assert(v >> 10u32 <= 0x3FF) by (bit_vector)
            requires
                v < 0x100000,
        ;
        assert(v & 0x3FFu32 <= 0x3FF) by (bit_vector);
        vec![(0xD800u32 + (v >> 10u32)) as u16, (0xDC00u32 + (v & 0x3FFu32)) as u16]
    }
}

/// Appends the bytes of a 16-bit unit in the given order.
fn push_unit(out: &mut Vec<u8>, x: u16, big: bool)
    ensures
        final(out)@ == old(out)@ + seq![u16_byte(x, if big { 0 } else { 1 }), u16_byte(x, if big { 1 } else { 0 })],
{
    let hi = (x >> 8u16) as u8;
    let lo = (x & 0xFFu16) as u8;
    if big {
        out.push(hi);
        out.push(lo);
    } else {
        out.push(lo);
        out.push(hi);
    }
}

/// Appends the four bytes of a 32-bit value in the given order.
fn push_point(out: &mut Vec<u8>, x: u32, big: bool)
    ensures
        final(out)@ == old(out)@ + if big {
            seq![u32_byte(x, 0), u32_byte(x, 1), u32_byte(x, 2), u32_byte(x, 3)]
        } else {
            seq![u32_byte(x, 3), u32_byte(x, 2), u32_byte(x, 1), u32_byte(x, 0)]
        },
{
    let b0 = (x >> 24u32) as u8;
    let b1 = ((x >> 16u32) & 0xFFu32) as u8;
    let b2 = ((x >> 8u32) & 0xFFu32) as u8;
    let b3 = (x & 0xFFu32) as u8;
    if big {
        out.push(b0);
        out.push(b1);
        out.push(b2);
        out.push(b3);
    } else {
        out.push(b3);
        out.push(b2);
        out.push(b1);
        out.push(b0);
    }
}

/// The bytes encoding `cs` in `format`, after `prefix`.
fn encode_chars(prefix: Vec<u8>, cs: &[char], format: Format) -> (r: Vec<u8>)
    ensures
        r@ == prefix@ + encode(format, cs@),
{
    let mut out = prefix;
    let ghost p = out@;
    let mut i: usize = 0;
    match format {
        Format::Utf8 | Format::Utf8Bom => {
            while i < cs.len()
                invariant
                    i <= cs@.len(),
                    out@ == p + encode_utf8(cs@.take(i as int)),
                decreases cs@.len() - i,
            {
                let b = utf8_bytes_of(cs[i]);
                let mut k: usize = 0;
                let ghost before = out@;
                while k < b.len()
                    invariant
                        k <= b@.len(),
                        out@ == before + b@.take(k as int),
                    decreases b@.len() - k,
                {
                    out.push(b[k]);
                    assert(b@.take(k + 1) == b@.take(k as int).push(b@[k as int]));
                    k = k + 1;
                }
                assert(b@.take(b@.len() as int) == b@);
                assert(cs@.take(i + 1) == cs@.take(i as int).push(cs@[i as int]));
                proof {
                    lemma_utf8_push(cs@.take(i as int), cs@[i as int]);
                }
                i = i + 1;
            }
            assert(cs@.take(cs@.len() as int) == cs@);
        },
        Format::Utf16Be | Format::Utf16Le => {
            let big = match format {
                Format::Utf16Be => true,
                _ => false,
            };
            let mut units: Vec<u16> = Vec::new();
            while i < cs.len()
                invariant
                    i <= cs@.len(),
                    units@ == utf16_seq(cs@.take(i as int)),
                decreases cs@.len() - i,
            {
                let u = utf16_units_of(cs[i]);
                let ghost before = units@;
                let mut k: usize = 0;
                while k < u.len()
                    invariant
                        k <= u@.len(),
                        units@ == before + u@.take(k as int),
                    decreases u@.len() - k,
                {
                    units.push(u[k]);
                    assert(u@.take(k + 1) == u@.take(k as int).push(u@[k as int]));
                    k = k + 1;
                }
                assert(u@.take(u@.len() as int) == u@);
                assert(cs@.take(i + 1).drop_last() == cs@.take(i as int));
                i = i + 1;
            }
            assert(cs@.take(cs@.len() as int) == cs@);
            let mut j: usize = 0;
            while j < units.len()
                invariant
                    j <= units@.len(),
                    out@ == p + units_bytes(units@.take(j as int), big),
                decreases units@.len() - j,
            {
                push_unit(&mut out, units[j], big);
                proof {
                    let a = units_bytes(units@.take(j as int), big);
                    let b = units_bytes(units@.take(j + 1), big);
                    assert forall|q: int| 0 <= q < a.len() implies b[q] == a[q] by {
                        assert(q / 2 < j);
                    }
                    assert(2 * (j as int) / 2 == j && (2 * (j as int)) % 2 == 0);
                    assert((2 * (j as int) + 1) / 2 == j && (2 * (j as int) + 1) % 2 == 1);
                    assert(b =~= a + seq![u16_byte(units@[j as int], if big { 0 } else { 1 }), u16_byte(units@[j as int], if big { 1 } else { 0 })]);
                }
                j = j + 1;
            }
            assert(units@.take(units@.len() as int) == units@);
        },
        Format::Utf32Be | Format::Utf32Le => {
            let big = match format {
                Format::Utf32Be => true,
                _ => false,
            };
            while i < cs.len()
                invariant
                    i <= cs@.len(),
                    out@ == p + points_bytes(cs@.take(i as int), big),
                decreases cs@.len() - i,
            {
                push_point(&mut out, cs[i] as u32, big);
                proof {
                    let a = points_bytes(cs@.take(i as int), big);
                    let b = points_bytes(cs@.take(i + 1), big);
                    let ii = i as int;
                    assert forall|q: int| 0 <= q < a.len() implies b[q] == a[q] by {
                        assert(q / 4 < i);
                    }
                    assert((4 * ii) / 4 == ii && (4 * ii) % 4 == 0);
                    assert((4 * ii + 1) / 4 == ii && (4 * ii + 1) % 4 == 1);
                    assert((4 * ii + 2) / 4 == ii && (4 * ii + 2) % 4 == 2);
                    assert((4 * ii + 3) / 4 == ii && (4 * ii + 3) % 4 == 3);
                    let x = cs@[ii] as u32;
                    if big {
                        assert(b =~= a + seq![u32_byte(x, 0), u32_byte(x, 1), u32_byte(x, 2), u32_byte(x, 3)]);
                    } else {
                        assert(b =~= a + seq![u32_byte(x, 3), u32_byte(x, 2), u32_byte(x, 1), u32_byte(x, 0)]);
                    }
                }
                i = i + 1;
            }
            assert(cs@.take(cs@.len() as int) == cs@);
        },
    }
    out
}

impl XmlDestination {
    /// An empty destination emitting in `format`.
    pub fn new(format: Format) -> (r: Self)
        ensures
            r.buffer@ == Seq::<char>::empty(),
            r.format == format,
    {
        XmlDestination { buffer: String::new(), format }
    }

    /// Appends text.
    pub fn write_str(&mut self, s: &str)
        ensures
            final(self).buffer@ == old(self).buffer@ + s@,
            final(self).format == old(self).format,
    {
        push_str(&mut self.buffer, s);
    }

    /// Appends a character.
    pub fn write_char(&mut self, ch: char)
        ensures
            final(self).buffer@ == old(self).buffer@.push(ch),
            final(self).format == old(self).format,
    {
        push_char(&mut self.buffer, ch);
    }

    /// The written text encoded in the destination's format, preceded by a
    /// byte-order mark for UTF-8 with BOM.
    pub fn into_bytes(self) -> (r: Vec<u8>)
        ensures
            r@ == written_bom(self.format) + encode(self.format, self.buffer@),
    {
        let prefix: Vec<u8> = match self.format {
            Format::Utf8Bom => vec![0xEFu8, 0xBBu8, 0xBFu8],
            _ => Vec::new(),
        };
        assert(prefix@ =~= written_bom(self.format));
        let cs = str_chars(self.buffer.as_str());
        encode_chars(prefix, &cs, self.format)
    }
}

} // verus!
