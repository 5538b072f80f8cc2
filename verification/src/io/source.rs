//! The input cursor: normalized text, a position counted in bytes of its
//! UTF-8 encoding, and the line and column reached.

use vstd::prelude::*;
use crate::error::XmlError;
use crate::io::encoding::{
    bom_of, byte_char, decode_with_encoding, detect_encoding_and_strip_bom, encode, encoding_choice,
    lemma_utf8_push, mark_len, normalize_chars, normalize_newlines, EncodingChoice, Format,
};
use crate::numbers::{char_width, utf8_width};
use crate::text::{str_chars, string_from_chars};

verus! {

/// The number of bytes of the UTF-8 encoding of a text.
pub open spec fn byte_len(s: Seq<char>) -> nat
    decreases s.len(),
{
    if s.len() == 0 {
        0
    } else {
        byte_len(s.drop_last()) + utf8_width(s.last())
    }
}

/// Whether the UTF-8 encoding of a text takes more than `max` bytes.
pub fn utf8_longer(t: &str, max: usize) -> (r: bool)
    ensures
        r == (byte_len(t@) > max),
{
    let cs = str_chars(t);
    let mut total: usize = 0;
    let mut i: usize = 0;
    while i < cs.len()
        invariant
            i <= cs@.len(),
            cs@ == t@,
            total == byte_len(cs@.take(i as int)),
            total <= max,
        decreases cs@.len() - i,
    {
        let w = char_width(cs[i]);
        assert(cs@.take(i + 1).drop_last() =~= cs@.take(i as int));
        if w > max - total {
            proof {
                lemma_byte_len_prefix(cs@, i + 1);
            }
            return true;
        }
        total = total + w;
        i = i + 1;
    }
    assert(cs@.take(i as int) =~= cs@);
    false
}

/// The number of line feeds in a text.
pub open spec fn count_nl(s: Seq<char>) -> nat
    decreases s.len(),
{
    if s.len() == 0 {
        0
    } else {
        count_nl(s.drop_last()) + if s.last() == '\n' { 1nat } else { 0nat }
    }
}

/// The number of characters after the last line feed of a text.
pub open spec fn since_nl(s: Seq<char>) -> nat
    decreases s.len(),
{
    if s.len() == 0 {
        0
    } else if s.last() == '\n' {
        0
    } else {
        since_nl(s.drop_last()) + 1
    }
}

/// `x`, capped at the largest `usize`.
pub open spec fn capped(x: nat) -> nat {
    if x > usize::MAX {
        usize::MAX as nat
    } else {
        x
    }
}

/// The abstract state of a source.
pub struct SourceV {
    /// The whole normalized text.
    pub text: Seq<char>,
    /// How many characters have been consumed.
    pub idx: nat,
    /// The encoding the input was read in.
    pub format: Format,
}

impl SourceV {
    /// What is consumed.
    pub open spec fn done(self) -> Seq<char> {
        self.text.take(self.idx as int)
    }

    /// What is left.
    pub open spec fn rest(self) -> Seq<char> {
        self.text.skip(self.idx as int)
    }

    /// The position in bytes.
    pub open spec fn pos(self) -> nat {
        byte_len(self.done())
    }

    /// The 1-based line reached.
    pub open spec fn line(self) -> nat {
        capped(1 + count_nl(self.done()))
    }

    /// The 1-based column reached.
    pub open spec fn col(self) -> nat {
        capped(1 + since_nl(self.done()))
    }

    /// Whether everything has been consumed.
    pub open spec fn eof(self) -> bool {
        self.idx >= self.text.len()
    }

    /// The same source with `k` more characters consumed.
    pub open spec fn advanced(self, k: nat) -> SourceV {
        SourceV { idx: self.idx + k, ..self }
    }

    /// Whether the rest begins with `p` (never at the end of the text).
    pub open spec fn starts_with(self, p: Seq<char>) -> bool {
        !self.eof() && self.rest().len() >= p.len() && self.rest().take(p.len() as int) == p
    }
}

/// The number of leading white-space characters (space, tab, line feed,
/// carriage return) of a text.
pub open spec fn leading_space(s: Seq<char>) -> nat
    decreases s.len(),
{
    if s.len() > 0 && (s[0] == ' ' || s[0] == '\t' || s[0] == '\n' || s[0] == '\r') {
        1 + leading_space(s.skip(1))
    } else {
        0
    }
}

/// The character index at which a prefix of `s` is `b` bytes long, if any.
pub open spec fn char_index_at(s: Seq<char>, b: nat) -> Option<nat> {
    if exists|k: nat| k <= s.len() && byte_len(#[trigger] s.take(k as int)) == b {
        Some(choose|k: nat| k <= s.len() && byte_len(#[trigger] s.take(k as int)) == b)
    } else {
        None
    }
}

/// The text between two byte positions, or nothing when either is not at a
/// character boundary or they are out of order (both are first clamped to the
/// length).
pub open spec fn slice_spec(s: Seq<char>, start: nat, end: nat) -> Seq<char> {
    let m = byte_len(s);
    let a = if start < m { start } else { m };
    let b = if end < m { end } else { m };
    if a > b {
        Seq::empty()
    } else {
        match (char_index_at(s, a), char_index_at(s, b)) {
            (Some(i), Some(j)) => s.subrange(i as int, j as int),
            _ => Seq::empty(),
        }
    }
}

/// A text read from memory or bytes, with a cursor.
#[derive(Debug, Clone)]
pub struct XmlSource {
    chars: Vec<char>,
    idx: usize,
    pos: usize,
    line: usize,
    col: usize,
    format: Format,
}

impl View for XmlSource {
    type V = SourceV;

    closed spec fn view(&self) -> SourceV {
        SourceV { text: self.chars@, idx: self.idx as nat, format: self.format }
    }
}

pub proof fn lemma_byte_len_concat(a: Seq<char>, b: Seq<char>)
    ensures
        byte_len(a + b) == byte_len(a) + byte_len(b),
    decreases b.len(),
{
    if b.len() == 0 {
        assert(a + b =~= a);
    } else {
        lemma_byte_len_concat(a, b.drop_last());
        assert((a + b).drop_last() =~= a + b.drop_last());
    }
}

/// Each prefix is at most as long in bytes as the whole.
pub proof fn lemma_byte_len_prefix(s: Seq<char>, k: int)
    requires
        0 <= k <= s.len(),
    ensures
        byte_len(s.take(k)) <= byte_len(s),
        k < s.len() ==> byte_len(s.take(k)) < byte_len(s.take(k + 1)),
        k <= byte_len(s.take(k)),
    decreases s.len() - k,
{
    if k < s.len() {
        lemma_byte_len_prefix(s, k + 1);
        assert(s.take(k + 1).drop_last() =~= s.take(k));
    } else {
        assert(s.take(k) =~= s);
    }
    lemma_char_count_le_bytes(s.take(k));
}

proof fn lemma_char_count_le_bytes(s: Seq<char>)
    ensures
        s.len() <= byte_len(s),
    decreases s.len(),
{
    if s.len() > 0 {
        lemma_char_count_le_bytes(s.drop_last());
    }
}

/// Byte lengths of prefixes grow strictly with the prefix.
proof fn lemma_byte_len_strict(s: Seq<char>, i: int, j: int)
    requires
        0 <= i < j <= s.len(),
    ensures
        byte_len(s.take(i)) < byte_len(s.take(j)),
    decreases j - i,
{
    lemma_byte_len_prefix(s, i);
    if i + 1 < j {
        lemma_byte_len_strict(s, i + 1, j);
    }
}

/// Normalizing line endings never lengthens the encoding.
proof fn lemma_normalize_shrinks(s: Seq<char>)
    ensures
        byte_len(normalize_newlines(s)) <= byte_len(s),
    decreases s.len(),
{
    if s.len() > 0 {
        let k: int = if s[0] == '\r' && s.len() >= 2 && s[1] == '\n' { 2 } else { 1 };
        lemma_normalize_shrinks(s.skip(k));
        let head = if s[0] == '\r' { seq!['\n'] } else { seq![s[0]] };
        assert(normalize_newlines(s) == head + normalize_newlines(s.skip(k)));
        lemma_byte_len_concat(head, normalize_newlines(s.skip(k)));
        assert(s =~= s.take(k) + s.skip(k));
        lemma_byte_len_concat(s.take(k), s.skip(k));
        assert(head.drop_last() =~= Seq::<char>::empty());
        lemma_byte_len_prefix(s, k);
        if s[0] == '\r' {
            assert(('\n' as u32) < 0x80);
            assert(head.last() == '\n');
            assert(byte_len(head.drop_last()) == 0);
            assert(byte_len(head) == 1);
        } else {
            assert(head =~= s.take(1));
        }
    }
}

proof fn lemma_encode_len(s: Seq<char>)
    ensures
        vstd::utf8::encode_utf8(s).len() == byte_len(s),
    decreases s.len(),
{
    if s.len() > 0 {
        lemma_encode_len(s.drop_last());
        lemma_utf8_push(s.drop_last(), s.last());
        assert(s.drop_last().push(s.last()) =~= s);
        vstd::utf8::char_is_scalar(s.last());
    }
}

/// The number of bytes of the UTF-8 encoding of a string slice.
fn str_byte_len(s: &str) -> (n: usize)
    ensures
        n == byte_len(s@),
{
    let b = s.as_bytes();
    proof {
        lemma_encode_len(s@);
    }
    b.len()
}

impl XmlSource {
    /// The internal counters agree with the consumed text.
    pub closed spec fn wf(&self) -> bool {
        &&& self.idx <= self.chars@.len()
        &&& byte_len(self.chars@) <= usize::MAX
        &&& self.pos == self@.pos()
        &&& self.line == self@.line()
        &&& self.col == self@.col()
    }

    /// What a ready source guarantees of its abstract state.
    pub proof fn lemma_wf(&self)
        requires
            self.wf(),
        ensures
            self@.idx <= self@.text.len(),
            byte_len(self@.text) <= usize::MAX,
    {
    }

    /// A source over normalized text, at its start.
    fn from_normalized(chars: Vec<char>, format: Format) -> (r: Self)
        requires
            byte_len(chars@) <= usize::MAX,
        ensures
            r.wf(),
            r@.text == chars@,
            r@.idx == 0,
            r@.format == format,
    {
        let r = XmlSource { chars, idx: 0, pos: 0, line: 1, col: 1, format };
        assert(r@.done() =~= Seq::<char>::empty());
        r
    }

    /// A source over text with its line endings normalized.
    fn from_text(text: &str, format: Format) -> (r: Self)
        ensures
            r.wf(),
            r@.text == normalize_newlines(text@),
            r@.idx == 0,
            r@.format == format,
    {
        let n = str_byte_len(text);
        let normalized = normalize_chars(&str_chars(text));
        proof {
            lemma_normalize_shrinks(text@);
        }
        Self::from_normalized(normalized, format)
    }

    /// A source over in-memory text; `\r\n` and lone `\r` become `\n`.
    pub fn from_string(xml: &str) -> (r: Self)
        ensures
            r.wf(),
            r@.text == normalize_newlines(xml@),
            r@.idx == 0,
            r@.format == Format::Utf8,
    {
        Self::from_text(xml, Format::Utf8)
    }

    /// A source over bytes whose encoding a byte-order mark announces (UTF-8
    /// when there is none); fails as the decoding does.
    pub fn from_bytes(bytes: &[u8]) -> (r: Result<Self, XmlError>)
        ensures
            match r {
                Ok(src) => src.wf() && src@.idx == 0 && exists|s: Seq<char>|
                    #![trigger normalize_newlines(s)]
                    src@.format == bom_of(bytes@).0 && encode(src@.format, s) == bytes@.skip(
                        bom_of(bytes@).1 as int,
                    ) && src@.text == normalize_newlines(s),
                Err(e) => e is SyntaxError && forall|cs: Seq<char>| #[trigger] encode(
                    bom_of(bytes@).0,
                    cs,
                ) != bytes@.skip(bom_of(bytes@).1 as int),
            },
    {
        match detect_encoding_and_strip_bom(bytes) {
            Ok((s, f)) => {
                let src = Self::from_text(s.as_str(), f);
                assert(normalize_newlines(s@) == src@.text);
                Ok(src)
            },
            Err(e) => Err(e),
        }
    }

    /// A source over bytes in a named encoding (see `decode_with_encoding`);
    /// fails as the decoding does.
    pub fn from_bytes_with_encoding(bytes: &[u8], encoding: &str) -> (r: Result<Self, XmlError>)
        ensures
            r matches Ok(src) ==> src.wf() && src@.idx == 0,
            r matches Err(e) ==> e is SyntaxError,
            r is Err <==> decode_fails(bytes@, encoding@),
            forall|cs: Seq<char>, f: Format|
                #[trigger] decodes_as(bytes@, encoding@, cs, f) ==> (r matches Ok(src) && src@.text == normalize_newlines(
                    cs,
                ) && src@.format == f),
    {
        match decode_with_encoding(bytes, encoding) {
            Ok((s, f)) => {
                proof {
                    assert forall|cs: Seq<char>, f2: Format|
                        #[trigger] decodes_as(bytes@, encoding@, cs, f2) implies cs == s@ && f2 == f by {
                        match encoding_choice(encoding@) {
                            EncodingChoice::Detect => {
                                crate::io::encoding::law_encoding_round_trip(f, s@, cs);
                            },
                            EncodingChoice::Unicode(g) => {
                                crate::io::encoding::law_encoding_round_trip(g, s@, cs);
                            },
                            EncodingChoice::Single(c) => {
                                assert forall|i: int| 0 <= i < cs.len() implies cs[i] == s@[i] by {
                                    assert(byte_char(c, bytes@[i]) == Some(s@[i]));
                                }
                                assert(cs =~= s@);
                            },
                            EncodingChoice::Unknown => {},
                        }
                    }
                }
                proof {
                    match encoding_choice(encoding@) {
                        EncodingChoice::Detect => {
                            assert(encode(bom_of(bytes@).0, s@) == bytes@.skip(bom_of(bytes@).1 as int));
                        },
                        EncodingChoice::Unicode(g) => {
                            assert(encode(g, s@) == bytes@.skip(mark_len(bytes@, g) as int));
                        },
                        EncodingChoice::Single(c) => {
                            assert forall|i: int| 0 <= i < bytes@.len() implies !(#[trigger] byte_char(c, bytes@[i]) is None) by {
                                assert(byte_char(c, bytes@[i]) == Some(s@[i]));
                            }
                        },
                        EncodingChoice::Unknown => {},
                    }
                }
                let src = Self::from_text(s.as_str(), f);
                assert(src@.text == normalize_newlines(s@) && src@.format == f);
                Ok(src)
            },
            Err(e) => {
                proof {
                    assert forall|cs: Seq<char>, f2: Format| #[trigger] decodes_as(bytes@, encoding@, cs, f2) implies false by {
                        match encoding_choice(encoding@) {
                            EncodingChoice::Detect => {
                                assert(encode(bom_of(bytes@).0, cs) != bytes@.skip(bom_of(bytes@).1 as int));
                            },
                            EncodingChoice::Unicode(g) => {
                                assert(encode(g, cs) != bytes@.skip(mark_len(bytes@, g) as int));
                            },
                            EncodingChoice::Single(c) => {
                                let i = choose|i: int| 0 <= i < bytes@.len() && #[trigger] byte_char(c, bytes@[i]) is None;
                                assert(byte_char(c, bytes@[i]) == Some(cs[i]));
                            },
                            EncodingChoice::Unknown => {},
                        }
                    }
                }
                Err(e)
            },
        }
    }

    /// The encoding the input was read in.
    pub fn format(&self) -> (r: Format)
        ensures
            r == self@.format,
    {
        self.format
    }

    /// The position in bytes of the UTF-8 encoding of the text.
    pub fn position(&self) -> (r: usize)
        requires
            self.wf(),
        ensures
            r == self@.pos(),
    {
        self.pos
    }

    /// The number of bytes of the UTF-8 encoding of the text.
    pub fn len(&self) -> (r: usize)
        requires
            self.wf(),
        ensures
            r == byte_len(self@.text),
    {
        let mut total: usize = 0;
        let mut i: usize = 0;
        while i < self.chars.len()
            invariant
                i <= self.chars@.len(),
                byte_len(self.chars@) <= usize::MAX,
                total == byte_len(self.chars@.take(i as int)),
            decreases self.chars@.len() - i,
        {
            proof {
                lemma_byte_len_prefix(self.chars@, i + 1);
                assert(self.chars@.take(i + 1).drop_last() =~= self.chars@.take(i as int));
            }
            total = total + char_width(self.chars[i]);
            i = i + 1;
        }
        assert(self.chars@.take(i as int) =~= self.chars@);
        total
    }

    /// The 1-based line reached.
    pub fn line(&self) -> (r: usize)
        requires
            self.wf(),
        ensures
            r == self@.line(),
    {
        self.line
    }

    /// The 1-based column reached.
    pub fn col(&self) -> (r: usize)
        requires
            self.wf(),
        ensures
            r == self@.col(),
    {
        self.col
    }

    /// Whether all text has been consumed.
    pub fn is_eof(&self) -> (r: bool)
        requires
            self.wf(),
        ensures
            r == self@.eof(),
    {
        self.idx >= self.chars.len()
    }

    /// The next character, not consumed.
    pub fn peek(&self) -> (r: Option<char>)
        requires
            self.wf(),
        ensures
            r == if self@.eof() { None } else { Some(self@.text[self@.idx as int]) },
    {
        if self.idx >= self.chars.len() {
            None
        } else {
            Some(self.chars[self.idx])
        }
    }

    /// The character `offset` places after the next one, not consumed.
    pub fn peek_offset(&self, offset: usize) -> (r: Option<char>)
        requires
            self.wf(),
        ensures
            r == if self@.eof() || self@.idx + offset >= self@.text.len() {
                None
            } else {
                Some(self@.text[self@.idx + offset])
            },
    {
        if self.idx >= self.chars.len() || offset >= self.chars.len() - self.idx {
            None
        } else {
            Some(self.chars[self.idx + offset])
        }
    }

    /// Consumes one character, which must be there.
    fn advance(&mut self)
        requires
            old(self).wf(),
            !old(self)@.eof(),
        ensures
            final(self).wf(),
            final(self)@ == old(self)@.advanced(1),
    {
        let ch = self.chars[self.idx];
        let ghost d0 = self@.done();
        proof {
            lemma_byte_len_prefix(self.chars@, self.idx + 1);
            assert(self.chars@.take(self.idx + 1).drop_last() =~= d0);
        }
        self.pos = self.pos + char_width(ch);
        if ch == '\n' {
            self.line = self.line.saturating_add(1);
            self.col = 1;
        } else {
            self.col = self.col.saturating_add(1);
        }
        self.idx = self.idx + 1;
    }

    /// Consumes and returns the next character.
    pub fn next_char(&mut self) -> (r: Option<char>)
        requires
            old(self).wf(),
        ensures
            final(self).wf(),
            r == if old(self)@.eof() { None } else { Some(old(self)@.text[old(self)@.idx as int]) },
            final(self)@ == if old(self)@.eof() { old(self)@ } else { old(self)@.advanced(1) },
    {
        if self.idx >= self.chars.len() {
            return None;
        }
        let ch = self.chars[self.idx];
        self.advance();
        Some(ch)
    }

    /// Whether the rest begins with `prefix`; always false at the end.
    pub fn starts_with(&self, prefix: &str) -> (r: bool)
        requires
            self.wf(),
        ensures
            r == self@.starts_with(prefix@),
    {
        let p = str_chars(prefix);
        self.starts_with_chars(&p)
    }

    /// Whether the rest begins with `p`; always false at the end.
    pub fn starts_with_chars(&self, p: &[char]) -> (r: bool)
        requires
            self.wf(),
        ensures
            r == self@.starts_with(p@),
    {
        if self.idx >= self.chars.len() {
            return false;
        }
        let r = crate::text::matches_at(self.chars.as_slice(), self.idx, p);
        assert(self@.rest().take(p@.len() as int) =~= self.chars@.subrange(self.idx as int, self.idx + p@.len()) || self@.rest().len() < p@.len());
        r
    }

    /// Consumes `prefix` when the rest begins with it.
    pub fn consume(&mut self, prefix: &str) -> (r: bool)
        requires
            old(self).wf(),
        ensures
            final(self).wf(),
            r == old(self)@.starts_with(prefix@),
            final(self)@ == if r { old(self)@.advanced(prefix@.len()) } else { old(self)@ },
    {
        let p = str_chars(prefix);
        self.consume_chars(&p)
    }

    /// Consumes `p` when the rest begins with it.
    pub fn consume_chars(&mut self, p: &[char]) -> (r: bool)
        requires
            old(self).wf(),
        ensures
            final(self).wf(),
            r == old(self)@.starts_with(p@),
            final(self)@ == if r { old(self)@.advanced(p@.len()) } else { old(self)@ },
    {
        if !self.starts_with_chars(p) {
            return false;
        }
        let ghost s0 = self@;
        let mut k: usize = 0;
        while k < p.len()
            invariant
                self.wf(),
                s0.starts_with(p@),
                k <= p@.len(),
                self@ == s0.advanced(k as nat),
            decreases p@.len() - k,
        {
            self.advance();
            k = k + 1;
        }
        true
    }

    /// Skips white space (space, tab, line feed, carriage return).
    pub fn skip_whitespace(&mut self)
        requires
            old(self).wf(),
        ensures
            final(self).wf(),
            final(self)@ == old(self)@.advanced(leading_space(old(self)@.rest())),
    {
        let ghost s0 = self@;
        assert(s0.rest().skip(0) =~= s0.rest());
        while self.idx < self.chars.len()
            invariant_except_break
                self.wf(),
                self@.text == s0.text,
                self@.format == s0.format,
                s0.idx <= self@.idx,
                leading_space(s0.rest()) == (self@.idx - s0.idx) + leading_space(self@.rest()),
            ensures
                self.wf(),
                self@ == s0.advanced(leading_space(s0.rest())),
            decreases self.chars@.len() - self.idx,
        {
            let c = self.chars[self.idx];
            assert(self@.rest()[0] == c);
            if c == ' ' || c == '\t' || c == '\n' || c == '\r' {
                assert(self@.rest().skip(1) =~= self.chars@.skip(self.idx + 1));
                self.advance();
            } else {
                break;
            }
        }
        proof {
            if self@.eof() {
                assert(self@.rest().len() == 0);
            }
        }
    }

    /// The text between two byte positions; empty when either is not at a
    /// character boundary or they are out of order (both are first clamped to
    /// the length).
    pub fn slice_range(&self, start: usize, end: usize) -> (r: String)
        requires
            self.wf(),
        ensures
            r@ == slice_spec(self@.text, start as nat, end as nat),
    {
        let m = self.len();
        let a = if start < m { start } else { m };
        let b = if end < m { end } else { m };
        if a > b {
            return String::new();
        }
        let ghost s = self.chars@;
        let mut i: usize = 0;
        let mut off: usize = 0;
        let mut ia: Option<usize> = None;
        let mut ib: Option<usize> = None;
        let n = self.chars.len();
        loop
            invariant_except_break
                ia matches Some(k) ==> k < i && byte_len(s.take(k as int)) == a,
                ia is None ==> forall|k: int| 0 <= k < i ==> byte_len(#[trigger] s.take(k)) != a,
                ib matches Some(k) ==> k < i && byte_len(s.take(k as int)) == b,
                ib is None ==> forall|k: int| 0 <= k < i ==> byte_len(#[trigger] s.take(k)) != b,
            invariant
                s == self.chars@,
                n == s.len(),
                byte_len(s) <= usize::MAX,
                i <= n,
                off == byte_len(s.take(i as int)),
            ensures
                i == n,
                ia matches Some(k) ==> k <= n && byte_len(s.take(k as int)) == a,
                ia is None ==> forall|k: int| 0 <= k <= n ==> byte_len(#[trigger] s.take(k)) != a,
                ib matches Some(k) ==> k <= n && byte_len(s.take(k as int)) == b,
                ib is None ==> forall|k: int| 0 <= k <= n ==> byte_len(#[trigger] s.take(k)) != b,
            decreases n - i,
        {
            if off == a && ia.is_none() {
                ia = Some(i);
            }
            if off == b && ib.is_none() {
                ib = Some(i);
            }
            if i == n {
                break;
            }
            proof {
                lemma_byte_len_prefix(s, i + 1);
                assert(s.take(i + 1).drop_last() =~= s.take(i as int));
            }
            off = off + char_width(self.chars[i]);
            i = i + 1;
        }
        proof {
            assert forall|k: nat| k <= s.len() && byte_len(#[trigger] s.take(k as int)) == a implies ia == Some(k as usize) by {
                if let Some(k2) = ia {
                    if k2 < k {
                        lemma_byte_len_strict(s, k2 as int, k as int);
                    } else if k < k2 {
                        lemma_byte_len_strict(s, k as int, k2 as int);
                    }
                }
            }
            assert forall|k: nat| k <= s.len() && byte_len(#[trigger] s.take(k as int)) == b implies ib == Some(k as usize) by {
                if let Some(k2) = ib {
                    if k2 < k {
                        lemma_byte_len_strict(s, k2 as int, k as int);
                    } else if k < k2 {
                        lemma_byte_len_strict(s, k as int, k2 as int);
                    }
                }
            }
        }
        match (ia, ib) {
            (Some(x), Some(y)) => {
                proof {
                    assert(char_index_at(s, a as nat) == Some(x as nat));
                    assert(char_index_at(s, b as nat) == Some(y as nat));
                    if y < x {
                        lemma_byte_len_strict(s, y as int, x as int);
                    }
                }
                crate::text::string_from_range(self.chars.as_slice(), x, y)
            },
            _ => {
                proof {
                    if ia is None {
                        assert(char_index_at(s, a as nat) is None);
                    } else {
                        assert(char_index_at(s, b as nat) is None);
                    }
                }
                String::new()
            },
        }
    }
}

/// Whether `bytes` in the named encoding are the text `cs`, read in format
/// `f`: for a name that leaves the choice to the byte-order mark, the bytes
/// after the mark encode `cs` in the format the mark announces; for a
/// UTF-16 or UTF-32 name, the bytes after a matching mark encode `cs` in
/// it; for a single-byte character set, each byte is the character at its
/// place (read as UTF-8 text).
pub open spec fn decodes_as(bytes: Seq<u8>, name: Seq<char>, cs: Seq<char>, f: Format) -> bool {
    match encoding_choice(name) {
        EncodingChoice::Detect => f == bom_of(bytes).0 && encode(f, cs) == bytes.skip(bom_of(bytes).1 as int),
        EncodingChoice::Unicode(g) => f == g && encode(g, cs) == bytes.skip(mark_len(bytes, g) as int),
        EncodingChoice::Single(c) => f == Format::Utf8 && cs.len() == bytes.len() && forall|i: int|
            0 <= i < bytes.len() ==> byte_char(c, bytes[i]) == Some(#[trigger] cs[i]),
        EncodingChoice::Unknown => false,
    }
}

/// Whether decoding `bytes` in the named encoding fails.
pub open spec fn decode_fails(bytes: Seq<u8>, name: Seq<char>) -> bool {
    match encoding_choice(name) {
        EncodingChoice::Detect => forall|cs: Seq<char>| #[trigger] encode(bom_of(bytes).0, cs) != bytes.skip(bom_of(bytes).1 as int),
        EncodingChoice::Unicode(g) => forall|cs: Seq<char>| #[trigger] encode(g, cs) != bytes.skip(mark_len(bytes, g) as int),
        EncodingChoice::Single(c) => exists|i: int| 0 <= i < bytes.len() && #[trigger] byte_char(c, bytes[i]) is None,
        EncodingChoice::Unknown => true,
    }
}

} // verus!
