//! A streaming pull parser: each call reads the next markup construct or
//! text run of the input and reports it as an event, without building a tree.

use vstd::prelude::*;
use crate::entity::mapper::sub_chars;
use crate::error::XmlError;
use crate::parser::xml_parser::find_seq;
use crate::seqs::find_first;
use crate::text::{str_chars, string_from_chars};
use crate::textops::{find_char, find_char_from, find_chars_from, split_at_ws, split_ws_chars, trim_class, trim_ws, trimmed};

verus! {

/// An attribute of a start tag, as the pull parser reads it.
#[derive(Debug, Clone, PartialEq, Eq)]
pub struct XmlPullAttribute {
    pub name: String,
    pub value: String,
}

/// What the pull parser reports.
#[derive(Debug, Clone, PartialEq, Eq)]
pub enum XmlPullEvent {
    /// A start tag (or an empty-element tag): its name and its attribute text.
    StartElement { name: String, attr_raw: String },
    /// An end tag.
    EndElement { name: String },
    /// A run of text.
    Text(String),
    /// The content of a comment.
    Comment(String),
    /// The content of a CDATA section.
    CData(String),
    /// A processing instruction: its target and its data.
    ProcessingInstruction { target: String, data: String },
}

/// The abstract content of a pull event.
pub enum PullV {
    StartElement { name: Seq<char>, attr_raw: Seq<char> },
    EndElement { name: Seq<char> },
    Text(Seq<char>),
    Comment(Seq<char>),
    CData(Seq<char>),
    ProcessingInstruction { target: Seq<char>, data: Seq<char> },
}

impl View for XmlPullEvent {
    type V = PullV;

    open spec fn view(&self) -> PullV {
        match self {
            XmlPullEvent::StartElement { name, attr_raw } => PullV::StartElement { name: name@, attr_raw: attr_raw@ },
            XmlPullEvent::EndElement { name } => PullV::EndElement { name: name@ },
            XmlPullEvent::Text(t) => PullV::Text(t@),
            XmlPullEvent::Comment(t) => PullV::Comment(t@),
            XmlPullEvent::CData(t) => PullV::CData(t@),
            XmlPullEvent::ProcessingInstruction { target, data } => PullV::ProcessingInstruction {
                target: target@,
                data: data@,
            },
        }
    }
}

/// Whether `r` starts with `p`.
pub open spec fn begins_with(r: Seq<char>, p: Seq<char>) -> bool {
    r.len() >= p.len() && r.take(p.len() as int) == p
}

/// The opening of a CDATA section.
pub open spec fn cdata_open() -> Seq<char> {
    seq!['<', '!', '[', 'C', 'D', 'A', 'T', 'A', '[']
}

/// A processing instruction at the start of `r` (which begins with `<?`):
/// its target and data, and how many characters it takes; none when no
/// `?>` closes it.
pub open spec fn pi_event(r: Seq<char>) -> Option<(PullV, int)> {
    match find_seq(r.skip(2), seq!['?', '>']) {
        Some(e) => {
            let parts = split_at_ws(r.subrange(2, 2 + e));
            Some((PullV::ProcessingInstruction { target: trim_ws(parts.0), data: trim_ws(parts.1) }, e + 4))
        },
        None => None,
    }
}

/// A comment at the start of `r` (which begins with `<!--`).
pub open spec fn comment_event(r: Seq<char>) -> Option<(PullV, int)> {
    match find_seq(r.skip(4), seq!['-', '-', '>']) {
        Some(e) => Some((PullV::Comment(r.subrange(4, 4 + e)), e + 7)),
        None => None,
    }
}

/// A CDATA section at the start of `r` (which begins with `<![CDATA[`).
pub open spec fn cdata_event(r: Seq<char>) -> Option<(PullV, int)> {
    match find_seq(r.skip(9), seq![']', ']', '>']) {
        Some(e) => Some((PullV::CData(r.subrange(9, 9 + e)), e + 12)),
        None => None,
    }
}

/// An end tag at the start of `r` (which begins with `</`).
pub open spec fn end_event(r: Seq<char>) -> Option<(PullV, int)> {
    match find_first(r, '>') {
        Some(e) => Some((PullV::EndElement { name: trim_ws(r.subrange(2, e)) }, e + 1)),
        None => None,
    }
}

/// A start tag at the start of `r` (which begins with `<`): its name is
/// what comes before the first white space, its attribute text what follows
/// (both trimmed), and whether it closes with `/>`, the `/` being dropped.
/// None when no `>` closes it or it has no name.
pub open spec fn start_event(r: Seq<char>) -> Option<(PullV, int, bool)> {
    match find_first(r, '>') {
        Some(e) => {
            let closed = e > 1 && r[e - 1] == '/';
            let raw = if closed {
                r.subrange(1, e - 1)
            } else {
                r.subrange(1, e)
            };
            let parts = split_at_ws(raw);
            let name = trim_ws(parts.0);
            if name.len() == 0 {
                None
            } else {
                Some((PullV::StartElement { name, attr_raw: trim_ws(parts.1) }, e + 1, closed))
            }
        },
        None => None,
    }
}

/// The text of `r` up to its first `<` (all of it when it has none).
pub open spec fn text_event(r: Seq<char>) -> (PullV, int) {
    let k = match find_first(r, '<') {
        Some(k) => k,
        None => r.len() as int,
    };
    (PullV::Text(r.take(k)), k)
}

/// The event at the start of the (nonempty) text `r`, how many characters
/// it takes, and whether it is an empty-element tag (whose end event comes
/// next). None when markup there is not closed: a syntax error.
pub open spec fn pull_event(r: Seq<char>) -> Option<(PullV, int, bool)> {
    if begins_with(r, seq!['<', '?']) {
        match pi_event(r) {
            Some((v, n)) => Some((v, n, false)),
            None => None,
        }
    } else if begins_with(r, seq!['<', '!', '-', '-']) {
        match comment_event(r) {
            Some((v, n)) => Some((v, n, false)),
            None => None,
        }
    } else if begins_with(r, cdata_open()) {
        match cdata_event(r) {
            Some((v, n)) => Some((v, n, false)),
            None => None,
        }
    } else if begins_with(r, seq!['<', '/']) {
        match end_event(r) {
            Some((v, n)) => Some((v, n, false)),
            None => None,
        }
    } else if begins_with(r, seq!['<']) {
        start_event(r)
    } else {
        Some((text_event(r).0, text_event(r).1, false))
    }
}

/// Every event read from a nonempty text takes at least one character of
/// it, and no more than there are.
pub proof fn law_pull_progress(r: Seq<char>)
    requires
        r.len() > 0,
    ensures
        pull_event(r) matches Some((_, n, _)) ==> 1 <= n <= r.len(),
{
    crate::parser::xml_parser::lemma_find_seq_from_pub(r.skip(2), seq!['?', '>'], 0);
    crate::parser::xml_parser::lemma_find_seq_from_pub(r.skip(4), seq!['-', '-', '>'], 0);
    crate::parser::xml_parser::lemma_find_seq_from_pub(r.skip(9), seq![']', ']', '>'], 0);
    crate::seqs::lemma_find_from(r, '>', 0);
    crate::seqs::lemma_find_from(r, '<', 0);
    if !begins_with(r, seq!['<']) {
        assert(r.take(1) =~= seq![r[0]]);
        assert(r[0] != '<');
    }
}

/// Whether an event read from the text, with its length, is `x`.
pub open spec fn read_as(got: Option<(XmlPullEvent, usize)>, x: Option<(PullV, int)>) -> bool {
    match x {
        Some(y) => match got {
            Some(g) => g.0@ == y.0 && g.1 == y.1,
            None => false,
        },
        None => got is None,
    }
}

/// The abstract state of a pull parser: its input, how far it has read,
/// and the name of an empty-element tag whose end event is still due.
pub struct PullState {
    pub text: Seq<char>,
    pub pos: nat,
    pub pending: Option<Seq<char>>,
}

impl PullState {
    /// The input not read yet.
    pub open spec fn rest(self) -> Seq<char> {
        if self.pos <= self.text.len() {
            self.text.skip(self.pos as int)
        } else {
            Seq::empty()
        }
    }

    /// How many events can still come, at most: two per character left, and
    /// one for a due end event.
    pub open spec fn budget(self) -> nat {
        2 * self.rest().len() + if self.pending is Some { 1nat } else { 0nat }
    }
}

/// A streaming parser over a text.
pub struct XmlPullParser {
    xml: Vec<char>,
    pos: usize,
    pending: Option<String>,
}

impl View for XmlPullParser {
    type V = PullState;

    closed spec fn view(&self) -> PullState {
        PullState {
            text: self.xml@,
            pos: self.pos as nat,
            pending: match self.pending {
                Some(n) => Some(n@),
                None => None,
            },
        }
    }
}

/// `v` without white space at either end.
fn trim_chars(v: &[char]) -> (r: Vec<char>)
    ensures
        r@ == trim_ws(v@),
{
    let empty: [char; 0] = [];
    assert(empty@ =~= Seq::<char>::empty());
    trim_class(v, true, &empty, true, true)
}

/// Whether `s[at..]` starts with `p`.
fn begins_at(s: &[char], at: usize, p: &[char]) -> (r: bool)
    requires
        at <= s@.len(),
    ensures
        r == begins_with(s@.skip(at as int), p@),
{
    let r = crate::text::matches_at(s, at, p);
    proof {
        if s@.len() - at >= p@.len() {
            assert(s@.skip(at as int).take(p@.len() as int) =~= s@.subrange(at as int, at + p@.len()));
        }
    }
    r
}

/// Reads a processing instruction at `xml[pos..]`, which begins with `<?`.
fn read_pi(xml: &[char], pos: usize) -> (got: Option<(XmlPullEvent, usize)>)
    requires
        pos + 2 <= xml@.len(),
    ensures
        read_as(got, pi_event(xml@.skip(pos as int))),
{
    let ghost r = xml@.skip(pos as int);
    let len = xml.len();
    let close: [char; 2] = ['?', '>'];
    assert(close@ =~= seq!['?', '>']);
    assert(xml@.skip(pos + 2) =~= r.skip(2));
    match find_chars_from(xml, pos + 2, &close) {
        Some(e) => {
            proof {
                crate::parser::xml_parser::lemma_find_seq_from_pub(r.skip(2), close@, 0);
            }
            let content = sub_chars(xml, pos + 2, pos + 2 + e);
            assert(content@ =~= r.subrange(2, 2 + e));
            let (t, d) = split_ws_chars(&content);
            let target = trim_chars(&t);
            let data = trim_chars(&d);
            Some(
                (
                    XmlPullEvent::ProcessingInstruction {
                        target: string_from_chars(&target),
                        data: string_from_chars(&data),
                    },
                    e + 4,
                ),
            )
        },
        None => None,
    }
}

/// Reads a section at `xml[pos..]` opened by `open` chars and closed by
/// `close`, returning its content and length.
fn read_section(xml: &[char], pos: usize, open_len: usize, close: &[char]) -> (got: Option<(Vec<char>, usize)>)
    requires
        pos + open_len <= xml@.len(),
        close@.len() == 3,
    ensures
        match find_seq(xml@.skip(pos as int).skip(open_len as int), close@) {
            Some(e) => got matches Some((v, n)) && v@ == xml@.skip(pos as int).subrange(
                open_len as int,
                open_len + e,
            ) && n == e + open_len + 3,
            None => got is None,
        },
{
    let ghost r = xml@.skip(pos as int);
    let len = xml.len();
    assert(xml@.skip(pos + open_len) =~= r.skip(open_len as int));
    match find_chars_from(xml, pos + open_len, close) {
        Some(e) => {
            proof {
                crate::parser::xml_parser::lemma_find_seq_from_pub(r.skip(open_len as int), close@, 0);
            }
            let content = sub_chars(xml, pos + open_len, pos + open_len + e);
            assert(content@ =~= r.subrange(open_len as int, open_len + e));
            Some((content, e + open_len + 3))
        },
        None => None,
    }
}

/// Reads a comment at `xml[pos..]`, which begins with `<!--`.
fn read_comment(xml: &[char], pos: usize) -> (got: Option<(XmlPullEvent, usize)>)
    requires
        pos + 4 <= xml@.len(),
    ensures
        read_as(got, comment_event(xml@.skip(pos as int))),
{
    let len = xml.len();
    let close: [char; 3] = ['-', '-', '>'];
    assert(close@ =~= seq!['-', '-', '>']);
    match read_section(xml, pos, 4, &close) {
        Some((content, n)) => Some((XmlPullEvent::Comment(string_from_chars(&content)), n)),
        None => None,
    }
}

/// Reads a CDATA section at `xml[pos..]`, which begins with `<![CDATA[`.
fn read_cdata(xml: &[char], pos: usize) -> (got: Option<(XmlPullEvent, usize)>)
    requires
        pos + 9 <= xml@.len(),
    ensures
        read_as(got, cdata_event(xml@.skip(pos as int))),
{
    let len = xml.len();
    let close: [char; 3] = [']', ']', '>'];
    assert(close@ =~= seq![']', ']', '>']);
    match read_section(xml, pos, 9, &close) {
        Some((content, n)) => Some((XmlPullEvent::CData(string_from_chars(&content)), n)),
        None => None,
    }
}

/// Reads an end tag at `xml[pos..]`, which begins with `</`.
fn read_end_tag(xml: &[char], pos: usize) -> (got: Option<(XmlPullEvent, usize)>)
    requires
        pos + 2 <= xml@.len(),
        begins_with(xml@.skip(pos as int), seq!['<', '/']),
    ensures
        read_as(got, end_event(xml@.skip(pos as int))),
{
    let ghost r = xml@.skip(pos as int);
    let len = xml.len();
    match find_char_from(xml, pos, '>') {
        Some(e) => {
            proof {
                crate::seqs::lemma_find_from(r, '>', 0);
                assert(r.take(2) == seq!['<', '/']);
                assert(r.take(2)[0] == r[0] && r.take(2)[1] == r[1]);
                assert(r[0] == '<' && r[1] == '/');
            }
            let raw = sub_chars(xml, pos + 2, pos + e);
            assert(raw@ =~= r.subrange(2, e as int));
            let name = trim_chars(&raw);
            Some((XmlPullEvent::EndElement { name: string_from_chars(&name) }, e + 1))
        },
        None => None,
    }
}

/// Reads a start tag at `xml[pos..]`, which begins with `<`.
fn read_start_tag(xml: &[char], pos: usize) -> (got: Option<(XmlPullEvent, usize, bool)>)
    requires
        pos < xml@.len(),
        begins_with(xml@.skip(pos as int), seq!['<']),
    ensures
        match start_event(xml@.skip(pos as int)) {
            Some((v, n, c)) => got matches Some(g) && g.0@ == v && g.1 == n && g.2 == c,
            None => got is None,
        },
{
    let ghost r = xml@.skip(pos as int);
    let len = xml.len();
    match find_char_from(xml, pos, '>') {
        Some(e) => {
            proof {
                crate::seqs::lemma_find_from(r, '>', 0);
                assert(r.take(1) == seq!['<']);
                assert(r.take(1)[0] == r[0]);
                assert(r[0] == '<');
            }
            let closed = e > 1 && xml[pos + e - 1] == '/';
            assert(closed == (e > 1 && r[e - 1] == '/'));
            let raw = if closed {
                sub_chars(xml, pos + 1, pos + e - 1)
            } else {
                sub_chars(xml, pos + 1, pos + e)
            };
            assert(raw@ =~= (if closed {
                r.subrange(1, e - 1)
            } else {
                r.subrange(1, e as int)
            }));
            let (n, a) = split_ws_chars(&raw);
            let name = trim_chars(&n);
            if name.len() == 0 {
                return None;
            }
            let attr_raw = trim_chars(&a);
            Some(
                (
                    XmlPullEvent::StartElement {
                        name: string_from_chars(&name),
                        attr_raw: string_from_chars(&attr_raw),
                    },
                    e + 1,
                    closed,
                ),
            )
        },
        None => None,
    }
}

/// Reads the text at `xml[pos..]` up to the next `<`.
fn read_text(xml: &[char], pos: usize) -> (got: (XmlPullEvent, usize))
    requires
        pos <= xml@.len(),
    ensures
        got.0@ == text_event(xml@.skip(pos as int)).0,
        got.1 == text_event(xml@.skip(pos as int)).1,
{
    let ghost r = xml@.skip(pos as int);
    let len = xml.len();
    let next_tag = match find_char_from(xml, pos, '<') {
        Some(k) => {
            proof {
                crate::seqs::lemma_find_from(r, '<', 0);
            }
            k
        },
        None => xml.len() - pos,
    };
    let text = sub_chars(xml, pos, pos + next_tag);
    assert(text@ =~= r.take(next_tag as int));
    (XmlPullEvent::Text(string_from_chars(&text)), next_tag)
}

/// Reads the event at `xml[pos..]` (see `pull_event`).
fn read_event(xml: &[char], pos: usize) -> (got: Option<(XmlPullEvent, usize, bool)>)
    requires
        pos < xml@.len(),
    ensures
        match pull_event(xml@.skip(pos as int)) {
            Some((v, n, c)) => got matches Some(g) && g.0@ == v && g.1 == n && g.2 == c,
            None => got is None,
        },
{
    let pi_open: [char; 2] = ['<', '?'];
    let comment_open: [char; 4] = ['<', '!', '-', '-'];
    let cdata: [char; 9] = ['<', '!', '[', 'C', 'D', 'A', 'T', 'A', '['];
    let end_open: [char; 2] = ['<', '/'];
    let start_open: [char; 1] = ['<'];
    assert(pi_open@ =~= seq!['<', '?']);
    assert(comment_open@ =~= seq!['<', '!', '-', '-']);
    assert(cdata@ =~= cdata_open());
    assert(end_open@ =~= seq!['<', '/']);
    assert(start_open@ =~= seq!['<']);
    if begins_at(xml, pos, &pi_open) {
        match read_pi(xml, pos) {
            Some((v, n)) => Some((v, n, false)),
            None => None,
        }
    } else if begins_at(xml, pos, &comment_open) {
        match read_comment(xml, pos) {
            Some((v, n)) => Some((v, n, false)),
            None => None,
        }
    } else if begins_at(xml, pos, &cdata) {
        match read_cdata(xml, pos) {
            Some((v, n)) => Some((v, n, false)),
            None => None,
        }
    } else if begins_at(xml, pos, &end_open) {
        match read_end_tag(xml, pos) {
            Some((v, n)) => Some((v, n, false)),
            None => None,
        }
    } else if begins_at(xml, pos, &start_open) {
        read_start_tag(xml, pos)
    } else {
        let (v, n) = read_text(xml, pos);
        Some((v, n, false))
    }
}

/// The 1-based line and column of position `pos` of a text.
fn line_col(xml: &[char], pos: usize) -> (r: (usize, usize))
    requires
        pos <= xml@.len(),
{
    let mut line: usize = 1;
    let mut col: usize = 1;
    let mut i: usize = 0;
    while i < pos
        invariant
            i <= pos <= xml@.len(),
        decreases pos - i,
    {
        if xml[i] == '\n' {
            line = line.saturating_add(1);
            col = 1;
        } else {
            col = col.saturating_add(1);
        }
        i = i + 1;
    }
    (line, col)
}

impl XmlPullParser {
    /// A parser at the start of `xml`.
    pub fn new(xml: &str) -> (r: Self)
        ensures
            r@.text == xml@,
            r@.pos == 0,
            r@.pending is None,
    {
        XmlPullParser { xml: str_chars(xml), pos: 0, pending: None }
    }

    /// Reads the next event and moves past it: the end event due after an
    /// empty-element tag, else the event at the current position (see
    /// `pull_event`); `None` at the end of the input, and a syntax error
    /// where markup is not closed. Every event brings the end nearer.
    pub fn next_event(&mut self) -> (r: Result<Option<XmlPullEvent>, XmlError>)
        ensures
            final(self)@.text == old(self)@.text,
            r matches Ok(Some(_)) ==> final(self)@.budget() < old(self)@.budget(),
            match old(self)@.pending {
                Some(name) => (r matches Ok(Some(ev)) && ev@ == (PullV::EndElement { name })) && final(self)@ == (
                PullState { pending: None, ..old(self)@ }),
                None => if old(self)@.rest().len() == 0 {
                    r matches Ok(None) && final(self)@ == old(self)@
                } else {
                    match pull_event(old(self)@.rest()) {
                        Some((v, n, c)) => (r matches Ok(Some(ev)) && ev@ == v) && final(self)@.pos == old(self)@.pos
                            + n && final(self)@.pending == (if c {
                            Some(v->StartElement_name)
                        } else {
                            None
                        }),
                        None => (r matches Err(e) && e is SyntaxError) && final(self)@ == old(self)@,
                    }
                },
            },
    {
        let due = self.pending.take();
        match due {
            Some(name) => {
                return Ok(Some(XmlPullEvent::EndElement { name }));
            },
            None => {},
        }
        if self.pos >= self.xml.len() {
            return Ok(None);
        }
        let pos = self.pos;
        proof {
            law_pull_progress(self.xml@.skip(pos as int));
        }
        match read_event(self.xml.as_slice(), pos) {
            Some((ev, n, closed)) => {
                assert(1 <= n <= self.xml@.len() - pos);
                self.pos = pos + n;
                if closed {
                    match &ev {
                        XmlPullEvent::StartElement { name, .. } => {
                            self.pending = Some(name.clone());
                        },
                        _ => {},
                    }
                }
                assert(self@.rest().len() == old(self)@.rest().len() - n);
                Ok(Some(ev))
            },
            None => {
                let (line, col) = line_col(self.xml.as_slice(), pos);
                Err(XmlError::SyntaxError { message: "Unterminated markup".to_string(), line, col })
            },
        }
    }
}

/// `s` without white space at its start.
pub open spec fn trim_start_ws(s: Seq<char>) -> Seq<char> {
    trimmed(s, true, Seq::empty(), true, false)
}

/// The next `name="value"` pair of attribute text `raw` (single quotes do
/// too), with the text after it; none where `raw` holds no further
/// well-quoted pair.
pub open spec fn attr_step(raw: Seq<char>) -> Option<(Seq<char>, Seq<char>, Seq<char>)> {
    let t = trim_start_ws(raw);
    if t.len() == 0 {
        None
    } else {
        match find_first(t, '=') {
            None => None,
            Some(k) => {
                let name = trim_ws(t.take(k));
                let v = trim_start_ws(t.skip(k + 1));
                if v.len() == 0 || !(v[0] == '"' || v[0] == '\'') {
                    None
                } else {
                    match find_first(v.skip(1), v[0]) {
                        Some(e) => Some((name, v.subrange(1, 1 + e), v.skip(e + 2))),
                        None => None,
                    }
                }
            },
        }
    }
}

/// The attributes of a start tag, read one at a time from its attribute text.
pub struct XmlPullAttributesIter {
    raw: Vec<char>,
}

impl View for XmlPullAttributesIter {
    type V = Seq<char>;

    closed spec fn view(&self) -> Seq<char> {
        self.raw@
    }
}

impl XmlPullEvent {
    /// The attributes of a start tag (none for other events).
    pub fn attributes(&self) -> (r: XmlPullAttributesIter)
        ensures
            r@ == match self@ {
                PullV::StartElement { attr_raw, .. } => attr_raw,
                _ => Seq::empty(),
            },
    {
        match self {
            XmlPullEvent::StartElement { attr_raw, .. } => XmlPullAttributesIter { raw: str_chars(attr_raw.as_str()) },
            _ => XmlPullAttributesIter { raw: Vec::new() },
        }
    }
}

/// `v` without white space at its start.
fn trim_start_chars(v: &[char]) -> (r: Vec<char>)
    ensures
        r@ == trim_start_ws(v@),
{
    let empty: [char; 0] = [];
    assert(empty@ =~= Seq::<char>::empty());
    trim_class(v, true, &empty, true, false)
}

impl XmlPullAttributesIter {
    /// The next attribute, moving past it; `None` (and no move) where no
    /// further well-quoted pair follows.
    pub fn next(&mut self) -> (r: Option<XmlPullAttribute>)
        ensures
            match attr_step(old(self)@) {
                Some(x) => match r {
                    Some(a) => a.name@ == x.0 && a.value@ == x.1 && final(self)@ == x.2,
                    None => false,
                },
                None => r is None && final(self)@ == old(self)@,
            },
    {
        let t = trim_start_chars(self.raw.as_slice());
        if t.len() == 0 {
            return None;
        }
        let k = match find_char(t.as_slice(), '=') {
            Some(k) => k,
            None => {
                return None;
            },
        };
        proof {
            crate::seqs::lemma_find_from(t@, '=', 0);
        }
        let name_part = sub_chars(t.as_slice(), 0, k);
        assert(name_part@ =~= t@.take(k as int));
        let rest = sub_chars(t.as_slice(), k + 1, t.len());
        assert(rest@ =~= t@.skip(k + 1));
        let name = trim_chars(name_part.as_slice());
        let v = trim_start_chars(rest.as_slice());
        if v.len() == 0 {
            return None;
        }
        let quote = v[0];
        if !(quote == '"' || quote == '\'') {
            return None;
        }
        match find_char_from(v.as_slice(), 1, quote) {
            Some(e) => {
                proof {
                    crate::seqs::lemma_find_from(v@.skip(1), quote, 0);
                }
                let value = sub_chars(v.as_slice(), 1, 1 + e);
                let after = sub_chars(v.as_slice(), e + 2, v.len());
                assert(after@ =~= v@.skip(e + 2));
                self.raw = after;
                Some(XmlPullAttribute { name: string_from_chars(name.as_slice()), value: string_from_chars(value.as_slice()) })
            },
            None => None,
        }
    }
}

} // verus!
