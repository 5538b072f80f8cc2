//! The string functions of XPath (`contains`, `starts-with`, `ends-with`,
//! `substring`, `substring-before`, `substring-after`, `normalize-space`,
//! `translate`, `replace`) on the characters of their arguments.

use vstd::prelude::*;
use crate::io::char_utils::{char_is_whitespace, unicode_whitespace};
use crate::seqs::find_first;
use crate::text::{push_char, str_chars, string_from_chars};
use crate::textops::find_char;
use crate::document::{Document, DocV};
use crate::node::NodeId;

verus! {

/// The first position at or after `i` where `n` occurs in `h`; the empty
/// text occurs at every position up to the end.
pub open spec fn match_from(h: Seq<char>, n: Seq<char>, i: int) -> Option<int>
    decreases h.len() + 1 - i,
{
    if i < 0 || i + n.len() > h.len() {
        None
    } else if h.subrange(i, i + n.len()) == n {
        Some(i)
    } else {
        match_from(h, n, i + 1)
    }
}

/// The first position where `n` occurs in `h`.
pub open spec fn first_match(h: Seq<char>, n: Seq<char>) -> Option<int> {
    match_from(h, n, 0)
}

/// What a search from `i` finds.
pub proof fn lemma_match_from(h: Seq<char>, n: Seq<char>, i: int)
    requires
        0 <= i,
    ensures
        match_from(h, n, i) matches Some(j) ==> i <= j && j + n.len() <= h.len() && h.subrange(
            j,
            j + n.len(),
        ) == n,
    decreases h.len() + 1 - i,
{
    if i + n.len() <= h.len() && h.subrange(i, i + n.len()) != n {
        lemma_match_from(h, n, i + 1);
    }
}

/// Whether `h` holds `n` starting at `at`.
fn holds_at(h: &[char], at: usize, n: &[char]) -> (r: bool)
    requires
        at <= h@.len(),
    ensures
        r == (at + n@.len() <= h@.len() && h@.subrange(at as int, at + n@.len()) == n@),
{
    crate::text::matches_at(h, at, n)
}

/// The first position where `n` occurs in `h`.
fn find_text(h: &[char], n: &[char]) -> (r: Option<usize>)
    ensures
        match r {
            Some(k) => first_match(h@, n@) == Some(k as int) && k + n@.len() <= h@.len(),
            None => first_match(h@, n@) is None,
        },
{
    let mut q: usize = 0;
    while q < h.len()
        invariant
            q <= h@.len(),
            first_match(h@, n@) == match_from(h@, n@, q as int),
        decreases h@.len() - q,
    {
        if holds_at(h, q, n) {
            return Some(q);
        }
        q = q + 1;
    }
    if holds_at(h, q, n) {
        return Some(q);
    }
    assert(match_from(h@, n@, q + 1) is None);
    None
}

/// Whether `n` occurs in `h` (the `contains` function).
pub fn contains(h: &str, n: &str) -> (r: bool)
    ensures
        r == (first_match(h@, n@) is Some),
{
    let hc = str_chars(h);
    let nc = str_chars(n);
    find_text(hc.as_slice(), nc.as_slice()).is_some()
}

/// Whether `h` begins with `n` (the `starts-with` function).
pub fn starts_with(h: &str, n: &str) -> (r: bool)
    ensures
        r == (n@.len() <= h@.len() && h@.take(n@.len() as int) == n@),
{
    let hc = str_chars(h);
    let nc = str_chars(n);
    crate::text::starts_with_chars(hc.as_slice(), nc.as_slice())
}

/// Whether `h` ends with `n` (the `ends-with` function).
pub fn ends_with(h: &str, n: &str) -> (r: bool)
    ensures
        r == (n@.len() <= h@.len() && h@.skip(h@.len() - n@.len()) == n@),
{
    let hc = str_chars(h);
    let nc = str_chars(n);
    if nc.len() > hc.len() {
        return false;
    }
    let at = hc.len() - nc.len();
    let r = holds_at(hc.as_slice(), at, nc.as_slice());
    assert(hc@.subrange(at as int, at + nc@.len()) =~= hc@.skip(at as int));
    r
}

/// The text of `h` before the first occurrence of `n` (the
/// `substring-before` function): empty when `n` does not occur.
pub open spec fn before_match(h: Seq<char>, n: Seq<char>) -> Seq<char> {
    match first_match(h, n) {
        Some(i) => h.take(i),
        None => Seq::empty(),
    }
}

/// The text of `h` after the first occurrence of `n` (the
/// `substring-after` function): empty when `n` does not occur.
pub open spec fn after_match(h: Seq<char>, n: Seq<char>) -> Seq<char> {
    match first_match(h, n) {
        Some(i) => h.skip(i + n.len()),
        None => Seq::empty(),
    }
}

/// Where `n` occurs in `h`, `h` is the text before its first occurrence,
/// then `n`, then the text after it.
pub proof fn law_split_at_first_match(h: Seq<char>, n: Seq<char>)
    requires
        first_match(h, n) is Some,
    ensures
        before_match(h, n) + n + after_match(h, n) == h,
{
    lemma_match_from(h, n, 0);
    let i = first_match(h, n)->0;
    assert(h.take(i) + h.subrange(i, i + n.len()) + h.skip(i + n.len()) =~= h);
}

/// The `substring-before` function.
pub fn substring_before(h: &str, n: &str) -> (r: String)
    ensures
        r@ == before_match(h@, n@),
{
    let hc = str_chars(h);
    let nc = str_chars(n);
    proof {
        lemma_match_from(hc@, nc@, 0);
    }
    match find_text(hc.as_slice(), nc.as_slice()) {
        Some(i) => {
            let r = crate::text::string_from_range(hc.as_slice(), 0, i);
            assert(r@ =~= hc@.take(i as int));
            r
        },
        None => String::new(),
    }
}

/// The `substring-after` function.
pub fn substring_after(h: &str, n: &str) -> (r: String)
    ensures
        r@ == after_match(h@, n@),
{
    let hc = str_chars(h);
    let nc = str_chars(n);
    proof {
        lemma_match_from(hc@, nc@, 0);
    }
    let hs = hc.as_slice();
    let ns = nc.as_slice();
    let hl = hs.len();
    match find_text(hs, ns) {
        Some(i) => {
            let r = crate::text::string_from_range(hs, i + ns.len(), hl);
            assert(r@ =~= hc@.skip(i + nc@.len()));
            r
        },
        None => String::new(),
    }
}

/// The characters of `s` from position `start` on: `count` of them (as
/// many as there are, when fewer or when no count is given); nothing when
/// `start` is outside `s`.
pub open spec fn chars_from(s: Seq<char>, start: int, count: Option<int>) -> Seq<char> {
    if start < 0 || start >= s.len() {
        Seq::empty()
    } else {
        let want = match count {
            Some(c) => start + c,
            None => s.len() as int,
        };
        s.subrange(start, if want < s.len() {
            want
        } else {
            s.len() as int
        })
    }
}

/// The characters that the `substring` function selects, once its
/// position and length arguments are whole numbers: `start` counts from 0.
pub fn substring(s: &str, start: i64, count: Option<usize>) -> (r: String)
    requires
        0 <= start && count is Some ==> start + count.unwrap() <= usize::MAX,
    ensures
        r@ == chars_from(s@, start as int, match count {
            Some(c) => Some(c as int),
            None => None,
        }),
{
    let chars = str_chars(s);
    if start < 0 || start as u64 >= chars.len() as u64 {
        return String::new();
    }
    let b = start as usize;
    let len = match count {
        Some(c) => c,
        None => chars.len() - b,
    };
    let want = b + len;
    let end = if want < chars.len() {
        want
    } else {
        chars.len()
    };
    crate::text::string_from_range(chars.as_slice(), b, end)
}

/// What a character of `s` becomes under `translate(s, from, to)`: the
/// character of `to` at its first position in `from`, or nothing when `to`
/// is shorter; itself when it is not in `from`.
pub open spec fn translated_char(c: char, from: Seq<char>, to: Seq<char>) -> Seq<char> {
    match find_first(from, c) {
        Some(i) => if i < to.len() {
            seq![to[i]]
        } else {
            Seq::empty()
        },
        None => seq![c],
    }
}

/// `s` with each character translated.
pub open spec fn translated(s: Seq<char>, from: Seq<char>, to: Seq<char>) -> Seq<char>
    decreases s.len(),
{
    if s.len() == 0 {
        Seq::empty()
    } else {
        translated(s.drop_last(), from, to) + translated_char(s.last(), from, to)
    }
}

/// The `translate` function.
pub fn translate(s: &str, from: &str, to: &str) -> (r: String)
    ensures
        r@ == translated(s@, from@, to@),
{
    let sc = str_chars(s);
    let fc = str_chars(from);
    let tc = str_chars(to);
    let mut out = String::new();
    let mut i: usize = 0;
    while i < sc.len()
        invariant
            i <= sc@.len(),
            out@ == translated(sc@.take(i as int), fc@, tc@),
        decreases sc@.len() - i,
    {
        let ch = sc[i];
        let ghost before = out@;
        proof {
            crate::seqs::lemma_find_from(fc@, ch, 0);
        }
        let fs = fc.as_slice();
        let fl = fs.len();
        assert(fs@ == fc@);
        match find_char(fs, ch) {
            Some(k) => {
                assert(find_first(fc@, ch) == Some(k as int));
                if k < tc.len() {
                    push_char(&mut out, tc[k]);
                    assert(translated_char(ch, fc@, tc@) == seq![tc@[k as int]]);
                } else {
                    assert(translated_char(ch, fc@, tc@) == Seq::<char>::empty());
                }
                assert(out@ =~= before + translated_char(ch, fc@, tc@));
            },
            None => {
                push_char(&mut out, ch);
                assert(out@ =~= before + translated_char(ch, fc@, tc@));
            },
        }
        proof {
            let t = sc@.take(i + 1);
            assert(t.drop_last() =~= sc@.take(i as int));
            assert(t.last() == ch);
        }
        i = i + 1;
    }
    assert(sc@.take(sc@.len() as int) =~= sc@);
    out
}

/// `s` from position `i` on, with every occurrence of `p` replaced by `r`;
/// occurrences are taken from the left and do not overlap (`p` not empty).
pub open spec fn replaced_from(s: Seq<char>, p: Seq<char>, r: Seq<char>, i: int) -> Seq<char>
    decreases s.len() - i,
{
    if i < 0 || i >= s.len() || p.len() == 0 {
        Seq::empty()
    } else if i + p.len() <= s.len() && s.subrange(i, i + p.len()) == p {
        r + replaced_from(s, p, r, i + p.len())
    } else {
        seq![s[i]] + replaced_from(s, p, r, i + 1)
    }
}

/// `s` with `r` before each of its characters and at its end: what
/// replacing the empty text gives.
pub open spec fn interleaved(s: Seq<char>, r: Seq<char>) -> Seq<char>
    decreases s.len(),
{
    if s.len() == 0 {
        r
    } else {
        interleaved(s.drop_last(), r) + seq![s.last()] + r
    }
}

/// `s` with every occurrence of `p` replaced by `r`.
pub open spec fn replaced(s: Seq<char>, p: Seq<char>, r: Seq<char>) -> Seq<char> {
    if p.len() == 0 {
        interleaved(s, r)
    } else {
        replaced_from(s, p, r, 0)
    }
}

/// The `replace` function: every occurrence of `from`, from the left and
/// without overlap, replaced by `to`.
pub fn replace(s: &str, from: &str, to: &str) -> (r: String)
    ensures
        r@ == replaced(s@, from@, to@),
{
    let sc = str_chars(s);
    let pc = str_chars(from);
    let mut out = String::new();
    let n = sc.len();
    let mut i: usize = 0;
    if pc.len() == 0 {
        crate::text::push_str(&mut out, to);
        while i < n
            invariant
                n == sc@.len(),
                i <= n,
                pc@.len() == 0,
                out@ == interleaved(sc@.take(i as int), to@),
            decreases n - i,
        {
            let ghost before = out@;
            push_char(&mut out, sc[i]);
            crate::text::push_str(&mut out, to);
            proof {
                let t = sc@.take(i + 1);
                assert(t.drop_last() =~= sc@.take(i as int));
                assert(out@ =~= before + seq![t.last()] + to@);
            }
            i = i + 1;
        }
        assert(sc@.take(n as int) =~= sc@);
    } else {
        let ss = sc.as_slice();
        let ps = pc.as_slice();
        while i < n
            invariant
                n == sc@.len(),
                ss@ == sc@,
                ps@ == pc@,
                pc@.len() > 0,
                i <= n,
                out@ + replaced_from(sc@, pc@, to@, i as int) == replaced_from(sc@, pc@, to@, 0),
            decreases n - i,
        {
            let ghost before = out@;
            let ghost rest = replaced_from(sc@, pc@, to@, i as int);
            if holds_at(ss, i, ps) {
                crate::text::push_str(&mut out, to);
                assert(rest == to@ + replaced_from(sc@, pc@, to@, i + pc@.len()));
                assert(before + rest =~= out@ + replaced_from(sc@, pc@, to@, i + pc@.len()));
                i = i + ps.len();
            } else {
                push_char(&mut out, ss[i]);
                assert(rest == seq![sc@[i as int]] + replaced_from(sc@, pc@, to@, i + 1));
                assert(before + rest =~= out@ + replaced_from(sc@, pc@, to@, i + 1));
                i = i + 1;
            }
        }
        assert(out@ =~= out@ + replaced_from(sc@, pc@, to@, i as int));
    }
    out
}

/// Where the run of characters other than white space that starts at `i`
/// ends.
pub open spec fn word_end(s: Seq<char>, i: int) -> int
    decreases s.len() - i,
{
    if i < 0 || i >= s.len() || unicode_whitespace(s[i]) {
        i
    } else {
        word_end(s, i + 1)
    }
}

/// A word that starts at `i` ends inside `s`, after `i`.
pub proof fn lemma_word_end(s: Seq<char>, i: int)
    requires
        0 <= i <= s.len(),
    ensures
        i <= word_end(s, i) <= s.len(),
        i < s.len() && !unicode_whitespace(s[i]) ==> i < word_end(s, i),
    decreases s.len() - i,
{
    if i < s.len() && !unicode_whitespace(s[i]) {
        lemma_word_end(s, i + 1);
    }
}

/// The words of `s` from position `i` on: its longest runs of characters
/// other than (Unicode) white space, in order.
pub open spec fn words_from(s: Seq<char>, i: int) -> Seq<Seq<char>>
    decreases s.len() - i,
{
    if i < 0 || i >= s.len() {
        Seq::empty()
    } else if unicode_whitespace(s[i]) {
        words_from(s, i + 1)
    } else {
        proof {
            lemma_word_end(s, i);
        }
        seq![s.subrange(i, word_end(s, i))] + words_from(s, word_end(s, i))
    }
}

/// The words joined by single spaces.
pub open spec fn joined(ws: Seq<Seq<char>>) -> Seq<char>
    decreases ws.len(),
{
    if ws.len() == 0 {
        Seq::empty()
    } else if ws.len() == 1 {
        ws[0]
    } else {
        joined(ws.drop_last()) + seq![' '] + ws.last()
    }
}

/// The views of a list of strings.
pub open spec fn views_of(v: Seq<String>) -> Seq<Seq<char>> {
    v.map_values(|w: String| w@)
}

/// The words of `s`, split at (Unicode) white space.
pub fn split_words(s: &str) -> (r: Vec<String>)
    ensures
        views_of(r@) == words_from(s@, 0),
{
    let sc = str_chars(s);
    let n = sc.len();
    let mut out: Vec<String> = Vec::new();
    let mut i: usize = 0;
    while i < n
        invariant
            n == sc@.len(),
            i <= n,
            words_from(sc@, 0) == views_of(out@) + words_from(sc@, i as int),
        decreases n - i,
    {
        if char_is_whitespace(sc[i]) {
            assert(words_from(sc@, i as int) == words_from(sc@, i + 1));
            i = i + 1;
        } else {
            proof {
                lemma_word_end(sc@, i as int);
            }
            let mut j: usize = i + 1;
            while j < n
                invariant_except_break
                    word_end(sc@, j as int) == word_end(sc@, i as int),
                invariant
                    n == sc@.len(),
                    i < j <= n,
                ensures
                    j == word_end(sc@, i as int),
                decreases n - j,
            {
                if char_is_whitespace(sc[j]) {
                    break;
                }
                j = j + 1;
            }
            let w = crate::text::string_from_range(sc.as_slice(), i, j);
            proof {
                assert(words_from(sc@, i as int) == seq![w@] + words_from(sc@, j as int));
                assert(views_of(out@.push(w)) =~= views_of(out@).push(w@));
            }
            out.push(w);
            i = j;
        }
    }
    assert(views_of(out@) + words_from(sc@, n as int) =~= views_of(out@));
    out
}

/// The `normalize-space` function: the words of `s` joined by single
/// spaces, without white space at either end.
pub fn normalize_space(s: &str) -> (r: String)
    ensures
        r@ == joined(words_from(s@, 0)),
{
    let words = split_words(s);
    let ghost ws = views_of(words@);
    let mut out = String::new();
    let mut k: usize = 0;
    while k < words.len()
        invariant
            ws == views_of(words@),
            k <= words@.len(),
            out@ == joined(ws.take(k as int)),
        decreases words@.len() - k,
    {
        if k > 0 {
            push_char(&mut out, ' ');
        }
        crate::text::push_str(&mut out, words[k].as_str());
        proof {
            let t = ws.take(k + 1);
            assert(t.drop_last() =~= ws.take(k as int));
            assert(t.last() == words@[k as int]@);
        }
        k = k + 1;
    }
    assert(ws.take(words@.len() as int) =~= ws);
    out
}

/// The elements that the `id` function selects for the white-space
/// separated identifiers `ws`: for each, the first element with that `id`,
/// in order (identifiers that name no element select nothing).
pub open spec fn ids_found(d: DocV, ws: Seq<Seq<char>>) -> Seq<NodeId>
    decreases ws.len(),
{
    if ws.len() == 0 {
        Seq::empty()
    } else {
        ids_found(d, ws.drop_last()) + match d.element_with_id_from(ws.last(), 0) {
            Some(n) => seq![n],
            None => Seq::empty(),
        }
    }
}

/// The nodes that the `id` function selects for the text `s`.
pub fn elements_by_ids(doc: &Document, s: &str) -> (r: Vec<NodeId>)
    ensures
        r@ == ids_found(doc@, words_from(s@, 0)),
{
    let words = split_words(s);
    let ghost ws = views_of(words@);
    let mut out: Vec<NodeId> = Vec::new();
    let mut k: usize = 0;
    while k < words.len()
        invariant
            ws == views_of(words@),
            ws == words_from(s@, 0),
            k <= words@.len(),
            out@ == ids_found(doc@, ws.take(k as int)),
        decreases words@.len() - k,
    {
        let found = doc.get_element_by_id(words[k].as_str());
        let ghost before = out@;
        match found {
            Some(n) => {
                out.push(n);
            },
            None => {},
        }
        proof {
            let t = ws.take(k + 1);
            assert(t.drop_last() =~= ws.take(k as int));
            assert(t.last() == words@[k as int]@);
            assert(out@ =~= before + match doc@.element_with_id_from(t.last(), 0) {
                Some(n) => seq![n],
                None => Seq::<NodeId>::empty(),
            });
        }
        k = k + 1;
    }
    assert(ws.take(words@.len() as int) =~= ws);
    out
}

/// A character in ASCII lower case: `A` to `Z` become `a` to `z`; every
/// other character stays.
pub open spec fn ascii_lower(c: char) -> char {
    if 'A' <= c <= 'Z' {
        ((c as u32) + 32) as char
    } else {
        c
    }
}

/// A text in ASCII lower case.
pub open spec fn ascii_lowered(s: Seq<char>) -> Seq<char> {
    s.map_values(|c: char| ascii_lower(c))
}

/// Whether the language tag `tag` is `lang` or one of its sublanguages
/// (`lang` and then `-`), ignoring ASCII case: what the `lang` function
/// asks of the nearest `xml:lang`.
pub open spec fn lang_matches(tag: Seq<char>, lang: Seq<char>) -> bool {
    let t = ascii_lowered(tag);
    let l = ascii_lowered(lang);
    t == l || (l.len() < t.len() && t.take(l.len() + 1int) == l.push('-'))
}

/// The `xml:lang` of `id` or of its nearest ancestor that has one,
/// following at most `fuel` parent links.
pub open spec fn nearest_lang(d: DocV, id: int, fuel: nat) -> Option<Seq<char>>
    decreases fuel,
{
    if !d.valid(id) {
        None
    } else {
        match d.attribute(id, "xml:lang"@) {
            Some(v) => Some(v),
            None => match d.nodes[id].parent {
                None => None,
                Some(p) => if fuel == 0 {
                    None
                } else {
                    nearest_lang(d, p as int, (fuel - 1) as nat)
                },
            },
        }
    }
}

/// A character in ASCII lower case.
fn lower_char(c: char) -> (r: char)
    ensures
        r == ascii_lower(c),
{
    if 'A' <= c && c <= 'Z' {
        let u = (c as u32) + 32;
        match crate::numbers::char_from_u32(u) {
            Some(l) => l,
            None => c,
        }
    } else {
        c
    }
}

/// The characters of `s` in ASCII lower case.
fn lower_chars(s: &str) -> (r: Vec<char>)
    ensures
        r@ == ascii_lowered(s@),
{
    let sc = str_chars(s);
    let mut out: Vec<char> = Vec::new();
    let mut i: usize = 0;
    while i < sc.len()
        invariant
            i <= sc@.len(),
            out@ == ascii_lowered(sc@.take(i as int)),
        decreases sc@.len() - i,
    {
        out.push(lower_char(sc[i]));
        assert(ascii_lowered(sc@.take(i + 1)) =~= ascii_lowered(sc@.take(i as int)).push(ascii_lower(sc@[i as int])));
        i = i + 1;
    }
    assert(sc@.take(sc@.len() as int) =~= sc@);
    out
}

/// Whether the tag `tag` is the language `lang` (in ASCII lower case) or a
/// sublanguage of it.
fn tag_matches(tag: &str, lang: &Vec<char>) -> (r: bool)
    ensures
        r == (ascii_lowered(tag@) == lang@ || (lang@.len() < ascii_lowered(tag@).len() && ascii_lowered(
            tag@,
        ).take(lang@.len() + 1int) == lang@.push('-'))),
{
    let t = lower_chars(tag);
    if crate::text::chars_eq(t.as_slice(), lang.as_slice()) {
        return true;
    }
    if lang.len() >= t.len() {
        return false;
    }
    let mut i: usize = 0;
    while i < lang.len()
        invariant
            t@ == ascii_lowered(tag@),
            i <= lang@.len() < t@.len(),
            forall|k: int| 0 <= k < i ==> t@[k] == lang@[k],
        decreases lang@.len() - i,
    {
        if t[i] != lang[i] {
            assert(t@.take(lang@.len() + 1int)[i as int] != lang@.push('-')[i as int]);
            return false;
        }
        i = i + 1;
    }
    let dash = t[lang.len()] == '-';
    if !dash {
        assert(t@.take(lang@.len() + 1int)[lang@.len() as int] != lang@.push('-')[lang@.len() as int]);
    } else {
        assert(t@.take(lang@.len() + 1int) =~= lang@.push('-'));
    }
    dash
}

/// The `lang` function at the node `ctx`: whether the nearest `xml:lang`
/// of `ctx` or its ancestors names `lang` or a sublanguage of it.
pub fn in_lang(doc: &Document, ctx: NodeId, lang: &str) -> (r: bool)
    requires
        doc@.ancestors_finite(ctx as int),
    ensures
        r == match nearest_lang(doc@, ctx as int, doc@.len()) {
            Some(t) => lang_matches(t, lang@),
            None => false,
        },
{
    let target = lower_chars(lang);
    let mut curr: NodeId = ctx;
    let ghost mut fuel: nat = doc@.len();
    loop
        invariant
            target@ == ascii_lowered(lang@),
            doc@.parents_bounded(curr as int, fuel),
            nearest_lang(doc@, ctx as int, doc@.len()) == nearest_lang(doc@, curr as int, fuel),
        decreases fuel,
    {
        match doc.get_attribute(curr, "xml:lang") {
            Some(tag) => {
                return tag_matches(tag, &target);
            },
            None => {},
        }
        match doc.parent_id(curr) {
            None => {
                return false;
            },
            Some(p) => {
                curr = p;
                proof {
                    fuel = (fuel - 1) as nat;
                }
            },
        }
    }
}

} // verus!
