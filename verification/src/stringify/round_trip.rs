//! Text escaped for writing reads back, through entity expansion, as the
//! text that was written.

use vstd::prelude::*;
use crate::entity::mapper::{expand_from, expand_spec, has_amp, predefined, ref_expand, ExpandErr, MapperV};
use crate::numbers::utf8_width;
use crate::stringify::canonical::{canon_attr, canon_attr_char, canon_text, canon_text_char};
use crate::stringify::markup::{esc_value_char, escape_value};
use crate::stringify::serializer::{esc_attr_char, esc_text_char, escape_attr, escape_text};

verus! {

/// The UTF-8 size of a text.
pub open spec fn utf8_size(s: Seq<char>) -> nat
    decreases s.len(),
{
    if s.len() == 0 {
        0
    } else {
        utf8_width(s[0]) + utf8_size(s.skip(1))
    }
}

/// Escaping a text escapes its first character, then the rest.
proof fn lemma_escape_front(s: Seq<char>)
    requires
        s.len() > 0,
    ensures
        escape_text(s) == esc_text_char(s[0]) + escape_text(s.skip(1)),
    decreases s.len(),
{
    if s.len() == 1 {
        assert(s.drop_last() =~= Seq::<char>::empty());
        assert(s.skip(1) =~= Seq::<char>::empty());
        assert(escape_text(s.drop_last()) =~= Seq::<char>::empty());
        assert(s.last() == s[0]);
        assert(escape_text(s.skip(1)) =~= Seq::<char>::empty());
        assert(escape_text(s) =~= esc_text_char(s[0]));
    } else {
        let p = s.drop_last();
        lemma_escape_front(p);
        assert(p.skip(1) =~= s.skip(1).drop_last());
        assert(s.skip(1).last() == s.last());
        assert(escape_text(s) =~= esc_text_char(s[0]) + escape_text(s.skip(1)));
    }
}

/// The three escapes and the characters they stand for.
proof fn lemma_escape_chars()
    ensures
        esc_text_char('&') == seq!['&', 'a', 'm', 'p', ';'],
        esc_text_char('<') == seq!['&', 'l', 't', ';'],
        esc_text_char('>') == seq!['&', 'g', 't', ';'],
{
    reveal_strlit("&amp;");
    reveal_strlit("&lt;");
    reveal_strlit("&gt;");
    assert("&amp;"@ =~= seq!['&', 'a', 'm', 'p', ';']);
    assert("&lt;"@ =~= seq!['&', 'l', 't', ';']);
    assert("&gt;"@ =~= seq!['&', 'g', 't', ';']);
}

/// Expanding an escaped text from depth zero gives the text back, with its
/// size added to the running total.
proof fn lemma_expand_escaped(m: MapperV, s: Seq<char>, total: nat)
    requires
        total + utf8_size(s) <= m.max_size,
    ensures
        expand_from(m, escape_text(s), 0, total) == Ok::<(Seq<char>, nat), crate::entity::mapper::ExpandErr>(
            (s, total + utf8_size(s)),
        ),
    decreases s.len(),
{
    if s.len() == 0 {
        assert(escape_text(s) =~= Seq::<char>::empty());
        assert(s =~= Seq::<char>::empty());
    } else {
        let c = s[0];
        let rest = s.skip(1);
        lemma_escape_front(s);
        lemma_escape_chars();
        let e = escape_text(s);
        let t1 = total + utf8_width(c);
        assert(utf8_size(s) == utf8_width(c) + utf8_size(rest));
        lemma_expand_escaped(m, rest, t1);
        if c == '&' || c == '<' || c == '>' {
            let code = esc_text_char(c);
            let k = code.len() - 1;
            assert(e == code + escape_text(rest));
            assert(e[0] == '&');
            assert(e[k] == ';');
            assert forall|q: int| 0 <= q < k implies e[q] != ';' by {
                assert(e[q] == code[q]);
            }
            crate::seqs::lemma_find_first_is(e, ';', k);
            let name = e.subrange(1, k);
            if c == '&' {
                assert(name =~= seq!['a', 'm', 'p']);
            } else if c == '<' {
                assert(name =~= seq!['l', 't']);
            } else {
                assert(name =~= seq!['g', 't']);
            }
            assert(predefined(name) == Some(c));
            assert(utf8_width(c) == 1);
            assert(ref_expand(m, name, 0, total) == Ok::<(Seq<char>, nat), crate::entity::mapper::ExpandErr>(
                (seq![c], total + 1),
            ));
            assert(e.skip(k + 1) =~= escape_text(rest));
            assert(seq![c] + rest =~= s);
            assert(expand_from(m, e, 0, total) == Ok::<(Seq<char>, nat), crate::entity::mapper::ExpandErr>(
                (seq![c] + rest, t1 + utf8_size(rest)),
            ));
        } else {
            assert(esc_text_char(c) == seq![c]);
            assert(e[0] == c);
            assert(e.skip(1) =~= escape_text(rest));
            assert(seq![c] + rest =~= s);
            assert(expand_from(m, e, 0, total) == Ok::<(Seq<char>, nat), crate::entity::mapper::ExpandErr>(
                (seq![c] + rest, t1 + utf8_size(rest)),
            ));
        }
    }
}

/// A text without `&` escapes to itself only if it holds none of `&`, `<`, `>`.
proof fn lemma_escape_without_amp(s: Seq<char>)
    requires
        !has_amp(escape_text(s)),
    ensures
        escape_text(s) == s,
    decreases s.len(),
{
    if s.len() > 0 {
        let p = s.drop_last();
        let c = s.last();
        lemma_escape_chars();
        let e = escape_text(s);
        assert(e == escape_text(p) + esc_text_char(c));
        if c == '&' || c == '<' || c == '>' {
            assert(e[escape_text(p).len() as int] == '&');
            assert(false);
        }
        assert forall|q: int| 0 <= q < escape_text(p).len() implies escape_text(p)[q] != '&' by {
            assert(e[q] == escape_text(p)[q]);
        }
        lemma_escape_without_amp(p);
        assert(s =~= p.push(c));
    }
}

/// Text content escaped as the serializer writes it reads back through
/// entity expansion as the original text, whatever entities the mapper
/// knows, as long as the text fits the mapper's size limit.
pub proof fn law_escaped_text_expands_back(m: MapperV, s: Seq<char>)
    requires
        utf8_size(s) <= m.max_size,
    ensures
        expand_spec(m, escape_text(s)) == Ok::<Seq<char>, crate::entity::mapper::ExpandErr>(s),
{
    if has_amp(escape_text(s)) {
        lemma_expand_escaped(m, s, 0);
    } else {
        lemma_escape_without_amp(s);
    }
}

/// `s` written character by character, each as `f` writes it.
pub open spec fn written_with(f: spec_fn(char) -> Seq<char>, s: Seq<char>) -> Seq<char>
    decreases s.len(),
{
    if s.len() == 0 {
        Seq::empty()
    } else {
        f(s[0]) + written_with(f, s.skip(1))
    }
}

/// Whether `f` writes `c` so that expansion reads `c` back: as `c` itself
/// when it is not `&`, or as a reference `&...;` that expands to `c`.
pub open spec fn reads_back(m: MapperV, f: spec_fn(char) -> Seq<char>, c: char) -> bool {
    ||| (f(c) == seq![c] && c != '&')
    ||| {
        let e = f(c);
        let k = e.len() - 1;
        &&& e.len() >= 2
        &&& e[0] == '&'
        &&& e[k] == ';'
        &&& forall|q: int| 0 <= q < k ==> e[q] != ';'
        &&& forall|t: nat|
            t + utf8_width(c) <= m.max_size ==> #[trigger] ref_expand(m, e.subrange(1, k), 0, t) == Ok::<
                (Seq<char>, nat),
                ExpandErr,
            >((seq![c], t + utf8_width(c)))
    }
}

/// Writing a text writes all but its last character, then the last.
proof fn lemma_written_last(f: spec_fn(char) -> Seq<char>, s: Seq<char>)
    requires
        s.len() > 0,
    ensures
        written_with(f, s) == written_with(f, s.drop_last()) + f(s.last()),
    decreases s.len(),
{
    if s.len() == 1 {
        assert(s.skip(1) =~= Seq::<char>::empty());
        assert(s.drop_last() =~= Seq::<char>::empty());
        assert(written_with(f, s.skip(1)) =~= Seq::<char>::empty());
        assert(written_with(f, s.drop_last()) =~= Seq::<char>::empty());
        assert(written_with(f, s) =~= f(s[0]));
        assert(written_with(f, s.drop_last()) + f(s.last()) =~= f(s[0]));
    } else {
        lemma_written_last(f, s.skip(1));
        assert(s.skip(1).drop_last() =~= s.drop_last().skip(1));
        assert(s.skip(1).last() == s.last());
        assert(s.drop_last()[0] == s[0]);
        assert(written_with(f, s) =~= written_with(f, s.drop_last()) + f(s.last()));
    }
}

/// Expanding a text written with `f` from depth zero gives the text back,
/// its size added to the running total.
proof fn lemma_expand_written(m: MapperV, f: spec_fn(char) -> Seq<char>, s: Seq<char>, total: nat)
    requires
        forall|i: int| 0 <= i < s.len() ==> reads_back(m, f, #[trigger] s[i]),
        total + utf8_size(s) <= m.max_size,
    ensures
        expand_from(m, written_with(f, s), 0, total) == Ok::<(Seq<char>, nat), ExpandErr>((s, total + utf8_size(s))),
    decreases s.len(),
{
    if s.len() == 0 {
        assert(written_with(f, s) =~= Seq::<char>::empty());
        assert(s =~= Seq::<char>::empty());
    } else {
        let c = s[0];
        let rest = s.skip(1);
        let e = written_with(f, s);
        let code = f(c);
        let t1 = total + utf8_width(c);
        assert(reads_back(m, f, s[0]));
        assert(utf8_size(s) == utf8_width(c) + utf8_size(rest));
        assert forall|i: int| 0 <= i < rest.len() implies reads_back(m, f, #[trigger] rest[i]) by {
            assert(rest[i] == s[i + 1]);
        }
        lemma_expand_written(m, f, rest, t1);
        assert(e == code + written_with(f, rest));
        assert(seq![c] + rest =~= s);
        if code == seq![c] && c != '&' {
            assert(e[0] == c);
            assert(e.skip(1) =~= written_with(f, rest));
            assert(expand_from(m, e, 0, total) == Ok::<(Seq<char>, nat), ExpandErr>(
                (seq![c] + rest, t1 + utf8_size(rest)),
            ));
        } else {
            let k = code.len() - 1;
            assert(e[0] == code[0]);
            assert(e[k] == code[k]);
            assert forall|q: int| 0 <= q < k implies e[q] != ';' by {
                assert(e[q] == code[q]);
            }
            crate::seqs::lemma_find_first_is(e, ';', k);
            assert(e.subrange(1, k) =~= code.subrange(1, k));
            assert(ref_expand(m, code.subrange(1, k), 0, total) == Ok::<(Seq<char>, nat), ExpandErr>(
                (seq![c], t1),
            ));
            assert(e.skip(k + 1) =~= written_with(f, rest));
            assert(expand_from(m, e, 0, total) == Ok::<(Seq<char>, nat), ExpandErr>(
                (seq![c] + rest, t1 + utf8_size(rest)),
            ));
        }
    }
}

/// A text written with `f` that holds no `&` is the text itself.
proof fn lemma_written_without_amp(m: MapperV, f: spec_fn(char) -> Seq<char>, s: Seq<char>)
    requires
        forall|i: int| 0 <= i < s.len() ==> reads_back(m, f, #[trigger] s[i]),
        !has_amp(written_with(f, s)),
    ensures
        written_with(f, s) == s,
    decreases s.len(),
{
    if s.len() > 0 {
        let c = s[0];
        let rest = s.skip(1);
        let e = written_with(f, s);
        assert(reads_back(m, f, s[0]));
        assert(e == f(c) + written_with(f, rest));
        if !(f(c) == seq![c] && c != '&') {
            assert(e[0] == '&');
            assert(e.contains('&'));
        }
        assert forall|i: int| 0 <= i < rest.len() implies reads_back(m, f, #[trigger] rest[i]) by {
            assert(rest[i] == s[i + 1]);
        }
        assert forall|q: int| 0 <= q < written_with(f, rest).len() implies written_with(f, rest)[q] != '&' by {
            assert(e[q + 1] == written_with(f, rest)[q]);
        }
        lemma_written_without_amp(m, f, rest);
        assert(seq![c] + rest =~= s);
    }
}

/// Whatever the mapper knows, a text written with an `f` that reads every
/// one of its characters back expands to the text, within the size limit.
proof fn lemma_written_expands_back(m: MapperV, f: spec_fn(char) -> Seq<char>, s: Seq<char>)
    requires
        forall|i: int| 0 <= i < s.len() ==> reads_back(m, f, #[trigger] s[i]),
        utf8_size(s) <= m.max_size,
    ensures
        expand_spec(m, written_with(f, s)) == Ok::<Seq<char>, ExpandErr>(s),
{
    if has_amp(written_with(f, s)) {
        lemma_expand_written(m, f, s, 0);
    } else {
        lemma_written_without_amp(m, f, s);
    }
}

/// A predefined entity reference `&name;` reads back as the character it
/// names.
proof fn lemma_predefined_reads_back(m: MapperV, f: spec_fn(char) -> Seq<char>, c: char, name: Seq<char>)
    requires
        f(c) == seq!['&'] + name + seq![';'],
        name.len() >= 2,
        name[0] != '#',
        forall|q: int| 0 <= q < name.len() ==> name[q] != ';',
        predefined(name) == Some(c),
        utf8_width(c) == 1,
    ensures
        reads_back(m, f, c),
{
    let e = f(c);
    let k = e.len() - 1;
    assert(e.subrange(1, k) =~= name);
    assert forall|q: int| 0 <= q < k implies e[q] != ';' by {
        if q > 0 {
            assert(e[q] == name[q - 1]);
        }
    }
}

/// A one-digit hexadecimal character reference `&#xH;` reads back as the
/// character whose code the digit is.
proof fn lemma_hex_reads_back(m: MapperV, f: spec_fn(char) -> Seq<char>, c: char, h: char)
    requires
        f(c) == seq!['&', '#', 'x', h, ';'],
        crate::numbers::digit_value(h, 16) == Some(c as nat),
        (c as u32) < 16,
    ensures
        reads_back(m, f, c),
{
    let e = f(c);
    let name = e.subrange(1, 4);
    assert(name =~= seq!['#', 'x', h]);
    assert(name.skip(1) =~= seq!['x', h]);
    let dd = seq![h];
    assert(name.skip(1).skip(1) =~= dd);
    assert(dd.drop_last() =~= Seq::<char>::empty());
    assert(dd.last() == h);
    assert(crate::numbers::digits_value(dd.drop_last(), 16) == Some(0nat));
    assert(crate::numbers::digits_value(dd, 16) == Some(c as nat));
    assert(crate::numbers::parse_u32_spec(dd, 16) == Some(c as u32));
    assert(((c as u32) as char) == c);
    assert(utf8_width(c) == 1);
}

/// The value escape reads every character back.
proof fn lemma_value_reads_back(m: MapperV, c: char)
    ensures
        reads_back(m, |x: char| esc_value_char(x), c),
{
    let f = |x: char| esc_value_char(x);
    reveal_strlit("&apos;");
    reveal_strlit("&quot;");
    reveal_strlit("&amp;");
    reveal_strlit("&lt;");
    reveal_strlit("&gt;");
    if c == '\'' {
        assert(f(c) =~= seq!['&'] + seq!['a', 'p', 'o', 's'] + seq![';']);
        lemma_predefined_reads_back(m, f, c, seq!['a', 'p', 'o', 's']);
    } else if c == '"' {
        assert(f(c) =~= seq!['&'] + seq!['q', 'u', 'o', 't'] + seq![';']);
        lemma_predefined_reads_back(m, f, c, seq!['q', 'u', 'o', 't']);
    } else if c == '&' {
        assert(f(c) =~= seq!['&'] + seq!['a', 'm', 'p'] + seq![';']);
        lemma_predefined_reads_back(m, f, c, seq!['a', 'm', 'p']);
    } else if c == '<' {
        assert(f(c) =~= seq!['&'] + seq!['l', 't'] + seq![';']);
        lemma_predefined_reads_back(m, f, c, seq!['l', 't']);
    } else if c == '>' {
        assert(f(c) =~= seq!['&'] + seq!['g', 't'] + seq![';']);
        lemma_predefined_reads_back(m, f, c, seq!['g', 't']);
    } else {
        assert(f(c) == seq![c]);
    }
}

/// The canonical text escape reads every character back.
proof fn lemma_canon_reads_back(m: MapperV, c: char)
    ensures
        reads_back(m, |x: char| canon_text_char(x), c),
{
    let f = |x: char| canon_text_char(x);
    reveal_strlit("&amp;");
    reveal_strlit("&lt;");
    reveal_strlit("&gt;");
    reveal_strlit("&#xD;");
    if c == '&' {
        assert(f(c) =~= seq!['&'] + seq!['a', 'm', 'p'] + seq![';']);
        lemma_predefined_reads_back(m, f, c, seq!['a', 'm', 'p']);
    } else if c == '<' {
        assert(f(c) =~= seq!['&'] + seq!['l', 't'] + seq![';']);
        lemma_predefined_reads_back(m, f, c, seq!['l', 't']);
    } else if c == '>' {
        assert(f(c) =~= seq!['&'] + seq!['g', 't'] + seq![';']);
        lemma_predefined_reads_back(m, f, c, seq!['g', 't']);
    } else if c == '\r' {
        assert(f(c) =~= seq!['&', '#', 'x', 'D', ';']);
        lemma_hex_reads_back(m, f, c, 'D');
    } else {
        assert(f(c) == seq![c]);
    }
}

/// The attribute escape reads every character back.
proof fn lemma_attr_reads_back(m: MapperV, c: char)
    ensures
        reads_back(m, |x: char| esc_attr_char(x), c),
{
    let f = |x: char| esc_attr_char(x);
    reveal_strlit("&quot;");
    reveal_strlit("&amp;");
    reveal_strlit("&lt;");
    reveal_strlit("&gt;");
    if c == '"' {
        assert(f(c) =~= seq!['&'] + seq!['q', 'u', 'o', 't'] + seq![';']);
        lemma_predefined_reads_back(m, f, c, seq!['q', 'u', 'o', 't']);
    } else if c == '&' {
        assert(f(c) =~= seq!['&'] + seq!['a', 'm', 'p'] + seq![';']);
        lemma_predefined_reads_back(m, f, c, seq!['a', 'm', 'p']);
    } else if c == '<' {
        assert(f(c) =~= seq!['&'] + seq!['l', 't'] + seq![';']);
        lemma_predefined_reads_back(m, f, c, seq!['l', 't']);
    } else if c == '>' {
        assert(f(c) =~= seq!['&'] + seq!['g', 't'] + seq![';']);
        lemma_predefined_reads_back(m, f, c, seq!['g', 't']);
    } else {
        assert(f(c) == seq![c]);
    }
}

/// The canonical attribute escape reads every character back.
proof fn lemma_canon_attr_reads_back(m: MapperV, c: char)
    ensures
        reads_back(m, |x: char| canon_attr_char(x), c),
{
    let f = |x: char| canon_attr_char(x);
    reveal_strlit("&quot;");
    reveal_strlit("&amp;");
    reveal_strlit("&lt;");
    reveal_strlit("&#x9;");
    reveal_strlit("&#xA;");
    reveal_strlit("&#xD;");
    if c == '"' {
        assert(f(c) =~= seq!['&'] + seq!['q', 'u', 'o', 't'] + seq![';']);
        lemma_predefined_reads_back(m, f, c, seq!['q', 'u', 'o', 't']);
    } else if c == '&' {
        assert(f(c) =~= seq!['&'] + seq!['a', 'm', 'p'] + seq![';']);
        lemma_predefined_reads_back(m, f, c, seq!['a', 'm', 'p']);
    } else if c == '<' {
        assert(f(c) =~= seq!['&'] + seq!['l', 't'] + seq![';']);
        lemma_predefined_reads_back(m, f, c, seq!['l', 't']);
    } else if c == '\t' {
        assert(f(c) =~= seq!['&', '#', 'x', '9', ';']);
        lemma_hex_reads_back(m, f, c, '9');
    } else if c == '\n' {
        assert(f(c) =~= seq!['&', '#', 'x', 'A', ';']);
        lemma_hex_reads_back(m, f, c, 'A');
    } else if c == '\r' {
        assert(f(c) =~= seq!['&', '#', 'x', 'D', ';']);
        lemma_hex_reads_back(m, f, c, 'D');
    } else {
        assert(f(c) == seq![c]);
    }
}

/// Writing with a closure over a character escape is the escape of the text.
proof fn lemma_value_written(s: Seq<char>)
    ensures
        escape_value(s) == written_with(|x: char| esc_value_char(x), s),
    decreases s.len(),
{
    if s.len() == 0 {
        assert(written_with(|x: char| esc_value_char(x), s) =~= Seq::<char>::empty());
    } else {
        lemma_value_written(s.drop_last());
        lemma_written_last(|x: char| esc_value_char(x), s);
    }
}

/// Writing with a closure over the attribute escape is the escaped value.
proof fn lemma_attr_written(s: Seq<char>)
    ensures
        escape_attr(s) == written_with(|x: char| esc_attr_char(x), s),
    decreases s.len(),
{
    if s.len() == 0 {
        assert(written_with(|x: char| esc_attr_char(x), s) =~= Seq::<char>::empty());
    } else {
        lemma_attr_written(s.drop_last());
        lemma_written_last(|x: char| esc_attr_char(x), s);
    }
}

/// Writing with a closure over the canonical attribute escape is the
/// canonical attribute value.
proof fn lemma_canon_attr_written(s: Seq<char>)
    ensures
        canon_attr(s) == written_with(|x: char| canon_attr_char(x), s),
    decreases s.len(),
{
    if s.len() == 0 {
        assert(written_with(|x: char| canon_attr_char(x), s) =~= Seq::<char>::empty());
    } else {
        lemma_canon_attr_written(s.drop_last());
        lemma_written_last(|x: char| canon_attr_char(x), s);
    }
}

/// Writing with a closure over the canonical character escape is the
/// canonical text.
proof fn lemma_canon_written(s: Seq<char>)
    ensures
        canon_text(s) == written_with(|x: char| canon_text_char(x), s),
    decreases s.len(),
{
    if s.len() == 0 {
        assert(written_with(|x: char| canon_text_char(x), s) =~= Seq::<char>::empty());
    } else {
        lemma_canon_written(s.drop_last());
        lemma_written_last(|x: char| canon_text_char(x), s);
    }
}

/// A value escaped for the body of an element (`&`, `<`, `>`, `"` and `'`
/// as the predefined entities) reads back through entity expansion as the
/// value, whatever entities the mapper knows, within its size limit: each
/// predefined entity stands for its own character.
pub proof fn law_escaped_value_expands_back(m: MapperV, s: Seq<char>)
    requires
        utf8_size(s) <= m.max_size,
    ensures
        expand_spec(m, escape_value(s)) == Ok::<Seq<char>, ExpandErr>(s),
{
    let f = |x: char| esc_value_char(x);
    assert forall|i: int| 0 <= i < s.len() implies reads_back(m, f, #[trigger] s[i]) by {
        lemma_value_reads_back(m, s[i]);
    }
    lemma_value_written(s);
    lemma_written_expands_back(m, f, s);
}

/// Text written canonically reads back through entity expansion as the
/// text: canonical text holds no bare `&` or `<`, and each reference in it
/// stands for the character it replaced.
pub proof fn law_canonical_text_expands_back(m: MapperV, s: Seq<char>)
    requires
        utf8_size(s) <= m.max_size,
    ensures
        expand_spec(m, canon_text(s)) == Ok::<Seq<char>, ExpandErr>(s),
{
    let f = |x: char| canon_text_char(x);
    assert forall|i: int| 0 <= i < s.len() implies reads_back(m, f, #[trigger] s[i]) by {
        lemma_canon_reads_back(m, s[i]);
    }
    lemma_canon_written(s);
    lemma_written_expands_back(m, f, s);
}

/// An attribute value escaped as the serializer writes it reads back
/// through entity expansion as the value, within the mapper's size limit.
pub proof fn law_escaped_attribute_expands_back(m: MapperV, s: Seq<char>)
    requires
        utf8_size(s) <= m.max_size,
    ensures
        expand_spec(m, escape_attr(s)) == Ok::<Seq<char>, ExpandErr>(s),
{
    let f = |x: char| esc_attr_char(x);
    assert forall|i: int| 0 <= i < s.len() implies reads_back(m, f, #[trigger] s[i]) by {
        lemma_attr_reads_back(m, s[i]);
    }
    lemma_attr_written(s);
    lemma_written_expands_back(m, f, s);
}

/// An attribute value written canonically reads back through entity
/// expansion as the value: tab, line feed and carriage return become
/// character references to themselves, and no bare `&`, `<` or `"` is left.
pub proof fn law_canonical_attribute_expands_back(m: MapperV, s: Seq<char>)
    requires
        utf8_size(s) <= m.max_size,
    ensures
        expand_spec(m, canon_attr(s)) == Ok::<Seq<char>, ExpandErr>(s),
{
    let f = |x: char| canon_attr_char(x);
    assert forall|i: int| 0 <= i < s.len() implies reads_back(m, f, #[trigger] s[i]) by {
        lemma_canon_attr_reads_back(m, s[i]);
    }
    lemma_canon_attr_written(s);
    lemma_written_expands_back(m, f, s);
}

} // verus!
