//! Entity declarations found in a DOCTYPE internal subset, read line by
//! line: a line whose first word begins with `<!ENTITY` and that has at
//! least three words declares the second word as a name, with the remaining
//! words joined by single spaces, stripped of surrounding quotes and `>`, as
//! its replacement text.

use vstd::prelude::*;
use crate::io::char_utils::{char_is_whitespace, unicode_whitespace};
use crate::seqs::find_first;

verus! {

/// The length of the leading run of characters that are not white space.
pub open spec fn word_len(s: Seq<char>) -> nat
    decreases s.len(),
{
    if s.len() == 0 || unicode_whitespace(s[0]) {
        0
    } else {
        1 + word_len(s.skip(1))
    }
}

/// The maximal runs of non-white-space characters, in order.
pub open spec fn words_of(s: Seq<char>) -> Seq<Seq<char>>
    decreases s.len(),
{
    if s.len() == 0 {
        Seq::empty()
    } else if unicode_whitespace(s[0]) {
        words_of(s.skip(1))
    } else {
        let k = word_len(s);
        if 0 < k <= s.len() {
            seq![s.take(k as int)] + words_of(s.skip(k as int))
        } else {
            Seq::empty()
        }
    }
}

/// The characters of a text that are not white space, in order.
pub open spec fn non_space(s: Seq<char>) -> Seq<char>
    decreases s.len(),
{
    if s.len() == 0 {
        Seq::empty()
    } else {
        (if unicode_whitespace(s[0]) {
            Seq::empty()
        } else {
            seq![s[0]]
        }) + non_space(s.skip(1))
    }
}

/// How many characters of a text start a word: they are not white space,
/// and the character before them is (or, at the start, `after_space` holds).
pub open spec fn word_starts(s: Seq<char>, after_space: bool) -> nat
    decreases s.len(),
{
    if s.len() == 0 {
        0
    } else {
        (if after_space && !unicode_whitespace(s[0]) {
            1nat
        } else {
            0nat
        }) + word_starts(s.skip(1), unicode_whitespace(s[0]))
    }
}

/// A list of texts concatenated.
pub open spec fn concat_all(ws: Seq<Seq<char>>) -> Seq<char>
    decreases ws.len(),
{
    if ws.len() == 0 {
        Seq::empty()
    } else {
        ws[0] + concat_all(ws.skip(1))
    }
}

/// What the leading run of characters that are not white space is made of.
proof fn lemma_word_run(t: Seq<char>)
    ensures
        word_len(t) <= t.len(),
        forall|i: int| 0 <= i < word_len(t) ==> !unicode_whitespace(#[trigger] t[i]),
        word_len(t) < t.len() ==> unicode_whitespace(t[word_len(t) as int]),
        non_space(t) == t.take(word_len(t) as int) + non_space(t.skip(word_len(t) as int)),
        word_starts(t, false) == word_starts(t.skip(word_len(t) as int), true),
    decreases t.len(),
{
    if t.len() == 0 {
        assert(t.skip(0) =~= t);
        assert(t.take(0) =~= Seq::<char>::empty());
    } else if unicode_whitespace(t[0]) {
        assert(t.skip(0) =~= t);
        assert(t.take(0) =~= Seq::<char>::empty());
        assert(Seq::<char>::empty() + non_space(t) =~= non_space(t));
    } else {
        let u = t.skip(1);
        lemma_word_run(u);
        let k = word_len(t);
        assert(k == 1 + word_len(u));
        assert forall|i: int| 0 <= i < k implies !unicode_whitespace(#[trigger] t[i]) by {
            if i > 0 {
                assert(t[i] == u[i - 1]);
            }
        }
        if k < t.len() {
            assert(t[k as int] == u[word_len(u) as int]);
        }
        assert(u.skip(word_len(u) as int) =~= t.skip(k as int));
        assert(t.take(k as int) =~= seq![t[0]] + u.take(word_len(u) as int));
        assert(non_space(t) =~= t.take(k as int) + non_space(t.skip(k as int)));
    }
}

/// The words of a text are nonempty runs without white space; together
/// they hold exactly its characters that are not white space, and there is
/// one for each place a word starts.
pub proof fn lemma_words_of(s: Seq<char>)
    ensures
        forall|j: int|
            0 <= j < words_of(s).len() ==> #[trigger] words_of(s)[j].len() > 0 && forall|i: int|
                0 <= i < words_of(s)[j].len() ==> !unicode_whitespace(#[trigger] words_of(s)[j][i]),
        concat_all(words_of(s)) == non_space(s),
        words_of(s).len() == word_starts(s, true),
    decreases s.len(),
{
    if s.len() == 0 {
    } else if unicode_whitespace(s[0]) {
        lemma_words_of(s.skip(1));
        assert(non_space(s) =~= non_space(s.skip(1)));
    } else {
        lemma_word_run(s);
        lemma_word_run(s.skip(1));
        let k = word_len(s);
        assert(k == 1 + word_len(s.skip(1)));
        assert(s.skip(1).skip(word_len(s.skip(1)) as int) =~= s.skip(k as int));
        let rest = s.skip(k as int);
        lemma_words_of(rest);
        let w = s.take(k as int);
        let ws = words_of(s);
        assert(ws == seq![w] + words_of(rest));
        assert(ws.skip(1) =~= words_of(rest));
        assert(ws[0] == w);
        assert forall|j: int| 0 <= j < ws.len() implies #[trigger] ws[j].len() > 0 && forall|i: int|
            0 <= i < ws[j].len() ==> !unicode_whitespace(#[trigger] ws[j][i]) by {
            if j > 0 {
                assert(ws[j] == words_of(rest)[j - 1]);
            } else {
                assert forall|i: int| 0 <= i < w.len() implies !unicode_whitespace(#[trigger] w[i]) by {
                    assert(w[i] == s[i]);
                }
            }
        }
    }
}

/// Words joined by single spaces.
pub open spec fn join_spaced(ws: Seq<Seq<char>>) -> Seq<char>
    decreases ws.len(),
{
    if ws.len() == 0 {
        Seq::empty()
    } else if ws.len() == 1 {
        ws[0]
    } else {
        ws[0] + seq![' '] + join_spaced(ws.skip(1))
    }
}

/// A quote or `>`, the characters stripped from a declared value.
pub open spec fn quote_like(c: char) -> bool {
    c == '"' || c == '\'' || c == '>'
}

/// The number of leading quote-like characters.
pub open spec fn lead_quotes(s: Seq<char>) -> nat
    decreases s.len(),
{
    if s.len() > 0 && quote_like(s[0]) {
        1 + lead_quotes(s.skip(1))
    } else {
        0
    }
}

/// The number of trailing quote-like characters.
pub open spec fn trail_quotes(s: Seq<char>) -> nat
    decreases s.len(),
{
    if s.len() > 0 && quote_like(s.last()) {
        1 + trail_quotes(s.drop_last())
    } else {
        0
    }
}

/// A text without its leading and trailing quote-like characters.
pub open spec fn trim_quotes(s: Seq<char>) -> Seq<char> {
    let a = lead_quotes(s);
    let rest = s.skip(a as int);
    rest.take(rest.len() - trail_quotes(rest))
}

/// The characters `<!ENTITY`.
pub open spec fn entity_keyword() -> Seq<char> {
    seq!['<', '!', 'E', 'N', 'T', 'I', 'T', 'Y']
}

/// The declaration a single line makes, if any.
pub open spec fn decl_of_line(line: Seq<char>) -> Option<(Seq<char>, Seq<char>)> {
    let w = words_of(line);
    if w.len() >= 3 && w[0].len() >= 8 && w[0].take(8) == entity_keyword() {
        Some((w[1], trim_quotes(join_spaced(w.skip(2)))))
    } else {
        None
    }
}

/// The declarations of a subset, line by line (lines end at `\n`).
pub open spec fn entity_decls(s: Seq<char>) -> Seq<(Seq<char>, Seq<char>)>
    decreases s.len(),
{
    let here = match find_first(s, '\n') {
        Some(k) => s.take(k),
        None => s,
    };
    let mine = match decl_of_line(here) {
        Some(d) => seq![d],
        None => Seq::empty(),
    };
    match find_first(s, '\n') {
        Some(k) => if 0 <= k < s.len() {
            mine + entity_decls(s.skip(k + 1))
        } else {
            mine
        },
        None => mine,
    }
}

proof fn lemma_word_len(s: Seq<char>)
    ensures
        word_len(s) <= s.len(),
        forall|i: int| 0 <= i < word_len(s) ==> !unicode_whitespace(#[trigger] s[i]),
        word_len(s) < s.len() ==> unicode_whitespace(s[word_len(s) as int]),
    decreases s.len(),
{
    if s.len() > 0 && !unicode_whitespace(s[0]) {
        lemma_word_len(s.skip(1));
        assert forall|i: int| 0 <= i < word_len(s) implies !unicode_whitespace(#[trigger] s[i]) by {
            if i > 0 {
                assert(s[i] == s.skip(1)[i - 1]);
            }
        }
    }
}

proof fn lemma_word_len_from(s: Seq<char>, i: int)
    requires
        0 <= i <= word_len(s),
    ensures
        word_len(s) == i + word_len(s.skip(i)),
    decreases i,
{
    lemma_word_len(s);
    if i > 0 {
        lemma_word_len_from(s.skip(1), i - 1);
        assert(s.skip(1).skip(i - 1) =~= s.skip(i));
    } else {
        assert(s.skip(0) =~= s);
    }
}

/// The words of a line.
pub(crate) fn split_words(line: &[char]) -> (r: Vec<Vec<char>>)
    ensures
        r@.len() == words_of(line@).len(),
        forall|i: int| 0 <= i < r@.len() ==> #[trigger] r@[i]@ == words_of(line@)[i],
{
    let mut out: Vec<Vec<char>> = Vec::new();
    let mut i: usize = 0;
    let ghost s = line@;
    assert(s.skip(0) =~= s);
    while i < line.len()
        invariant
            s == line@,
            i <= s.len(),
            words_of(s) == out@.map_values(|w: Vec<char>| w@) + words_of(s.skip(i as int)),
        decreases s.len() - i,
    {
        let c = line[i];
        let ghost rest = s.skip(i as int);
        assert(rest[0] == c);
        if char_is_whitespace(c) {
            assert(rest.skip(1) =~= s.skip(i + 1));
            i = i + 1;
        } else {
            let mut w: Vec<char> = Vec::new();
            let mut j = i;
            proof {
                lemma_word_len(rest);
            }
            while j < line.len() && !char_is_whitespace(line[j])
                invariant
                    s == line@,
                    i <= j <= s.len(),
                    rest == s.skip(i as int),
                    w@ == s.subrange(i as int, j as int),
                    j - i <= word_len(rest),
                decreases s.len() - j,
            {
                proof {
                    lemma_word_len_from(rest, j - i);
                    assert(rest.skip(j - i) =~= s.skip(j as int));
                    assert(s.skip(j as int)[0] == s[j as int]);
                }
                w.push(line[j]);
                assert(s.subrange(i as int, j + 1) =~= s.subrange(i as int, j as int).push(s[j as int]));
                j = j + 1;
            }
            proof {
                lemma_word_len_from(rest, j - i);
                assert(rest.skip(j - i) =~= s.skip(j as int));
                if j < s.len() {
                    assert(s.skip(j as int)[0] == s[j as int]);
                }
                assert(word_len(rest) == j - i);
                assert(rest.take((j - i) as int) =~= w@);
                assert(rest.skip((j - i) as int) =~= s.skip(j as int));
                let ghost before = out@.map_values(|v: Vec<char>| v@);
                assert(words_of(rest) == seq![w@] + words_of(s.skip(j as int)));
            }
            let ghost before = out@;
            out.push(w);
            proof {
                assert(out@.map_values(|v: Vec<char>| v@) =~= before.map_values(|v: Vec<char>| v@).push(
                    out@[out@.len() - 1]@,
                ));
            }
            i = j;
        }
    }
    proof {
        assert(s.skip(i as int) =~= Seq::<char>::empty());
        assert(words_of(s.skip(i as int)) =~= Seq::<Seq<char>>::empty());
        assert(words_of(s) =~= out@.map_values(|w: Vec<char>| w@));
    }
    out
}

/// The words from position `k` on, joined by single spaces.
pub(crate) fn join_from(ws: &Vec<Vec<char>>, k: usize) -> (r: Vec<char>)
    requires
        k <= ws@.len(),
    ensures
        r@ == join_spaced(ws@.map_values(|w: Vec<char>| w@).skip(k as int)),
    decreases ws@.len() - k,
{
    let ghost v = ws@.map_values(|w: Vec<char>| w@);
    if k == ws.len() {
        assert(v.skip(k as int) =~= Seq::<Seq<char>>::empty());
        return Vec::new();
    }
    let mut out = ws[k].clone();
    assert(out@ == v[k as int]);
    if k + 1 == ws.len() {
        assert(v.skip(k as int).len() == 1);
        assert(v.skip(k as int)[0] == v[k as int]);
        return out;
    }
    let tail = join_from(ws, k + 1);
    out.push(' ');
    let mut i: usize = 0;
    let ghost head = out@;
    while i < tail.len()
        invariant
            i <= tail@.len(),
            out@ == head + tail@.take(i as int),
        decreases tail@.len() - i,
    {
        out.push(tail[i]);
        assert(tail@.take(i + 1) =~= tail@.take(i as int).push(tail@[i as int]));
        i = i + 1;
    }
    assert(tail@.take(tail@.len() as int) =~= tail@);
    assert(v.skip(k as int).skip(1) =~= v.skip(k + 1));
    assert(v.skip(k as int)[0] == v[k as int]);
    out
}

proof fn lemma_lead_bound(s: Seq<char>)
    ensures
        lead_quotes(s) <= s.len(),
        lead_quotes(s) < s.len() ==> !quote_like(s[lead_quotes(s) as int]),
    decreases s.len(),
{
    if s.len() > 0 && quote_like(s[0]) {
        lemma_lead_bound(s.skip(1));
        if lead_quotes(s) < s.len() {
            assert(s[lead_quotes(s) as int] == s.skip(1)[lead_quotes(s.skip(1)) as int]);
        }
    }
}

proof fn lemma_lead_quotes(s: Seq<char>, i: int)
    requires
        0 <= i <= lead_quotes(s),
    ensures
        lead_quotes(s) <= s.len(),
        lead_quotes(s) == i + lead_quotes(s.skip(i)),
        forall|q: int| 0 <= q < i ==> quote_like(#[trigger] s[q]),
    decreases i,
{
    lemma_lead_bound(s);
    if i > 0 {
        lemma_lead_quotes(s.skip(1), i - 1);
        assert(s.skip(1).skip(i - 1) =~= s.skip(i));
        assert forall|q: int| 0 <= q < i implies quote_like(#[trigger] s[q]) by {
            if q > 0 {
                assert(s[q] == s.skip(1)[q - 1]);
            }
        }
    } else {
        assert(s.skip(0) =~= s);
    }
}

proof fn lemma_trail_bound(s: Seq<char>)
    ensures
        trail_quotes(s) <= s.len(),
    decreases s.len(),
{
    if s.len() > 0 && quote_like(s.last()) {
        lemma_trail_bound(s.drop_last());
    }
}

proof fn lemma_trail_quotes(s: Seq<char>, i: int)
    requires
        0 <= i <= trail_quotes(s),
    ensures
        trail_quotes(s) <= s.len(),
        trail_quotes(s) == i + trail_quotes(s.take(s.len() - i)),
    decreases i,
{
    lemma_trail_bound(s);
    if i > 0 {
        lemma_trail_quotes(s.drop_last(), i - 1);
        assert(s.drop_last().take(s.drop_last().len() - (i - 1)) =~= s.take(s.len() - i));
    } else {
        assert(s.take(s.len() as int) =~= s);
    }
}

/// A text without its leading and trailing quotes and `>` characters.
fn strip_quotes(s: &Vec<char>) -> (r: Vec<char>)
    ensures
        r@ == trim_quotes(s@),
{
    let mut a: usize = 0;
    while a < s.len() && (s[a] == '"' || s[a] == '\'' || s[a] == '>')
        invariant
            a <= s@.len(),
            a <= lead_quotes(s@),
        decreases s@.len() - a,
    {
        proof {
            lemma_lead_quotes(s@, a as int);
            assert(s@.skip(a as int)[0] == s@[a as int]);
        }
        a = a + 1;
    }
    proof {
        lemma_lead_quotes(s@, a as int);
        if a < s@.len() {
            assert(s@.skip(a as int)[0] == s@[a as int]);
        }
    }
    let ghost rest = s@.skip(a as int);
    let mut b: usize = s.len();
    while b > a && (s[b - 1] == '"' || s[b - 1] == '\'' || s[b - 1] == '>')
        invariant
            a <= b <= s@.len(),
            rest == s@.skip(a as int),
            s@.len() - b <= trail_quotes(rest),
        decreases b - a,
    {
        proof {
            lemma_trail_quotes(rest, s@.len() - b);
            let t = rest.take(rest.len() - (s@.len() - b));
            assert(t.last() == s@[b - 1]);
        }
        b = b - 1;
    }
    proof {
        lemma_trail_quotes(rest, s@.len() - b);
        let t = rest.take(rest.len() - (s@.len() - b));
        if b > a {
            assert(t.last() == s@[b - 1]);
        }
        assert(trail_quotes(rest) == s@.len() - b);
    }
    let mut out: Vec<char> = Vec::new();
    let mut i = a;
    while i < b
        invariant
            a <= i <= b <= s@.len(),
            out@ == s@.subrange(a as int, i as int),
        decreases b - i,
    {
        out.push(s[i]);
        assert(s@.subrange(a as int, i + 1) =~= s@.subrange(a as int, i as int).push(s@[i as int]));
        i = i + 1;
    }
    assert(out@ =~= rest.take(rest.len() - trail_quotes(rest)));
    out
}

/// The declaration a single line makes, if any.
fn line_decl(line: &[char]) -> (r: Option<(Vec<char>, Vec<char>)>)
    ensures
        match decl_of_line(line@) {
            Some((n, v)) => r matches Some((rn, rv)) && rn@ == n && rv@ == v,
            None => r is None,
        },
{
    let ws = split_words(line);
    let ghost v = ws@.map_values(|w: Vec<char>| w@);
    assert(v =~= words_of(line@));
    if ws.len() < 3 {
        return None;
    }
    let kw: [char; 8] = ['<', '!', 'E', 'N', 'T', 'I', 'T', 'Y'];
    if !crate::text::starts_with_chars(ws[0].as_slice(), &kw) {
        assert(kw@ =~= entity_keyword());
        return None;
    }
    assert(kw@ =~= entity_keyword());
    let name = ws[1].clone();
    let joined = join_from(&ws, 2);
    let value = strip_quotes(&joined);
    Some((name, value))
}

/// The entity declarations of an internal subset, in order.
pub fn entity_declarations(subset: &[char]) -> (r: Vec<(Vec<char>, Vec<char>)>)
    ensures
        r@.len() == entity_decls(subset@).len(),
        forall|i: int| 0 <= i < r@.len() ==> (#[trigger] r@[i]).0@ == entity_decls(subset@)[i].0 && r@[i].1@
            == entity_decls(subset@)[i].1,
{
    let mut out: Vec<(Vec<char>, Vec<char>)> = Vec::new();
    let ghost s = subset@;
    let mut i: usize = 0;
    assert(s.skip(0) =~= s);
    loop
        invariant_except_break
            entity_decls(s) == out@.map_values(|d: (Vec<char>, Vec<char>)| (d.0@, d.1@)) + entity_decls(
                s.skip(i as int),
            ),
        invariant
            s == subset@,
            i <= s.len(),
        ensures
            entity_decls(s) == out@.map_values(|d: (Vec<char>, Vec<char>)| (d.0@, d.1@)),
        decreases s.len() - i,
    {
        let ghost rest = s.skip(i as int);
        let mut j = i;
        while j < subset.len() && subset[j] != '\n'
            invariant
                s == subset@,
                i <= j <= s.len(),
                forall|q: int| i <= q < j ==> s[q] != '\n',
            decreases s.len() - j,
        {
            j = j + 1;
        }
        proof {
            crate::seqs::lemma_find_from(rest, '\n', 0);
            if j < s.len() {
                assert forall|q: int| 0 <= q < j - i implies rest[q] != '\n' by {
                    assert(rest[q] == s[i + q]);
                }
                assert(rest[j - i] == s[j as int]);
                crate::seqs::lemma_find_first_is(rest, '\n', j - i);
            } else {
                assert forall|q: int| 0 <= q < rest.len() implies rest[q] != '\n' by {
                    assert(rest[q] == s[i + q]);
                }
                crate::seqs::lemma_find_first_none(rest, '\n');
            }
        }
        let line = crate::entity::mapper::sub_chars(subset, i, j);
        let ghost before = out@.map_values(|d: (Vec<char>, Vec<char>)| (d.0@, d.1@));
        let d = line_decl(line.as_slice());
        proof {
            if j < s.len() {
                assert(line@ =~= rest.take(j - i));
            } else {
                assert(line@ =~= rest);
            }
        }
        match d {
            Some(pair) => {
                out.push(pair);
                proof {
                    assert(out@.map_values(|d: (Vec<char>, Vec<char>)| (d.0@, d.1@)) =~= before.push(
                        (out@[out@.len() - 1].0@, out@[out@.len() - 1].1@),
                    ));
                }
            },
            None => {},
        }
        if j >= subset.len() {
            proof {
                assert(entity_decls(rest) == match decl_of_line(rest) {
                    Some(d) => seq![d],
                    None => Seq::empty(),
                });
                assert(entity_decls(s) =~= out@.map_values(|d: (Vec<char>, Vec<char>)| (d.0@, d.1@)));
            }
            break;
        }
        proof {
            assert(rest.skip(j - i + 1) =~= s.skip(j + 1));
        }
        i = j + 1;
    }
    out
}

} // verus!
