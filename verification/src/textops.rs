//! Small text operations used by the schema readers: trimming a class of
//! characters from the ends, splitting at a separator, and searching for a
//! substring.

use vstd::prelude::*;
use crate::io::char_utils::{char_is_whitespace, unicode_whitespace};
use crate::parser::xml_parser::{find_seq, find_seq_from, occurs_at};
use crate::seqs::find_first;

verus! {

/// Whether `c` belongs to the class: Unicode white space when `ws` holds,
/// else one of `set`.
pub open spec fn in_class(c: char, ws: bool, set: Seq<char>) -> bool {
    if ws {
        unicode_whitespace(c)
    } else {
        set.contains(c)
    }
}

/// The number of leading characters of the class.
pub open spec fn lead_in(s: Seq<char>, ws: bool, set: Seq<char>) -> nat
    decreases s.len(),
{
    if s.len() > 0 && in_class(s[0], ws, set) {
        1 + lead_in(s.skip(1), ws, set)
    } else {
        0
    }
}

/// The number of trailing characters of the class.
pub open spec fn trail_in(s: Seq<char>, ws: bool, set: Seq<char>) -> nat
    decreases s.len(),
{
    if s.len() > 0 && in_class(s.last(), ws, set) {
        1 + trail_in(s.drop_last(), ws, set)
    } else {
        0
    }
}

/// `s` without the characters of the class at its start (when `start`) and
/// at its end (when `end`).
pub open spec fn trimmed(s: Seq<char>, ws: bool, set: Seq<char>, start: bool, end: bool) -> Seq<char> {
    let a = if start { lead_in(s, ws, set) } else { 0 };
    let r = s.skip(a as int);
    let b = if end { trail_in(r, ws, set) } else { 0 };
    r.take(r.len() - b)
}

/// `s` without white space at either end.
pub open spec fn trim_ws(s: Seq<char>) -> Seq<char> {
    trimmed(s, true, Seq::empty(), true, true)
}

/// The pieces of `s` between occurrences of `c` (all of them, empty ones too).
pub open spec fn pieces(s: Seq<char>, c: char) -> Seq<Seq<char>>
    decreases s.len(),
{
    match find_first(s, c) {
        Some(k) => if 0 <= k < s.len() {
            seq![s.take(k)] + pieces(s.skip(k + 1), c)
        } else {
            seq![s]
        },
        None => seq![s],
    }
}

/// Whether `p` occurs in `s` (the empty text occurs in every nonempty text).
pub open spec fn contains_seq(s: Seq<char>, p: Seq<char>) -> bool {
    find_seq(s, p) is Some
}

proof fn lemma_lead_in(s: Seq<char>, ws: bool, set: Seq<char>, i: int)
    requires
        0 <= i <= lead_in(s, ws, set),
    ensures
        lead_in(s, ws, set) <= s.len(),
        lead_in(s, ws, set) == i + lead_in(s.skip(i), ws, set),
        lead_in(s, ws, set) < s.len() ==> !in_class(s[lead_in(s, ws, set) as int], ws, set),
    decreases s.len(),
{
    if s.len() > 0 && in_class(s[0], ws, set) {
        if i > 0 {
            lemma_lead_in(s.skip(1), ws, set, i - 1);
            assert(s.skip(1).skip(i - 1) =~= s.skip(i));
        } else {
            lemma_lead_in(s.skip(1), ws, set, 0);
            assert(s.skip(0) =~= s);
        }
        if lead_in(s, ws, set) < s.len() {
            assert(s[lead_in(s, ws, set) as int] == s.skip(1)[lead_in(s.skip(1), ws, set) as int]);
        }
    } else {
        assert(s.skip(0) =~= s);
    }
}

proof fn lemma_trail_in(s: Seq<char>, ws: bool, set: Seq<char>, i: int)
    requires
        0 <= i <= trail_in(s, ws, set),
    ensures
        trail_in(s, ws, set) <= s.len(),
        trail_in(s, ws, set) == i + trail_in(s.take(s.len() - i), ws, set),
        trail_in(s, ws, set) < s.len() ==> !in_class(s[s.len() - 1 - trail_in(s, ws, set)], ws, set),
    decreases s.len(),
{
    if s.len() > 0 && in_class(s.last(), ws, set) {
        if i > 0 {
            lemma_trail_in(s.drop_last(), ws, set, i - 1);
            assert(s.drop_last().take(s.drop_last().len() - (i - 1)) =~= s.take(s.len() - i));
        } else {
            lemma_trail_in(s.drop_last(), ws, set, 0);
            assert(s.take(s.len() as int) =~= s);
        }
        if trail_in(s, ws, set) < s.len() {
            assert(s[s.len() - 1 - trail_in(s, ws, set)] == s.drop_last()[s.drop_last().len() - 1 - trail_in(
                s.drop_last(),
                ws,
                set,
            )]);
        }
    } else {
        assert(s.take(s.len() as int) =~= s);
    }
}

/// Whether `c` belongs to the class.
fn in_class_exec(c: char, ws: bool, set: &[char]) -> (r: bool)
    ensures
        r == in_class(c, ws, set@),
{
    if ws {
        return char_is_whitespace(c);
    }
    let mut i: usize = 0;
    while i < set.len()
        invariant
            !ws,
            i <= set@.len(),
            forall|j: int| 0 <= j < i ==> set@[j] != c,
        decreases set@.len() - i,
    {
        if set[i] == c {
            assert(set@[i as int] == c);
            assert(!ws);
            assert(set@.contains(c));
            assert(in_class(c, ws, set@));
            return true;
        }
        i = i + 1;
    }
    false
}

/// `s` without the characters of the class at the requested ends.
pub fn trim_class(s: &[char], ws: bool, set: &[char], start: bool, end: bool) -> (r: Vec<char>)
    ensures
        r@ == trimmed(s@, ws, set@, start, end),
{
    let mut a: usize = 0;
    if start {
        while a < s.len() && in_class_exec(s[a], ws, set)
            invariant
                a <= s@.len(),
                a <= lead_in(s@, ws, set@),
            decreases s@.len() - a,
        {
            proof {
                lemma_lead_in(s@, ws, set@, a as int);
                if a == lead_in(s@, ws, set@) {
                    assert(false);
                }
            }
            a = a + 1;
        }
        proof {
            lemma_lead_in(s@, ws, set@, a as int);
        }
    }
    let ghost r = s@.skip(a as int);
    let mut b: usize = s.len();
    if end {
        while b > a && in_class_exec(s[b - 1], ws, set)
            invariant
                a <= b <= s@.len(),
                r == s@.skip(a as int),
                s@.len() - b <= trail_in(r, ws, set@),
            decreases b - a,
        {
            proof {
                lemma_trail_in(r, ws, set@, s@.len() - b);
                if s@.len() - b == trail_in(r, ws, set@) {
                    assert(r[r.len() - 1 - trail_in(r, ws, set@)] == s@[b - 1]);
                    assert(false);
                }
            }
            b = b - 1;
        }
        proof {
            lemma_trail_in(r, ws, set@, s@.len() - b);
            if b > a {
                assert(r[r.len() - 1 - (s@.len() - b)] == s@[b - 1]);
            }
        }
    }
    let mut out: Vec<char> = Vec::new();
    let mut i = a;
    while i < b
        invariant
            a <= i <= b <= s@.len(),
            out@ == s@.subrange(a as int, i as int),
        decreases b - i,
    {
        out.push(s[i]);
        assert(s@.subrange(a as int, i + 1) =~= s@.subrange(a as int, i as int).push(s@[i as int]));
        i = i + 1;
    }
    assert(out@ =~= r.take(r.len() - (s@.len() - b)));
    out
}

/// Whether `p` occurs in `s`.
pub fn contains_chars(s: &[char], p: &[char]) -> (r: bool)
    ensures
        r == contains_seq(s@, p@),
{
    let mut q: usize = 0;
    proof {
        crate::parser::xml_parser::lemma_find_seq_from_pub(s@, p@, 0);
    }
    while q < s.len()
        invariant
            q <= s@.len(),
            find_seq(s@, p@) == find_seq_from(s@, p@, q as int),
        decreases s@.len() - q,
    {
        if crate::text::matches_at(s, q, p) {
            assert(occurs_at(s@, p@, q as int));
            return true;
        }
        q = q + 1;
    }
    false
}

/// The pieces of `s` between occurrences of `c`.
pub fn split_chars(s: &[char], c: char) -> (r: Vec<Vec<char>>)
    ensures
        r@.len() == pieces(s@, c).len(),
        forall|i: int| 0 <= i < r@.len() ==> #[trigger] r@[i]@ == pieces(s@, c)[i],
{
    let mut out: Vec<Vec<char>> = Vec::new();
    let mut i: usize = 0;
    let ghost sv = s@;
    assert(sv.skip(0) =~= sv);
    loop
        invariant_except_break
            pieces(sv, c) == out@.map_values(|v: Vec<char>| v@) + pieces(sv.skip(i as int), c),
        invariant
            sv == s@,
            i <= sv.len(),
        ensures
            pieces(sv, c) == out@.map_values(|v: Vec<char>| v@),
        decreases sv.len() - i,
    {
        let ghost rest = sv.skip(i as int);
        let mut j = i;
        while j < s.len() && s[j] != c
            invariant
                sv == s@,
                i <= j <= sv.len(),
                forall|q: int| i <= q < j ==> sv[q] != c,
            decreases sv.len() - j,
        {
            j = j + 1;
        }
        let piece = crate::entity::mapper::sub_chars(s, i, j);
        let ghost before = out@.map_values(|v: Vec<char>| v@);
        proof {
            assert forall|q: int| 0 <= q < j - i implies rest[q] != c by {
                assert(rest[q] == sv[i + q]);
            }
            if j < sv.len() {
                assert(rest[j - i] == sv[j as int]);
                crate::seqs::lemma_find_first_is(rest, c, j - i);
                assert(piece@ =~= rest.take(j - i));
                assert(rest.skip(j - i + 1) =~= sv.skip(j + 1));
            } else {
                crate::seqs::lemma_find_first_none(rest, c);
                assert(piece@ =~= rest);
            }
        }
        out.push(piece);
        proof {
            assert(out@.map_values(|v: Vec<char>| v@) =~= before.push(out@[out@.len() - 1]@));
        }
        if j >= s.len() {
            break;
        }
        i = j + 1;
    }
    out
}

/// The first index at or after `i` holding Unicode white space.
pub open spec fn ws_from(s: Seq<char>, i: int) -> Option<int>
    decreases s.len() - i,
{
    if i < 0 || i >= s.len() {
        None
    } else if unicode_whitespace(s[i]) {
        Some(i)
    } else {
        ws_from(s, i + 1)
    }
}

/// `s` split around its first white space character (the whole of `s` and
/// nothing when it has none).
pub open spec fn split_at_ws(s: Seq<char>) -> (Seq<char>, Seq<char>) {
    match ws_from(s, 0) {
        Some(k) => (s.take(k), s.skip(k + 1)),
        None => (s, Seq::empty()),
    }
}

/// The first position where `p` occurs in `s`.
pub fn find_chars(s: &[char], p: &[char]) -> (r: Option<usize>)
    ensures
        match find_seq(s@, p@) {
            Some(k) => r == Some(k as usize),
            None => r is None,
        },
{
    let mut q: usize = 0;
    proof {
        crate::parser::xml_parser::lemma_find_seq_from_pub(s@, p@, 0);
    }
    while q < s.len()
        invariant
            q <= s@.len(),
            find_seq(s@, p@) == find_seq_from(s@, p@, q as int),
        decreases s@.len() - q,
    {
        if crate::text::matches_at(s, q, p) {
            assert(occurs_at(s@, p@, q as int));
            return Some(q);
        }
        q = q + 1;
    }
    None
}

/// The first index holding `c`.
pub fn find_char(s: &[char], c: char) -> (r: Option<usize>)
    ensures
        match find_first(s@, c) {
            Some(k) => r == Some(k as usize),
            None => r is None,
        },
{
    let mut q: usize = 0;
    while q < s.len()
        invariant
            q <= s@.len(),
            find_first(s@, c) == crate::seqs::find_from(s@, c, q as int),
        decreases s@.len() - q,
    {
        if s[q] == c {
            return Some(q);
        }
        q = q + 1;
    }
    None
}

/// `s` split around its first white space character.
pub fn split_ws_chars(s: &[char]) -> (r: (Vec<char>, Vec<char>))
    ensures
        r.0@ == split_at_ws(s@).0,
        r.1@ == split_at_ws(s@).1,
{
    let mut q: usize = 0;
    while q < s.len()
        invariant
            q <= s@.len(),
            ws_from(s@, 0) == ws_from(s@, q as int),
        decreases s@.len() - q,
    {
        if char_is_whitespace(s[q]) {
            let a = crate::entity::mapper::sub_chars(s, 0, q);
            let b = crate::entity::mapper::sub_chars(s, q + 1, s.len());
            assert(a@ =~= s@.take(q as int));
            assert(b@ =~= s@.skip(q + 1));
            return (a, b);
        }
        q = q + 1;
    }
    let a = crate::entity::mapper::sub_chars(s, 0, s.len());
    assert(a@ =~= s@);
    (a, Vec::new())
}

/// The first position, counted from `start`, where `p` occurs in `s[start..]`.
pub fn find_chars_from(s: &[char], start: usize, p: &[char]) -> (r: Option<usize>)
    requires
        start <= s@.len(),
    ensures
        match find_seq(s@.skip(start as int), p@) {
            Some(k) => r == Some(k as usize),
            None => r is None,
        },
{
    let ghost rest = s@.skip(start as int);
    let mut q: usize = start;
    proof {
        crate::parser::xml_parser::lemma_find_seq_from_pub(rest, p@, 0);
    }
    while q < s.len()
        invariant
            start <= q <= s@.len(),
            rest == s@.skip(start as int),
            find_seq(rest, p@) == find_seq_from(rest, p@, q - start),
        decreases s@.len() - q,
    {
        let hit = crate::text::matches_at(s, q, p);
        proof {
            if s@.len() - q >= p@.len() {
                assert(rest.subrange(q - start, q - start + p@.len()) =~= s@.subrange(q as int, q + p@.len()));
            }
        }
        if hit {
            assert(occurs_at(rest, p@, q - start));
            return Some(q - start);
        }
        q = q + 1;
    }
    None
}

/// The first position, counted from `start`, holding `c` in `s[start..]`.
pub fn find_char_from(s: &[char], start: usize, c: char) -> (r: Option<usize>)
    requires
        start <= s@.len(),
    ensures
        match find_first(s@.skip(start as int), c) {
            Some(k) => r == Some(k as usize),
            None => r is None,
        },
{
    let ghost rest = s@.skip(start as int);
    let mut q: usize = start;
    while q < s.len()
        invariant
            start <= q <= s@.len(),
            rest == s@.skip(start as int),
            find_first(rest, c) == crate::seqs::find_from(rest, c, q - start),
        decreases s@.len() - q,
    {
        if s[q] == c {
            assert(rest[q - start] == c);
            return Some(q - start);
        }
        assert(rest[q - start] == s@[q as int]);
        q = q + 1;
    }
    None
}

} // verus!
