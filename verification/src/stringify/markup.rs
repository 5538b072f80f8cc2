//! Escaping a value for the body of an element written from data.

use vstd::prelude::*;
use crate::stringify::serializer::esc_attr_char;
use crate::text::{push_char, push_str, str_chars};

verus! {

/// A character of a value with `&`, `<`, `>`, `"` and `'` escaped.
pub open spec fn esc_value_char(c: char) -> Seq<char> {
    if c == '\'' {
        "&apos;"@
    } else {
        esc_attr_char(c)
    }
}

/// A value with `&`, `<`, `>`, `"` and `'` escaped.
pub open spec fn escape_value(s: Seq<char>) -> Seq<char>
    decreases s.len(),
{
    if s.len() == 0 {
        Seq::empty()
    } else {
        escape_value(s.drop_last()) + esc_value_char(s.last())
    }
}

/// Appends `v` to `out` with `&`, `<`, `>`, `"` and `'` escaped.
pub fn push_escaped_value(out: &mut String, v: &str)
    ensures
        final(out)@ == old(out)@ + escape_value(v@),
{
    let cs = str_chars(v);
    let ghost o0 = out@;
    let mut i: usize = 0;
    while i < cs.len()
        invariant
            i <= cs@.len(),
            cs@ == v@,
            out@ == o0 + escape_value(cs@.take(i as int)),
        decreases cs@.len() - i,
    {
        let c = cs[i];
        assert(cs@.take(i + 1).drop_last() =~= cs@.take(i as int));
        assert(cs@.take(i + 1).last() == c);
        let ghost before = out@;
        if c == '\'' {
            push_str(out, "&apos;");
        } else if c == '"' {
            push_str(out, "&quot;");
        } else if c == '&' {
            push_str(out, "&amp;");
        } else if c == '<' {
            push_str(out, "&lt;");
        } else if c == '>' {
            push_str(out, "&gt;");
        } else {
            push_char(out, c);
            assert(out@ =~= before + seq![c]);
        }
        assert(out@ =~= o0 + escape_value(cs@.take(i + 1)));
        i = i + 1;
    }
    assert(cs@.take(cs@.len() as int) =~= cs@);
}

} // verus!
