//! The entity table: predefined entities, numeric character references,
//! custom entities, and limits on nesting depth and expanded size.

use vstd::prelude::*;
use crate::error::XmlError;
use crate::numbers::{char_from_u32, char_width, is_scalar, parse_u32, parse_u32_spec, utf8_width};
use crate::seqs::{find_first, lemma_find_first_is, lemma_find_first_none};
use crate::text::{chars_eq, push_char, push_str, str_chars, string_from_chars};

verus! {

/// One custom entity: its name and replacement text.
#[derive(Debug, Clone)]
pub struct EntityDef {
    pub name: String,
    pub value: String,
}

/// Entity table with limits on nesting depth and on the total expanded size.
#[derive(Debug, Clone)]
pub struct EntityMapper {
    entities: Vec<EntityDef>,
    max_depth: usize,
    max_expansion_size: usize,
}

/// The abstract content of an entity table.
pub struct MapperV {
    pub entities: Seq<(Seq<char>, Seq<char>)>,
    pub max_depth: nat,
    pub max_size: nat,
}

/// Why an expansion fails.
pub enum ExpandErr {
    /// A malformed or undeclared reference.
    Entity,
    /// The depth or size limit was exceeded.
    Limit,
}

impl View for EntityMapper {
    type V = MapperV;

    closed spec fn view(&self) -> MapperV {
        MapperV {
            entities: self.entities@.map_values(|e: EntityDef| (e.name@, e.value@)),
            max_depth: self.max_depth as nat,
            max_size: self.max_expansion_size as nat,
        }
    }
}

/// The position of the first entity named `name` among `es[i..]`.
pub open spec fn entity_index(es: Seq<(Seq<char>, Seq<char>)>, name: Seq<char>, i: int) -> Option<int>
    decreases es.len() - i,
{
    if i < 0 || i >= es.len() {
        None
    } else if es[i].0 == name {
        Some(i)
    } else {
        entity_index(es, name, i + 1)
    }
}

/// The table after registering `name` with replacement `value`: the first
/// entity of that name takes the new value, or the entity is added at the
/// end.
pub open spec fn registered(es: Seq<(Seq<char>, Seq<char>)>, name: Seq<char>, value: Seq<char>) -> Seq<
    (Seq<char>, Seq<char>),
> {
    match entity_index(es, name, 0) {
        Some(i) => es.update(i, (name, value)),
        None => es.push((name, value)),
    }
}

/// The first entity named `name` from `j` on is at `i` when no entity
/// between has that name.
proof fn lemma_index_first(es: Seq<(Seq<char>, Seq<char>)>, name: Seq<char>, i: int, j: int)
    requires
        0 <= j <= i < es.len(),
        es[i].0 == name,
        forall|q: int| j <= q < i ==> es[q].0 != name,
    ensures
        entity_index(es, name, j) == Some(i),
    decreases i - j,
{
    if j < i {
        lemma_index_first(es, name, i, j + 1);
    }
}

/// No entity has the name when a lookup finds none.
proof fn lemma_index_none(es: Seq<(Seq<char>, Seq<char>)>, name: Seq<char>, j: int)
    requires
        0 <= j,
        entity_lookup(es, name, j) is None,
    ensures
        entity_index(es, name, j) is None,
    decreases es.len() - j,
{
    if j < es.len() {
        lemma_index_none(es, name, j + 1);
    }
}

/// The replacement of the first entity named `name` among `es[i..]`.
pub open spec fn entity_lookup(es: Seq<(Seq<char>, Seq<char>)>, name: Seq<char>, i: int) -> Option<Seq<char>>
    decreases es.len() - i,
{
    if i < 0 || i >= es.len() {
        None
    } else if es[i].0 == name {
        Some(es[i].1)
    } else {
        entity_lookup(es, name, i + 1)
    }
}

/// The character a predefined entity name stands for.
pub open spec fn predefined(r: Seq<char>) -> Option<char> {
    if r == seq!['l', 't'] {
        Some('<')
    } else if r == seq!['g', 't'] {
        Some('>')
    } else if r == seq!['a', 'm', 'p'] {
        Some('&')
    } else if r == seq!['q', 'u', 'o', 't'] {
        Some('"')
    } else if r == seq!['a', 'p', 'o', 's'] {
        Some('\'')
    } else {
        None
    }
}

/// The table holding the five predefined entities.
pub open spec fn predefined_table() -> Seq<(Seq<char>, Seq<char>)> {
    seq![
        (seq!['l', 't'], seq!['<']),
        (seq!['g', 't'], seq!['>']),
        (seq!['a', 'm', 'p'], seq!['&']),
        (seq!['q', 'u', 'o', 't'], seq!['"']),
        (seq!['a', 'p', 'o', 's'], seq!['\'']),
    ]
}

/// The code point a numeric reference body (after `#`) denotes.
pub open spec fn numeric_ref(code: Seq<char>) -> Option<u32> {
    if code.len() > 0 && (code[0] == 'x' || code[0] == 'X') {
        parse_u32_spec(code.skip(1), 16)
    } else {
        parse_u32_spec(code, 10)
    }
}

/// Expansion of `s` at nesting depth `depth`, with `total` bytes produced so
/// far: the output and the new total, or why it fails. Characters other than
/// `&` are copied; `&name;` is replaced as [`ref_expand`] says; an `&`
/// without a later `;` is copied as it is. Each produced character counts its
/// UTF-8 size against the size limit.
pub open spec fn expand_from(m: MapperV, s: Seq<char>, depth: nat, total: nat) -> Result<(Seq<char>, nat), ExpandErr>
    decreases m.max_depth - depth, s.len(), 1nat,
{
    if depth > m.max_depth {
        Err(ExpandErr::Limit)
    } else if s.len() == 0 {
        Ok((Seq::empty(), total))
    } else if s[0] == '&' && find_first(s, ';') is Some {
        let j = find_first(s, ';')->0;
        if 1 <= j < s.len() {
            match ref_expand(m, s.subrange(1, j), depth, total) {
                Err(e) => Err(e),
                Ok((p, t)) => match expand_from(m, s.skip(j + 1), depth, t) {
                    Err(e) => Err(e),
                    Ok((rest, t2)) => Ok((p + rest, t2)),
                },
            }
        } else {
            Err(ExpandErr::Entity)
        }
    } else {
        let t = total + utf8_width(s[0]);
        if t > m.max_size {
            Err(ExpandErr::Limit)
        } else {
            match expand_from(m, s.skip(1), depth, t) {
                Err(e) => Err(e),
                Ok((rest, t2)) => Ok((seq![s[0]] + rest, t2)),
            }
        }
    }
}

/// Expansion of one reference body `r` (between `&` and `;`): a decimal or
/// hexadecimal character reference, a predefined entity, or a custom entity
/// whose text is expanded one level deeper.
pub open spec fn ref_expand(m: MapperV, r: Seq<char>, depth: nat, total: nat) -> Result<(Seq<char>, nat), ExpandErr>
    decreases m.max_depth - depth, r.len(), 0nat,
{
    if r.len() > 0 && r[0] == '#' {
        match numeric_ref(r.skip(1)) {
            None => Err(ExpandErr::Entity),
            Some(u) => if is_scalar(u) {
                let t = total + utf8_width(u as char);
                if t > m.max_size {
                    Err(ExpandErr::Limit)
                } else {
                    Ok((seq![u as char], t))
                }
            } else {
                Err(ExpandErr::Entity)
            },
        }
    } else {
        match predefined(r) {
            Some(c) => if total + 1 > m.max_size {
                Err(ExpandErr::Limit)
            } else {
                Ok((seq![c], total + 1))
            },
            None => match entity_lookup(m.entities, r, 0) {
                None => Err(ExpandErr::Entity),
                Some(v) => if depth >= m.max_depth {
                    Err(ExpandErr::Limit)
                } else {
                    expand_from(m, v, depth + 1, total)
                },
            },
        }
    }
}

/// Whether `s` contains an `&`.
pub open spec fn has_amp(s: Seq<char>) -> bool {
    s.contains('&')
}

/// The result of expanding a whole input: input without `&` is returned as
/// it is; otherwise it is expanded from depth 0 with nothing produced yet.
pub open spec fn expand_spec(m: MapperV, s: Seq<char>) -> Result<Seq<char>, ExpandErr> {
    if !has_amp(s) {
        Ok(s)
    } else {
        match expand_from(m, s, 0, 0) {
            Ok((out, _)) => Ok(out),
            Err(e) => Err(e),
        }
    }
}

/// Whether an error is of the kind an expansion failure maps to.
pub open spec fn error_matches(e: XmlError, k: ExpandErr) -> bool {
    match k {
        ExpandErr::Entity => e is EntityError,
        ExpandErr::Limit => e is SecurityLimitExceeded,
    }
}

/// An entity definition built from the characters of its name and text.
fn entity_def(name: &[char], value: &[char]) -> (r: EntityDef)
    ensures
        r.name@ == name@,
        r.value@ == value@,
{
    EntityDef { name: string_from_chars(name), value: string_from_chars(value) }
}

/// The first entity of the table named `name`.
fn find_entity(entities: &Vec<EntityDef>, name: &Vec<char>) -> (r: Option<usize>)
    ensures
        r matches Some(i) ==> i < entities@.len() && entities@[i as int].name@ == name@ && (forall|q: int|
            0 <= q < i ==> #[trigger] entities@[q].name@ != name@) && entity_lookup(
            entities@.map_values(|e: EntityDef| (e.name@, e.value@)),
            name@,
            0,
        ) == Some(entities@[i as int].value@),
        r is None ==> entity_lookup(entities@.map_values(|e: EntityDef| (e.name@, e.value@)), name@, 0)
            is None,
{
    let ghost es = entities@.map_values(|e: EntityDef| (e.name@, e.value@));
    let mut i: usize = 0;
    while i < entities.len()
        invariant
            i <= entities@.len(),
            es == entities@.map_values(|e: EntityDef| (e.name@, e.value@)),
            entity_lookup(es, name@, 0) == entity_lookup(es, name@, i as int),
            forall|q: int| 0 <= q < i ==> #[trigger] entities@[q].name@ != name@,
        decreases entities@.len() - i,
    {
        let n = str_chars(entities[i].name.as_str());
        if chars_eq(&n, name) {
            return Some(i);
        }
        i = i + 1;
    }
    None
}

/// The predefined entity a reference body names.
fn predefined_char(r: &Vec<char>) -> (c: Option<char>)
    ensures
        c == predefined(r@),
{
    let lt: Vec<char> = vec!['l', 't'];
    let gt: Vec<char> = vec!['g', 't'];
    let amp: Vec<char> = vec!['a', 'm', 'p'];
    let quot: Vec<char> = vec!['q', 'u', 'o', 't'];
    let apos: Vec<char> = vec!['a', 'p', 'o', 's'];
    if chars_eq(r, &lt) {
        Some('<')
    } else if chars_eq(r, &gt) {
        Some('>')
    } else if chars_eq(r, &amp) {
        Some('&')
    } else if chars_eq(r, &quot) {
        Some('"')
    } else if chars_eq(r, &apos) {
        Some('\'')
    } else {
        None
    }
}

/// A copy of `v[start..end]`.
pub(crate) fn sub_chars(v: &[char], start: usize, end: usize) -> (r: Vec<char>)
    requires
        start <= end <= v@.len(),
    ensures
        r@ == v@.subrange(start as int, end as int),
{
    let mut out: Vec<char> = Vec::new();
    let mut i = start;
    while i < end
        invariant
            start <= i <= end <= v@.len(),
            out@ == v@.subrange(start as int, i as int),
        decreases end - i,
    {
        out.push(v[i]);
        assert(v@.subrange(start as int, i + 1) == v@.subrange(start as int, i as int).push(v@[i as int]));
        i = i + 1;
    }
    out
}

impl EntityMapper {
    /// The table with the five predefined entities, a depth limit of 512 and a
    /// size limit of 10 MiB.
    pub fn new_default() -> (r: Self)
        ensures
            r@.entities == predefined_table(),
            r@.max_depth == 512,
            r@.max_size == 10 * 1024 * 1024,
    {
        let mut entities: Vec<EntityDef> = Vec::new();
        entities.push(entity_def(&['l', 't'], &['<']));
        entities.push(entity_def(&['g', 't'], &['>']));
        entities.push(entity_def(&['a', 'm', 'p'], &['&']));
        entities.push(entity_def(&['q', 'u', 'o', 't'], &['"']));
        entities.push(entity_def(&['a', 'p', 'o', 's'], &['\'']));
        let r = EntityMapper { entities, max_depth: 512, max_expansion_size: 10 * 1024 * 1024 };
        assert(entities@[0].name@ =~= seq!['l', 't'] && entities@[0].value@ =~= seq!['<']);
        assert(entities@[1].name@ =~= seq!['g', 't'] && entities@[1].value@ =~= seq!['>']);
        assert(entities@[2].name@ =~= seq!['a', 'm', 'p'] && entities@[2].value@ =~= seq!['&']);
        assert(entities@[3].name@ =~= seq!['q', 'u', 'o', 't'] && entities@[3].value@ =~= seq!['"']);
        assert(entities@[4].name@ =~= seq!['a', 'p', 'o', 's'] && entities@[4].value@ =~= seq!['\'']);
        assert(r@.entities =~= predefined_table());
        r
    }

    /// A table with the predefined entities and the given depth limit.
    pub fn new(max_depth: usize) -> (r: Self)
        ensures
            r@.entities == predefined_table(),
            r@.max_depth == max_depth,
            r@.max_size == 10 * 1024 * 1024,
    {
        let mut s = Self::new_default();
        s.max_depth = max_depth;
        s
    }

    /// A table with the predefined entities and the given limits.
    pub fn with_limits(max_depth: usize, max_expansion_size: usize) -> (r: Self)
        ensures
            r@.entities == predefined_table(),
            r@.max_depth == max_depth,
            r@.max_size == max_expansion_size,
    {
        let mut s = Self::new_default();
        s.max_depth = max_depth;
        s.max_expansion_size = max_expansion_size;
        s
    }

    /// Registers or replaces a custom entity.
    pub fn register(&mut self, name: &str, value: &str)
        ensures
            final(self)@.max_depth == old(self)@.max_depth,
            final(self)@.max_size == old(self)@.max_size,
            final(self)@.entities == registered(old(self)@.entities, name@, value@),
            forall|k: Seq<char>| #[trigger] entity_lookup(final(self)@.entities, k, 0) == if k == name@ {
                Some(value@)
            } else {
                entity_lookup(old(self)@.entities, k, 0)
            },
    {
        let nc = str_chars(name);
        let ghost old_es = self@.entities;
        match find_entity(&self.entities, &nc) {
            Some(i) => {
                proof {
                    assert forall|q: int| 0 <= q < i implies old_es[q].0 != name@ by {
                        assert(old_es[q].0 == self.entities@[q].name@);
                    }
                }
                self.entities.set(i, EntityDef { name: string_from_chars(&nc), value: string_from_chars(&str_chars(value)) });
                proof {
                    lemma_index_first(old_es, name@, i as int, 0);
                    assert(self@.entities =~= old_es.update(i as int, (name@, value@)));
                    assert forall|k: Seq<char>| #[trigger] entity_lookup(self@.entities, k, 0) == if k == name@ {
                        Some(value@)
                    } else {
                        entity_lookup(old_es, k, 0)
                    } by {
                        lemma_lookup_replace(old_es, self@.entities, k, name@, i as int, 0);
                    }
                }
            },
            None => {
                self.entities.push(EntityDef { name: string_from_chars(&nc), value: string_from_chars(&str_chars(value)) });
                proof {
                    lemma_index_none(old_es, name@, 0);
                    assert(self@.entities =~= old_es.push((name@, value@)));
                    assert forall|k: Seq<char>| #[trigger] entity_lookup(self@.entities, k, 0) == if k == name@ {
                        Some(value@)
                    } else {
                        entity_lookup(old_es, k, 0)
                    } by {
                        lemma_lookup_append(old_es, self@.entities, k, name@, 0);
                    }
                }
            },
        }
    }

    /// The replacement text of an entity.
    pub fn get(&self, name: &str) -> (r: Option<&String>)
        ensures
            (match r {
                Some(v) => Some(v@),
                None => None,
            }) == entity_lookup(self@.entities, name@, 0),
    {
        let nc = str_chars(name);
        match find_entity(&self.entities, &nc) {
            Some(i) => Some(&self.entities[i].value),
            None => None,
        }
    }

    /// Expands entity and character references in `input`.
    pub fn expand(&self, input: &str) -> (r: Result<String, XmlError>)
        ensures
            match expand_spec(self@, input@) {
                Ok(out) => r matches Ok(s) && s@ == out,
                Err(k) => r matches Err(e) && error_matches(e, k),
            },
    {
        let chars = str_chars(input);
        let mut found_amp = false;
        let mut i: usize = 0;
        while i < chars.len()
            invariant
                i <= chars@.len(),
                found_amp == exists|w: int| 0 <= w < i && chars@[w] == '&',
            decreases chars@.len() - i,
        {
            if chars[i] == '&' {
                found_amp = true;
            }
            i = i + 1;
        }
        if !found_amp {
            assert(!chars@.contains('&'));
            return Ok(string_from_chars(&chars));
        }
        assert(chars@.contains('&'));
        let mut total: usize = 0;
        self.expand_with_depth(&chars, 0, &mut total)
    }

    /// Expands `input` at nesting depth `depth`, counting produced bytes in
    /// `total_expanded`.
    fn expand_with_depth(&self, input: &Vec<char>, depth: usize, total_expanded: &mut usize) -> (r: Result<String, XmlError>)
        requires
            *old(total_expanded) <= self@.max_size,
        ensures
            *final(total_expanded) <= self@.max_size,
            match expand_from(self@, input@, depth as nat, *old(total_expanded) as nat) {
                Ok((out, t)) => r matches Ok(s) && s@ == out && *final(total_expanded) == t,
                Err(k) => r matches Err(e) && error_matches(e, k),
            },
        decreases self@.max_depth - depth, input@.len(), 1nat,
    {
        if depth > self.max_depth {
            return Err(XmlError::SecurityLimitExceeded(
                "Maximum entity expansion depth exceeded (possible XML Bomb/Billion Laughs)".to_string(),
            ));
        }
        let mut result = String::new();
        let mut pos: usize = 0;
        let ghost m = self@;
        let ghost d = depth as nat;
        let ghost t0 = *old(total_expanded) as nat;
        assert(input@.skip(0) == input@);
        while pos < input.len()
            invariant
                m == self@,
                d == depth as nat,
                t0 == *old(total_expanded) as nat,
                depth <= self@.max_depth,
                pos <= input@.len(),
                *total_expanded <= self@.max_size,
                match expand_from(m, input@, d, t0) {
                    Ok((out, t)) => match expand_from(m, input@.skip(pos as int), d, *total_expanded as nat) {
                        Ok((rest, t2)) => out == result@ + rest && t == t2,
                        Err(_) => false,
                    },
                    Err(k) => match expand_from(m, input@.skip(pos as int), d, *total_expanded as nat) {
                        Ok(_) => false,
                        Err(k2) => k2 == k,
                    },
                },
            decreases input@.len() - pos,
        {
            let ghost s = input@.skip(pos as int);
            let ghost tcur = *total_expanded as nat;
            assert(s[0] == input@[pos as int]);
            let is_amp = input[pos] == '&';
            let mut k = pos + 1;
            if is_amp {
                while k < input.len() && input[k] != ';'
                    invariant
                        pos < k <= input@.len(),
                        input@[pos as int] == '&',
                        forall|q: int| pos <= q < k ==> input@[q] != ';',
                    decreases input@.len() - k,
                {
                    k = k + 1;
                }
            }
            if is_amp && k < input.len() {
                let ghost j = (k - pos) as int;
                proof {
                    assert forall|q: int| 0 <= q < j implies s[q] != ';' by {
                        assert(s[q] == input@[pos + q]);
                    }
                    assert(s[j] == input@[k as int]);
                    lemma_find_first_is(s, ';', j);
                    assert(s.subrange(1, j) == input@.subrange(pos + 1, k as int));
                    assert(s.skip(j + 1) == input@.skip(k + 1));
                }
                let entity_ref = sub_chars(input, pos + 1, k);
                let piece = self.expand_ref(&entity_ref, depth, total_expanded);
                match piece {
                    Err(e) => {
                        proof {
                            match ref_expand(m, s.subrange(1, j), d, tcur) {
                                Ok(_) => {},
                                Err(k2) => {
                                    assert(expand_from(m, s, d, tcur) == Err::<(Seq<char>, nat), ExpandErr>(k2));
                                },
                            }
                        }
                        return Err(e);
                    },
                    Ok(p) => {
                        push_str(&mut result, p.as_str());
                    },
                }
                pos = k + 1;
            } else {
                proof {
                    if is_amp {
                        assert forall|q: int| 0 <= q < s.len() implies s[q] != ';' by {
                            assert(s[q] == input@[pos + q]);
                        }
                        lemma_find_first_none(s, ';');
                    }
                }
                let ch = input[pos];
                let w = char_width(ch);
                if w > self.max_expansion_size - *total_expanded {
                    return Err(XmlError::SecurityLimitExceeded(
                        "Maximum cumulative entity expansion size exceeded".to_string(),
                    ));
                }
                *total_expanded = *total_expanded + w;
                push_char(&mut result, ch);
                assert(s.skip(1) == input@.skip(pos + 1));
                pos = pos + 1;
                proof {
                    let ghost out_now = result@;
                    match expand_from(m, input@.skip(pos as int), d, *total_expanded as nat) {
                        Ok((rest, t2)) => {
                            assert(seq![ch] + rest == seq![ch].add(rest));
                            assert(out_now == (out_now.drop_last()).push(ch));
                        },
                        Err(_) => {},
                    }
                }
            }
        }
        Ok(result)
    }

    /// Expands one reference body (between `&` and `;`).
    fn expand_ref(&self, r: &Vec<char>, depth: usize, total_expanded: &mut usize) -> (res: Result<String, XmlError>)
        requires
            *old(total_expanded) <= self@.max_size,
            depth <= self@.max_depth,
        ensures
            *final(total_expanded) <= self@.max_size,
            match ref_expand(self@, r@, depth as nat, *old(total_expanded) as nat) {
                Ok((out, t)) => res matches Ok(s) && s@ == out && *final(total_expanded) == t,
                Err(k) => res matches Err(e) && error_matches(e, k),
            },
        decreases self@.max_depth - depth, r@.len(), 0nat,
    {
        if r.len() > 0 && r[0] == '#' {
            let code = sub_chars(r, 1, r.len());
            assert(code@ == r@.skip(1));
            let cp = if code.len() > 0 && (code[0] == 'x' || code[0] == 'X') {
                let hex = sub_chars(&code, 1, code.len());
                assert(hex@ == code@.skip(1));
                parse_u32(&hex, 16)
            } else {
                parse_u32(&code, 10)
            };
            match cp {
                None => Err(XmlError::EntityError("Malformed numeric entity reference".to_string())),
                Some(u) => match char_from_u32(u) {
                    None => Err(XmlError::EntityError("Invalid character reference code point".to_string())),
                    Some(ch) => {
                        let w = char_width(ch);
                        if w > self.max_expansion_size - *total_expanded {
                            return Err(XmlError::SecurityLimitExceeded(
                                "Maximum cumulative entity expansion size exceeded".to_string(),
                            ));
                        }
                        *total_expanded = *total_expanded + w;
                        let mut s = String::new();
                        push_char(&mut s, ch);
                        assert(ch == u as char);
                        Ok(s)
                    },
                },
            }
        } else {
            match predefined_char(r) {
                Some(c) => {
                    if *total_expanded >= self.max_expansion_size {
                        return Err(XmlError::SecurityLimitExceeded(
                            "Maximum cumulative entity expansion size exceeded".to_string(),
                        ));
                    }
                    *total_expanded = *total_expanded + 1;
                    let mut s = String::new();
                    push_char(&mut s, c);
                    Ok(s)
                },
                None => match find_entity(&self.entities, r) {
                    None => Err(XmlError::EntityError("Undeclared entity reference".to_string())),
                    Some(i) => {
                        if depth >= self.max_depth {
                            return Err(XmlError::SecurityLimitExceeded(
                                "Maximum entity expansion depth exceeded (possible XML Bomb/Billion Laughs)".to_string(),
                            ));
                        }
                        let val = str_chars(self.entities[i].value.as_str());
                        self.expand_with_depth(&val, depth + 1, total_expanded)
                    },
                },
            }
        }
    }
}

/// Looking up after replacing the entry at `i`, which holds `name`.
proof fn lemma_lookup_replace(
    es: Seq<(Seq<char>, Seq<char>)>,
    es2: Seq<(Seq<char>, Seq<char>)>,
    k: Seq<char>,
    name: Seq<char>,
    i: int,
    j: int,
)
    requires
        0 <= j <= i < es.len(),
        es2.len() == es.len(),
        es[i].0 == name,
        es2[i].0 == name,
        entity_lookup(es, name, 0) == Some(es[i].1),
        forall|q: int| 0 <= q < es.len() && q != i ==> es2[q] == es[q],
        forall|q: int| 0 <= q < i ==> es[q].0 != name,
    ensures
        entity_lookup(es2, k, j) == if k == name {
            Some(es2[i].1)
        } else {
            entity_lookup(es, k, j)
        },
    decreases es.len() - j,
{
    if j < i {
        lemma_lookup_replace(es, es2, k, name, i, j + 1);
    } else {
        if k != name {
            lemma_lookup_tail(es, es2, k, j + 1);
        }
    }
}

/// Lookups agree on tables that agree from `j` onwards.
proof fn lemma_lookup_tail(es: Seq<(Seq<char>, Seq<char>)>, es2: Seq<(Seq<char>, Seq<char>)>, k: Seq<char>, j: int)
    requires
        0 <= j,
        es.len() == es2.len(),
        forall|q: int| j <= q < es.len() ==> es2[q] == es[q],
    ensures
        entity_lookup(es2, k, j) == entity_lookup(es, k, j),
    decreases es.len() - j,
{
    if j < es.len() {
        lemma_lookup_tail(es, es2, k, j + 1);
    }
}

/// The lookup from `q` finds the first match at or after `q`.
proof fn lemma_lookup_first(es: Seq<(Seq<char>, Seq<char>)>, name: Seq<char>, q: int, j: int)
    requires
        0 <= q <= j < es.len(),
        es[j].0 == name,
    ensures
        entity_lookup(es, name, q) is Some,
        (forall|p: int| q <= p < j ==> es[p].0 != name) ==> entity_lookup(es, name, q) == Some(es[j].1),
    decreases j - q,
{
    if q < j {
        lemma_lookup_first(es, name, q + 1, j);
    }
}

/// Looking up after appending an entry for a name not yet present.
proof fn lemma_lookup_append(
    es: Seq<(Seq<char>, Seq<char>)>,
    es2: Seq<(Seq<char>, Seq<char>)>,
    k: Seq<char>,
    name: Seq<char>,
    j: int,
)
    requires
        0 <= j <= es.len(),
        es2.len() == es.len() + 1,
        forall|q: int| 0 <= q < es.len() ==> es2[q] == es[q],
        es2.last().0 == name,
        entity_lookup(es, name, 0) is None,
    ensures
        entity_lookup(es2, k, j) == if k == name && entity_lookup(es, k, j) is None {
            Some(es2.last().1)
        } else {
            entity_lookup(es, k, j)
        },
    decreases es.len() - j,
{
    if j < es.len() {
        lemma_lookup_append(es, es2, k, name, j + 1);
    } else {
        if k != name {
            assert(entity_lookup(es2, k, j + 1) is None);
        }
    }
}

} // verus!
