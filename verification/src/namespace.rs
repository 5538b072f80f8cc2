//! Namespaces: bindings, qualified names and a stack of lexical scopes.

use vstd::prelude::*;
use crate::seqs::{find_first, lemma_find_from};
use crate::text::{str_chars, string_from_chars, chars_eq};

verus! {

/// A namespace declaration binding a prefix to a URI.
#[derive(Debug, Clone, PartialEq, Eq)]
pub struct Namespace {
    /// The prefix, or `None` for the default namespace.
    pub prefix: Option<String>,
    /// The bound URI.
    pub uri: String,
}

impl Namespace {
    /// A namespace binding.
    pub fn new(prefix: Option<&str>, uri: &str) -> (r: Self)
        ensures
            r.uri@ == uri@,
            r.prefix is Some <==> prefix is Some,
            r.prefix matches Some(p) ==> p@ == prefix->0@,
    {
        let p = match prefix {
            Some(x) => Some(string_from_chars(&str_chars(x))),
            None => None,
        };
        Namespace { prefix: p, uri: string_from_chars(&str_chars(uri)) }
    }
}

/// A qualified name: prefix, local part and resolved namespace URI.
#[derive(Debug, Clone, PartialEq, Eq)]
pub struct QName {
    /// The prefix (e.g. `xs` in `xs:element`).
    pub prefix: Option<String>,
    /// The local part (e.g. `element` in `xs:element`).
    pub local_name: String,
    /// The resolved namespace URI.
    pub namespace_uri: Option<String>,
}

/// The prefix and local part of a raw name: split at the first `:`.
pub open spec fn split_prefix_spec(raw: Seq<char>) -> (Option<Seq<char>>, Seq<char>) {
    match find_first(raw, ':') {
        Some(i) => (Some(raw.take(i)), raw.skip(i + 1)),
        None => (None, raw),
    }
}

/// The first `:` of a character sequence, found by a scan.
fn find_colon(cs: &Vec<char>) -> (r: Option<usize>)
    ensures
        r matches Some(i) ==> find_first(cs@, ':') == Some(i as int) && i < cs@.len(),
        r is None ==> find_first(cs@, ':') is None,
{
    proof {
        lemma_find_from(cs@, ':', 0);
    }
    let mut i: usize = 0;
    while i < cs.len()
        invariant
            i <= cs@.len(),
            find_first(cs@, ':') == crate::seqs::find_from(cs@, ':', i as int),
        decreases cs@.len() - i,
    {
        if cs[i] == ':' {
            return Some(i);
        }
        i = i + 1;
    }
    None
}

impl QName {
    /// A qualified name.
    pub fn new(prefix: Option<&str>, local_name: &str, namespace_uri: Option<&str>) -> (r: Self)
        ensures
            r.local_name@ == local_name@,
            r.prefix is Some <==> prefix is Some,
            r.prefix matches Some(p) ==> p@ == prefix->0@,
            r.namespace_uri is Some <==> namespace_uri is Some,
            r.namespace_uri matches Some(u) ==> u@ == namespace_uri->0@,
    {
        let p = match prefix {
            Some(x) => Some(string_from_chars(&str_chars(x))),
            None => None,
        };
        let u = match namespace_uri {
            Some(x) => Some(string_from_chars(&str_chars(x))),
            None => None,
        };
        QName { prefix: p, local_name: string_from_chars(&str_chars(local_name)), namespace_uri: u }
    }

    /// Splits a raw name into prefix and local part at its first `:`.
    pub fn split_prefix(raw: &str) -> (r: (Option<&str>, &str))
        ensures
            (match r.0 {
                Some(p) => Some(p@),
                None => None,
            }) == split_prefix_spec(raw@).0,
            r.1@ == split_prefix_spec(raw@).1,
    {
        let cs = str_chars(raw);
        match find_colon(&cs) {
            Some(i) => {
                let n = raw.unicode_len();
                (Some(raw.substring_char(0, i)), raw.substring_char(i + 1, n))
            },
            None => (None, raw),
        }
    }
}

/// One prefix binding within a scope.
#[derive(Debug, Clone)]
pub struct Binding {
    pub prefix: String,
    pub uri: String,
}

/// The URI that a scope level binds `key` to: the first binding of that prefix.
pub open spec fn level_lookup(level: Seq<Binding>, key: Seq<char>, i: int) -> Option<Seq<char>>
    decreases level.len() - i,
{
    if i < 0 || i >= level.len() {
        None
    } else if level[i].prefix@ == key {
        Some(level[i].uri@)
    } else {
        level_lookup(level, key, i + 1)
    }
}

/// The binding of `key` in the levels `0..k`, innermost first.
pub open spec fn scopes_lookup(scopes: Seq<Seq<Binding>>, key: Seq<char>, k: int) -> Option<Seq<char>>
    decreases k,
{
    if k <= 0 || k > scopes.len() {
        None
    } else {
        match level_lookup(scopes[k - 1], key, 0) {
            Some(u) => Some(u),
            None => scopes_lookup(scopes, key, k - 1),
        }
    }
}

/// The URI a prefix resolves to: the innermost binding, where an empty URI
/// undeclares the prefix.
pub open spec fn resolve_spec(scopes: Seq<Seq<Binding>>, key: Seq<char>) -> Option<Seq<char>> {
    match scopes_lookup(scopes, key, scopes.len() as int) {
        Some(u) => if u.len() == 0 { None } else { Some(u) },
        None => None,
    }
}

/// A stack of lexical scopes of prefix bindings.
#[derive(Debug, Clone)]
pub struct NamespaceScope {
    scopes: Vec<Vec<Binding>>,
}

impl NamespaceScope {
    /// The scope levels, outermost first.
    pub closed spec fn levels(&self) -> Seq<Seq<Binding>> {
        self.scopes@.map_values(|l: Vec<Binding>| l@)
    }

    /// The stack is never empty.
    pub closed spec fn wf(&self) -> bool {
        self.scopes@.len() >= 1
    }

    /// A well-formed stack holds at least one scope.
    pub proof fn lemma_levels_nonempty(&self)
        requires
            self.wf(),
        ensures
            self.levels().len() >= 1,
    {
    }

    /// The prefix a key stands for: `None` is the default namespace.
    pub open spec fn key_of(prefix: Option<&str>) -> Seq<char> {
        match prefix {
            Some(p) => p@,
            None => Seq::empty(),
        }
    }

    /// Opening a scope, declaring in it and closing it again leaves every
    /// prefix resolving as it did before: the stack is back where it was.
    pub proof fn law_scope_closes_declarations(before: Self, opened: Self, declared: Self, closed: Self)
        requires
            before.wf(),
            opened.levels() == before.levels().push(Seq::empty()),
            declared.levels().len() == opened.levels().len(),
            declared.levels().drop_last() == opened.levels().drop_last(),
            declared.levels().len() > 1 ==> closed.levels() == declared.levels().drop_last(),
        ensures
            closed.levels() == before.levels(),
            forall|k: Seq<char>| #[trigger] resolve_spec(closed.levels(), k) == resolve_spec(before.levels(), k),
    {
        assert(opened.levels().drop_last() =~= before.levels());
    }

    /// A scope stack with the predefined `xml` and `xmlns` bindings.
    pub fn new() -> (r: Self)
        ensures
            r.wf(),
            r.levels().len() == 1,
            r.levels()[0].len() == 2,
            r.levels()[0][0].prefix@ == "xml"@,
            r.levels()[0][0].uri@ == "http://www.w3.org/XML/1998/namespace"@,
            r.levels()[0][1].prefix@ == "xmlns"@,
            r.levels()[0][1].uri@ == "http://www.w3.org/2000/xmlns/"@,
    {
        let mut initial: Vec<Binding> = Vec::new();
        initial.push(Binding { prefix: "xml".to_string(), uri: "http://www.w3.org/XML/1998/namespace".to_string() });
        initial.push(Binding { prefix: "xmlns".to_string(), uri: "http://www.w3.org/2000/xmlns/".to_string() });
        let mut scopes: Vec<Vec<Binding>> = Vec::new();
        scopes.push(initial);
        NamespaceScope { scopes }
    }

    /// Opens a new, empty innermost scope.
    pub fn push_scope(&mut self)
        requires
            old(self).wf(),
        ensures
            final(self).wf(),
            final(self).levels() == old(self).levels().push(Seq::empty()),
    {
        self.scopes.push(Vec::new());
        assert(self.levels() =~= old(self).levels().push(Seq::empty()));
    }

    /// Closes the innermost scope, keeping the outermost one.
    pub fn pop_scope(&mut self)
        requires
            old(self).wf(),
        ensures
            final(self).wf(),
            old(self).levels().len() > 1 ==> final(self).levels() == old(self).levels().drop_last(),
            old(self).levels().len() <= 1 ==> final(self).levels() == old(self).levels(),
    {
        if self.scopes.len() > 1 {
            self.scopes.pop();
            assert(self.levels() =~= old(self).levels().drop_last());
        }
    }

    /// Binds a prefix (or the default namespace for `None`) in the innermost scope.
    pub fn declare(&mut self, prefix: Option<&str>, uri: &str)
        requires
            old(self).wf(),
        ensures
            final(self).wf(),
            final(self).levels().len() == old(self).levels().len(),
            final(self).levels().drop_last() == old(self).levels().drop_last(),
            forall|k: Seq<char>|
                #![trigger level_lookup(final(self).levels().last(), k, 0)]
                level_lookup(final(self).levels().last(), k, 0) == if k == Self::key_of(prefix) {
                    Some(uri@)
                } else {
                    level_lookup(old(self).levels().last(), k, 0)
                },
    {
        let key: String = match prefix {
            Some(p) => string_from_chars(&str_chars(p)),
            None => String::new(),
        };
        let last = self.scopes.len() - 1;
        let mut level = self.scopes.pop().unwrap();
        let ghost old_level = level@;
        let kc = str_chars(key.as_str());
        let found = find_binding(&level, &kc);
        let ghost kv = key@;
        match found {
            Some(j) => {
                level.set(j, Binding { prefix: key, uri: string_from_chars(&str_chars(uri)) });
                proof {
                    assert forall|k: Seq<char>| #![trigger level_lookup(level@, k, 0)]
                        level_lookup(level@, k, 0) == if k == kv { Some(uri@) } else { level_lookup(old_level, k, 0) } by {
                        lemma_lookup_update(old_level, k, j as int, kv, 0);
                    }
                }
            },
            None => {
                level.push(Binding { prefix: key, uri: string_from_chars(&str_chars(uri)) });
                proof {
                    assert forall|k: Seq<char>| #![trigger level_lookup(level@, k, 0)]
                        level_lookup(level@, k, 0) == if k == kv { Some(uri@) } else { level_lookup(old_level, k, 0) } by {
                        lemma_lookup_push(old_level, level@, k, kv, 0);
                    }
                }
            },
        }
        self.scopes.push(level);
        assert(self.levels().drop_last() =~= old(self).levels().drop_last());
        assert(self.levels().last() == level@);
    }

    /// The URI a prefix resolves to, searching from the innermost scope; an
    /// empty URI undeclares the prefix.
    pub fn resolve_prefix(&self, prefix: Option<&str>) -> (r: Option<&str>)
        ensures
            (match r {
                Some(u) => Some(u@),
                None => None,
            }) == resolve_spec(self.levels(), Self::key_of(prefix)),
    {
        let key: Vec<char> = match prefix {
            Some(p) => str_chars(p),
            None => Vec::new(),
        };
        let ghost kv = Self::key_of(prefix);
        assert(key@ == kv);
        let mut k: usize = self.scopes.len();
        while k > 0
            invariant
                k <= self.scopes@.len(),
                self.levels().len() == self.scopes@.len(),
                key@ == kv,
                kv == Self::key_of(prefix),
                scopes_lookup(self.levels(), kv, self.levels().len() as int) == scopes_lookup(
                    self.levels(),
                    kv,
                    k as int,
                ),
            decreases k,
        {
            let level = &self.scopes[k - 1];
            let mut i: usize = 0;
            while i < level.len()
                invariant
                    i <= level@.len(),
                    0 < k <= self.scopes@.len(),
                    self.levels().len() == self.scopes@.len(),
                    level@ == self.levels()[k - 1],
                    key@ == kv,
                    kv == Self::key_of(prefix),
                    scopes_lookup(self.levels(), kv, self.levels().len() as int) == scopes_lookup(
                        self.levels(),
                        kv,
                        k as int,
                    ),
                    level_lookup(level@, kv, 0) == level_lookup(level@, kv, i as int),
                decreases level@.len() - i,
            {
                let pc = str_chars(level[i].prefix.as_str());
                if chars_eq(&pc, &key) {
                    assert(level_lookup(level@, kv, i as int) == Some(level@[i as int].uri@));
                    assert(scopes_lookup(self.levels(), kv, k as int) == Some(level@[i as int].uri@));
                    if level[i].uri.as_str().unicode_len() == 0 {
                        return None;
                    }
                    return Some(level[i].uri.as_str());
                }
                i = i + 1;
            }
            assert(level_lookup(level@, kv, i as int) is None);
            k = k - 1;
        }
        assert(scopes_lookup(self.levels(), kv, 0) is None);
        None
    }

    /// Resolves a raw name into a qualified name; an unprefixed attribute is in
    /// no namespace.
    pub fn resolve_qname(&self, raw_name: &str, is_attribute: bool) -> (r: QName)
        ensures
            (match r.prefix {
                Some(p) => Some(p@),
                None => None,
            }) == split_prefix_spec(raw_name@).0,
            r.local_name@ == split_prefix_spec(raw_name@).1,
            (match r.namespace_uri {
                Some(u) => Some(u@),
                None => None,
            }) == if is_attribute && split_prefix_spec(raw_name@).0 is None {
                None
            } else {
                resolve_spec(
                    self.levels(),
                    match split_prefix_spec(raw_name@).0 {
                        Some(p) => p,
                        None => Seq::empty(),
                    },
                )
            },
    {
        let (prefix, local) = QName::split_prefix(raw_name);
        let uri = if is_attribute && prefix.is_none() {
            None
        } else {
            self.resolve_prefix(prefix)
        };
        QName::new(prefix, local, uri)
    }
}

/// The first binding of a level whose prefix is `key`.
fn find_binding(level: &Vec<Binding>, key: &Vec<char>) -> (r: Option<usize>)
    ensures
        r matches Some(j) ==> j < level@.len() && level@[j as int].prefix@ == key@ && forall|m: int|
            0 <= m < j ==> level@[m].prefix@ != key@,
        r is None ==> forall|m: int| 0 <= m < level@.len() ==> level@[m].prefix@ != key@,
{
    let mut i: usize = 0;
    while i < level.len()
        invariant
            i <= level@.len(),
            forall|j: int| 0 <= j < i ==> level@[j].prefix@ != key@,
        decreases level@.len() - i,
    {
        let pc = str_chars(level[i].prefix.as_str());
        if chars_eq(&pc, key) {
            return Some(i);
        }
        i = i + 1;
    }
    None
}

/// Looking up after replacing the binding at `j`, whose prefix is `kv`.
proof fn lemma_lookup_update(level: Seq<Binding>, k: Seq<char>, j: int, kv: Seq<char>, i: int)
    requires
        0 <= i <= j < level.len(),
        level[j].prefix@ == kv,
        forall|m: int| 0 <= m < j ==> level[m].prefix@ != kv,
    ensures
        forall|b: Binding| b.prefix@ == kv ==> level_lookup(#[trigger] level.update(j, b), k, i) == if k
            == kv {
            Some(b.uri@)
        } else {
            level_lookup(level, k, i)
        },
    decreases j - i,
{
    assert forall|b: Binding| b.prefix@ == kv implies level_lookup(#[trigger] level.update(j, b), k, i) == if k
        == kv {
        Some(b.uri@)
    } else {
        level_lookup(level, k, i)
    } by {
        if i < j {
            lemma_lookup_update(level, k, j, kv, i + 1);
        } else {
            if k != kv {
                lemma_lookup_same_tail(level, level.update(j, b), k, i + 1);
            }
        }
    }
}

/// Lookups agree on levels that agree from `i` onwards.
proof fn lemma_lookup_same_tail(a: Seq<Binding>, b: Seq<Binding>, k: Seq<char>, i: int)
    requires
        0 <= i,
        a.len() == b.len(),
        forall|m: int| i <= m < a.len() ==> a[m] == b[m],
    ensures
        level_lookup(a, k, i) == level_lookup(b, k, i),
    decreases a.len() - i,
{
    if i < a.len() {
        lemma_lookup_same_tail(a, b, k, i + 1);
    }
}

/// Looking up after appending a binding for a prefix not yet bound.
proof fn lemma_lookup_push(level: Seq<Binding>, new_level: Seq<Binding>, k: Seq<char>, kv: Seq<char>, i: int)
    requires
        0 <= i <= level.len(),
        new_level.len() == level.len() + 1,
        forall|m: int| 0 <= m < level.len() ==> new_level[m] == level[m],
        new_level.last().prefix@ == kv,
        forall|m: int| 0 <= m < level.len() ==> level[m].prefix@ != kv,
    ensures
        level_lookup(new_level, k, i) == if k == kv {
            Some(new_level.last().uri@)
        } else {
            level_lookup(level, k, i)
        },
    decreases level.len() - i,
{
    if i < level.len() {
        lemma_lookup_push(level, new_level, k, kv, i + 1);
    } else if k != kv {
        assert(level_lookup(new_level, k, i + 1) is None);
    }
}

} // verus!
