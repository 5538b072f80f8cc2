//! Searching sequences of node ids.

use vstd::prelude::*;

verus! {

/// The first index at or after `i` holding `x`.
pub open spec fn find_from<T>(s: Seq<T>, x: T, i: int) -> Option<int>
    decreases s.len() - i,
{
    if i < 0 || i >= s.len() {
        None
    } else if s[i] == x {
        Some(i)
    } else {
        find_from(s, x, i + 1)
    }
}

/// The first index holding `x`.
pub open spec fn find_first<T>(s: Seq<T>, x: T) -> Option<int> {
    find_from(s, x, 0)
}

/// What a search from `i` finds.
pub proof fn lemma_find_from<T>(s: Seq<T>, x: T, i: int)
    requires
        0 <= i,
    ensures
        find_from(s, x, i) matches Some(j) ==> i <= j < s.len() && s[j] == x && forall|k: int|
            i <= k < j ==> s[k] != x,
        find_from(s, x, i) is None ==> forall|k: int| i <= k < s.len() ==> s[k] != x,
    decreases s.len() - i,
{
    if i < s.len() && s[i] != x {
        lemma_find_from(s, x, i + 1);
    }
}

/// The first position of `x` in `v`, found by a scan.
pub fn position_of(v: &Vec<u32>, x: u32) -> (r: Option<usize>)
    ensures
        r matches Some(i) ==> find_first(v@, x) == Some(i as int) && i < v@.len() && v@[i as int]
            == x,
        r is None ==> find_first(v@, x) is None && !v@.contains(x),
{
    proof {
        lemma_find_from(v@, x, 0);
    }
    let mut i: usize = 0;
    while i < v.len()
        invariant
            i <= v@.len(),
            find_first(v@, x) == find_from(v@, x, i as int),
        decreases v@.len() - i,
    {
        if v[i] == x {
            return Some(i);
        }
        i = i + 1;
    }
    proof {
        if v@.contains(x) {
            let k = choose|k: int| 0 <= k < v@.len() && v@[k] == x;
            assert(v@[k] == x);
        }
    }
    None
}

} // verus!

verus! {

/// The first occurrence is at `j` when `j` holds `x` and nothing before it does.
pub proof fn lemma_find_first_is<T>(s: Seq<T>, x: T, j: int)
    requires
        0 <= j < s.len(),
        s[j] == x,
        forall|k: int| 0 <= k < j ==> s[k] != x,
    ensures
        find_first(s, x) == Some(j),
{
    lemma_find_from(s, x, 0);
}

/// There is no occurrence when no position holds `x`.
pub proof fn lemma_find_first_none<T>(s: Seq<T>, x: T)
    requires
        forall|k: int| 0 <= k < s.len() ==> s[k] != x,
    ensures
        find_first(s, x) is None,
{
    lemma_find_from(s, x, 0);
}

} // verus!
