//! Parent links and what lies below a folder.
//!
//! A link map takes the id of a folder to the id of its parent. Nothing here
//! asks that the links form a tree: a link may lead to an id that has no
//! link of its own, and links may run in a circle.

use vstd::prelude::*;

verus! {

/// The id reached from `x` by following `k` links, if the links lead that
/// far.
pub open spec fn climb(links: Map<Seq<char>, Seq<char>>, x: Seq<char>, k: nat) -> Option<
    Seq<char>,
>
    decreases k,
{
    if k == 0 {
        Some(x)
    } else if links.contains_key(x) {
        climb(links, links[x], (k - 1) as nat)
    } else {
        None
    }
}

/// `x` lies below `a`: one or more links lead from `x` to `a`.
pub open spec fn below(links: Map<Seq<char>, Seq<char>>, x: Seq<char>, a: Seq<char>) -> bool {
    exists|k: nat| k >= 1 && #[trigger] climb(links, x, k) == Some(a)
}

/// `x` is `a` or lies below it.
pub open spec fn within(links: Map<Seq<char>, Seq<char>>, x: Seq<char>, a: Seq<char>) -> bool {
    x == a || below(links, x, a)
}

/// What lies below `a` has a link, and its parent is `a` or lies below `a`.
pub proof fn lemma_below_parent(links: Map<Seq<char>, Seq<char>>, x: Seq<char>, a: Seq<char>)
    requires
        below(links, x, a),
    ensures
        links.contains_key(x),
        within(links, links[x], a),
{
    let k = choose|k: nat| k >= 1 && #[trigger] climb(links, x, k) == Some(a);
    let j = (k - 1) as nat;
    assert(climb(links, links[x], j) == Some(a));
    if j >= 1 {
        assert(below(links, links[x], a));
    }
}

/// A folder whose parent is `a` or lies below `a` lies below `a`.
pub proof fn lemma_below_child(links: Map<Seq<char>, Seq<char>>, x: Seq<char>, a: Seq<char>)
    requires
        links.contains_key(x),
        within(links, links[x], a),
    ensures
        below(links, x, a),
{
    if links[x] == a {
        assert(climb(links, links[x], 0) == Some(a));
        assert(climb(links, x, 1) == Some(a));
    } else {
        let k = choose|k: nat| k >= 1 && #[trigger] climb(links, links[x], k) == Some(a);
        assert(climb(links, x, k + 1) == Some(a));
    }
}

/// Following `i` links and then `j` more is following `i + j`.
pub proof fn lemma_climb_sum(links: Map<Seq<char>, Seq<char>>, x: Seq<char>, i: nat, j: nat)
    ensures
        climb(links, x, i + j) == match climb(links, x, i) {
            Some(y) => climb(links, y, j),
            None => None,
        },
    decreases i,
{
    if i > 0 && links.contains_key(x) {
        lemma_climb_sum(links, links[x], (i - 1) as nat, j);
    }
}

/// A set of ids is closed under `a` when it holds every folder whose parent
/// is `a` or is in the set.
pub open spec fn closed_under(
    links: Map<Seq<char>, Seq<char>>,
    a: Seq<char>,
    marked: Set<Seq<char>>,
) -> bool {
    forall|x: Seq<char>| #[trigger]
        links.contains_key(x) && (links[x] == a || marked.contains(links[x]))
            ==> marked.contains(x)
}

/// A closed set holds all that lies below `a`.
pub proof fn lemma_closed_holds_below(
    links: Map<Seq<char>, Seq<char>>,
    a: Seq<char>,
    marked: Set<Seq<char>>,
    x: Seq<char>,
)
    requires
        closed_under(links, a, marked),
        below(links, x, a),
    ensures
        marked.contains(x),
{
    let k = choose|k: nat| k >= 1 && #[trigger] climb(links, x, k) == Some(a);
    lemma_closed_at(links, a, marked, x, k);
}

proof fn lemma_closed_at(
    links: Map<Seq<char>, Seq<char>>,
    a: Seq<char>,
    marked: Set<Seq<char>>,
    x: Seq<char>,
    k: nat,
)
    requires
        closed_under(links, a, marked),
        k >= 1,
        climb(links, x, k) == Some(a),
    ensures
        marked.contains(x),
    decreases k,
{
    assert(links.contains_key(x));
    if k == 1 {
        assert(climb(links, links[x], 0) == Some(a));
    } else {
        lemma_closed_at(links, a, marked, links[x], (k - 1) as nat);
    }
}

/// Where a climb comes by the same id twice and every id before has a
/// link, the climb goes on for ever: every id on it has a link.
pub proof fn lemma_circle(links: Map<Seq<char>, Seq<char>>, x: Seq<char>, j: nat, k: nat, m: nat)
    requires
        j < k,
        climb(links, x, j) == climb(links, x, k),
        forall|a: nat|
            a < k ==> (#[trigger] climb(links, x, a) matches Some(c) && links.contains_key(c)),
    ensures
        climb(links, x, m) matches Some(c) && links.contains_key(c),
    decreases m,
{
    if m >= k {
        let rest = (m - k) as nat;
        lemma_climb_sum(links, x, k, rest);
        lemma_climb_sum(links, x, j, rest);
        lemma_circle(links, x, j, k, j + rest);
    }
}

/// A climb that has come to an id without a link goes no further.
pub proof fn lemma_climb_stops(links: Map<Seq<char>, Seq<char>>, x: Seq<char>, k: nat, m: nat)
    requires
        climb(links, x, k) matches Some(c) && !links.contains_key(c),
        m > k,
    ensures
        climb(links, x, m) is None,
{
    lemma_climb_sum(links, x, k, (m - k) as nat);
}

/// What lies below `a` does so by a folder whose parent is `a`.
pub proof fn lemma_last_link(links: Map<Seq<char>, Seq<char>>, x: Seq<char>, a: Seq<char>, k: nat)
    requires
        k >= 1,
        climb(links, x, k) == Some(a),
    ensures
        exists|y: Seq<char>| #[trigger] links.contains_key(y) && links[y] == a,
    decreases k,
{
    assert(links.contains_key(x));
    if k == 1 {
        assert(climb(links, links[x], 0) == Some(a));
        assert(links[x] == a);
    } else {
        lemma_last_link(links, links[x], a, (k - 1) as nat);
    }
}

} // verus!
