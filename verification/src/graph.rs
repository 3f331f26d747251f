//! The graph of references between names: which name refers to which,
//! walks along references, and cycles.
use vstd::prelude::*;

verus! {

/// A map from each name to the names it refers to, in order.
pub type RefGraph = Map<Seq<char>, Seq<Seq<char>>>;

/// `a` refers to `b`.
pub open spec fn edge(g: RefGraph, a: Seq<char>, b: Seq<char>) -> bool {
    g.dom().contains(a) && g[a].contains(b)
}

/// Each name of `p` refers to the next one.
pub open spec fn is_walk(g: RefGraph, p: Seq<Seq<char>>) -> bool {
    forall|i: int| 0 <= i < p.len() - 1 ==> #[trigger] edge(g, p[i], p[i + 1])
}

/// `b` is reached from `a` by following one or more references.
pub open spec fn reaches(g: RefGraph, a: Seq<char>, b: Seq<char>) -> bool {
    exists|p: Seq<Seq<char>>|
        #![trigger is_walk(g, p)]
        p.len() >= 2 && p[0] == a && p.last() == b && is_walk(g, p)
}

/// `a` depends on itself, through one or more references.
pub open spec fn on_cycle(g: RefGraph, a: Seq<char>) -> bool {
    reaches(g, a, a)
}

/// No name depends on itself.
pub open spec fn acyclic(g: RefGraph) -> bool {
    forall|a: Seq<char>| !#[trigger] on_cycle(g, a)
}

/// Every name that refers or is referred to lies in `d`.
pub open spec fn refers_within(g: RefGraph, d: Set<Seq<char>>) -> bool {
    forall|a: Seq<char>, b: Seq<char>| #[trigger] edge(g, a, b) ==> d.contains(a) && d.contains(b)
}

/// A walk from `a` that is followed by a reference to `c` reaches `c`.
pub proof fn lemma_reaches_extend(g: RefGraph, a: Seq<char>, b: Seq<char>, c: Seq<char>)
    requires
        reaches(g, a, b),
        edge(g, b, c),
    ensures
        reaches(g, a, c),
{
    let p = choose|p: Seq<Seq<char>>|
        #![trigger is_walk(g, p)]
        p.len() >= 2 && p[0] == a && p.last() == b && is_walk(g, p);
    let q = p.push(c);
    assert forall|i: int| 0 <= i < q.len() - 1 implies #[trigger] edge(g, q[i], q[i + 1]) by {
        if i < p.len() - 1 {
            assert(edge(g, p[i], p[i + 1]));
        }
    }
    assert(is_walk(g, q));
}

/// A single reference is a walk.
pub proof fn lemma_reaches_edge(g: RefGraph, a: Seq<char>, b: Seq<char>)
    requires
        edge(g, a, b),
    ensures
        reaches(g, a, b),
{
    let p = seq![a, b];
    assert(edge(g, p[0], p[1]));
    assert(is_walk(g, p));
}

/// A reference from `a` to `b` followed by a walk from `b` to `c` reaches `c`.
pub proof fn lemma_reaches_prepend(g: RefGraph, a: Seq<char>, b: Seq<char>, c: Seq<char>)
    requires
        edge(g, a, b),
        reaches(g, b, c),
    ensures
        reaches(g, a, c),
{
    let p = choose|p: Seq<Seq<char>>|
        #![trigger is_walk(g, p)]
        p.len() >= 2 && p[0] == b && p.last() == c && is_walk(g, p);
    let q = seq![a] + p;
    assert forall|i: int| 0 <= i < q.len() - 1 implies #[trigger] edge(g, q[i], q[i + 1]) by {
        if i > 0 {
            assert(q[i] == p[i - 1]);
            assert(q[i + 1] == p[i]);
            assert(edge(g, p[i - 1], p[(i - 1) + 1]));
        }
    }
    assert(is_walk(g, q));
    assert(q.last() == c);
}

/// When every reference stays among the names of `d`, so does every name
/// that a walk reaches.
pub proof fn lemma_reached_within(g: RefGraph, d: Set<Seq<char>>, a: Seq<char>, b: Seq<char>)
    requires
        refers_within(g, d),
        reaches(g, a, b),
    ensures
        d.contains(b),
{
    let p = choose|p: Seq<Seq<char>>|
        #![trigger is_walk(g, p)]
        p.len() >= 2 && p[0] == a && p.last() == b && is_walk(g, p);
    assert(edge(g, p[p.len() - 2], p[(p.len() - 2) + 1]));
}

/// A sequence without repetition drawn from a finite set is no longer than it.
pub proof fn lemma_distinct_within(s: Seq<Seq<char>>, d: Set<Seq<char>>)
    requires
        s.no_duplicates(),
        d.finite(),
        forall|i: int| 0 <= i < s.len() ==> d.contains(#[trigger] s[i]),
    ensures
        s.len() <= d.len(),
{
    s.unique_seq_to_set();
    assert(s.to_set().subset_of(d));
    vstd::set_lib::lemma_len_subset(s.to_set(), d);
}

/// When every name of the graph lies in the finite set `d`, a walk with more
/// names than `d` has goes through some name twice, and that name lies on a
/// cycle.
pub proof fn lemma_long_walk_has_cycle(g: RefGraph, d: Set<Seq<char>>, p: Seq<Seq<char>>)
    requires
        d.finite(),
        refers_within(g, d),
        is_walk(g, p),
        p.len() >= 2,
        p.len() > d.len(),
    ensures
        exists|a: Seq<char>| #[trigger] on_cycle(g, a),
{
    assert forall|i: int| 0 <= i < p.len() implies d.contains(#[trigger] p[i]) by {
        if i < p.len() - 1 {
            assert(edge(g, p[i], p[i + 1]));
        } else {
            let k = i - 1;
            assert(edge(g, p[k], p[k + 1]));
            assert(k + 1 == i);
        }
    }
    if p.no_duplicates() {
        lemma_distinct_within(p, d);
    }
    let (i, j) = choose|i: int, j: int|
        0 <= i < p.len() && 0 <= j < p.len() && i != j && p[i] == p[j];
    let (lo, hi) = if i < j {
        (i, j)
    } else {
        (j, i)
    };
    let q = p.subrange(lo, hi + 1);
    assert forall|k: int| 0 <= k < q.len() - 1 implies #[trigger] edge(g, q[k], q[k + 1]) by {
        assert(edge(g, p[lo + k], p[lo + k + 1]));
    }
    assert(is_walk(g, q));
    assert(on_cycle(g, p[lo]));
}

} // verus!
