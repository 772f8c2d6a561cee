//! Reachability theory for the directed graph formed by the registry's
//! connections. Everything here is specification and proof; the executable
//! search that uses it lives with the network mutation operators.

use vstd::prelude::*;

verus! {

/// The graph has an edge from `a` to `b`.
pub open spec fn has_edge(g: Seq<(int, int)>, a: int, b: int) -> bool {
    exists|i: int| 0 <= i < g.len() && g[i] == (a, b)
}

/// `p` is a walk through `g`: nonempty, with an edge between neighbours.
pub open spec fn is_path(g: Seq<(int, int)>, p: Seq<int>) -> bool {
    &&& p.len() >= 1
    &&& forall|i: int| 0 <= i < p.len() - 1 ==> has_edge(g, #[trigger] p[i], p[i + 1])
}

/// `b` can be reached from `a` (in zero or more steps).
pub open spec fn reaches(g: Seq<(int, int)>, a: int, b: int) -> bool {
    exists|p: Seq<int>| is_path(g, p) && p.first() == a && p.last() == b
}

/// No edge closes a cycle: the source of an edge is never reachable from its
/// target. Equivalently, no node lies on a nonempty cycle.
pub open spec fn acyclic(g: Seq<(int, int)>) -> bool {
    forall|a: int, b: int| #[trigger] has_edge(g, a, b) ==> !reaches(g, b, a)
}

/// Every node reaches itself (by the one-element walk).
pub proof fn lemma_reach_self(g: Seq<(int, int)>, a: int)
    ensures
        reaches(g, a, a),
{
    let p: Seq<int> = seq![a];
    assert(is_path(g, p) && p.first() == a && p.last() == a);
}

/// An edge is a walk of length two.
pub proof fn lemma_reach_step(g: Seq<(int, int)>, a: int, b: int)
    requires
        has_edge(g, a, b),
    ensures
        reaches(g, a, b),
{
    let p: Seq<int> = seq![a, b];
    assert(p[0] == a && p[1] == b);
    assert(is_path(g, p) && p.first() == a && p.last() == b);
}

/// Concatenating walks: reachability is transitive.
pub proof fn lemma_reach_trans(g: Seq<(int, int)>, a: int, b: int, c: int)
    requires
        reaches(g, a, b),
        reaches(g, b, c),
    ensures
        reaches(g, a, c),
{
    let p1: Seq<int> = choose|p: Seq<int>| is_path(g, p) && p.first() == a && p.last() == b;
    let p2: Seq<int> = choose|p: Seq<int>| is_path(g, p) && p.first() == b && p.last() == c;
    let p: Seq<int> = p1 + p2.subrange(1, p2.len() as int);
    assert(p.len() == p1.len() + p2.len() - 1);
    assert forall|i: int| 0 <= i < p.len() - 1 implies has_edge(g, #[trigger] p[i], p[i + 1]) by {
        if i < p1.len() - 1 {
            assert(p[i] == p1[i] && p[i + 1] == p1[i + 1]);
        } else if i == p1.len() - 1 {
            assert(p[i] == p1.last() && p1.last() == b && p2.first() == b);
            if p2.len() >= 2 {
                assert(p[i + 1] == p2[1]);
                assert(has_edge(g, p2[0], p2[1]));
                assert(p2[0] == b);
            }
        } else {
            let j = i - p1.len() + 1;
            assert(p[i] == p2[j] && p[i + 1] == p2[j + 1]);
            assert(has_edge(g, p2[j], p2[j + 1]));
        }
    }
    assert(is_path(g, p) && p.first() == a && p.last() == c);
}

/// A walk in a subgraph is a walk in the supergraph.
pub proof fn lemma_reach_mono(g1: Seq<(int, int)>, g2: Seq<(int, int)>, a: int, b: int)
    requires
        reaches(g1, a, b),
        forall|x: int, y: int| #[trigger] has_edge(g1, x, y) ==> has_edge(g2, x, y),
    ensures
        reaches(g2, a, b),
{
    let p: Seq<int> = choose|p: Seq<int>| is_path(g1, p) && p.first() == a && p.last() == b;
    assert forall|i: int| 0 <= i < p.len() - 1 implies has_edge(g2, #[trigger] p[i], p[i + 1]) by {
        assert(has_edge(g1, p[i], p[i + 1]));
    }
    assert(is_path(g2, p) && p.first() == a && p.last() == b);
}

/// Appending an edge only adds the edge itself.
pub proof fn lemma_edge_push(g: Seq<(int, int)>, e: (int, int))
    ensures
        forall|x: int, y: int| #[trigger] has_edge(g.push(e), x, y) <==> (has_edge(g, x, y) || (
        x,
        y,
        ) == e),
{
    let g2 = g.push(e);
    assert forall|x: int, y: int| #[trigger] has_edge(g2, x, y) implies (has_edge(g, x, y) || (
    x,
    y,
    ) == e) by {
        let i = choose|i: int| 0 <= i < g2.len() && g2[i] == (x, y);
        if i < g.len() {
            assert(g[i] == (x, y));
        }
    }
    assert forall|x: int, y: int| has_edge(g, x, y) || (x, y) == e implies #[trigger] has_edge(
        g2,
        x,
        y,
    ) by {
        if has_edge(g, x, y) {
            let i = choose|i: int| 0 <= i < g.len() && g[i] == (x, y);
            assert(g2[i] == (x, y));
        } else {
            assert(g2[g.len() as int] == (x, y));
        }
    }
}

/// A walk in `g.push(e)` either avoids `e` (and is a walk in `g`), or passes
/// through `e`, in which case its start reaches `e.0` and `e.1` reaches its
/// end within `g`.
proof fn lemma_path_push_decompose(g: Seq<(int, int)>, e: (int, int), p: Seq<int>)
    requires
        is_path(g.push(e), p),
    ensures
        reaches(g, p.first(), p.last()) || (reaches(g, p.first(), e.0) && reaches(
            g,
            e.1,
            p.last(),
        )),
    decreases p.len(),
{
    lemma_edge_push(g, e);
    if p.len() == 1 {
        lemma_reach_self(g, p.first());
    } else {
        let rest = p.subrange(1, p.len() as int);
        assert forall|i: int| 0 <= i < rest.len() - 1 implies has_edge(
            g.push(e),
            #[trigger] rest[i],
            rest[i + 1],
        ) by {
            assert(rest[i] == p[i + 1] && rest[i + 1] == p[i + 2]);
            assert(has_edge(g.push(e), p[i + 1], p[i + 2]));
        }
        assert(is_path(g.push(e), rest));
        lemma_path_push_decompose(g, e, rest);
        assert(has_edge(g.push(e), p[0], p[1]));
        assert(rest.first() == p[1] && rest.last() == p.last());
        if p[0] == e.0 && p[1] == e.1 && !has_edge(g, p[0], p[1]) {
            lemma_reach_self(g, e.0);
            if reaches(g, p[1], p.last()) {
            } else {
                lemma_reach_trans(g, e.1, e.0, e.0);
            }
        } else {
            assert(has_edge(g, p[0], p[1]));
            lemma_reach_step(g, p[0], p[1]);
            if reaches(g, p[1], p.last()) {
                lemma_reach_trans(g, p[0], p[1], p.last());
            } else {
                lemma_reach_trans(g, p[0], p[1], e.0);
            }
        }
    }
}

/// Reachability in `g.push(e)`, decomposed over whether the new edge is used.
pub proof fn lemma_reach_push_decompose(g: Seq<(int, int)>, e: (int, int), a: int, b: int)
    requires
        reaches(g.push(e), a, b),
    ensures
        reaches(g, a, b) || (reaches(g, a, e.0) && reaches(g, e.1, b)),
{
    let p: Seq<int> = choose|p: Seq<int>|
        is_path(g.push(e), p) && p.first() == a && p.last() == b;
    lemma_path_push_decompose(g, e, p);
}

/// Adding an edge whose source is not reachable from its target keeps the
/// graph acyclic.
pub proof fn lemma_acyclic_push(g: Seq<(int, int)>, from: int, to: int)
    requires
        acyclic(g),
        !reaches(g, to, from),
    ensures
        acyclic(g.push((from, to))),
{
    let e = (from, to);
    let g2 = g.push(e);
    lemma_edge_push(g, e);
    assert forall|a: int, b: int| #[trigger] has_edge(g2, a, b) implies !reaches(g2, b, a) by {
        if reaches(g2, b, a) {
            lemma_reach_push_decompose(g, e, b, a);
            if (a, b) == e {
                // both disjuncts give a `to -> from` walk in `g`
                if reaches(g, b, a) {
                    assert(false);
                } else {
                    assert(reaches(g, to, from));
                    assert(false);
                }
            } else {
                assert(has_edge(g, a, b));
                if reaches(g, b, a) {
                    assert(false);
                } else {
                    // b reaches `from`, and `to` reaches a; the edge a -> b
                    // then closes a `to -> from` walk in g
                    lemma_reach_step(g, a, b);
                    lemma_reach_trans(g, to, a, b);
                    lemma_reach_trans(g, to, b, from);
                    assert(false);
                }
            }
        }
    }
}

/// Anything reachable from inside a successor-closed set stays inside it.
proof fn lemma_closed_path(g: Seq<(int, int)>, s: Set<int>, p: Seq<int>)
    requires
        is_path(g, p),
        s.contains(p.first()),
        forall|x: int, y: int|
            s.contains(x) && #[trigger] has_edge(g, x, y) ==> s.contains(y),
    ensures
        s.contains(p.last()),
    decreases p.len(),
{
    if p.len() > 1 {
        let rest = p.subrange(1, p.len() as int);
        assert(has_edge(g, p[0], p[1]));
        assert(s.contains(p[1]));
        assert forall|i: int| 0 <= i < rest.len() - 1 implies has_edge(
            g,
            #[trigger] rest[i],
            rest[i + 1],
        ) by {
            assert(rest[i] == p[i + 1] && rest[i + 1] == p[i + 2]);
            assert(has_edge(g, p[i + 1], p[i + 2]));
        }
        assert(is_path(g, rest));
        lemma_closed_path(g, s, rest);
        assert(rest.last() == p.last());
    }
}

/// Reachable closure: a successor-closed set containing `a` contains
/// everything reachable from `a`.
pub proof fn lemma_closed_reach(g: Seq<(int, int)>, s: Set<int>, a: int, b: int)
    requires
        s.contains(a),
        forall|x: int, y: int|
            s.contains(x) && #[trigger] has_edge(g, x, y) ==> s.contains(y),
        reaches(g, a, b),
    ensures
        s.contains(b),
{
    let p: Seq<int> = choose|p: Seq<int>| is_path(g, p) && p.first() == a && p.last() == b;
    lemma_closed_path(g, s, p);
}

/// A node without outgoing edges reaches only itself.
pub proof fn lemma_no_out_edges(g: Seq<(int, int)>, k: int, b: int)
    requires
        forall|i: int| 0 <= i < g.len() ==> (#[trigger] g[i]).0 != k,
        reaches(g, k, b),
    ensures
        b == k,
{
    let p: Seq<int> = choose|p: Seq<int>| is_path(g, p) && p.first() == k && p.last() == b;
    if p.len() > 1 {
        assert(has_edge(g, p[0], p[1]));
        let i = choose|i: int| 0 <= i < g.len() && g[i] == (p[0], p[1]);
        assert(g[i].0 == k);
        assert(false);
    }
}

/// A node without incoming edges is reached only by itself.
pub proof fn lemma_no_in_edges(g: Seq<(int, int)>, k: int, a: int)
    requires
        forall|i: int| 0 <= i < g.len() ==> (#[trigger] g[i]).1 != k,
        reaches(g, a, k),
    ensures
        a == k,
{
    let p: Seq<int> = choose|p: Seq<int>| is_path(g, p) && p.first() == a && p.last() == k;
    if p.len() > 1 {
        let n = p.len() - 1;
        assert(has_edge(g, p[n - 1], p[n]));
        let i = choose|i: int| 0 <= i < g.len() && g[i] == (p[n - 1], p[n]);
        assert(g[i].1 == k);
        assert(false);
    }
}

/// In an acyclic graph, no node is reachable from itself by a nonempty walk.
pub proof fn lemma_acyclic_no_self_cycle(g: Seq<(int, int)>)
    requires
        acyclic(g),
    ensures
        forall|p: Seq<int>|
            !(#[trigger] is_path(g, p) && p.len() >= 2 && p.first() == p.last()),
{
    assert forall|p: Seq<int>|
        !(#[trigger] is_path(g, p) && p.len() >= 2 && p.first() == p.last()) by {
        if is_path(g, p) && p.len() >= 2 && p.first() == p.last() {
            assert(has_edge(g, p[0], p[1]));
            let rest = p.subrange(1, p.len() as int);
            assert forall|i: int| 0 <= i < rest.len() - 1 implies has_edge(
                g,
                #[trigger] rest[i],
                rest[i + 1],
            ) by {
                assert(rest[i] == p[i + 1] && rest[i + 1] == p[i + 2]);
                assert(has_edge(g, p[i + 1], p[i + 2]));
            }
            assert(is_path(g, rest));
            assert(rest.first() == p[1] && rest.last() == p[0]);
            assert(reaches(g, p[1], p[0]));
        }
    }
}

/// A subgraph of an acyclic graph is acyclic.
pub proof fn lemma_acyclic_subgraph(g1: Seq<(int, int)>, g2: Seq<(int, int)>)
    requires
        acyclic(g2),
        forall|x: int, y: int| #[trigger] has_edge(g1, x, y) ==> has_edge(g2, x, y),
    ensures
        acyclic(g1),
{
    assert forall|a: int, b: int| #[trigger] has_edge(g1, a, b) implies !reaches(g1, b, a) by {
        if reaches(g1, b, a) {
            lemma_reach_mono(g1, g2, b, a);
            assert(has_edge(g2, a, b));
            assert(false);
        }
    }
}

} // verus!
