//! Walks through a station graph and what it means for one to be shortest.
//!
//! A graph is modelled by its adjacency lists: `edges[a]` holds one `Route`
//! for every edge that leaves station `a`. A walk is the sequence of hops
//! taken, each hop naming the station it reaches and the length of the edge
//! used, so parallel edges of different length are told apart.
use vstd::prelude::*;
use crate::route::{Route, hops_end, hops_len};

verus! {

pub type Edges = Seq<Seq<Route>>;

/// Station `a` has an edge of length `w` to station `b`.
pub open spec fn has_edge(edges: Edges, a: int, b: int, w: int) -> bool {
    &&& 0 <= a < edges.len()
    &&& exists|j: int|
        0 <= j < edges[a].len() && (#[trigger] edges[a][j]).to == b && edges[a][j].distance == w
}

/// Every edge can be travelled in both directions at the same length.
pub open spec fn symmetric(edges: Edges) -> bool {
    forall|a: int, b: int, w: int| #[trigger] has_edge(edges, a, b, w) ==> has_edge(edges, b, a, w)
}

/// `steps` is a walk that leaves station `from`: every hop follows an edge
/// out of the station that the hops before it have reached.
pub open spec fn is_walk(edges: Edges, from: int, steps: Seq<Route>) -> bool
    decreases steps.len(),
{
    if steps.len() == 0 {
        0 <= from < edges.len()
    } else {
        &&& is_walk(edges, from, steps.drop_last())
        &&& has_edge(
            edges,
            hops_end(from, steps.drop_last()),
            steps.last().to as int,
            steps.last().distance as int,
        )
    }
}

/// `steps` is a walk from `from` to `to`.
pub open spec fn connects(edges: Edges, from: int, to: int, steps: Seq<Route>) -> bool {
    is_walk(edges, from, steps) && hops_end(from, steps) == to
}

/// Some walk leads from `from` to `to`.
pub open spec fn reachable(edges: Edges, from: int, to: int) -> bool {
    exists|steps: Seq<Route>| connects(edges, from, to, steps)
}

/// Every station can be reached from every station.
pub open spec fn connected(edges: Edges) -> bool {
    forall|a: int, b: int|
        0 <= a < edges.len() && 0 <= b < edges.len() ==> #[trigger] reachable(edges, a, b)
}

/// No walk from `from` to `to` is shorter than `d`.
pub open spec fn lower_bound(edges: Edges, from: int, to: int, d: nat) -> bool {
    forall|steps: Seq<Route>| #[trigger] connects(edges, from, to, steps) ==> hops_len(steps) >= d
}

/// A walk with one more hop in front of it.
pub proof fn lemma_walk_prepend(edges: Edges, a: int, first: Route, rest: Seq<Route>)
    requires
        has_edge(edges, a, first.to as int, first.distance as int),
        is_walk(edges, first.to as int, rest),
    ensures
        is_walk(edges, a, seq![first] + rest),
        hops_end(a, seq![first] + rest) == hops_end(first.to as int, rest),
        hops_len(seq![first] + rest) == first.distance + hops_len(rest),
    decreases rest.len(),
{
    let all = seq![first] + rest;
    if rest.len() == 0 {
        assert(all.drop_last() =~= Seq::<Route>::empty());
        assert(all.last() == first);
        assert(is_walk(edges, a, all.drop_last()));
        assert(hops_len(all.drop_last()) == 0);
    } else {
        lemma_walk_prepend(edges, a, first, rest.drop_last());
        assert(all.drop_last() =~= seq![first] + rest.drop_last());
        assert(all.last() == rest.last());
        if rest.len() == 1 {
            assert(rest.drop_last() =~= Seq::<Route>::empty());
        }
    }
}

/// The hops of a walk taken backwards, each naming the station it came from.
pub open spec fn reversed(from: int, steps: Seq<Route>) -> Seq<Route>
    decreases steps.len(),
{
    if steps.len() == 0 {
        Seq::empty()
    } else {
        let back = Route {
            to: hops_end(from, steps.drop_last()) as usize,
            distance: steps.last().distance,
        };
        seq![back] + reversed(from, steps.drop_last())
    }
}

/// The stations a walk reaches are stations of the graph.
pub proof fn lemma_walk_end_in_range(edges: Edges, from: int, steps: Seq<Route>)
    requires
        is_walk(edges, from, steps),
        forall|a: int, j: int|
            0 <= a < edges.len() && 0 <= j < edges[a].len() ==> (#[trigger] edges[a][j]).to
                < edges.len(),
    ensures
        0 <= hops_end(from, steps) < edges.len(),
    decreases steps.len(),
{
    if steps.len() > 0 {
        lemma_walk_end_in_range(edges, from, steps.drop_last());
    }
}

/// In a symmetric graph a walk taken backwards is a walk of the same length.
pub proof fn lemma_reversed_walk(edges: Edges, from: int, steps: Seq<Route>)
    requires
        symmetric(edges),
        is_walk(edges, from, steps),
    ensures
        connects(edges, hops_end(from, steps), from, reversed(from, steps)),
        hops_len(reversed(from, steps)) == hops_len(steps),
    decreases steps.len(),
{
    if steps.len() > 0 {
        let init = steps.drop_last();
        let mid = hops_end(from, init);
        lemma_reversed_walk(edges, from, init);
        assert(has_edge(edges, mid, steps.last().to as int, steps.last().distance as int));
        assert(has_edge(edges, steps.last().to as int, mid, steps.last().distance as int));
        assert(0 <= mid < edges.len());
        let back = Route { to: mid as usize, distance: steps.last().distance };
        lemma_walk_prepend(edges, steps.last().to as int, back, reversed(from, init));
    }
}

/// No edge has length 0.
pub open spec fn positive(edges: Edges) -> bool {
    forall|a: int, b: int, w: int| #[trigger] has_edge(edges, a, b, w) ==> w > 0
}

/// Where no edge has length 0, no walk of at least one hop has.
pub proof fn lemma_walk_positive(edges: Edges, from: int, steps: Seq<Route>)
    requires
        positive(edges),
        is_walk(edges, from, steps),
        steps.len() > 0,
    ensures
        hops_len(steps) > 0,
{
    assert(has_edge(
        edges,
        hops_end(from, steps.drop_last()),
        steps.last().to as int,
        steps.last().distance as int,
    ));
}

/// The first hops of a walk are a walk, and each hop of a walk follows an
/// edge out of the station that the hops before it have reached.
pub proof fn lemma_walk_prefix(edges: Edges, from: int, steps: Seq<Route>, k: int)
    requires
        is_walk(edges, from, steps),
        0 <= k <= steps.len(),
    ensures
        is_walk(edges, from, steps.take(k)),
        k < steps.len() ==> has_edge(
            edges,
            hops_end(from, steps.take(k)),
            steps[k].to as int,
            steps[k].distance as int,
        ),
    decreases steps.len() - k,
{
    if k == steps.len() {
        assert(steps.take(k) =~= steps);
    } else {
        lemma_walk_prefix(edges, from, steps, k + 1);
        assert(steps.take(k + 1).drop_last() =~= steps.take(k));
    }
}

/// No walk of length 0 leads from another station to `s`.
pub open spec fn alone(edges: Edges, s: int) -> bool {
    forall|x: int| 0 <= x < edges.len() && x != s ==> #[trigger] lower_bound(edges, x, s, 1)
}

/// Where no edge has length 0, no walk of length 0 leads from one station
/// to another.
pub proof fn lemma_positive_alone(edges: Edges, s: int)
    requires
        positive(edges),
    ensures
        alone(edges, s),
{
    assert forall|x: int| 0 <= x < edges.len() && x != s implies #[trigger] lower_bound(
        edges,
        x,
        s,
        1,
    ) by {
        assert forall|steps: Seq<Route>| #[trigger] connects(edges, x, s, steps) implies hops_len(
            steps,
        ) >= 1 by {
            lemma_walk_positive(edges, x, steps);
        }
    }
}

} // verus!
