//! The station graph: adjacency lists, Dijkstra's algorithm over them, and a
//! per-source store of the answers already computed.
use vstd::prelude::*;
use vstd::multiset::Multiset;
use crate::destination::{
    Destination, DestinationView, UNREACHABLE, absent, clone_table, follows_prior, greedy_at,
    lemma_is_paths_from, paths_from, pred_first_at, prior, prior_before_at, settled_in_order,
    settles, table_answers, table_view,
};
use crate::error::ConfigError;
use crate::min_heap::{MinHeap, key_le};
use crate::paths::{
    Edges, connects, has_edge, is_walk, lemma_walk_end_in_range, lower_bound, reachable,
    symmetric,
};
use crate::route::{Route, MAX_EDGE, hops_end, hops_len};

verus! {

/// The largest number of stations a graph can have. With edges no longer
/// than `MAX_EDGE`, the length of any path without a repeated station then
/// stays below `UNREACHABLE`.
pub const MAX_STATIONS: usize = 0xFFFF_FFFF;

/// The adjacency lists as sequences.
pub open spec fn adjacency(adj: Seq<Vec<Route>>) -> Edges {
    Seq::new(adj.len(), |a: int| adj[a]@)
}

/// Every edge leads to a station of the graph and is no longer than `MAX_EDGE`.
pub open spec fn edges_bounded(edges: Edges) -> bool {
    forall|a: int, k: int|
        0 <= a < edges.len() && 0 <= k < edges[a].len() ==> (#[trigger] edges[a][k]).to
            < edges.len() && edges[a][k].distance <= MAX_EDGE
}

/// How many stations have been settled.
spec fn count_true(s: Seq<bool>) -> nat
    decreases s.len(),
{
    if s.len() == 0 {
        0
    } else {
        count_true(s.drop_last()) + if s.last() {
            1nat
        } else {
            0nat
        }
    }
}

proof fn lemma_count_none(s: Seq<bool>)
    requires
        forall|i: int| 0 <= i < s.len() ==> !s[i],
    ensures
        count_true(s) == 0,
    decreases s.len(),
{
    if s.len() > 0 {
        lemma_count_none(s.drop_last());
    }
}

proof fn lemma_count_bound(s: Seq<bool>)
    ensures
        count_true(s) <= s.len(),
    decreases s.len(),
{
    if s.len() > 0 {
        lemma_count_bound(s.drop_last());
    }
}

proof fn lemma_count_settle(s: Seq<bool>, u: int)
    requires
        0 <= u < s.len(),
        !s[u],
    ensures
        count_true(s.update(u, true)) == count_true(s) + 1,
        count_true(s) < s.len(),
    decreases s.len(),
{
    let t = s.update(u, true);
    if u == s.len() - 1 {
        assert(t.drop_last() =~= s.drop_last());
        lemma_count_bound(s.drop_last());
    } else {
        assert(t.drop_last() =~= s.drop_last().update(u, true));
        lemma_count_settle(s.drop_last(), u);
    }
}

/// What is known of the entry for station `v` while the search runs: it
/// names a walk of the recorded length, and that walk is short enough for
/// its length to be computed.
spec fn entry_sound(edges: Edges, start: int, v: int, e: DestinationView, settled: nat) -> bool {
    &&& e.from == start
    &&& e.to == v
    &&& if e.found() {
        &&& connects(edges, start, v, e.hops())
        &&& hops_len(e.hops()) == e.cumulative_distance
        &&& e.hops().len() <= settled
        &&& e.cumulative_distance <= e.hops().len() * MAX_EDGE
        &&& v == start ==> e.checkpoints.len() == 0 && e.distance == 0
    } else {
        &&& e.checkpoints.len() == 0
        &&& e.distance == 0
    }
}

spec fn sound(edges: Edges, start: int, table: Seq<DestinationView>, settled: nat) -> bool {
    &&& table.len() == edges.len()
    &&& 0 <= start < table.len()
    &&& table[start].found()
    &&& forall|v: int|
        0 <= v < table.len() ==> entry_sound(edges, start, v, #[trigger] table[v], settled)
}

/// The recorded distance of a settled station is final, and the start is the
/// first station to be settled.
spec fn settled_final(
    edges: Edges,
    start: int,
    table: Seq<DestinationView>,
    visited: Seq<bool>,
) -> bool {
    &&& visited.len() == table.len()
    &&& forall|v: int|
        0 <= v < table.len() && #[trigger] visited[v] ==> {
            &&& table[v].found()
            &&& lower_bound(edges, start, v, table[v].cumulative_distance as nat)
            &&& visited[start]
        }
}

/// Edge `k` out of station `a` cannot improve the entry of the station it leads to.
spec fn relaxed(edges: Edges, table: Seq<DestinationView>, a: int, k: int) -> bool {
    let r = edges[a][k];
    &&& table[r.to as int].found()
    &&& table[r.to as int].cumulative_distance <= table[a].cumulative_distance + r.distance
}

/// All edges out of settled stations are relaxed, but for those of `cur`
/// from index `done` on.
spec fn all_relaxed(
    edges: Edges,
    table: Seq<DestinationView>,
    visited: Seq<bool>,
    cur: int,
    done: int,
) -> bool {
    forall|a: int, k: int|
        0 <= a < edges.len() && visited[a] && 0 <= k < edges[a].len() && (a != cur || k < done)
            ==> #[trigger] relaxed(edges, table, a, k)
}

/// Every station that has been reached and not settled waits in the heap at
/// its recorded distance, and nothing in the heap is better than what is recorded.
spec fn heap_covers(table: Seq<DestinationView>, visited: Seq<bool>, heap: Multiset<Route>) -> bool {
    &&& forall|v: int|
        0 <= v < table.len() && !(#[trigger] visited[v]) && table[v].found() ==> heap.count(
            Route { to: v as usize, distance: table[v].cumulative_distance },
        ) > 0
    &&& forall|r: Route| #[trigger]
        heap.count(r) > 0 ==> r.to < table.len() && table[r.to as int].found()
            && table[r.to as int].cumulative_distance <= r.distance
}

/// The path recorded for `v`, without its last hop, is the path recorded
/// for the station before `v`, and that station is settled.
spec fn settled_prior(start: int, table: Seq<DestinationView>, visited: Seq<bool>, v: int) -> bool {
    &&& follows_prior(start, table, v)
    &&& v != start && table[v].found() ==> visited[prior(start, table, v)]
}

/// The paths recorded form a tree through settled stations.
spec fn tree_so_far(start: int, table: Seq<DestinationView>, visited: Seq<bool>) -> bool {
    forall|v: int| 0 <= v < table.len() ==> #[trigger] settled_prior(start, table, visited, v)
}

/// A path through other stations is recorded only where it is shorter than
/// every direct edge.
spec fn direct_preferred(edges: Edges, start: int, table: Seq<DestinationView>) -> bool {
    forall|v: int, w: int|
        0 <= v < table.len() && v != start && table[v].found() && table[v].checkpoints.len() > 0
            && #[trigger] has_edge(edges, start, v, w) ==> table[v].cumulative_distance < w
}

/// What is known of the order in which stations have been settled: `order`
/// lists the settled stations, the start first and the station `cur` being
/// settled last; each was, when it was settled, the first among all that an
/// edge of a station settled before it could bring; and the recorded paths
/// come through the stations settled first, as far as edges have been relaxed.
#[verifier::opaque]
spec fn ranking(
    edges: Edges,
    start: int,
    table: Seq<DestinationView>,
    visited: Seq<bool>,
    order: Seq<int>,
    cur: int,
    done: int,
) -> bool {
    &&& order.no_duplicates()
    &&& forall|i: int|
        0 <= i < order.len() ==> 0 <= #[trigger] order[i] < table.len() && visited[order[i]]
    &&& forall|v: int| 0 <= v < table.len() && #[trigger] visited[v] ==> order.contains(v)
    &&& order.len() > 0 ==> order[0] == start
    &&& 0 <= cur ==> order.len() > 0 && order.last() == cur
    &&& forall|j: int, i: int, k: int|
        0 <= j < i < order.len() && 0 <= k < edges[order[j]].len() ==> #[trigger] greedy_at(
            edges,
            table,
            order,
            j,
            i,
            k,
        )
    &&& forall|a: int, b: int, k: int|
        0 <= a < order.len() && 0 <= b < order.len() && 0 <= k < edges[order[b]].len() && (order[b]
            != cur || k < done) ==> #[trigger] pred_first_at(edges, start, table, order, a, b, k)
    &&& forall|a: int, m: int|
        0 <= a < order.len() && 0 <= m < order.len() ==> #[trigger] prior_before_at(
            start,
            table,
            order,
            a,
            m,
        )
}

/// Everything that the search relies on while it runs: what is recorded is
/// sound, what is settled is final, all edges out of settled stations are
/// relaxed but for those of `cur` from index `done` on, the heap covers what
/// is reached and not settled, direct edges are preferred, and the paths
/// recorded form a tree.
#[verifier::opaque]
spec fn searching(
    edges: Edges,
    start: int,
    table: Seq<DestinationView>,
    visited: Seq<bool>,
    waiting: Multiset<Route>,
    settled: nat,
    cur: int,
    done: int,
) -> bool {
    &&& settled == count_true(visited)
    &&& sound(edges, start, table, settled)
    &&& settled_final(edges, start, table, visited)
    &&& all_relaxed(edges, table, visited, cur, done)
    &&& heap_covers(table, visited, waiting)
    &&& direct_preferred(edges, start, table)
    &&& tree_so_far(start, table, visited)
}

/// No walk to a station that is not settled is shorter than the least
/// distance waiting in the heap.
proof fn lemma_frontier(
    edges: Edges,
    start: int,
    table: Seq<DestinationView>,
    visited: Seq<bool>,
    heap: Multiset<Route>,
    settled: nat,
    floor: nat,
    steps: Seq<Route>,
)
    requires
        edges_bounded(edges),
        sound(edges, start, table, settled),
        settled_final(edges, start, table, visited),
        all_relaxed(edges, table, visited, -1, 0),
        heap_covers(table, visited, heap),
        forall|r: Route| heap.count(r) > 0 ==> r.distance >= floor,
        is_walk(edges, start, steps),
        !visited[hops_end(start, steps)],
    ensures
        hops_len(steps) >= floor,
    decreases steps.len(),
{
    lemma_walk_end_in_range(edges, start, steps);
    let x = hops_end(start, steps);
    if steps.len() == 0 {
        assert(table[start].found());
        assert(entry_sound(edges, start, start, table[start], settled));
        assert(table[start].hops() =~= Seq::<Route>::empty());
        let r = Route { to: start as usize, distance: table[start].cumulative_distance };
        assert(heap.count(r) > 0);
    } else {
        let init = steps.drop_last();
        let y = hops_end(start, init);
        lemma_walk_end_in_range(edges, start, init);
        if visited[y] {
            assert(connects(edges, start, y, init));
            let last = steps.last();
            assert(has_edge(edges, y, last.to as int, last.distance as int));
            let k = choose|k: int|
                0 <= k < edges[y].len() && (#[trigger] edges[y][k]).to == last.to
                    && edges[y][k].distance == last.distance;
            assert(relaxed(edges, table, y, k));
            let r = Route { to: x as usize, distance: table[x].cumulative_distance };
            assert(heap.count(r) > 0);
        } else {
            lemma_frontier(edges, start, table, visited, heap, settled, floor, init);
        }
    }
}

/// Once the heap is empty, no walk leads to a station that is not settled.
proof fn lemma_unsettled_unreachable(
    edges: Edges,
    start: int,
    table: Seq<DestinationView>,
    visited: Seq<bool>,
    settled: nat,
    steps: Seq<Route>,
)
    requires
        edges_bounded(edges),
        sound(edges, start, table, settled),
        settled_final(edges, start, table, visited),
        all_relaxed(edges, table, visited, -1, 0),
        heap_covers(table, visited, Multiset::<Route>::empty()),
        is_walk(edges, start, steps),
    ensures
        visited[hops_end(start, steps)],
    decreases steps.len(),
{
    lemma_walk_end_in_range(edges, start, steps);
    let x = hops_end(start, steps);
    let none = Multiset::<Route>::empty();
    if steps.len() == 0 {
        if !visited[start] {
            let r = Route { to: start as usize, distance: table[start].cumulative_distance };
            assert(none.count(r) > 0);
        }
    } else {
        let init = steps.drop_last();
        let y = hops_end(start, init);
        lemma_unsettled_unreachable(edges, start, table, visited, settled, init);
        let last = steps.last();
        assert(has_edge(edges, y, last.to as int, last.distance as int));
        let k = choose|k: int|
            0 <= k < edges[y].len() && (#[trigger] edges[y][k]).to == last.to && edges[y][k].distance
                == last.distance;
        assert(relaxed(edges, table, y, k));
        if !visited[x] {
            let r = Route { to: x as usize, distance: table[x].cumulative_distance };
            assert(none.count(r) > 0);
        }
    }
}

/// The table in which only the start is reached.
spec fn first_table(stations: nat, start: usize) -> Seq<DestinationView> {
    Seq::new(
        stations,
        |v: int|
            DestinationView {
                from: start,
                to: v as usize,
                checkpoints: Seq::empty(),
                distance: 0,
                cumulative_distance: if v == start {
                    0
                } else {
                    UNREACHABLE
                },
            },
    )
}

/// The search can start with the start alone in the heap.
proof fn lemma_start(edges: Edges, start: usize, visited: Seq<bool>)
    requires
        start < edges.len() <= usize::MAX,
        visited.len() == edges.len(),
        forall|i: int| 0 <= i < visited.len() ==> !visited[i],
    ensures
        searching(
            edges,
            start as int,
            first_table(edges.len(), start),
            visited,
            Multiset::<Route>::empty().insert(Route { to: start, distance: 0 }),
            0,
            -1,
            0,
        ),
{
    reveal(searching);
    let table = first_table(edges.len(), start);
    lemma_count_none(visited);
    assert(table[start as int].hops() =~= Seq::<Route>::empty());
    assert forall|v: int| 0 <= v < table.len() implies entry_sound(
        edges,
        start as int,
        v,
        #[trigger] table[v],
        0,
    ) by {}
}

/// What waits in the heap names a station of the graph.
proof fn lemma_waiting_in_range(
    edges: Edges,
    start: int,
    table: Seq<DestinationView>,
    visited: Seq<bool>,
    waiting: Multiset<Route>,
    settled: nat,
    r: Route,
)
    requires
        searching(edges, start, table, visited, waiting, settled, -1, 0),
        waiting.count(r) > 0,
    ensures
        r.to < edges.len(),
        table.len() == edges.len(),
        visited.len() == edges.len(),
{
    reveal(searching);
}

/// An entry that leaves the heap for a station already settled is not missed.
proof fn lemma_drop(
    edges: Edges,
    start: int,
    table: Seq<DestinationView>,
    visited: Seq<bool>,
    waiting: Multiset<Route>,
    settled: nat,
    r: Route,
)
    requires
        searching(edges, start, table, visited, waiting, settled, -1, 0),
        waiting.count(r) > 0,
        r.to < visited.len(),
        visited[r.to as int],
    ensures
        searching(edges, start, table, visited, waiting.remove(r), settled, -1, 0),
{
    reveal(searching);
    let rest = waiting.remove(r);
    assert forall|v: int|
        0 <= v < table.len() && !(#[trigger] visited[v]) && table[v].found() implies rest.count(
        Route { to: v as usize, distance: table[v].cumulative_distance },
    ) > 0 by {
        assert(waiting.count(Route { to: v as usize, distance: table[v].cumulative_distance }) > 0);
    }
    assert forall|x: Route| #[trigger] rest.count(x) > 0 implies x.to < table.len()
        && table[x.to as int].found() && table[x.to as int].cumulative_distance <= x.distance by {
        assert(waiting.count(x) > 0);
    }
}

/// The least entry of the heap, if its station is not settled, carries the
/// station's shortest distance: the station can be settled.
proof fn lemma_settle(
    edges: Edges,
    start: int,
    table: Seq<DestinationView>,
    visited: Seq<bool>,
    waiting: Multiset<Route>,
    settled: nat,
    r: Route,
)
    requires
        edges_bounded(edges),
        searching(edges, start, table, visited, waiting, settled, -1, 0),
        waiting.count(r) > 0,
        forall|x: Route| waiting.count(x) > 0 ==> key_le(r, x),
        r.to < visited.len(),
        !visited[r.to as int],
    ensures
        searching(
            edges,
            start,
            table,
            visited.update(r.to as int, true),
            waiting.remove(r),
            settled + 1,
            r.to as int,
            0,
        ),
        settled + 1 <= edges.len(),
        table[r.to as int].found(),
        table[r.to as int].cumulative_distance == r.distance,
        table[r.to as int].hops().len() + 1 <= settled + 1,
        r.distance <= table[r.to as int].hops().len() * MAX_EDGE,
        table[r.to as int].from == start,
        table[r.to as int].to == r.to,
        r.to == start ==> table[r.to as int].checkpoints.len() == 0,
{
    reveal(searching);
    let u = r.to as int;
    let d = r.distance;
    let own = Route { to: r.to, distance: table[u].cumulative_distance };
    assert(waiting.count(own) > 0);
    assert(key_le(r, own));
    assert(d == table[u].cumulative_distance);
    assert forall|x: Route| waiting.count(x) > 0 implies x.distance >= d by {
        assert(key_le(r, x));
    }
    assert forall|steps: Seq<Route>| #[trigger] connects(edges, start, u, steps) implies hops_len(
        steps,
    ) >= d by {
        lemma_frontier(edges, start, table, visited, waiting, settled, d as nat, steps);
    }
    lemma_count_settle(visited, u);
    assert(entry_sound(edges, start, start, table[start], settled));
    assert(entry_sound(edges, start, u, table[u], settled));
    assert(table[start].hops() =~= Seq::<Route>::empty());
    if u != start && !visited[start] {
        let first = Route { to: start as usize, distance: 0 };
        assert(waiting.count(first) > 0);
        assert(key_le(r, first));
        assert(table[u].hops().len() > 0);
        assert forall|i: int| 0 <= i < visited.len() implies !visited[i] by {}
        lemma_count_none(visited);
        assert(false);
    }
    let marked = visited.update(u, true);
    let rest = waiting.remove(r);
    assert forall|v: int| 0 <= v < table.len() implies entry_sound(
        edges,
        start,
        v,
        #[trigger] table[v],
        settled + 1,
    ) by {
        assert(entry_sound(edges, start, v, table[v], settled));
    }
    assert forall|v: int|
        0 <= v < table.len() && !(#[trigger] marked[v]) && table[v].found() implies rest.count(
        Route { to: v as usize, distance: table[v].cumulative_distance },
    ) > 0 by {
        assert(!visited[v]);
        assert(waiting.count(Route { to: v as usize, distance: table[v].cumulative_distance }) > 0);
    }
    assert forall|x: Route| #[trigger] rest.count(x) > 0 implies x.to < table.len()
        && table[x.to as int].found() && table[x.to as int].cumulative_distance <= x.distance by {
        assert(waiting.count(x) > 0);
    }
    assert forall|a: int, k: int|
        0 <= a < edges.len() && marked[a] && 0 <= k < edges[a].len() && (a != u || k < 0)
        implies #[trigger] relaxed(
        edges,
        table,
        a,
        k,
    ) by {
        assert(visited[a]);
    }
    assert forall|v: int| 0 <= v < table.len() && #[trigger] marked[v] implies {
        &&& table[v].found()
        &&& lower_bound(edges, start, v, table[v].cumulative_distance as nat)
        &&& marked[start]
    } by {
        if v != u {
            assert(visited[v]);
        }
    }
    assert forall|v: int| 0 <= v < table.len() implies #[trigger] settled_prior(
        start,
        table,
        marked,
        v,
    ) by {
        assert(settled_prior(start, table, visited, v));
    }
}

/// Recording a strictly shorter path to the station that edge `j` out of
/// the settled station `u` leads to, and putting that station in the heap
/// at its new distance, keeps everything that the search relies on.
proof fn lemma_improve(
    edges: Edges,
    start: int,
    before: Seq<DestinationView>,
    visited: Seq<bool>,
    waiting: Multiset<Route>,
    settled: nat,
    u: int,
    j: int,
    entry: DestinationView,
)
    requires
        edges_bounded(edges),
        searching(edges, start, before, visited, waiting, settled, u, j),
        0 <= u < edges.len(),
        u < visited.len(),
        visited[u],
        0 <= j < edges[u].len(),
        u < before.len(),
        before[u].found(),
        before[u].hops().len() + 1 <= settled,
        before[u].cumulative_distance + edges[u][j].distance < UNREACHABLE,
        entry == (DestinationView {
            from: start as usize,
            to: edges[u][j].to,
            checkpoints: before[u].hops(),
            distance: edges[u][j].distance,
            cumulative_distance: (before[u].cumulative_distance + edges[u][j].distance) as u64,
        }),
        edges[u][j].to < before.len(),
        entry.cumulative_distance < before[edges[u][j].to as int].cumulative_distance,
    ensures
        edges[u][j].to != u,
        edges[u][j].to != start,
        !visited[edges[u][j].to as int],
        searching(
            edges,
            start,
            before.update(edges[u][j].to as int, entry),
            visited,
            waiting.insert(Route { to: edges[u][j].to, distance: entry.cumulative_distance }),
            settled,
            u,
            j + 1,
        ),
{
    reveal(searching);
    let next = edges[u][j];
    let to = next.to as int;
    let trail = before[u].hops();
    let walk = trail.push(next);
    let after = before.update(to, entry);
    let candidate = entry.cumulative_distance;
    let pushed = waiting.insert(Route { to: to as usize, distance: candidate });
    assert(entry_sound(edges, start, u, before[u], settled));
    assert(entry_sound(edges, start, start, before[start], settled));
    assert(before[start].hops() =~= Seq::<Route>::empty());
    assert(walk.drop_last() =~= trail);
    assert(has_edge(edges, u, to, next.distance as int));
    assert(connects(edges, start, to, walk));
    assert(hops_len(walk) == candidate);
    if visited[to] {
        assert(lower_bound(edges, start, to, before[to].cumulative_distance as nat));
        assert(false);
    }
    assert(visited[start]);
    assert(to != start);
    assert(entry.hops() =~= walk);
    assert forall|v: int| 0 <= v < after.len() implies entry_sound(
        edges,
        start,
        v,
        #[trigger] after[v],
        settled,
    ) by {
        if v != to {
            assert(entry_sound(edges, start, v, before[v], settled));
        }
    }
    assert forall|a: int, k: int|
        0 <= a < edges.len() && visited[a] && 0 <= k < edges[a].len() && (a != u || k < j + 1)
        implies #[trigger] relaxed(
        edges,
        after,
        a,
        k,
    ) by {
        if a == u && k == j {
        } else {
            assert(relaxed(edges, before, a, k));
        }
    }
    assert forall|v: int|
        0 <= v < after.len() && !(#[trigger] visited[v]) && after[v].found() implies pushed.count(
        Route { to: v as usize, distance: after[v].cumulative_distance },
    ) > 0 by {
        if v != to {
            assert(waiting.count(Route { to: v as usize, distance: before[v].cumulative_distance })
                > 0);
        }
    }
    assert forall|x: Route| #[trigger] pushed.count(x) > 0 implies x.to < after.len()
        && after[x.to as int].found() && after[x.to as int].cumulative_distance <= x.distance by {
        if x != (Route { to: to as usize, distance: candidate }) {
            assert(waiting.count(x) > 0);
        }
    }
    assert forall|v: int, w: int|
        0 <= v < after.len() && v != start && after[v].found() && after[v].checkpoints.len() > 0
            && #[trigger] has_edge(edges, start, v, w) implies after[v].cumulative_distance < w by {
        if v == to {
            let k = choose|k: int|
                0 <= k < edges[start].len() && (#[trigger] edges[start][k]).to == v
                    && edges[start][k].distance == w;
            assert(u != start);
            assert(relaxed(edges, before, start, k));
        } else {
            assert(has_edge(edges, start, v, w));
        }
    }
    assert forall|v: int| 0 <= v < after.len() implies #[trigger] settled_prior(
        start,
        after,
        visited,
        v,
    ) by {
        if v == to {
            assert(after[v].hops().drop_last() =~= trail);
            assert(hops_end(start, trail) == u);
        } else {
            assert(settled_prior(start, before, visited, v));
        }
    }
}

/// An edge that gives no shorter path is relaxed as things stand.
proof fn lemma_keep(
    edges: Edges,
    start: int,
    table: Seq<DestinationView>,
    visited: Seq<bool>,
    waiting: Multiset<Route>,
    settled: nat,
    u: int,
    j: int,
)
    requires
        edges_bounded(edges),
        searching(edges, start, table, visited, waiting, settled, u, j),
        0 <= u < edges.len(),
        0 <= j < edges[u].len(),
        u < table.len(),
        edges[u][j].to < table.len(),
        table[u].cumulative_distance + edges[u][j].distance < UNREACHABLE,
        table[u].cumulative_distance + edges[u][j].distance
            >= table[edges[u][j].to as int].cumulative_distance,
    ensures
        searching(edges, start, table, visited, waiting, settled, u, j + 1),
{
    reveal(searching);
    assert forall|a: int, k: int|
        0 <= a < edges.len() && visited[a] && 0 <= k < edges[a].len() && (a != u || k < j + 1)
        implies #[trigger] relaxed(
        edges,
        table,
        a,
        k,
    ) by {
        if a == u && k == j {
        } else {
            assert(relaxed(edges, table, a, k));
        }
    }
}

/// Once all edges out of the station just settled are relaxed, all edges
/// out of settled stations are.
proof fn lemma_all_done(
    edges: Edges,
    start: int,
    table: Seq<DestinationView>,
    visited: Seq<bool>,
    waiting: Multiset<Route>,
    settled: nat,
    u: int,
)
    requires
        searching(edges, start, table, visited, waiting, settled, u, edges[u].len() as int),
        0 <= u < edges.len(),
    ensures
        searching(edges, start, table, visited, waiting, settled, -1, 0),
{
    reveal(searching);
    assert forall|a: int, k: int|
        0 <= a < edges.len() && visited[a] && 0 <= k < edges[a].len() && (a != -1 || k < 0)
        implies #[trigger] relaxed(
        edges,
        table,
        a,
        k,
    ) by {}
}

/// When the heap is empty, the table answers every query.
proof fn lemma_finished(
    edges: Edges,
    start: int,
    table: Seq<DestinationView>,
    visited: Seq<bool>,
    settled: nat,
    order: Seq<int>,
)
    requires
        edges_bounded(edges),
        searching(edges, start, table, visited, Multiset::<Route>::empty(), settled, -1, 0),
        ranking(edges, start, table, visited, order, -1, 0),
    ensures
        table_answers(edges, start, table),
{
    lemma_finished_rank(edges, start, table, visited, settled, order);
    assert(settled_in_order(edges, start, table));
    reveal(searching);
    let none = Multiset::<Route>::empty();
    lemma_count_bound(visited);
    assert forall|v: int| 0 <= v < table.len() implies (#[trigger] table[v]).answers(edges, start, v) by {
        assert(entry_sound(edges, start, v, table[v], settled));
        if !visited[v] {
            if table[v].found() {
                let r = Route { to: v as usize, distance: table[v].cumulative_distance };
                assert(none.count(r) > 0);
            }
            if reachable(edges, start, v) {
                let steps = choose|steps: Seq<Route>| connects(edges, start, v, steps);
                lemma_unsettled_unreachable(edges, start, table, visited, settled, steps);
            }
        }
    }
    assert forall|v: int| 0 <= v < table.len() implies #[trigger] follows_prior(start, table, v) by {
        assert(settled_prior(start, table, visited, v));
    }
}

/// What the order of settling relies on of the search.
proof fn lemma_search_parts(
    edges: Edges,
    start: int,
    table: Seq<DestinationView>,
    visited: Seq<bool>,
    waiting: Multiset<Route>,
    settled: nat,
    u: int,
    j: int,
)
    requires
        searching(edges, start, table, visited, waiting, settled, u, j),
    ensures
        table.len() == edges.len(),
        visited.len() == edges.len(),
        0 <= start < table.len(),
        all_relaxed(edges, table, visited, u, j),
        tree_so_far(start, table, visited),
        heap_covers(table, visited, waiting),
        forall|v: int| 0 <= v < table.len() && #[trigger] visited[v] ==> table[v].found(),
        forall|v: int| 0 <= v < table.len() && #[trigger] visited[v] ==> visited[start],
        0 <= u < table.len() && table[u].found() ==> hops_end(start, table[u].hops()) == u,
{
    reveal(searching);
    if 0 <= u < table.len() {
        assert(entry_sound(edges, start, u, table[u], settled));
    }
}

/// Before anything is settled, nothing is out of order.
proof fn lemma_start_rank(edges: Edges, start: usize, visited: Seq<bool>)
    requires
        start < edges.len() <= usize::MAX,
        visited.len() == edges.len(),
        forall|i: int| 0 <= i < visited.len() ==> !visited[i],
    ensures
        ranking(
            edges,
            start as int,
            first_table(edges.len(), start),
            visited,
            Seq::<int>::empty(),
            -1,
            0,
        ),
{
    reveal(ranking);
}

/// The order is kept when the least entry of the heap is settled.
proof fn lemma_settle_rank(
    edges: Edges,
    start: int,
    table: Seq<DestinationView>,
    visited: Seq<bool>,
    waiting: Multiset<Route>,
    settled: nat,
    order: Seq<int>,
    r: Route,
)
    requires
        edges_bounded(edges),
        searching(edges, start, table, visited, waiting, settled, -1, 0),
        searching(
            edges,
            start,
            table,
            visited.update(r.to as int, true),
            waiting.remove(r),
            settled + 1,
            r.to as int,
            0,
        ),
        ranking(edges, start, table, visited, order, -1, 0),
        waiting.count(r) > 0,
        forall|x: Route| waiting.count(x) > 0 ==> key_le(r, x),
        r.to < visited.len(),
        !visited[r.to as int],
        table[r.to as int].found(),
        table[r.to as int].cumulative_distance == r.distance,
    ensures
        ranking(
            edges,
            start,
            table,
            visited.update(r.to as int, true),
            order.push(r.to as int),
            r.to as int,
            0,
        ),
{
    let u = r.to as int;
    let marked = visited.update(u, true);
    let next = order.push(u);
    let n = order.len() as int;
    lemma_search_parts(edges, start, table, visited, waiting, settled, -1, 0);
    lemma_search_parts(edges, start, table, marked, waiting.remove(r), settled + 1, u, 0);
    reveal(ranking);
    assert(marked[u]);
    assert(marked[start]);
    assert forall|i: int, j: int| 0 <= i < next.len() && 0 <= j < next.len() && i != j implies next[i]
        != next[j] by {
        if i < n {
            assert(visited[order[i]]);
        }
        if j < n {
            assert(visited[order[j]]);
        }
    }
    assert forall|i: int| 0 <= i < next.len() implies 0 <= #[trigger] next[i] < table.len()
        && marked[next[i]] by {
        if i < n {
            assert(visited[order[i]]);
        }
    }
    assert forall|v: int| 0 <= v < table.len() && #[trigger] marked[v] implies next.contains(v) by {
        if v == u {
            assert(next[n] == v);
        } else {
            assert(visited[v]);
            let i = choose|i: int| 0 <= i < order.len() && order[i] == v;
            assert(next[i] == v);
        }
    }
    if n == 0 && start != u {
        assert(visited[start]);
        assert(order.contains(start));
    }
    assert(next[0] == start);
    assert forall|j: int, i: int, k: int|
        0 <= j < i < next.len() && 0 <= k < edges[next[j]].len() implies #[trigger] greedy_at(
        edges,
        table,
        next,
        j,
        i,
        k,
    ) by {
        let x = edges[next[j]][k].to as int;
        assert(next[j] == order[j]);
        if absent(next, i, x) {
            assert forall|l: int| 0 <= l < i && l < n implies #[trigger] order[l] != x by {
                assert(next[l] != x);
            }
            if i < n {
                assert(greedy_at(edges, table, order, j, i, k));
                assert(absent(order, i, x));
            } else {
                assert(visited[order[j]]);
                assert(relaxed(edges, table, order[j], k));
                if visited[x] {
                    assert(order.contains(x));
                    let l = choose|l: int| 0 <= l < order.len() && order[l] == x;
                    assert(next[l] != x);
                }
                let entry = Route { to: x as usize, distance: table[x].cumulative_distance };
                assert(waiting.count(entry) > 0);
                assert(key_le(r, entry));
            }
        }
    }
    assert forall|a: int, b: int, k: int|
        0 <= a < next.len() && 0 <= b < next.len() && 0 <= k < edges[next[b]].len() && (next[b]
            != u || k < 0) implies #[trigger] pred_first_at(edges, start, table, next, a, b, k) by {
        let v = edges[next[b]][k].to as int;
        assert(b < n);
        if a < n {
            assert(pred_first_at(edges, start, table, order, a, b, k));
        } else if v != start && 0 <= v < table.len() && table[v].found() {
            assert(settled_prior(start, table, visited, v));
        }
    }
    assert forall|a: int, m: int|
        0 <= a < next.len() && 0 <= m < next.len()
        implies #[trigger] prior_before_at(
        start,
        table,
        next,
        a,
        m,
    ) by {
        if a < n && m < n {
            assert(prior_before_at(start, table, order, a, m));
        } else if next[m] != start {
            if m < n {
                assert(visited[order[m]]);
            }
            assert(settled_prior(start, table, visited, next[m]));
        }
    }
}

/// The order is kept when a strictly shorter path is recorded.
proof fn lemma_improve_rank(
    edges: Edges,
    start: int,
    before: Seq<DestinationView>,
    visited: Seq<bool>,
    waiting: Multiset<Route>,
    settled: nat,
    order: Seq<int>,
    u: int,
    j: int,
    entry: DestinationView,
)
    requires
        edges_bounded(edges),
        edges.len() <= usize::MAX,
        searching(edges, start, before, visited, waiting, settled, u, j),
        ranking(edges, start, before, visited, order, u, j),
        0 <= u < edges.len(),
        u < visited.len(),
        visited[u],
        0 <= j < edges[u].len(),
        u < before.len(),
        before[u].found(),
        before[u].cumulative_distance + edges[u][j].distance < UNREACHABLE,
        entry == (DestinationView {
            from: start as usize,
            to: edges[u][j].to,
            checkpoints: before[u].hops(),
            distance: edges[u][j].distance,
            cumulative_distance: (before[u].cumulative_distance + edges[u][j].distance) as u64,
        }),
        edges[u][j].to < before.len(),
        edges[u][j].to != u,
        edges[u][j].to != start,
        !visited[edges[u][j].to as int],
        entry.cumulative_distance < before[edges[u][j].to as int].cumulative_distance,
    ensures
        ranking(edges, start, before.update(edges[u][j].to as int, entry), visited, order, u, j + 1),
{
    let to = edges[u][j].to as int;
    let after = before.update(to, entry);
    lemma_search_parts(edges, start, before, visited, waiting, settled, u, j);
    assert(entry.hops() =~= before[u].hops().push(edges[u][j]));
    assert(entry.hops().drop_last() =~= before[u].hops());
    assert(prior(start, after, to) == u);
    reveal(ranking);
    assert forall|i: int| 0 <= i < order.len() implies after[#[trigger] order[i]] == before[order[i]] by {
        assert(visited[order[i]]);
    }
    assert forall|j2: int, i: int, k: int|
        0 <= j2 < i < order.len() && 0 <= k < edges[order[j2]].len() implies #[trigger] greedy_at(
        edges,
        after,
        order,
        j2,
        i,
        k,
    ) by {
        assert(greedy_at(edges, before, order, j2, i, k));
        assert(after[order[i]] == before[order[i]]);
        assert(after[order[j2]] == before[order[j2]]);
    }
    assert forall|a: int, b: int, k: int|
        0 <= a < order.len() && 0 <= b < order.len() && 0 <= k < edges[order[b]].len() && (order[b]
            != u || k < j + 1) implies #[trigger] pred_first_at(
        edges,
        start,
        after,
        order,
        a,
        b,
        k,
    ) by {
        let v = edges[order[b]][k].to as int;
        assert(after[order[b]] == before[order[b]]);
        assert(visited[order[b]]);
        if v == to {
            if order[b] == u && k == j {
                if order[a] == u {
                    assert(a == b);
                }
            } else {
                assert(relaxed(edges, before, order[b], k));
            }
        } else {
            assert(pred_first_at(edges, start, before, order, a, b, k));
        }
    }
    assert forall|a: int, m: int|
        0 <= a < order.len() && 0 <= m < order.len()
        implies #[trigger] prior_before_at(
        start,
        after,
        order,
        a,
        m,
    ) by {
        assert(prior_before_at(start, before, order, a, m));
        assert(after[order[m]] == before[order[m]]);
    }
}

/// The order is kept when an edge gives no shorter path.
proof fn lemma_keep_rank(
    edges: Edges,
    start: int,
    table: Seq<DestinationView>,
    visited: Seq<bool>,
    order: Seq<int>,
    u: int,
    j: int,
)
    requires
        ranking(edges, start, table, visited, order, u, j),
        0 <= u < edges.len(),
        0 <= j < edges[u].len(),
    ensures
        ranking(edges, start, table, visited, order, u, j + 1),
{
    reveal(ranking);
    assert forall|a: int, b: int, k: int|
        0 <= a < order.len() && 0 <= b < order.len() && 0 <= k < edges[order[b]].len() && (order[b]
            != u || k < j + 1) implies #[trigger] pred_first_at(
        edges,
        start,
        table,
        order,
        a,
        b,
        k,
    ) by {
        if order[b] == u && k == j {
            assert(b == order.len() - 1);
        } else {
            assert(pred_first_at(edges, start, table, order, a, b, k));
        }
    }
}

/// The order is kept when the edges out of a station have all been relaxed.
proof fn lemma_all_done_rank(
    edges: Edges,
    start: int,
    table: Seq<DestinationView>,
    visited: Seq<bool>,
    order: Seq<int>,
    u: int,
)
    requires
        ranking(edges, start, table, visited, order, u, edges[u].len() as int),
        0 <= u < edges.len(),
    ensures
        ranking(edges, start, table, visited, order, -1, 0),
{
    reveal(ranking);
    assert forall|a: int, b: int, k: int|
        0 <= a < order.len() && 0 <= b < order.len() && 0 <= k < edges[order[b]].len() && (order[b]
            != -1 || k < 0) implies #[trigger] pred_first_at(
        edges,
        start,
        table,
        order,
        a,
        b,
        k,
    ) by {
        assert(pred_first_at(edges, start, table, order, a, b, k));
    }
}

/// When the heap is empty, the stations reached have been settled in order.
proof fn lemma_finished_rank(
    edges: Edges,
    start: int,
    table: Seq<DestinationView>,
    visited: Seq<bool>,
    settled: nat,
    order: Seq<int>,
)
    requires
        searching(edges, start, table, visited, Multiset::<Route>::empty(), settled, -1, 0),
        ranking(edges, start, table, visited, order, -1, 0),
    ensures
        settles(edges, start, table, order),
{
    let none = Multiset::<Route>::empty();
    lemma_search_parts(edges, start, table, visited, none, settled, -1, 0);
    reveal(ranking);
    assert forall|i: int| 0 <= i < order.len() implies 0 <= #[trigger] order[i] < table.len()
        && table[order[i]].found() by {
        assert(visited[order[i]]);
    }
    assert forall|v: int| 0 <= v < table.len() && (#[trigger] table[v]).found() implies order.contains(
        v,
    ) by {
        if !visited[v] {
            let r = Route { to: v as usize, distance: table[v].cumulative_distance };
            assert(none.count(r) > 0);
        }
    }
    assert forall|a: int, b: int, k: int|
        0 <= a < order.len() && 0 <= b < order.len() && 0 <= k < edges[order[b]].len()
        implies #[trigger] pred_first_at(
        edges,
        start,
        table,
        order,
        a,
        b,
        k,
    ) by {}
}

/// Shortest paths from `start` to every station, by Dijkstra's algorithm.
///
/// A station's entry is replaced only by a strictly shorter path, so among
/// paths of equal length the one found first stays: the one through the
/// station that was settled first. Of the stations waiting to be settled
/// the nearest is next, and of several equally near the one with the
/// smallest number.
pub fn shortest_paths(adj: &Vec<Vec<Route>>, start: usize) -> (table: Vec<Destination>)
    requires
        start < adj@.len(),
        adj@.len() <= MAX_STATIONS,
        edges_bounded(adjacency(adj@)),
    ensures
        table_answers(adjacency(adj@), start as int, table_view(table@)),
{
    let n = adj.len();
    let ghost edges = adjacency(adj@);
    let mut table: Vec<Destination> = Vec::new();
    let mut visited: Vec<bool> = Vec::new();
    let mut v: usize = 0;
    while v < n
        invariant
            v <= n,
            start < n,
            table@.len() == v,
            visited@.len() == v,
            forall|i: int| 0 <= i < v ==> !visited@[i],
            forall|i: int| 0 <= i < v ==> (#[trigger] table@[i])@ == first_table(n as nat, start)[i],
        decreases n - v,
    {
        table.push(
            Destination {
                from: start,
                to: v,
                checkpoints: Vec::new(),
                distance: 0,
                cumulative_distance: if v == start {
                    0
                } else {
                    UNREACHABLE
                },
            },
        );
        visited.push(false);
        v += 1;
    }
    let mut heap = MinHeap::new();
    heap.add(Route { to: start, distance: 0 });
    let mut settled: usize = 0;
    proof {
        assert(table_view(table@) =~= first_table(n as nat, start));
        lemma_start(edges, start, visited@);
        lemma_start_rank(edges, start, visited@);
    }
    let ghost mut order: Seq<int> = Seq::empty();
    while heap.len() > 0
        invariant
            n == adj@.len(),
            n <= MAX_STATIONS,
            start < n,
            edges == adjacency(adj@),
            edges_bounded(edges),
            table@.len() == n,
            visited@.len() == n,
            heap.wf(),
            settled <= n,
            searching(
                edges,
                start as int,
                table_view(table@),
                visited@,
                heap.contents(),
                settled as nat,
                -1,
                0,
            ),
            ranking(edges, start as int, table_view(table@), visited@, order, -1, 0),
        decreases n - settled, heap.heap@.len(),
    {
        let ghost waiting = heap.contents();
        let ghost tv = table_view(table@);
        let least = heap.remove();
        let r = least.unwrap();
        proof {
            lemma_waiting_in_range(edges, start as int, tv, visited@, waiting, settled as nat, r);
        }
        let u = r.to;
        let d = r.distance;
        if !visited[u] {
            proof {
                lemma_settle(edges, start as int, tv, visited@, waiting, settled as nat, r);
                lemma_settle_rank(edges, start as int, tv, visited@, waiting, settled as nat, order, r);
                order = order.push(u as int);
                assert(tv[u as int] == table@[u as int]@);
            }
            visited.set(u, true);
            settled += 1;
            let mut trail: Vec<Route> = table[u].checkpoints.clone();
            if u != start {
                trail.push(Route { to: u, distance: table[u].distance });
            }
            assert(trail@ =~= tv[u as int].hops());
            let m: usize = adj[u].len();
            let mut j: usize = 0;
            while j < m
                invariant
                    n == adj@.len(),
                    n <= MAX_STATIONS,
                    start < n,
                    edges == adjacency(adj@),
                    edges_bounded(edges),
                    u < n,
                    m == adj@[u as int]@.len(),
                    j <= m,
                    table@.len() == n,
                    visited@.len() == n,
                    visited@[u as int],
                    heap.wf(),
                    1 <= settled <= n,
                    tv.len() == n,
                    table_view(table@)[u as int] == tv[u as int],
                    trail@ == tv[u as int].hops(),
                    tv[u as int].found(),
                    d == tv[u as int].cumulative_distance,
                    d <= trail@.len() * MAX_EDGE,
                    trail@.len() + 1 <= settled,
                    searching(
                        edges,
                        start as int,
                        table_view(table@),
                        visited@,
                        heap.contents(),
                        settled as nat,
                        u as int,
                        j as int,
                    ),
                    ranking(
                        edges,
                        start as int,
                        table_view(table@),
                        visited@,
                        order,
                        u as int,
                        j as int,
                    ),
                decreases m - j,
            {
                let next = adj[u][j];
                let ghost before = table_view(table@);
                assert(next == edges[u as int][j as int]);
                let candidate: u64 = d + next.distance;
                if candidate < table[next.to].cumulative_distance {
                    let entry = Destination {
                        from: start,
                        to: next.to,
                        checkpoints: trail.clone(),
                        distance: next.distance,
                        cumulative_distance: candidate,
                    };
                    proof {
                        assert(before[next.to as int] == table@[next.to as int]@);
                        lemma_improve(
                            edges,
                            start as int,
                            before,
                            visited@,
                            heap.contents(),
                            settled as nat,
                            u as int,
                            j as int,
                            entry@,
                        );
                        lemma_improve_rank(
                            edges,
                            start as int,
                            before,
                            visited@,
                            heap.contents(),
                            settled as nat,
                            order,
                            u as int,
                            j as int,
                            entry@,
                        );
                    }
                    table.set(next.to, entry);
                    heap.add(Route { to: next.to, distance: candidate });
                    assert(table_view(table@) =~= before.update(next.to as int, entry@));
                } else {
                    proof {
                        assert(before[next.to as int] == table@[next.to as int]@);
                        lemma_keep(
                            edges,
                            start as int,
                            before,
                            visited@,
                            heap.contents(),
                            settled as nat,
                            u as int,
                            j as int,
                        );
                        lemma_keep_rank(
                            edges,
                            start as int,
                            before,
                            visited@,
                            order,
                            u as int,
                            j as int,
                        );
                    }
                }
                j += 1;
            }
            proof {
                lemma_all_done(
                    edges,
                    start as int,
                    table_view(table@),
                    visited@,
                    heap.contents(),
                    settled as nat,
                    u as int,
                );
                lemma_all_done_rank(
                    edges,
                    start as int,
                    table_view(table@),
                    visited@,
                    order,
                    u as int,
                );
            }
        } else {
            proof {
                lemma_drop(edges, start as int, tv, visited@, waiting, settled as nat, r);
            }
        }
    }
    proof {
        assert(heap.contents() =~= Multiset::<Route>::empty()) by {
            vstd::seq_lib::to_multiset_len(heap.heap@);
            assert(heap.heap@ =~= Seq::<Route>::empty());
        }
        lemma_finished(edges, start as int, table_view(table@), visited@, settled as nat, order);
    }
    table
}

/// What adding the edge `a`-`b` of length `d` makes of the adjacency lists:
/// `a` gets a route to `b` and `b` one to `a`, in this order.
pub open spec fn with_edge(edges: Edges, a: usize, b: usize, d: u64) -> Edges {
    let there = edges.update(a as int, edges[a as int].push(Route { to: b, distance: d }));
    there.update(b as int, there[b as int].push(Route { to: a, distance: d }))
}

/// The edges after an insertion are the edges before it and the new edge in
/// both directions.
pub proof fn lemma_with_edge(edges: Edges, a: usize, b: usize, d: u64)
    requires
        a < edges.len(),
        b < edges.len(),
    ensures
        with_edge(edges, a, b, d).len() == edges.len(),
        forall|x: int, y: int, w: int| #[trigger]
            has_edge(with_edge(edges, a, b, d), x, y, w) <==> has_edge(edges, x, y, w) || (x == a
                && y == b && w == d) || (x == b && y == a && w == d),
{
    let r1 = Route { to: b, distance: d };
    let r2 = Route { to: a, distance: d };
    let there = edges.update(a as int, edges[a as int].push(r1));
    let both = with_edge(edges, a, b, d);
    assert(both.len() == edges.len());
    assert forall|x: int, y: int, w: int| #[trigger]
        has_edge(both, x, y, w) <==> has_edge(edges, x, y, w) || (x == a && y == b && w == d) || (x
            == b && y == a && w == d) by {
        if 0 <= x < edges.len() {
            if x == a && x == b {
                assert(both[x] =~= edges[x].push(r1).push(r2));
            } else if x == a {
                assert(both[x] =~= edges[x].push(r1));
            } else if x == b {
                assert(both[x] =~= edges[x].push(r2));
            } else {
                assert(both[x] =~= edges[x]);
            }
        }
        if has_edge(both, x, y, w) {
            let j = choose|j: int|
                0 <= j < both[x].len() && (#[trigger] both[x][j]).to == y && both[x][j].distance
                    == w;
            if j < edges[x].len() {
                assert(edges[x][j] == both[x][j]);
                assert(has_edge(edges, x, y, w));
            }
        }
        if has_edge(edges, x, y, w) {
            let j = choose|j: int|
                0 <= j < edges[x].len() && (#[trigger] edges[x][j]).to == y && edges[x][j].distance
                    == w;
            assert(both[x][j] == edges[x][j]);
            assert(has_edge(both, x, y, w));
        }
        if x == a && y == b && w == d {
            assert(both[x][edges[x].len() as int] == r1);
            assert(has_edge(both, x, y, w));
        }
        if x == b && y == a && w == d {
            assert(both[x][both[x].len() - 1] == r2);
            assert(has_edge(both, x, y, w));
        }
    }
}

/// The stations, the edges between them, and the answers to the
/// shortest-path queries made so far.
pub struct Graph {
    /// For each station the routes that leave it.
    pub adj_list: Vec<Vec<Route>>,
    /// For each station the answers to the queries from it, once computed.
    pub cache: Vec<Option<Vec<Destination>>>,
    /// Whether any answer is held in `cache`.
    pub warm: bool,
}

impl Graph {
    /// The adjacency lists.
    pub open spec fn edges(&self) -> Edges {
        adjacency(self.adj_list@)
    }

    /// The answers remembered for queries from `src`, if any.
    pub open spec fn cached(&self, src: int) -> Option<Seq<DestinationView>> {
        if 0 <= src < self.cache@.len() {
            match self.cache@[src] {
                Some(table) => Some(table_view(table@)),
                None => None,
            }
        } else {
            None
        }
    }

    /// The graph is undirected, its edges are bounded, and what it remembers
    /// is true of its edges.
    pub open spec fn wf(&self) -> bool {
        &&& self.adj_list@.len() <= MAX_STATIONS
        &&& self.cache@.len() == self.adj_list@.len()
        &&& edges_bounded(self.edges())
        &&& symmetric(self.edges())
        &&& forall|s: int|
            0 <= s < self.cache@.len() ==> ((#[trigger] self.cached(s)) matches Some(table)
                ==> table_answers(self.edges(), s, table))
        &&& !self.warm ==> forall|s: int| 0 <= s < self.cache@.len() ==> (#[trigger] self.cache@[s])
            is None
    }

    /// The answers from every station are remembered.
    pub open spec fn complete(&self) -> bool {
        forall|s: int| 0 <= s < self.cache@.len() ==> (#[trigger] self.cache@[s]) is Some
    }

    /// A graph of `stations` stations, numbered from 0, and no edges.
    pub fn new(stations: usize) -> (made: Result<Graph, ConfigError>)
        ensures
            match made {
                Ok(g) => {
                    &&& stations <= MAX_STATIONS
                    &&& g.wf()
                    &&& g.edges().len() == stations
                    &&& forall|a: int| 0 <= a < stations ==> (#[trigger] g.edges()[a]).len() == 0
                    &&& forall|s: int| g.cached(s) is None
                },
                Err(e) => stations > MAX_STATIONS && e == ConfigError::TooManyStations,
            },
    {
        if stations > MAX_STATIONS {
            return Err(ConfigError::TooManyStations);
        }
        let mut adj_list: Vec<Vec<Route>> = Vec::new();
        let mut cache: Vec<Option<Vec<Destination>>> = Vec::new();
        let mut a: usize = 0;
        while a < stations
            invariant
                a <= stations,
                adj_list@.len() == a,
                cache@.len() == a,
                forall|i: int| 0 <= i < a ==> (#[trigger] adj_list@[i])@.len() == 0,
                forall|i: int| 0 <= i < a ==> (#[trigger] cache@[i]) is None,
            decreases stations - a,
        {
            adj_list.push(Vec::new());
            cache.push(None);
            a += 1;
        }
        let g = Graph { adj_list, cache, warm: false };
        assert(symmetric(g.edges())) by {
            assert forall|x: int, y: int, w: int| #[trigger]
                has_edge(g.edges(), x, y, w) implies has_edge(g.edges(), y, x, w) by {
                let j = choose|j: int|
                    0 <= j < g.edges()[x].len() && (#[trigger] g.edges()[x][j]).to == y;
                assert(g.edges()[x].len() == 0);
            }
        }
        Ok(g)
    }

    /// Adds the undirected edge `from`-`to` of length `distance`. An edge to
    /// a station that the graph does not have is refused. What was
    /// remembered of earlier queries is forgotten.
    pub fn add_edge(&mut self, from: usize, to: usize, distance: u32) -> (added: Result<
        (),
        ConfigError,
    >)
        requires
            old(self).wf(),
        ensures
            final(self).wf(),
            match added {
                Ok(_) => {
                    &&& from < old(self).edges().len()
                    &&& to < old(self).edges().len()
                    &&& final(self).edges() == with_edge(
                        old(self).edges(),
                        from,
                        to,
                        distance as u64,
                    )
                    &&& forall|s: int| final(self).cached(s) is None
                },
                Err(e) => {
                    &&& e == ConfigError::UnknownStation
                    &&& (from >= old(self).edges().len() || to >= old(self).edges().len())
                    &&& *final(self) == *old(self)
                },
            },
    {
        let n = self.adj_list.len();
        if from >= n || to >= n {
            return Err(ConfigError::UnknownStation);
        }
        if self.warm {
            let mut s: usize = 0;
            while s < n
                invariant
                    s <= n,
                    n == self.cache@.len(),
                    self.adj_list == old(self).adj_list,
                    forall|i: int| 0 <= i < s ==> (#[trigger] self.cache@[i]) is None,
                decreases n - s,
            {
                self.cache.set(s, None);
                s += 1;
            }
            self.warm = false;
        }
        let ghost before = self.edges();
        proof {
            lemma_with_edge(before, from, to, distance as u64);
        }
        let there = Route { to, distance: distance as u64 };
        let back = Route { to: from, distance: distance as u64 };
        let mut out: Vec<Route> = self.adj_list[from].clone();
        out.push(there);
        self.adj_list.set(from, out);
        let mut home: Vec<Route> = self.adj_list[to].clone();
        home.push(back);
        self.adj_list.set(to, home);
        proof {
            let after = with_edge(before, from, to, distance as u64);
            assert(self.edges() =~= after) by {
                assert forall|a: int| 0 <= a < after.len() implies #[trigger] self.edges()[a]
                    =~= after[a] by {}
            }
            assert forall|a: int, k: int|
                0 <= a < after.len() && 0 <= k < after[a].len() implies (#[trigger] after[a][k]).to
                < after.len() && after[a][k].distance <= MAX_EDGE by {
                if k < before[a].len() {
                    assert(after[a][k] == before[a][k]);
                }
            }
            assert forall|x: int, y: int, w: int| #[trigger]
                has_edge(after, x, y, w) implies has_edge(after, y, x, w) by {
                if has_edge(before, x, y, w) {
                    assert(has_edge(before, y, x, w));
                }
            }
        }
        Ok(())
    }

    /// The shortest paths from `start` to every station.
    ///
    /// The first query from a station computes the answers and remembers
    /// them; every later one returns what is remembered, and changes nothing.
    pub fn dijkstra(&mut self, start: usize) -> (found: Result<Vec<Destination>, ConfigError>)
        requires
            old(self).wf(),
        ensures
            final(self).wf(),
            old(self).answered(
                start,
                *final(self),
                match found {
                    Ok(table) => Ok(table_view(table@)),
                    Err(e) => Err(e),
                },
            ),
    {
        let n = self.adj_list.len();
        if start >= n {
            return Err(ConfigError::UnknownStation);
        }
        if let Some(known) = &self.cache[start] {
            let copy = clone_table(known);
            assert(self.cached(start as int) == Some(table_view(copy@)));
            return Ok(copy);
        }
        let table = shortest_paths(&self.adj_list, start);
        let copy = clone_table(&table);
        self.cache.set(start, Some(copy));
        self.warm = true;
        proof {
            assert forall|s: int| 0 <= s < self.cache@.len() implies ((#[trigger] self.cached(
                s,
            )) matches Some(t) ==> table_answers(self.edges(), s, t)) by {
                if s != start {
                    assert(self.cached(s) == old(self).cached(s));
                }
            }
            assert forall|s: int| s != start implies self.cached(s) == old(self).cached(s) by {}
        }
        Ok(table)
    }

    /// How a query from `start` relates the graph before it, the graph
    /// `after` it and its `result`.
    pub open spec fn answered(
        &self,
        start: usize,
        after: Graph,
        result: Result<Seq<DestinationView>, ConfigError>,
    ) -> bool {
        &&& after.adj_list == self.adj_list
        &&& match result {
            Err(e) => e == ConfigError::UnknownStation && start >= self.edges().len() && after
                == *self,
            Ok(table) => {
                &&& start < self.edges().len()
                &&& table_answers(self.edges(), start as int, table)
                &&& after.cached(start as int) == Some(table)
                &&& forall|s: int| s != start ==> after.cached(s) == self.cached(s)
                &&& self.cached(start as int) matches Some(known) ==> table == known && after
                    == *self
            },
        }
    }

    /// Asking twice gives the same answer, and neither query changes the
    /// edges: the second changes nothing at all.
    pub proof fn lemma_second_query(
        self,
        start: usize,
        first: Graph,
        first_result: Result<Seq<DestinationView>, ConfigError>,
        second: Graph,
        second_result: Result<Seq<DestinationView>, ConfigError>,
    )
        requires
            self.answered(start, first, first_result),
            first.answered(start, second, second_result),
        ensures
            second_result == first_result,
            second == first,
            second.edges() == self.edges(),
    {
    }

    /// Distances are symmetric: what the graph remembers of the way from
    /// `a` to `b` and of the way from `b` to `a` is the same distance.
    pub proof fn lemma_symmetric_distances(self, a: int, b: int)
        requires
            self.wf(),
            0 <= a < self.edges().len(),
            0 <= b < self.edges().len(),
            self.cached(a) is Some,
            self.cached(b) is Some,
        ensures
            self.cached(a).unwrap()[b].cumulative_distance == self.cached(
                b,
            ).unwrap()[a].cumulative_distance,
    {
        let there = self.cached(a).unwrap();
        let back = self.cached(b).unwrap();
        assert(table_answers(self.edges(), a, there));
        assert(table_answers(self.edges(), b, back));
        crate::destination::lemma_answers_symmetric(self.edges(), a, b, there[b], back[a]);
    }

    /// The edges alone decide what the graph remembers of the queries from
    /// a station.
    pub proof fn lemma_cached_is_fixed(self, src: int)
        requires
            self.wf(),
            self.cached(src) is Some,
        ensures
            self.cached(src) == Some(paths_from(self.edges(), src)),
    {
        let table = self.cached(src).unwrap();
        assert(table_answers(self.edges(), src, table));
        lemma_is_paths_from(self.edges(), src, table);
    }

    /// The shortest path from `from` to `to`, computed or remembered as
    /// `dijkstra` does.
    pub fn get_destination(&mut self, from: usize, to: usize) -> (found: Result<
        Destination,
        ConfigError,
    >)
        requires
            old(self).wf(),
        ensures
            final(self).wf(),
            final(self).adj_list == old(self).adj_list,
            match found {
                Ok(d) => {
                    &&& from < old(self).edges().len()
                    &&& to < old(self).edges().len()
                    &&& d@.answers(old(self).edges(), from as int, to as int)
                    &&& final(self).cached(from as int) matches Some(table) && table[to as int]
                        == d@
                    &&& old(self).cached(from as int) matches Some(known) ==> known[to as int]
                        == d@ && *final(self) == *old(self)
                    &&& forall|s: int| s != from ==> final(self).cached(s) == old(self).cached(s)
                },
                Err(e) => {
                    &&& e == ConfigError::UnknownStation
                    &&& (from >= old(self).edges().len() || to >= old(self).edges().len())
                    &&& *final(self) == *old(self)
                },
            },
    {
        if to >= self.adj_list.len() {
            return Err(ConfigError::UnknownStation);
        }
        match self.dijkstra(from) {
            Ok(table) => {
                assert(table_view(table@)[to as int] == table@[to as int]@);
                Ok(table[to].clone())
            },
            Err(e) => Err(e),
        }
    }

    /// Answers the queries from every station, so that none is left to compute.
    pub fn prepare(&mut self)
        requires
            old(self).wf(),
        ensures
            final(self).wf(),
            final(self).complete(),
            final(self).adj_list == old(self).adj_list,
            forall|s: int|
                old(self).cached(s) is Some ==> final(self).cached(s) == old(self).cached(s),
    {
        let n = self.adj_list.len();
        let mut s: usize = 0;
        while s < n
            invariant
                s <= n,
                n == self.cache@.len(),
                self.wf(),
                self.adj_list == old(self).adj_list,
                forall|i: int| 0 <= i < s ==> (#[trigger] self.cache@[i]) is Some,
                forall|i: int|
                    old(self).cached(i) is Some ==> self.cached(i) == old(self).cached(i),
            decreases n - s,
        {
            let ghost before = *self;
            let _ = self.dijkstra(s);
            proof {
                assert forall|i: int| 0 <= i < s + 1 implies (#[trigger] self.cache@[i]) is Some by {
                    if i < s {
                        assert(before.cache@[i] is Some);
                        assert(self.cached(i) == before.cached(i));
                    } else {
                        assert(self.cached(s as int) is Some);
                    }
                }
                assert forall|i: int| old(self).cached(i) is Some implies self.cached(i) == old(
                    self,
                ).cached(i) by {
                    assert(before.cached(i) == old(self).cached(i));
                    if i != s {
                        assert(self.cached(i) == before.cached(i));
                    }
                }
            }
            s += 1;
        }
    }

    /// The remembered shortest path from `from` to `to`.
    pub fn route(&self, from: usize, to: usize) -> (d: &Destination)
        requires
            self.wf(),
            from < self.edges().len(),
            to < self.edges().len(),
            self.cached(from as int) is Some,
        ensures
            d@ == self.cached(from as int).unwrap()[to as int],
            d@.answers(self.edges(), from as int, to as int),
    {
        assert(self.cached(from as int) matches Some(t) && table_answers(self.edges(), from as int, t));
        let table = self.cache[from].as_ref().unwrap();
        assert(table_view(table@)[to as int] == table@[to as int]@);
        &table[to]
    }
}


} // verus!
