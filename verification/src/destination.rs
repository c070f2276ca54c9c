//! The answer to one shortest-path query.
use vstd::prelude::*;
use crate::paths::{
    Edges, connects, has_edge, is_walk, lemma_reversed_walk, lower_bound, reachable,
    reversed, symmetric,
};
use crate::route::{Route, MAX_EDGE, hops_end, hops_len};

verus! {

/// The distance recorded for a station that cannot be reached.
pub const UNREACHABLE: u64 = 0xFFFF_FFFF_FFFF_FFFF;

/// How to get from `from` to `to`.
///
/// `checkpoints` lists the stations passed on the way, without the two ends,
/// each with the length of the hop that reaches it. `distance` is the length
/// of the last hop, the one that reaches `to`, and `cumulative_distance` the
/// length of the whole path, or `UNREACHABLE`.
#[derive(Debug)]
pub struct Destination {
    pub from: usize,
    pub to: usize,
    pub checkpoints: Vec<Route>,
    pub distance: u64,
    pub cumulative_distance: u64,
}

/// The view of a `Destination`: its lists as sequences.
pub ghost struct DestinationView {
    pub from: usize,
    pub to: usize,
    pub checkpoints: Seq<Route>,
    pub distance: u64,
    pub cumulative_distance: u64,
}

impl View for Destination {
    type V = DestinationView;

    open spec fn view(&self) -> DestinationView {
        DestinationView {
            from: self.from,
            to: self.to,
            checkpoints: self.checkpoints@,
            distance: self.distance,
            cumulative_distance: self.cumulative_distance,
        }
    }
}

impl DestinationView {
    /// Whether the query found a path.
    pub open spec fn found(self) -> bool {
        self.cumulative_distance != UNREACHABLE
    }

    /// Whether following the path takes a train anywhere: it has a length
    /// and does not end where it begins.
    pub open spec fn moves(self) -> bool {
        self.cumulative_distance != 0 && self.to != self.from
    }

    /// All hops of the path in order, the last one included. The path from a
    /// station to itself has none.
    pub open spec fn hops(self) -> Seq<Route> {
        if self.to == self.from {
            Seq::empty()
        } else {
            self.checkpoints.push(Route { to: self.to, distance: self.distance })
        }
    }

    /// This is a correct answer to the query "from `src` to `to`" on `edges`:
    /// either no walk exists and none is claimed, or the hops are a walk from
    /// `src` to `to` whose length is the recorded one and no walk is shorter.
    /// Where the shortest distance is that of a direct edge, the direct edge
    /// is the path. The path has no more hops than the graph has stations.
    pub open spec fn answers(self, edges: Edges, src: int, to: int) -> bool {
        &&& self.from == src
        &&& self.to == to
        &&& if self.found() {
            &&& connects(edges, src, to, self.hops())
            &&& hops_len(self.hops()) == self.cumulative_distance
            &&& lower_bound(edges, src, to, self.cumulative_distance as nat)
            &&& to == src ==> self.checkpoints.len() == 0 && self.distance == 0
            &&& to != src && has_edge(edges, src, to, self.cumulative_distance as int)
                ==> self.checkpoints.len() == 0
            &&& self.hops().len() <= edges.len()
            &&& self.cumulative_distance <= self.hops().len() * MAX_EDGE
        } else {
            &&& !reachable(edges, src, to)
            &&& self.checkpoints.len() == 0
            &&& self.distance == 0
        }
    }
}

/// The views of a table of answers, one per station.
pub open spec fn table_view(table: Seq<Destination>) -> Seq<DestinationView> {
    table.map_values(|d: Destination| d@)
}

/// The station before `v` on the path that the table gives to `v`.
pub open spec fn prior(src: int, table: Seq<DestinationView>, v: int) -> int {
    hops_end(src, table[v].hops().drop_last())
}

/// The path to `v`, without its last hop, is the path that the table gives
/// to the station before `v`.
pub open spec fn follows_prior(src: int, table: Seq<DestinationView>, v: int) -> bool {
    v != src && table[v].found() ==> {
        &&& 0 <= prior(src, table, v) < table.len()
        &&& table[prior(src, table, v)].found()
        &&& table[prior(src, table, v)].hops() == table[v].hops().drop_last()
    }
}

/// The paths of the table form a tree: the path to a station, without its
/// last hop, is the path that the table gives to the station before it.
pub open spec fn table_is_tree(src: int, table: Seq<DestinationView>) -> bool {
    forall|v: int| 0 <= v < table.len() ==> #[trigger] follows_prior(src, table, v)
}

/// The pair of a distance and a station comes before another such pair, or
/// is the same: by distance first, by station second.
pub open spec fn comes_first(d1: int, s1: int, d2: int, s2: int) -> bool {
    d1 < d2 || (d1 == d2 && s1 <= s2)
}

/// Station `x` is not among the first `i` stations of `order`.
pub open spec fn absent(order: Seq<int>, i: int, x: int) -> bool {
    forall|l: int| 0 <= l < i ==> #[trigger] order[l] != x
}

/// The station settled as number `i` comes first among all that edge `k` of
/// an earlier settled station, number `j`, could bring next: unless the
/// station that the edge leads to was settled before, the distance of
/// station `i` and its number come before the length of the path over that
/// edge and the number of the station it leads to.
pub open spec fn greedy_at(
    edges: Edges,
    table: Seq<DestinationView>,
    order: Seq<int>,
    j: int,
    i: int,
    k: int,
) -> bool {
    let x = edges[order[j]][k].to as int;
    absent(order, i, x) ==> comes_first(
        table[order[i]].cumulative_distance as int,
        order[i],
        table[order[j]].cumulative_distance + edges[order[j]][k].distance,
        x,
    )
}

/// Where edge `k` of the station settled as number `b` completes a shortest
/// path to a station, the path that the table holds for that station comes
/// through a station settled no later.
pub open spec fn pred_first_at(
    edges: Edges,
    src: int,
    table: Seq<DestinationView>,
    order: Seq<int>,
    a: int,
    b: int,
    k: int,
) -> bool {
    let v = edges[order[b]][k].to as int;
    v != src && 0 <= v < table.len() && table[v].found() && table[order[b]].cumulative_distance
        + edges[order[b]][k].distance == table[v].cumulative_distance && order[a] == prior(
        src,
        table,
        v,
    ) ==> a <= b
}

/// The station before a station on its path is settled before it.
pub open spec fn prior_before_at(
    src: int,
    table: Seq<DestinationView>,
    order: Seq<int>,
    a: int,
    m: int,
) -> bool {
    order[m] != src && order[a] == prior(src, table, order[m]) ==> a < m
}

/// `order` is the order in which the search settles the stations it
/// reaches: the source first, then always the station that comes first, by
/// the length of the path to it over an edge of a settled station and by
/// its number. The path that the table holds for a station comes through
/// the first settled station whose edge completes a shortest path.
pub open spec fn settles(edges: Edges, src: int, table: Seq<DestinationView>, order: Seq<int>) -> bool {
    &&& order.no_duplicates()
    &&& forall|i: int|
        0 <= i < order.len() ==> 0 <= #[trigger] order[i] < table.len() && table[order[i]].found()
    &&& forall|v: int| 0 <= v < table.len() && (#[trigger] table[v]).found() ==> order.contains(v)
    &&& order.len() > 0 ==> order[0] == src
    &&& forall|j: int, i: int, k: int|
        0 <= j < i < order.len() && 0 <= k < edges[order[j]].len() ==> #[trigger] greedy_at(
            edges,
            table,
            order,
            j,
            i,
            k,
        )
    &&& forall|a: int, b: int, k: int|
        0 <= a < order.len() && 0 <= b < order.len() && 0 <= k < edges[order[b]].len()
            ==> #[trigger] pred_first_at(edges, src, table, order, a, b, k)
    &&& forall|a: int, m: int|
        0 <= a < order.len() && 0 <= m < order.len() ==> #[trigger] prior_before_at(
            src,
            table,
            order,
            a,
            m,
        )
}

/// The table is what a search that settles the stations in some order leaves.
pub open spec fn settled_in_order(edges: Edges, src: int, table: Seq<DestinationView>) -> bool {
    exists|order: Seq<int>| settles(edges, src, table, order)
}

/// `table` answers every query from `src` on `edges`, its paths form a
/// tree, and of several shortest paths it holds the one that the order of
/// settling decides.
pub open spec fn table_answers(edges: Edges, src: int, table: Seq<DestinationView>) -> bool {
    &&& table.len() == edges.len()
    &&& forall|v: int| 0 <= v < table.len() ==> (#[trigger] table[v]).answers(edges, src, v)
    &&& table_is_tree(src, table)
    &&& settled_in_order(edges, src, table)
}

impl Clone for Destination {
    fn clone(&self) -> (copy: Self)
        ensures
            copy@ == self@,
    {
        Destination {
            from: self.from,
            to: self.to,
            checkpoints: self.checkpoints.clone(),
            distance: self.distance,
            cumulative_distance: self.cumulative_distance,
        }
    }
}

impl Destination {
    /// The answer for a station that cannot be reached.
    pub fn new(from: usize, to: usize) -> (d: Destination)
        ensures
            d@ == (DestinationView {
                from,
                to,
                checkpoints: Seq::empty(),
                distance: 0,
                cumulative_distance: UNREACHABLE,
            }),
    {
        Destination {
            from,
            to,
            checkpoints: Vec::new(),
            distance: 0,
            cumulative_distance: UNREACHABLE,
        }
    }
}

/// A copy of a table of answers.
pub fn clone_table(table: &Vec<Destination>) -> (copy: Vec<Destination>)
    ensures
        table_view(copy@) == table_view(table@),
{
    let mut copy: Vec<Destination> = Vec::new();
    let mut i: usize = 0;
    while i < table.len()
        invariant
            i <= table.len(),
            copy.len() == i,
            forall|k: int| 0 <= k < i ==> copy[k]@ == table[k]@,
        decreases table.len() - i,
    {
        copy.push(table[i].clone());
        i += 1;
    }
    assert(table_view(copy@) =~= table_view(table@));
    copy
}

/// In an undirected graph the way there is as long as the way back: the
/// answers to the queries from `a` to `b` and from `b` to `a` give the same
/// distance, and where the one finds no path the other finds none.
pub proof fn lemma_answers_symmetric(
    edges: Edges,
    a: int,
    b: int,
    there: DestinationView,
    back: DestinationView,
)
    requires
        symmetric(edges),
        there.answers(edges, a, b),
        back.answers(edges, b, a),
    ensures
        there.cumulative_distance == back.cumulative_distance,
{
    if there.found() {
        lemma_reversed_walk(edges, a, there.hops());
        let way_back = reversed(a, there.hops());
        assert(connects(edges, b, a, way_back));
        assert(reachable(edges, b, a));
    }
    if back.found() {
        lemma_reversed_walk(edges, b, back.hops());
        let way_there = reversed(b, back.hops());
        assert(connects(edges, a, b, way_there));
        assert(reachable(edges, a, b));
    }
}

/// Where `a` and `b` are joined by an edge of length `d` and no walk from
/// `a` to `b` is shorter than `d`, the answer is that edge: its distance is
/// `d` and it passes no other station.
pub proof fn lemma_direct_edge(edges: Edges, a: int, b: int, d: nat, found: DestinationView)
    requires
        a != b,
        has_edge(edges, a, b, d as int),
        lower_bound(edges, a, b, d),
        found.answers(edges, a, b),
    ensures
        found.cumulative_distance == d,
        found.checkpoints.len() == 0,
{
    let j = choose|j: int|
        0 <= j < edges[a].len() && (#[trigger] edges[a][j]).to == b && edges[a][j].distance == d;
    let hop = edges[a][j];
    let direct = seq![hop];
    assert(direct.drop_last() =~= Seq::<Route>::empty());
    assert(is_walk(edges, a, direct.drop_last()));
    assert(hops_len(direct.drop_last()) == 0);
    assert(connects(edges, a, b, direct));
    assert(hops_len(direct) == d);
    assert(reachable(edges, a, b));
    assert(connects(edges, a, b, found.hops()));
}

/// Two answers to the same query agree on whether there is a path and on
/// how long it is.
pub proof fn lemma_distance_unique(
    edges: Edges,
    src: int,
    to: int,
    one: DestinationView,
    other: DestinationView,
)
    requires
        one.answers(edges, src, to),
        other.answers(edges, src, to),
    ensures
        one.cumulative_distance == other.cumulative_distance,
{
    if one.found() {
        assert(connects(edges, src, to, one.hops()));
        assert(reachable(edges, src, to));
    }
    if other.found() {
        assert(connects(edges, src, to, other.hops()));
        assert(reachable(edges, src, to));
    }
}

/// What a station's entry says of the last hop of its path: the hop is an
/// edge out of the station before, and the path to the station before is
/// shorter by the length of the hop.
pub proof fn lemma_last_hop(edges: Edges, src: int, table: Seq<DestinationView>, v: int)
    requires
        table.len() == edges.len(),
        forall|x: int| 0 <= x < table.len() ==> (#[trigger] table[x]).answers(edges, src, x),
        table_is_tree(src, table),
        0 <= v < table.len(),
        v != src,
        table[v].found(),
    ensures
        0 <= prior(src, table, v) < table.len(),
        table[prior(src, table, v)].found(),
        table[prior(src, table, v)].hops() == table[v].hops().drop_last(),
        table[v].hops().drop_last() == table[v].checkpoints,
        has_edge(edges, prior(src, table, v), v, table[v].distance as int),
        table[prior(src, table, v)].cumulative_distance + table[v].distance
            == table[v].cumulative_distance,
{
    let p = prior(src, table, v);
    assert(table[v].answers(edges, src, v));
    assert(follows_prior(src, table, v));
    assert(table[p].answers(edges, src, p));
    assert(table[v].hops().drop_last() =~= table[v].checkpoints);
    assert(table[v].hops().last() == (Route { to: v as usize, distance: table[v].distance }));
}

/// Of two searches that have settled the same stations so far, the station
/// that the one settles next comes first before the station that the other does.
proof fn lemma_next_settled(
    edges: Edges,
    src: int,
    one: Seq<DestinationView>,
    other: Seq<DestinationView>,
    o1: Seq<int>,
    o2: Seq<int>,
    i: int,
)
    requires
        table_answers(edges, src, one),
        table_answers(edges, src, other),
        settles(edges, src, one, o1),
        settles(edges, src, other, o2),
        0 < i < o1.len(),
        i < o2.len(),
        forall|l: int| 0 <= l < i ==> o1[l] == o2[l],
    ensures
        comes_first(
            one[o2[i]].cumulative_distance as int,
            o2[i],
            one[o1[i]].cumulative_distance as int,
            o1[i],
        ),
{
    let u1 = o1[i];
    let u2 = o2[i];
    assert(o1[0] == src);
    assert(u1 != src);
    lemma_last_hop(edges, src, one, u1);
    let p1 = prior(src, one, u1);
    assert(o1.contains(p1));
    let a = choose|a: int| 0 <= a < o1.len() && o1[a] == p1;
    assert(prior_before_at(src, one, o1, a, i));
    assert(o2[a] == p1);
    let w1 = one[u1].distance;
    let k = choose|k: int|
        0 <= k < edges[p1].len() && (#[trigger] edges[p1][k]).to == u1 && edges[p1][k].distance
            == w1;
    assert(greedy_at(edges, other, o2, a, i, k));
    assert(absent(o2, i, u1)) by {
        assert forall|l: int| 0 <= l < i implies #[trigger] o2[l] != u1 by {
            assert(o1[l] == o2[l]);
        }
    }
    lemma_distance_unique(edges, src, p1, one[p1], other[p1]);
    lemma_distance_unique(edges, src, u1, one[u1], other[u1]);
    lemma_distance_unique(edges, src, u2, one[u2], other[u2]);
}

/// Two searches over the same edges from the same source settle the same
/// stations in the same order.
proof fn lemma_order_prefix(
    edges: Edges,
    src: int,
    one: Seq<DestinationView>,
    other: Seq<DestinationView>,
    o1: Seq<int>,
    o2: Seq<int>,
    i: int,
)
    requires
        table_answers(edges, src, one),
        table_answers(edges, src, other),
        settles(edges, src, one, o1),
        settles(edges, src, other, o2),
        0 <= i < o1.len(),
    ensures
        i < o2.len(),
        forall|l: int| 0 <= l <= i ==> l < o2.len() && #[trigger] o1[l] == o2[l],
    decreases i,
{
    let u1 = o1[i];
    lemma_distance_unique(edges, src, u1, one[u1], other[u1]);
    assert(other[u1].found());
    assert(o2.contains(u1));
    let m = choose|m: int| 0 <= m < o2.len() && o2[m] == u1;
    if i > 0 {
        lemma_order_prefix(edges, src, one, other, o1, o2, i - 1);
        if m < i {
            assert(o1[m] == o2[m]);
        }
        lemma_next_settled(edges, src, one, other, o1, o2, i);
        lemma_next_settled(edges, src, other, one, o2, o1, i);
        lemma_distance_unique(edges, src, o1[i], one[o1[i]], other[o1[i]]);
        lemma_distance_unique(edges, src, o2[i], one[o2[i]], other[o2[i]]);
    }
}

/// Two searches over the same edges from the same source settle the
/// stations in the same order.
proof fn lemma_order_unique(
    edges: Edges,
    src: int,
    one: Seq<DestinationView>,
    other: Seq<DestinationView>,
    o1: Seq<int>,
    o2: Seq<int>,
)
    requires
        table_answers(edges, src, one),
        table_answers(edges, src, other),
        settles(edges, src, one, o1),
        settles(edges, src, other, o2),
    ensures
        o1 == o2,
{
    if o1.len() > 0 {
        lemma_order_prefix(edges, src, one, other, o1, o2, o1.len() - 1);
        assert(o1.len() - 1 < o2.len());
    }
    if o2.len() > 0 {
        lemma_order_prefix(edges, src, other, one, o2, o1, o2.len() - 1);
        assert(o2.len() - 1 < o1.len());
    }
    assert(o1.len() == o2.len());
    assert forall|l: int| 0 <= l < o1.len() implies #[trigger] o1[l] == o2[l] by {
        assert(l <= o1.len() - 1);
    }
    assert(o1 =~= o2);
}

/// Two tables that answer the queries from `src` and were settled in the
/// same order hold the same answer for the station settled as number `m`.
proof fn lemma_entry_unique(
    edges: Edges,
    src: int,
    one: Seq<DestinationView>,
    other: Seq<DestinationView>,
    order: Seq<int>,
    m: int,
)
    requires
        table_answers(edges, src, one),
        table_answers(edges, src, other),
        settles(edges, src, one, order),
        settles(edges, src, other, order),
        0 <= m < order.len(),
    ensures
        one[order[m]] == other[order[m]],
    decreases m,
{
    let v = order[m];
    let a = one[v];
    let b = other[v];
    assert(a.answers(edges, src, v));
    assert(b.answers(edges, src, v));
    lemma_distance_unique(edges, src, v, a, b);
    if v != src {
        lemma_last_hop(edges, src, one, v);
        lemma_last_hop(edges, src, other, v);
        let pa = prior(src, one, v);
        let pb = prior(src, other, v);
        lemma_distance_unique(edges, src, pa, one[pa], other[pa]);
        lemma_distance_unique(edges, src, pb, one[pb], other[pb]);
        assert(order.contains(pa));
        assert(order.contains(pb));
        let ia = choose|i: int| 0 <= i < order.len() && order[i] == pa;
        let ib = choose|i: int| 0 <= i < order.len() && order[i] == pb;
        let ka = choose|k: int|
            0 <= k < edges[pa].len() && (#[trigger] edges[pa][k]).to == v && edges[pa][k].distance
                == a.distance;
        let kb = choose|k: int|
            0 <= k < edges[pb].len() && (#[trigger] edges[pb][k]).to == v && edges[pb][k].distance
                == b.distance;
        assert(pred_first_at(edges, src, other, order, ib, ia, ka));
        assert(pred_first_at(edges, src, one, order, ia, ib, kb));
        assert(ia == ib);
        assert(prior_before_at(src, one, order, ia, m));
        lemma_entry_unique(edges, src, one, other, order, ia);
        assert(a.checkpoints =~= b.checkpoints);
    } else {
        assert(a.checkpoints =~= b.checkpoints);
    }
}

/// Only one table answers the queries from `src`: the edges decide every
/// distance and every path.
pub proof fn lemma_table_unique(
    edges: Edges,
    src: int,
    one: Seq<DestinationView>,
    other: Seq<DestinationView>,
)
    requires
        table_answers(edges, src, one),
        table_answers(edges, src, other),
    ensures
        one == other,
{
    let o1 = choose|order: Seq<int>| settles(edges, src, one, order);
    let o2 = choose|order: Seq<int>| settles(edges, src, other, order);
    lemma_order_unique(edges, src, one, other, o1, o2);
    assert forall|v: int| 0 <= v < one.len() implies one[v] == other[v] by {
        assert(one[v].answers(edges, src, v));
        assert(other[v].answers(edges, src, v));
        lemma_distance_unique(edges, src, v, one[v], other[v]);
        if one[v].found() {
            assert(o1.contains(v));
            let m = choose|m: int| 0 <= m < o1.len() && o1[m] == v;
            lemma_entry_unique(edges, src, one, other, o1, m);
        } else {
            assert(one[v].checkpoints =~= other[v].checkpoints);
        }
    }
    assert(one =~= other);
}

/// The table that answers the queries from `src`.
pub open spec fn paths_from(edges: Edges, src: int) -> Seq<DestinationView> {
    choose|table: Seq<DestinationView>| table_answers(edges, src, table)
}

/// The tables that answer the queries from every station.
pub open spec fn all_paths(edges: Edges) -> Seq<Seq<DestinationView>> {
    Seq::new(edges.len(), |src: int| paths_from(edges, src))
}

/// A table that answers the queries from `src` is the table that does.
pub proof fn lemma_is_paths_from(edges: Edges, src: int, table: Seq<DestinationView>)
    requires
        table_answers(edges, src, table),
    ensures
        table == paths_from(edges, src),
{
    lemma_table_unique(edges, src, table, paths_from(edges, src));
}

} // verus!
