//! What the scheduler is given: the graph, the fleet and the cargo, as
//! plain numbers.
use vstd::prelude::*;
use crate::graph::{MAX_STATIONS, lemma_with_edge, with_edge};
use crate::package::{Custody, Package};
use crate::paths::{Edges, alone, has_edge, lemma_positive_alone, positive};
use crate::route::Route;
use crate::train::TrainView;

verus! {

/// Stations are numbered from 0 to `stations - 1`, trains and packages by
/// their place in their list.
#[derive(Debug)]
pub struct Input {
    /// How many stations there are.
    pub stations: usize,
    /// Each edge as (one end, other end, length).
    pub edges: Vec<(usize, usize, u32)>,
    /// Each train as (capacity, station at which it waits).
    pub trains: Vec<(u64, usize)>,
    /// Each package as (weight, station where it lies, station it is bound for).
    pub packages: Vec<(u64, usize, usize)>,
}

impl Input {
    /// Every station named is a station of the graph, and the graph is not
    /// too large.
    pub open spec fn valid(&self) -> bool {
        &&& self.stations <= MAX_STATIONS
        &&& forall|i: int|
            0 <= i < self.edges@.len() ==> (#[trigger] self.edges@[i]).0 < self.stations
                && self.edges@[i].1 < self.stations
        &&& forall|i: int| 0 <= i < self.trains@.len() ==> (#[trigger] self.trains@[i]).1 < self.stations
        &&& forall|i: int|
            0 <= i < self.packages@.len() ==> (#[trigger] self.packages@[i]).1 < self.stations
                && self.packages@[i].2 < self.stations
    }

    /// From the station where a package lies no other station is at
    /// distance 0, so that a train that is to load the package stands where
    /// it lies.
    pub open spec fn loads_in_place(&self) -> bool {
        forall|p: int|
            0 <= p < self.packages@.len() ==> alone(
                built_edges(self.stations, self.edges@, self.edges@.len() as int),
                (#[trigger] self.packages@[p]).1 as int,
            )
    }

    /// The instance is regular: no package is bound for where it lies, and
    /// from the station that a package is bound for no other station is at
    /// distance 0. Where every edge has a length, the second holds of every
    /// station.
    pub open spec fn regular(&self) -> bool {
        forall|p: int|
            0 <= p < self.packages@.len() ==> (#[trigger] self.packages@[p]).1
                != self.packages@[p].2 && alone(
                built_edges(self.stations, self.edges@, self.edges@.len() as int),
                self.packages@[p].2 as int,
            )
    }
}

/// The adjacency lists after the first `upto` edges have been added to a
/// graph of `stations` stations.
pub open spec fn built_edges(stations: usize, edges: Seq<(usize, usize, u32)>, upto: int) -> Edges
    decreases upto,
{
    if upto <= 0 {
        Seq::new(stations as nat, |a: int| Seq::<Route>::empty())
    } else {
        with_edge(
            built_edges(stations, edges, upto - 1),
            edges[upto - 1].0,
            edges[upto - 1].1,
            edges[upto - 1].2 as u64,
        )
    }
}

/// The fleet as it waits before the first move.
pub open spec fn fleet_of(trains: Seq<(u64, usize)>) -> Seq<TrainView> {
    trains.map_values(|t: (u64, usize)| TrainView::idle(t.0, t.1))
}

/// The cargo before anybody has committed to any of it.
pub open spec fn cargo_of(packages: Seq<(u64, usize, usize)>) -> Seq<Package> {
    packages.map_values(
        |p: (u64, usize, usize)|
            Package { weight: p.0, from: p.1, to: p.2, status: Custody::Unassigned },
    )
}

/// A graph built from edges that all have a length has no edge of length 0.
pub proof fn lemma_built_positive(stations: usize, edges: Seq<(usize, usize, u32)>, upto: int)
    requires
        0 <= upto <= edges.len(),
        forall|i: int|
            0 <= i < edges.len() ==> (#[trigger] edges[i]).0 < stations && edges[i].1 < stations
                && edges[i].2 > 0,
    ensures
        built_edges(stations, edges, upto).len() == stations,
        positive(built_edges(stations, edges, upto)),
    decreases upto,
{
    let built = built_edges(stations, edges, upto);
    if upto == 0 {
        assert forall|a: int, b: int, w: int| #[trigger] has_edge(built, a, b, w) implies w > 0 by {
            assert(built[a].len() == 0);
        }
    } else {
        lemma_built_positive(stations, edges, upto - 1);
        let before = built_edges(stations, edges, upto - 1);
        let e = edges[upto - 1];
        lemma_with_edge(before, e.0, e.1, e.2 as u64);
        assert forall|a: int, b: int, w: int| #[trigger] has_edge(built, a, b, w) implies w > 0 by {
            if has_edge(before, a, b, w) {
            }
        }
    }
}

/// An instance whose edges all have a length and whose packages all have
/// to move is regular, and its trains load in place.
pub proof fn lemma_regular(input: Input)
    requires
        input.valid(),
        forall|i: int| 0 <= i < input.edges@.len() ==> (#[trigger] input.edges@[i]).2 > 0,
        forall|p: int|
            0 <= p < input.packages@.len() ==> (#[trigger] input.packages@[p]).1
                != input.packages@[p].2,
    ensures
        input.regular(),
        input.loads_in_place(),
{
    let edges = built_edges(input.stations, input.edges@, input.edges@.len() as int);
    lemma_built_positive(input.stations, input.edges@, input.edges@.len() as int);
    assert forall|p: int| 0 <= p < input.packages@.len() implies alone(
        edges,
        (#[trigger] input.packages@[p]).1 as int,
    ) by {
        lemma_positive_alone(edges, input.packages@[p].1 as int);
    }
    assert forall|p: int| 0 <= p < input.packages@.len() implies (#[trigger] input.packages@[p]).1
        != input.packages@[p].2 && alone(edges, input.packages@[p].2 as int) by {
        lemma_positive_alone(edges, input.packages@[p].2 as int);
    }
}

} // verus!
