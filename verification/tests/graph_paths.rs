use train_navigation::destination::{Destination, UNREACHABLE};
use train_navigation::error::ConfigError;
use train_navigation::graph::{shortest_paths, Graph, MAX_STATIONS};
use train_navigation::route::Route;

/// 0 -4- 1 -1- 2 -7- 3, 0 -9- 2, 1 -10- 3, and station 4 on its own.
fn sample() -> Graph {
    let mut g = Graph::new(5).unwrap();
    g.add_edge(0, 1, 4).unwrap();
    g.add_edge(1, 2, 1).unwrap();
    g.add_edge(2, 3, 7).unwrap();
    g.add_edge(0, 2, 9).unwrap();
    g.add_edge(1, 3, 10).unwrap();
    g
}

fn via(stops: &[(usize, u64)]) -> Vec<Route> {
    stops.iter().map(|&(to, distance)| Route { to, distance }).collect()
}

#[test]
fn new_graph_has_no_edges() {
    let g = Graph::new(3).unwrap();
    assert_eq!(g.adj_list.len(), 3);
    assert_eq!(g.cache.len(), 3);
    assert!(g.adj_list.iter().all(|out| out.is_empty()));
    assert!(g.cache.iter().all(|known| known.is_none()));
}

#[test]
fn too_many_stations_are_refused() {
    if (MAX_STATIONS as u128) < (usize::MAX as u128) {
        assert_eq!(Graph::new(MAX_STATIONS + 1).err(), Some(ConfigError::TooManyStations));
    }
    assert!(Graph::new(0).is_ok());
}

#[test]
fn edge_is_added_in_both_directions() {
    let mut g = Graph::new(3).unwrap();
    assert_eq!(g.add_edge(0, 2, 5), Ok(()));
    assert_eq!(g.adj_list[0], vec![Route { to: 2, distance: 5 }]);
    assert_eq!(g.adj_list[2], vec![Route { to: 0, distance: 5 }]);
    assert!(g.adj_list[1].is_empty());
}

#[test]
fn loop_edge_is_listed_twice() {
    let mut g = Graph::new(1).unwrap();
    g.add_edge(0, 0, 3).unwrap();
    assert_eq!(g.adj_list[0], vec![Route { to: 0, distance: 3 }, Route { to: 0, distance: 3 }]);
}

#[test]
fn edge_to_unknown_station_is_refused_and_changes_nothing() {
    let mut g = sample();
    assert_eq!(g.add_edge(0, 5, 1), Err(ConfigError::UnknownStation));
    assert_eq!(g.add_edge(5, 0, 1), Err(ConfigError::UnknownStation));
    assert_eq!(g.adj_list[0].len(), 2);
}

#[test]
fn distances_from_station_zero() {
    let mut g = sample();
    let table = g.dijkstra(0).unwrap();
    let distances: Vec<u64> = table.iter().map(|d| d.cumulative_distance).collect();
    assert_eq!(distances, vec![0, 4, 5, 12, UNREACHABLE]);
    for (to, d) in table.iter().enumerate() {
        assert_eq!(d.from, 0);
        assert_eq!(d.to, to);
    }
}

#[test]
fn checkpoints_carry_the_length_of_their_own_hop() {
    let mut g = sample();
    let table = g.dijkstra(0).unwrap();
    assert_eq!(table[0].checkpoints, via(&[]));
    assert_eq!(table[0].distance, 0);
    assert_eq!(table[1].checkpoints, via(&[]));
    assert_eq!(table[1].distance, 4);
    assert_eq!(table[2].checkpoints, via(&[(1, 4)]));
    assert_eq!(table[2].distance, 1);
    assert_eq!(table[3].checkpoints, via(&[(1, 4), (2, 1)]));
    assert_eq!(table[3].distance, 7);
    for d in table.iter().take(4) {
        let hops: u64 = d.checkpoints.iter().map(|r| r.distance).sum();
        assert_eq!(hops + d.distance, d.cumulative_distance);
    }
}

#[test]
fn unreachable_station_has_no_path() {
    let mut g = sample();
    let d = g.get_destination(0, 4).unwrap();
    assert_eq!(d.cumulative_distance, UNREACHABLE);
    assert!(d.checkpoints.is_empty());
    assert_eq!(d.distance, 0);
    let alone = g.dijkstra(4).unwrap();
    assert_eq!(alone[4].cumulative_distance, 0);
    assert!(alone.iter().take(4).all(|d| d.cumulative_distance == UNREACHABLE));
}

#[test]
fn distance_is_the_same_in_both_directions() {
    let mut g = sample();
    for a in 0..5 {
        for b in 0..5 {
            let there = g.get_destination(a, b).unwrap();
            let back = g.get_destination(b, a).unwrap();
            assert_eq!(there.cumulative_distance, back.cumulative_distance);
        }
    }
}

#[test]
fn direct_edge_is_taken_where_nothing_is_shorter() {
    let mut g = Graph::new(3).unwrap();
    g.add_edge(0, 2, 0).unwrap();
    g.add_edge(2, 1, 6).unwrap();
    g.add_edge(0, 1, 6).unwrap();
    let d = g.get_destination(0, 1).unwrap();
    assert_eq!(d.cumulative_distance, 6);
    assert!(d.checkpoints.is_empty());
    assert_eq!(d.distance, 6);
    let mut g = sample();
    let d = g.get_destination(1, 3).unwrap();
    assert_eq!(d.cumulative_distance, 8);
    assert_eq!(d.checkpoints, via(&[(2, 1)]));
}

#[test]
fn shorter_of_two_parallel_edges_is_taken() {
    let mut g = Graph::new(2).unwrap();
    g.add_edge(0, 1, 8).unwrap();
    g.add_edge(0, 1, 3).unwrap();
    let d = g.get_destination(0, 1).unwrap();
    assert_eq!(d.cumulative_distance, 3);
    assert_eq!(d.distance, 3);
    assert!(d.checkpoints.is_empty());
}

#[test]
fn second_query_returns_what_the_first_returned() {
    let mut g = sample();
    assert!(g.cache[1].is_none());
    let first = g.dijkstra(1).unwrap();
    let edges_after_first = g.adj_list.clone();
    assert!(g.cache[1].is_some());
    let second = g.dijkstra(1).unwrap();
    assert_eq!(first.len(), second.len());
    for (a, b) in first.iter().zip(second.iter()) {
        assert_eq!(a.from, b.from);
        assert_eq!(a.to, b.to);
        assert_eq!(a.checkpoints, b.checkpoints);
        assert_eq!(a.distance, b.distance);
        assert_eq!(a.cumulative_distance, b.cumulative_distance);
    }
    assert_eq!(g.adj_list, edges_after_first);
    assert_eq!(g.adj_list, sample().adj_list);
    assert!(g.cache[0].is_none());
}

#[test]
fn query_from_unknown_station_is_refused() {
    let mut g = sample();
    assert_eq!(g.dijkstra(5).err(), Some(ConfigError::UnknownStation));
    assert_eq!(g.get_destination(5, 0).err(), Some(ConfigError::UnknownStation));
    assert_eq!(g.get_destination(0, 5).err(), Some(ConfigError::UnknownStation));
    assert!(g.cache.iter().all(|known| known.is_none()));
}

#[test]
fn adding_an_edge_forgets_old_answers() {
    let mut g = sample();
    assert_eq!(g.get_destination(0, 3).unwrap().cumulative_distance, 12);
    g.add_edge(0, 3, 2).unwrap();
    assert!(g.cache.iter().all(|known| known.is_none()));
    let d = g.get_destination(0, 3).unwrap();
    assert_eq!(d.cumulative_distance, 2);
    assert!(d.checkpoints.is_empty());
}

#[test]
fn prepare_answers_every_query() {
    let mut g = sample();
    g.prepare();
    assert!(g.cache.iter().all(|known| known.is_some()));
    assert_eq!(g.route(3, 0).cumulative_distance, 12);
    assert_eq!(g.route(3, 0).checkpoints, via(&[(2, 7), (1, 1)]));
    assert_eq!(g.route(3, 0).distance, 4);
    assert_eq!(g.route(2, 2).cumulative_distance, 0);
}

#[test]
fn shortest_paths_needs_no_graph_value() {
    let adj = vec![
        vec![Route { to: 1, distance: 2 }],
        vec![Route { to: 0, distance: 2 }, Route { to: 2, distance: 2 }],
        vec![Route { to: 1, distance: 2 }],
    ];
    let table = shortest_paths(&adj, 2);
    let distances: Vec<u64> = table.iter().map(|d| d.cumulative_distance).collect();
    assert_eq!(distances, vec![4, 2, 0]);
}

#[test]
fn unreachable_destination_is_what_new_returns() {
    let d = Destination::new(3, 8);
    assert_eq!(d.from, 3);
    assert_eq!(d.to, 8);
    assert_eq!(d.cumulative_distance, UNREACHABLE);
    assert_eq!(d.distance, 0);
    assert!(d.checkpoints.is_empty());
}

#[test]
fn path_without_its_last_hop_is_the_path_to_the_station_before() {
    let mut g = sample();
    g.add_edge(3, 4, 2).unwrap();
    g.add_edge(0, 4, 20).unwrap();
    for src in 0..5 {
        let table = g.dijkstra(src).unwrap();
        for d in table.iter().filter(|d| d.to != src) {
            match d.checkpoints.split_last() {
                None => assert!(g.adj_list[src].contains(&Route { to: d.to, distance: d.distance })),
                Some((last, rest)) => {
                    let before = &table[last.to];
                    assert_eq!(before.checkpoints, rest.to_vec());
                    assert_eq!(before.distance, last.distance);
                    assert_eq!(
                        before.cumulative_distance + d.distance,
                        d.cumulative_distance
                    );
                },
            }
        }
    }
}

#[test]
fn of_equal_paths_the_one_through_the_smaller_station_is_taken() {
    let orders =
        [[(0, 2, 1), (0, 1, 1), (2, 3, 1), (1, 3, 1)], [(1, 3, 1), (2, 3, 1), (0, 1, 1), (0, 2, 1)]];
    for order in orders {
        let mut g = Graph::new(4).unwrap();
        for (a, b, w) in order {
            g.add_edge(a, b, w).unwrap();
        }
        let d = g.get_destination(0, 3).unwrap();
        assert_eq!(d.cumulative_distance, 2);
        assert_eq!(d.checkpoints, via(&[(1, 1)]));
        let back = g.get_destination(3, 0).unwrap();
        assert_eq!(back.checkpoints, via(&[(1, 1)]));
    }
}

#[test]
fn of_equal_paths_the_one_through_the_nearer_station_is_taken() {
    let orders =
        [[(0, 1, 2), (0, 2, 1), (1, 3, 1), (2, 3, 2)], [(2, 3, 2), (1, 3, 1), (0, 2, 1), (0, 1, 2)]];
    for order in orders {
        let mut g = Graph::new(4).unwrap();
        for (a, b, w) in order {
            g.add_edge(a, b, w).unwrap();
        }
        let d = g.get_destination(0, 3).unwrap();
        assert_eq!(d.cumulative_distance, 3);
        assert_eq!(d.checkpoints, via(&[(2, 1)]));
        assert_eq!(d.distance, 2);
        let back = g.get_destination(3, 0).unwrap();
        assert_eq!(back.checkpoints, via(&[(1, 1)]));
        assert_eq!(back.distance, 2);
    }
}

#[test]
fn with_edges_of_length_zero_the_station_settled_first_decides() {
    let orders =
        [[(0, 1, 0), (0, 2, 0), (1, 3, 4), (2, 3, 4)], [(2, 3, 4), (1, 3, 4), (0, 2, 0), (0, 1, 0)]];
    for order in orders {
        let mut g = Graph::new(4).unwrap();
        for (a, b, w) in order {
            g.add_edge(a, b, w).unwrap();
        }
        let d = g.get_destination(0, 3).unwrap();
        assert_eq!(d.cumulative_distance, 4);
        assert_eq!(d.checkpoints, via(&[(1, 0)]));
        let d = g.get_destination(0, 2).unwrap();
        assert_eq!((d.cumulative_distance, d.checkpoints.len()), (0, 0));
    }
    let mut g = Graph::new(3).unwrap();
    g.add_edge(0, 2, 1).unwrap();
    g.add_edge(2, 1, 0).unwrap();
    g.add_edge(0, 1, 1).unwrap();
    let to_one = g.get_destination(0, 1).unwrap();
    assert_eq!(to_one.checkpoints, via(&[]));
    let to_two = g.get_destination(0, 2).unwrap();
    assert_eq!(to_two.checkpoints, via(&[]));
}
