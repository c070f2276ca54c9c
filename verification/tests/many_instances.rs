use train_navigation::destination::UNREACHABLE;
use train_navigation::error::ConfigError;
use train_navigation::graph::Graph;
use train_navigation::input::Input;
use train_navigation::movement::Movement;
use train_navigation::navigation::compute_schedule;

/// A small generator of numbers that gives the same sequence every time.
struct Numbers(u64);

impl Numbers {
    fn next(&mut self, below: u64) -> u64 {
        self.0 = self.0.wrapping_mul(6364136223846793005).wrapping_add(1442695040888963407);
        (self.0 >> 33) % below
    }
}

fn some_edges(numbers: &mut Numbers, stations: usize, count: usize, least: u64) -> Vec<(usize, usize, u32)> {
    (0..count)
        .map(|_| {
            let a = numbers.next(stations as u64) as usize;
            let b = numbers.next(stations as u64) as usize;
            (a, b, (least + numbers.next(9)) as u32)
        })
        .collect()
}

/// All shortest distances, by trying every station as a stop in between.
fn distances(stations: usize, edges: &[(usize, usize, u32)]) -> Vec<Vec<u64>> {
    let mut d = vec![vec![UNREACHABLE; stations]; stations];
    for a in 0..stations {
        d[a][a] = 0;
    }
    for &(a, b, w) in edges {
        d[a][b] = d[a][b].min(w as u64);
        d[b][a] = d[b][a].min(w as u64);
    }
    for k in 0..stations {
        for a in 0..stations {
            for b in 0..stations {
                if d[a][k] != UNREACHABLE && d[k][b] != UNREACHABLE {
                    d[a][b] = d[a][b].min(d[a][k] + d[k][b]);
                }
            }
        }
    }
    d
}

#[test]
fn dijkstra_agrees_with_trying_every_stop() {
    let mut numbers = Numbers(7);
    for round in 0..200 {
        let stations = 1 + numbers.next(7) as usize;
        let count = numbers.next(12) as usize;
        let edges = some_edges(&mut numbers, stations, count, round % 2);
        let mut g = Graph::new(stations).unwrap();
        for &(a, b, w) in &edges {
            g.add_edge(a, b, w).unwrap();
        }
        let expected = distances(stations, &edges);
        for src in 0..stations {
            let table = g.dijkstra(src).unwrap();
            for (to, d) in table.iter().enumerate() {
                assert_eq!(d.cumulative_distance, expected[src][to]);
                if d.cumulative_distance == UNREACHABLE {
                    continue;
                }
                let mut at = src;
                let mut walked = 0;
                let mut hops = d.checkpoints.clone();
                if to != src {
                    hops.push(train_navigation::route::Route { to, distance: d.distance });
                }
                for hop in hops {
                    assert!(g.adj_list[at].contains(&hop));
                    walked += hop.distance;
                    at = hop.to;
                }
                assert_eq!(at, to);
                assert_eq!(walked, d.cumulative_distance);
            }
        }
    }
}

fn of_train(movements: &[Movement], train: usize) -> Vec<&Movement> {
    movements.iter().filter(|m| m.train == train).collect()
}

fn check_plan(input: &Input, movements: &[Movement], undelivered: &[usize]) {
    let mut at: Vec<usize> = input.trains.iter().map(|t| t.1).collect();
    let mut load = vec![0u64; input.trains.len()];
    let mut picked = vec![false; input.packages.len()];
    let mut delivered = vec![false; input.packages.len()];
    for m in movements {
        assert_eq!(m.from, at[m.train]);
        at[m.train] = m.to;
        assert!(input.edges.iter().any(|&(a, b, d)| {
            ((a, b) == (m.from, m.to) || (b, a) == (m.from, m.to))
                && d as u64 == m.end_time - m.start_time
        }));
        for &p in &m.packages_picked_up {
            assert!(!picked[p]);
            assert_eq!(m.from, input.packages[p].1);
            picked[p] = true;
            load[m.train] += input.packages[p].0;
        }
        assert!(load[m.train] <= input.trains[m.train].0);
        for &p in &m.packages_delivered {
            assert!(picked[p] && !delivered[p]);
            assert_eq!(m.to, input.packages[p].2);
            delivered[p] = true;
            load[m.train] -= input.packages[p].0;
        }
    }
    for train in 0..input.trains.len() {
        let own = of_train(movements, train);
        assert!(own.first().map_or(true, |m| m.start_time == 0));
        assert!(own.windows(2).all(|pair| pair[0].end_time == pair[1].start_time));
    }
    let left: Vec<usize> = (0..input.packages.len()).filter(|&p| !delivered[p]).collect();
    assert_eq!(left, undelivered);
}

#[test]
fn plans_of_many_small_instances_hold_together() {
    let mut numbers = Numbers(11);
    let mut served = 0;
    for _ in 0..120 {
        let stations = 2 + numbers.next(4) as usize;
        let mut edges: Vec<(usize, usize, u32)> =
            (1..stations).map(|b| (numbers.next(b as u64) as usize, b, 1 + numbers.next(9) as u32)).collect();
        let extra = numbers.next(3) as usize;
        edges.extend(some_edges(&mut numbers, stations, extra, 1));
        let trains: Vec<(u64, usize)> = (0..1 + numbers.next(2))
            .map(|_| (2 + numbers.next(6), numbers.next(stations as u64) as usize))
            .collect();
        let packages: Vec<(u64, usize, usize)> = (0..numbers.next(4))
            .map(|_| {
                (
                    1 + numbers.next(8),
                    numbers.next(stations as u64) as usize,
                    numbers.next(stations as u64) as usize,
                )
            })
            .collect();
        let input = Input { stations, edges, trains, packages };
        let again = Input {
            stations,
            edges: input.edges.clone(),
            trains: input.trains.clone(),
            packages: input.packages.clone(),
        };
        let plan = compute_schedule(again).unwrap();
        check_plan(&input, &plan.movements, &plan.undelivered);
        if input.packages.iter().all(|p| p.1 != p.2) {
            let too_heavy: Vec<usize> = (0..input.packages.len())
                .filter(|&p| input.trains.iter().all(|t| t.0 < input.packages[p].0))
                .collect();
            assert_eq!(plan.undelivered, too_heavy);
            served += 1;
        }
    }
    assert!(served > 20);
}

#[test]
fn instance_with_an_island_fails_only_where_a_package_needs_it() {
    let input = Input {
        stations: 3,
        edges: vec![(0, 1, 2)],
        trains: vec![(5, 0)],
        packages: vec![(1, 0, 1)],
    };
    let plan = compute_schedule(input).unwrap();
    assert_eq!(plan.undelivered, Vec::<usize>::new());
    let input = Input {
        stations: 3,
        edges: vec![(0, 1, 2)],
        trains: vec![(5, 0)],
        packages: vec![(1, 0, 2)],
    };
    assert_eq!(compute_schedule(input).err(), Some(ConfigError::Unreachable));
}

#[test]
fn package_that_cannot_move_may_keep_a_train_from_others() {
    let input = Input {
        stations: 4,
        edges: vec![(0, 1, 6), (1, 2, 8), (2, 3, 4)],
        trains: vec![(7, 2)],
        packages: vec![(7, 2, 0), (6, 0, 0), (3, 3, 1)],
    };
    let plan = compute_schedule(input).unwrap();
    assert_eq!(plan.undelivered, vec![1, 2]);
    assert_eq!(plan.movements.len(), 2);
    assert_eq!(plan.movements[1].end_time, 14);
    assert_eq!(plan.movements[1].packages_delivered, vec![0]);
}
