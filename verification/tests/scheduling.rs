use train_navigation::error::ConfigError;
use train_navigation::input::Input;
use train_navigation::movement::Movement;
use train_navigation::navigation::{compute_schedule, Navigation};
use train_navigation::package::{Custody, Package};
use train_navigation::train::Train;
use train_navigation::world::Action;

const X: usize = 0;
const A: usize = 1;
const B: usize = 2;
const C: usize = 3;
const D: usize = 4;
const E: usize = 5;
const F: usize = 6;

fn star() -> Input {
    Input {
        stations: 7,
        edges: vec![(A, X, 10), (B, X, 10), (C, X, 10), (D, X, 10), (E, X, 10), (F, X, 10)],
        trains: vec![(15, A), (15, B), (15, C)],
        packages: vec![(5, X, D), (5, X, E), (5, X, F)],
    }
}

fn copy(input: &Input) -> Input {
    Input {
        stations: input.stations,
        edges: input.edges.clone(),
        trains: input.trains.clone(),
        packages: input.packages.clone(),
    }
}

fn of_train(movements: &Vec<Movement>, train: usize) -> Vec<&Movement> {
    movements.iter().filter(|m| m.train == train).collect()
}

fn shown(m: &Movement) -> (usize, usize, usize, u64, u64, Vec<usize>, Vec<usize>) {
    (
        m.train,
        m.from,
        m.to,
        m.start_time,
        m.end_time,
        m.packages_picked_up.clone(),
        m.packages_delivered.clone(),
    )
}

fn has_no_gaps(movements: &Vec<Movement>, trains: usize) -> bool {
    (0..trains).all(|train| {
        let own = of_train(movements, train);
        own.first().map_or(true, |m| m.start_time == 0)
            && own.windows(2).all(|pair| pair[0].end_time == pair[1].start_time)
            && own.windows(2).all(|pair| pair[0].to == pair[1].from)
    })
}

/// Whether every movement leaves from where its train stands and crosses an
/// edge of the graph in the time that the edge is long.
fn follows_edges(movements: &Vec<Movement>, input: &Input) -> bool {
    let mut at: Vec<usize> = input.trains.iter().map(|t| t.1).collect();
    movements.iter().all(|m| {
        let here = at[m.train];
        at[m.train] = m.to;
        m.from == here
            && m.start_time <= m.end_time
            && input.edges.iter().any(|&(a, b, d)| {
                ((a, b) == (m.from, m.to) || (b, a) == (m.from, m.to))
                    && d as u64 == m.end_time - m.start_time
            })
    })
}

/// The weight on each train after each movement, from what the movements
/// say was loaded and handed over.
fn never_overloaded(movements: &Vec<Movement>, input: &Input) -> bool {
    let mut load = vec![0u64; input.trains.len()];
    for m in movements {
        for &p in &m.packages_picked_up {
            load[m.train] += input.packages[p].0;
        }
        if load[m.train] > input.trains[m.train].0 {
            return false;
        }
        for &p in &m.packages_delivered {
            load[m.train] -= input.packages[p].0;
        }
    }
    true
}

#[test]
fn star_is_served_by_three_trains_in_twenty() {
    let mut nav = Navigation::new(star()).unwrap();
    let trains = nav.trains.clone();
    let packages = nav.packages.clone();
    let movements = nav.calculate(trains, packages, vec![]).unwrap();
    assert_eq!(Navigation::get_longest_distance_in_movements(&movements), 20);
    assert_eq!(Navigation::get_number_of_trains(&movements), 3);
    assert_eq!(movements.len(), 6);
    let mut delivered: Vec<usize> = vec![];
    for train in 0..3 {
        let own = of_train(&movements, train);
        assert_eq!(own.len(), 2);
        assert_eq!(own[0].from, train + 1);
        assert_eq!(own[0].to, X);
        assert_eq!(own[0].start_time, 0);
        assert_eq!(own[0].end_time, 10);
        assert_eq!(own[0].packages_picked_up, Vec::<usize>::new());
        assert_eq!(own[0].packages_delivered, Vec::<usize>::new());
        assert_eq!(own[1].from, X);
        assert_eq!(own[1].start_time, 10);
        assert_eq!(own[1].end_time, 20);
        assert_eq!(own[1].packages_picked_up.len(), 1);
        assert_eq!(own[1].packages_picked_up, own[1].packages_delivered);
        let package = own[1].packages_delivered[0];
        assert_eq!(own[1].to, D + package);
        delivered.push(package);
    }
    delivered.sort();
    assert_eq!(delivered, vec![0, 1, 2]);
}

#[test]
fn star_plan_leaves_nothing_undelivered() {
    let plan = compute_schedule(star()).unwrap();
    assert_eq!(plan.undelivered, Vec::<usize>::new());
    assert_eq!(plan.movements.len(), 6);
    assert!(has_no_gaps(&plan.movements, 3));
    assert!(never_overloaded(&plan.movements, &star()));
    assert!(follows_edges(&plan.movements, &star()));
}

#[test]
fn trains_on_a_line_share_the_work() {
    let input = Input {
        stations: 5,
        edges: vec![(0, 1, 2), (1, 2, 3), (2, 3, 4), (3, 4, 5)],
        trains: vec![(4, 0), (4, 4)],
        packages: vec![(2, 1, 3), (3, 3, 1), (2, 2, 0)],
    };
    let plan = compute_schedule(copy(&input)).unwrap();
    assert_eq!(plan.undelivered, Vec::<usize>::new());
    assert!(has_no_gaps(&plan.movements, 2));
    assert!(never_overloaded(&plan.movements, &input));
    assert!(follows_edges(&plan.movements, &input));
    let mut delivered: Vec<usize> =
        plan.movements.iter().flat_map(|m| m.packages_delivered.clone()).collect();
    delivered.sort();
    assert_eq!(delivered, vec![0, 1, 2]);
    let mut picked: Vec<usize> =
        plan.movements.iter().flat_map(|m| m.packages_picked_up.clone()).collect();
    picked.sort();
    assert_eq!(picked, vec![0, 1, 2]);
    let again = compute_schedule(copy(&input)).unwrap();
    let first: Vec<_> = plan.movements.iter().map(shown).collect();
    let second: Vec<_> = again.movements.iter().map(shown).collect();
    assert_eq!(first, second);
}

#[test]
fn search_can_start_in_the_middle() {
    let mut nav = Navigation::new(star()).unwrap();
    let mut trains = nav.trains.clone();
    let mut packages = nav.packages.clone();
    trains[0].current_location = X;
    trains[0].total_distance = 10;
    trains[0].packages_picked_up = vec![0];
    trains[0].packages_delivered = vec![1];
    packages[0].status = Custody::Carried(0);
    packages[1].status = Custody::Delivered(0);
    packages[2].status = Custody::Delivered(2);
    trains[2].packages_delivered = vec![2];
    assert!(nav.is_in_order(&trains, &packages));
    let before = vec![Movement {
        train: 0,
        from: A,
        to: X,
        start_time: 0,
        end_time: 10,
        packages_picked_up: vec![],
        packages_delivered: vec![],
    }];
    let movements = nav.calculate(trains, packages, before).unwrap();
    let seen: Vec<_> = movements.iter().map(shown).collect();
    assert_eq!(
        seen,
        vec![(0, A, X, 0, 10, vec![], vec![]), (0, X, D, 10, 20, vec![], vec![0])]
    );
}

#[test]
fn same_input_gives_the_same_schedule() {
    let first = compute_schedule(star()).unwrap();
    let second = compute_schedule(star()).unwrap();
    assert_eq!(first.movements.len(), second.movements.len());
    for (a, b) in first.movements.iter().zip(second.movements.iter()) {
        assert_eq!(shown(a), shown(b));
    }
    assert_eq!(first.undelivered, second.undelivered);
}

#[test]
fn schedule_for_a_world_is_remembered() {
    let mut nav = Navigation::new(star()).unwrap();
    let trains = nav.trains.clone();
    let packages = nav.packages.clone();
    let first = nav.calculate(trains.clone(), packages.clone(), vec![]).unwrap();
    let remembered = nav.cache.entries.len();
    assert!(remembered > 1);
    let key = Navigation::get_cache_key(&trains, &packages);
    assert_eq!(nav.cache.get(&key).unwrap().len(), first.len());
    let second = nav.calculate(trains, packages, vec![]).unwrap();
    assert_eq!(nav.cache.entries.len(), remembered);
    assert_eq!(first.len(), second.len());
    for (a, b) in first.iter().zip(second.iter()) {
        assert_eq!(shown(a), shown(b));
    }
}

#[test]
fn too_heavy_a_package_is_left_alone() {
    let mut input = star();
    input.packages = vec![(16, X, D)];
    let mut nav = Navigation::new(input).unwrap();
    let trains = nav.trains.clone();
    let packages = nav.packages.clone();
    let movements = nav.calculate(trains.clone(), packages.clone(), vec![]).unwrap();
    assert_eq!(movements.len(), 0);
    assert_eq!(Navigation::get_actions(&trains, &packages), Vec::<Action>::new());
    assert_eq!(Navigation::get_capable_trains(packages[0], &packages, &trains), Vec::<usize>::new());
    for train in 0..3 {
        assert_eq!(Navigation::get_packages_to_pick_up(train, &packages), Vec::<usize>::new());
    }
    let key = Navigation::get_cache_key(&trains, &packages);
    assert_eq!(key, vec![3, A, B, C, 0, 0]);
    assert_eq!(nav.cache.get(&key).unwrap().len(), 0);
    assert_eq!(nav.cache.entries.len(), 1);
}

#[test]
fn too_heavy_a_package_is_named_and_the_others_are_served() {
    let mut input = star();
    input.packages = vec![(5, X, D), (16, X, E), (15, X, F)];
    let plan = compute_schedule(copy(&input)).unwrap();
    assert_eq!(plan.undelivered, vec![1]);
    assert_eq!(Navigation::get_longest_distance_in_movements(&plan.movements), 20);
    assert_eq!(Navigation::get_number_of_trains(&plan.movements), 2);
    assert!(plan.movements.iter().all(|m| !m.packages_picked_up.contains(&1)));
    assert!(has_no_gaps(&plan.movements, 3));
    assert!(never_overloaded(&plan.movements, &input));
}

#[test]
fn one_train_makes_as_many_trips_as_its_capacity_asks_for() {
    let input = Input {
        stations: 2,
        edges: vec![(0, 1, 3)],
        trains: vec![(5, 0)],
        packages: vec![(3, 0, 1), (3, 0, 1)],
    };
    let plan = compute_schedule(copy(&input)).unwrap();
    assert_eq!(plan.undelivered, Vec::<usize>::new());
    let seen: Vec<_> = plan.movements.iter().map(shown).collect();
    assert_eq!(
        seen,
        vec![
            (0, 0, 1, 0, 3, vec![0], vec![0]),
            (0, 1, 0, 3, 6, vec![], vec![]),
            (0, 0, 1, 6, 9, vec![1], vec![1]),
        ]
    );
    assert!(never_overloaded(&plan.movements, &input));
}

#[test]
fn one_train_takes_both_where_it_has_room() {
    let input = Input {
        stations: 2,
        edges: vec![(0, 1, 3)],
        trains: vec![(6, 0)],
        packages: vec![(3, 0, 1), (3, 0, 1)],
    };
    let plan = compute_schedule(input).unwrap();
    let seen: Vec<_> = plan.movements.iter().map(shown).collect();
    assert_eq!(seen, vec![(0, 0, 1, 0, 3, vec![0, 1], vec![0, 1])]);
}

#[test]
fn fewer_trains_win_among_schedules_that_end_together() {
    let input = Input {
        stations: 2,
        edges: vec![(0, 1, 3)],
        trains: vec![(6, 0), (6, 0)],
        packages: vec![(3, 0, 1), (3, 0, 1)],
    };
    let plan = compute_schedule(input).unwrap();
    assert_eq!(Navigation::get_longest_distance_in_movements(&plan.movements), 3);
    assert_eq!(Navigation::get_number_of_trains(&plan.movements), 1);
}

#[test]
fn no_packages_no_movements() {
    let mut input = star();
    input.packages = vec![];
    let plan = compute_schedule(input).unwrap();
    assert_eq!(plan.movements.len(), 0);
    assert_eq!(plan.undelivered, Vec::<usize>::new());
}

#[test]
fn no_trains_every_package_is_left() {
    let mut input = star();
    input.trains = vec![];
    let plan = compute_schedule(input).unwrap();
    assert_eq!(plan.movements.len(), 0);
    assert_eq!(plan.undelivered, vec![0, 1, 2]);
}

#[test]
fn package_bound_for_where_it_lies_is_never_handed_over() {
    let input = Input {
        stations: 2,
        edges: vec![(0, 1, 3)],
        trains: vec![(5, 0)],
        packages: vec![(1, 1, 1)],
    };
    let plan = compute_schedule(input).unwrap();
    assert_eq!(plan.undelivered, vec![0]);
}

#[test]
fn instance_with_unknown_station_is_refused() {
    let mut input = star();
    input.edges.push((A, 7, 3));
    assert_eq!(Navigation::new(input).err(), Some(ConfigError::UnknownStation));
    let mut input = star();
    input.trains.push((1, 9));
    assert_eq!(Navigation::new(input).err(), Some(ConfigError::UnknownStation));
    let mut input = star();
    input.packages.push((1, 0, 9));
    assert_eq!(compute_schedule(input).err(), Some(ConfigError::UnknownStation));
    let mut input = star();
    input.packages.push((1, 9, 0));
    assert_eq!(compute_schedule(input).err(), Some(ConfigError::UnknownStation));
}

#[test]
fn instance_with_too_many_stations_is_refused() {
    let mut input = star();
    input.stations = usize::MAX;
    if usize::MAX > 0xFFFF_FFFF {
        assert_eq!(compute_schedule(input).err(), Some(ConfigError::TooManyStations));
    }
}

#[test]
fn unreachable_package_is_an_error() {
    let input = Input {
        stations: 3,
        edges: vec![(0, 1, 4)],
        trains: vec![(10, 0)],
        packages: vec![(1, 2, 1)],
    };
    let mut nav = Navigation::new(copy(&input)).unwrap();
    let trains: Vec<Train> = nav.trains.clone();
    let packages: Vec<Package> = nav.packages.clone();
    assert_eq!(nav.calculate(trains, packages, vec![]).err(), Some(ConfigError::Unreachable));
    assert_eq!(compute_schedule(input).err(), Some(ConfigError::Unreachable));
}

#[test]
fn new_navigation_holds_the_instance_as_given() {
    let nav = Navigation::new(star()).unwrap();
    assert_eq!(nav.trains.len(), 3);
    assert_eq!(nav.trains[1], Train::new(15, B));
    assert_eq!(nav.trains[1].current_location, B);
    assert_eq!(nav.trains[1].capacity, 15);
    assert_eq!(nav.packages.len(), 3);
    assert_eq!(nav.packages[2], Package { weight: 5, from: X, to: F, status: Custody::Unassigned });
    assert_eq!(nav.graph.adj_list[X].len(), 6);
    assert_eq!(nav.graph.adj_list[A].len(), 1);
    assert!(nav.graph.cache.iter().all(|known| known.is_some()));
    assert_eq!(nav.cache.entries.len(), 0);
}

#[test]
fn edge_of_length_zero_away_from_the_destinations_does_no_harm() {
    let input = Input {
        stations: 4,
        edges: vec![(0, 1, 0), (1, 2, 5), (2, 3, 4)],
        trains: vec![(5, 0)],
        packages: vec![(2, 1, 3), (3, 0, 2)],
    };
    let plan = compute_schedule(copy(&input)).unwrap();
    assert_eq!(plan.undelivered, Vec::<usize>::new());
    assert!(has_no_gaps(&plan.movements, 1));
    assert!(never_overloaded(&plan.movements, &input));
    assert!(follows_edges(&plan.movements, &input));
    let again = compute_schedule(copy(&input)).unwrap();
    let first: Vec<_> = plan.movements.iter().map(shown).collect();
    let second: Vec<_> = again.movements.iter().map(shown).collect();
    assert_eq!(first, second);
}

#[test]
fn station_at_distance_zero_from_a_destination_may_leave_a_package_behind() {
    let input = Input {
        stations: 3,
        edges: vec![(0, 1, 5), (1, 2, 0)],
        trains: vec![(5, 0)],
        packages: vec![(1, 0, 2), (1, 0, 1)],
    };
    let plan = compute_schedule(input).unwrap();
    assert_eq!(plan.undelivered.len(), 1);
    assert_eq!(Navigation::get_longest_distance_in_movements(&plan.movements), 5);
}
