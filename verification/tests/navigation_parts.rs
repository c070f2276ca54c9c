use train_navigation::destination::{Destination, UNREACHABLE};
use train_navigation::error::ConfigError;
use train_navigation::input::Input;
use train_navigation::memo::{ScheduleCache, HASH_MODULUS};
use train_navigation::movement::{delivers, get_undelivered, lists, Movement};
use train_navigation::navigation::Navigation;
use train_navigation::package::{Custody, Package};
use train_navigation::route::Route;
use train_navigation::train::Train;
use train_navigation::world::Action;

fn package(weight: u64, from: usize, to: usize, status: Custody) -> Package {
    Package { weight, from, to, status }
}

fn train(capacity: u64, at: usize) -> Train {
    Train::new(capacity, at)
}

fn listed(mut train: Train, to_pick_up: &[usize], picked_up: &[usize], delivered: &[usize]) -> Train {
    train.packages_to_pick_up = to_pick_up.to_vec();
    train.packages_picked_up = picked_up.to_vec();
    train.packages_delivered = delivered.to_vec();
    train
}

fn movement(train: usize, from: usize, to: usize, start_time: u64, end_time: u64) -> Movement {
    Movement {
        train,
        from,
        to,
        start_time,
        end_time,
        packages_picked_up: vec![],
        packages_delivered: vec![],
    }
}

fn cargo() -> Vec<Package> {
    vec![
        package(4, 0, 3, Custody::AssignedForPickup(1)),
        package(5, 0, 2, Custody::Carried(1)),
        package(6, 0, 3, Custody::Carried(0)),
        package(7, 1, 3, Custody::Unassigned),
        package(8, 1, 3, Custody::Delivered(1)),
        package(1, 2, 3, Custody::Carried(1)),
        package(2, 2, 0, Custody::AssignedForPickup(1)),
    ]
}

fn shown(m: &Movement) -> (usize, usize, usize, u64, u64, Vec<usize>, Vec<usize>) {
    (
        m.train,
        m.from,
        m.to,
        m.start_time,
        m.end_time,
        m.packages_picked_up.clone(),
        m.packages_delivered.clone(),
    )
}

#[test]
fn new_values() {
    assert_eq!(
        Train::new(9, 2),
        Train {
            capacity: 9,
            start: 2,
            current_location: 2,
            total_distance: 0,
            packages_to_pick_up: vec![],
            packages_picked_up: vec![],
            packages_delivered: vec![],
        }
    );
    assert_eq!(Package::new(3, 1, 2), package(3, 1, 2, Custody::Unassigned));
}

#[test]
fn lists_of_a_train_are_read_off_the_packages() {
    let packages = cargo();
    assert_eq!(Navigation::get_packages_to_pick_up(1, &packages), vec![0, 6]);
    assert_eq!(Navigation::get_packages_picked_up(1, &packages), vec![1, 5]);
    assert_eq!(Navigation::get_packages_delivered(1, &packages), vec![4]);
    assert_eq!(Navigation::get_packages_picked_up(0, &packages), vec![2]);
    assert_eq!(Navigation::get_packages_delivered(0, &packages), vec![]);
    assert_eq!(Navigation::get_packages_picked_up(2, &packages), vec![]);
}

#[test]
fn world_in_order_and_out_of_order() {
    let nav = line();
    let fleet = || vec![listed(train(10, 0), &[], &[1], &[]), listed(train(11, 3), &[2], &[], &[0])];
    let cargo = || {
        vec![
            package(5, 2, 3, Custody::Delivered(1)),
            package(5, 2, 0, Custody::Carried(0)),
            package(11, 1, 2, Custody::AssignedForPickup(1)),
        ]
    };
    assert!(nav.is_in_order(&nav.trains, &nav.packages));
    assert!(nav.is_in_order(&fleet(), &cargo()));
    assert!(nav.is_in_order(&vec![], &vec![]));

    let mut trains = fleet();
    trains[1].current_location = 4;
    assert!(!nav.is_in_order(&trains, &cargo()));
    let mut trains = fleet();
    trains[1].capacity = 10;
    assert!(!nav.is_in_order(&trains, &cargo()));
    let mut trains = fleet();
    trains[0].packages_picked_up = vec![];
    assert!(!nav.is_in_order(&trains, &cargo()));
    let mut trains = fleet();
    trains[1].packages_to_pick_up = vec![2, 1];
    assert!(!nav.is_in_order(&trains, &cargo()));
    let mut trains = fleet();
    trains[1].packages_delivered = vec![];
    assert!(!nav.is_in_order(&trains, &cargo()));

    let mut packages = cargo();
    packages[0].to = 4;
    assert!(!nav.is_in_order(&fleet(), &packages));
    let mut packages = cargo();
    packages[1].from = 4;
    assert!(!nav.is_in_order(&fleet(), &packages));
    let mut packages = cargo();
    packages[1].status = Custody::Carried(2);
    assert!(!nav.is_in_order(&fleet(), &packages));
    assert!(!nav.is_in_order(&vec![], &cargo()));
}

#[test]
fn custody_knows_its_holder() {
    assert!(Custody::AssignedForPickup(2).is_held_by(2));
    assert!(Custody::Carried(2).is_held_by(2));
    assert!(!Custody::Carried(2).is_held_by(1));
    assert!(!Custody::Delivered(2).is_held_by(2));
    assert!(!Custody::Unassigned.is_held_by(0));
}

#[test]
fn load_counts_committed_and_carried() {
    let packages = cargo();
    assert_eq!(Navigation::get_load(1, &packages), 4 + 5 + 1 + 2);
    assert_eq!(Navigation::get_load(0, &packages), 6);
    assert_eq!(Navigation::get_load(2, &packages), 0);
    assert_eq!(Navigation::get_load(0, &vec![]), 0);
}

#[test]
fn load_does_not_overflow() {
    let packages = vec![package(u64::MAX, 0, 1, Custody::Carried(0)); 3];
    assert_eq!(Navigation::get_load(0, &packages), 3 * (u64::MAX as u128));
    assert_eq!(Navigation::get_weight(&vec![0, 1, 2, 1], &packages), 4 * (u64::MAX as u128));
    let trains = vec![listed(train(u64::MAX, 0), &[], &[0, 1, 2], &[])];
    let none: Vec<usize> = vec![];
    assert_eq!(Navigation::get_capable_trains(packages[0], &packages, &trains), none);
}

#[test]
fn capable_trains_have_room_left() {
    let packages = cargo();
    let trains = vec![
        listed(train(13, 0), &[], &[2], &[]),
        listed(train(19, 0), &[0, 6], &[1, 5], &[4]),
        train(6, 0),
        train(7, 0),
    ];
    assert_eq!(Navigation::get_weight(&trains[1].packages_to_pick_up, &packages), 6);
    assert_eq!(Navigation::get_weight(&trains[1].packages_picked_up, &packages), 6);
    assert_eq!(Navigation::get_weight(&vec![], &packages), 0);
    assert_eq!(Navigation::get_capable_trains(packages[3], &packages, &trains), vec![0, 1, 3]);
    let heavier = package(8, 0, 1, Custody::Unassigned);
    assert_eq!(Navigation::get_capable_trains(heavier, &packages, &trains), vec![]);
    let lighter = package(6, 0, 1, Custody::Unassigned);
    assert_eq!(Navigation::get_capable_trains(lighter, &packages, &trains), vec![0, 1, 2, 3]);
}

#[test]
fn pick_up_list_and_deliver_list() {
    let packages = cargo();
    assert_eq!(Navigation::get_packages_to_pick_up(1, &packages), vec![0, 6]);
    assert_eq!(Navigation::get_packages_to_pick_up(0, &packages), vec![]);
    assert_eq!(Navigation::get_packages_to_deliver(1, &packages, 3), vec![0, 5]);
    assert_eq!(Navigation::get_packages_to_deliver(1, &packages, 2), vec![1]);
    assert_eq!(Navigation::get_packages_to_deliver(1, &packages, 0), vec![6]);
    assert_eq!(Navigation::get_packages_to_deliver(0, &packages, 3), vec![2]);
    assert_eq!(Navigation::get_packages_to_deliver(0, &packages, 1), vec![]);
}

#[test]
fn committed_packages_are_handed_over_before_carried_ones() {
    let packages = vec![
        package(1, 0, 1, Custody::Carried(0)),
        package(1, 0, 1, Custody::AssignedForPickup(0)),
        package(1, 0, 1, Custody::Carried(0)),
        package(1, 0, 2, Custody::AssignedForPickup(0)),
        package(1, 0, 1, Custody::AssignedForPickup(0)),
        package(1, 0, 1, Custody::AssignedForPickup(1)),
    ];
    assert_eq!(Navigation::get_packages_to_deliver(0, &packages, 1), vec![1, 4, 0, 2]);
    assert_eq!(Navigation::get_packages_to_deliver(0, &packages[..2].to_vec(), 1), vec![1, 0]);
    let route =
        Destination { from: 0, to: 1, checkpoints: vec![], distance: 3, cumulative_distance: 3 };
    let (schedule, picked, delivered) =
        Navigation::move_train(0, &route, &packages, vec![]).unwrap();
    assert_eq!(picked, vec![1, 3, 4]);
    assert_eq!(delivered, vec![1, 4, 0, 2]);
    assert_eq!(schedule[0].packages_delivered, vec![1, 4, 0, 2]);
}

#[test]
fn route_that_ends_where_it_begins_changes_nothing() {
    let route =
        Destination { from: 3, to: 3, checkpoints: vec![], distance: 5, cumulative_distance: 5 };
    let before = vec![movement(1, 5, 3, 2, 6)];
    let (schedule, picked, delivered) =
        Navigation::move_train(1, &route, &cargo(), before).unwrap();
    assert_eq!(schedule.len(), 1);
    assert_eq!(shown(&schedule[0]), (1, 5, 3, 2, 6, vec![], vec![]));
    assert_eq!(picked, vec![]);
    assert_eq!(delivered, vec![]);
    let around = Destination {
        from: 3,
        to: 3,
        checkpoints: vec![Route { to: 2, distance: 4 }],
        distance: 4,
        cumulative_distance: 8,
    };
    let (schedule, picked, delivered) =
        Navigation::move_train(1, &around, &cargo(), vec![]).unwrap();
    assert_eq!((schedule.len(), picked.len(), delivered.len()), (0, 0, 0));
}

#[test]
fn free_time_is_the_end_of_the_last_movement() {
    let schedule =
        vec![movement(0, 0, 1, 0, 5), movement(1, 2, 1, 0, 9), movement(0, 1, 2, 5, 8)];
    assert_eq!(Navigation::get_free_time(0, &schedule), 8);
    assert_eq!(Navigation::get_free_time(1, &schedule), 9);
    assert_eq!(Navigation::get_free_time(2, &schedule), 0);
    assert_eq!(Navigation::get_free_time(0, &vec![]), 0);
}

#[test]
fn makespan_and_number_of_trains() {
    let schedule = vec![
        movement(4, 0, 1, 0, 5),
        movement(1, 2, 1, 0, 9),
        movement(4, 1, 2, 5, 8),
        movement(1, 1, 0, 9, 9),
    ];
    assert_eq!(Navigation::get_longest_distance_in_movements(&schedule), 9);
    assert_eq!(Navigation::get_number_of_trains(&schedule), 2);
    assert_eq!(Navigation::get_longest_distance_in_movements(&vec![]), 0);
    assert_eq!(Navigation::get_number_of_trains(&vec![]), 0);
}

#[test]
fn earlier_end_is_preferred_then_fewer_trains() {
    let short = vec![movement(0, 0, 1, 0, 5), movement(1, 0, 1, 0, 5)];
    let long = vec![movement(0, 0, 1, 0, 6)];
    let lean = vec![movement(0, 0, 1, 0, 5)];
    assert!(Navigation::is_preferred(&short, &long));
    assert!(!Navigation::is_preferred(&long, &short));
    assert!(Navigation::is_preferred(&lean, &short));
    assert!(!Navigation::is_preferred(&short, &lean));
    assert!(!Navigation::is_preferred(&lean, &lean));
}

#[test]
fn route_over_two_stops_gives_three_movements() {
    let route = Destination {
        from: 0,
        to: 3,
        checkpoints: vec![Route { to: 1, distance: 4 }, Route { to: 2, distance: 1 }],
        distance: 7,
        cumulative_distance: 12,
    };
    let before = vec![movement(1, 5, 0, 2, 6), movement(0, 0, 0, 0, 50)];
    let (schedule, picked, delivered) =
        Navigation::move_train(1, &route, &cargo(), before).unwrap();
    assert_eq!(picked, vec![0, 6]);
    assert_eq!(delivered, vec![0, 5]);
    assert_eq!(schedule.len(), 5);
    assert_eq!(shown(&schedule[0]), (1, 5, 0, 2, 6, vec![], vec![]));
    assert_eq!(shown(&schedule[1]), (0, 0, 0, 0, 50, vec![], vec![]));
    assert_eq!(shown(&schedule[2]), (1, 0, 1, 6, 10, vec![0, 6], vec![]));
    assert_eq!(shown(&schedule[3]), (1, 1, 2, 10, 11, vec![], vec![]));
    assert_eq!(shown(&schedule[4]), (1, 2, 3, 11, 18, vec![], vec![0, 5]));
}

#[test]
fn route_of_one_hop_loads_and_hands_over_in_one_movement() {
    let route =
        Destination { from: 2, to: 3, checkpoints: vec![], distance: 7, cumulative_distance: 7 };
    let (schedule, picked, delivered) = Navigation::move_train(1, &route, &cargo(), vec![]).unwrap();
    assert_eq!(picked, vec![0, 6]);
    assert_eq!(delivered, vec![0, 5]);
    assert_eq!(schedule.len(), 1);
    assert_eq!(shown(&schedule[0]), (1, 2, 3, 0, 7, vec![0, 6], vec![0, 5]));
}

#[test]
fn route_of_length_zero_changes_nothing() {
    let route =
        Destination { from: 3, to: 3, checkpoints: vec![], distance: 0, cumulative_distance: 0 };
    let before = vec![movement(1, 5, 3, 2, 6)];
    let (schedule, picked, delivered) =
        Navigation::move_train(1, &route, &cargo(), before).unwrap();
    assert_eq!(schedule.len(), 1);
    assert_eq!(shown(&schedule[0]), (1, 5, 3, 2, 6, vec![], vec![]));
    assert_eq!(picked, vec![]);
    assert_eq!(delivered, vec![]);
}

#[test]
fn unreachable_route_is_refused() {
    let route = Destination::new(0, 3);
    assert_eq!(route.cumulative_distance, UNREACHABLE);
    assert_eq!(
        Navigation::move_train(1, &route, &cargo(), vec![]).err(),
        Some(ConfigError::Unreachable)
    );
}

#[test]
fn time_that_does_not_fit_is_refused() {
    let route = Destination {
        from: 0,
        to: 2,
        checkpoints: vec![Route { to: 1, distance: 4 }],
        distance: 3,
        cumulative_distance: 7,
    };
    let late = vec![movement(1, 5, 0, 0, u64::MAX - 6)];
    assert_eq!(
        Navigation::move_train(1, &route, &cargo(), late).err(),
        Some(ConfigError::Overflow)
    );
    let in_time = vec![movement(1, 5, 0, 0, u64::MAX - 7)];
    let (schedule, _, _) = Navigation::move_train(1, &route, &cargo(), in_time).unwrap();
    assert_eq!(schedule[2].end_time, u64::MAX);
    assert_eq!(schedule[1].end_time, u64::MAX - 3);
}

#[test]
fn custody_lists_are_applied() {
    let mut packages = cargo();
    Navigation::apply_custody(&mut packages, 1, &vec![0, 6], &vec![0, 5]);
    let statuses: Vec<Custody> = packages.iter().map(|p| p.status).collect();
    assert_eq!(
        statuses,
        vec![
            Custody::Delivered(1),
            Custody::Carried(1),
            Custody::Carried(0),
            Custody::Unassigned,
            Custody::Delivered(1),
            Custody::Delivered(1),
            Custody::Carried(1),
        ]
    );
    assert_eq!(packages[0].weight, 4);
    assert_eq!(packages[6].to, 0);
}

#[test]
fn key_lists_trains_then_packages() {
    let trains = vec![train(1, 5), train(1, 2)];
    let packages = vec![
        package(1, 0, 1, Custody::Unassigned),
        package(1, 0, 1, Custody::AssignedForPickup(1)),
        package(1, 0, 1, Custody::Carried(0)),
        package(1, 0, 1, Custody::Delivered(1)),
    ];
    assert_eq!(
        Navigation::get_cache_key(&trains, &packages),
        vec![2, 5, 2, 0, 0, 1, 1, 2, 0, 3, 1]
    );
    assert_eq!(Navigation::get_cache_key(&vec![], &vec![]), vec![0]);
}

#[test]
fn key_ignores_what_is_not_position_or_custody() {
    let mut trains = vec![train(1, 5)];
    let mut packages = vec![package(1, 0, 1, Custody::Carried(0))];
    let key = Navigation::get_cache_key(&trains, &packages);
    trains[0].total_distance = 40;
    trains[0].capacity = 9;
    packages[0].weight = 3;
    assert_eq!(Navigation::get_cache_key(&trains, &packages), key);
    trains[0].current_location = 4;
    assert_ne!(Navigation::get_cache_key(&trains, &packages), key);
}

#[test]
fn actions_are_commitments_then_continuations() {
    let trains = vec![listed(train(10, 0), &[], &[1], &[4]), listed(train(3, 0), &[3], &[], &[])];
    let packages = vec![
        package(3, 0, 1, Custody::Unassigned),
        package(4, 0, 1, Custody::Carried(0)),
        package(4, 0, 1, Custody::Unassigned),
        package(1, 0, 1, Custody::AssignedForPickup(1)),
        package(9, 0, 1, Custody::Delivered(0)),
    ];
    let commit = |train, package| Action { train, package, to_pick_up: true };
    let go_on = |train, package| Action { train, package, to_pick_up: false };
    assert_eq!(
        Navigation::get_actions(&trains, &packages),
        vec![commit(0, 0), commit(0, 2), go_on(0, 1), go_on(1, 3)]
    );
    assert_eq!(Navigation::get_actions(&vec![train(10, 0)], &vec![]), vec![]);
}

fn line() -> Navigation {
    Navigation::new(Input {
        stations: 4,
        edges: vec![(0, 1, 4), (1, 2, 1), (2, 3, 7)],
        trains: vec![(10, 0), (10, 3)],
        packages: vec![(5, 2, 3), (5, 2, 0), (11, 1, 2)],
    })
    .unwrap()
}

#[test]
fn commitment_takes_the_train_to_the_package() {
    let nav = line();
    let commit = Action { train: 0, package: 0, to_pick_up: true };
    let (trains, packages, movements) =
        nav.advance(&nav.trains, &nav.packages, &vec![], commit).unwrap().unwrap();
    assert_eq!(
        trains[0],
        Train {
            capacity: 10,
            start: 0,
            current_location: 2,
            total_distance: 5,
            packages_to_pick_up: vec![0],
            packages_picked_up: vec![],
            packages_delivered: vec![],
        }
    );
    assert_eq!(trains[1], nav.trains[1]);
    assert_eq!(packages[0].status, Custody::AssignedForPickup(0));
    assert_eq!(packages[1].status, Custody::Unassigned);
    assert_eq!(movements.len(), 2);
    assert_eq!(shown(&movements[0]), (0, 0, 1, 0, 4, vec![], vec![]));
    assert_eq!(shown(&movements[1]), (0, 1, 2, 4, 5, vec![], vec![]));
}

#[test]
fn going_on_loads_on_leaving_and_hands_over_on_arrival() {
    let nav = line();
    let mut trains = nav.trains.clone();
    let mut packages = nav.packages.clone();
    trains[0].current_location = 2;
    trains[0].packages_to_pick_up = vec![0, 1];
    packages[0].status = Custody::AssignedForPickup(0);
    packages[1].status = Custody::AssignedForPickup(0);
    assert!(nav.is_in_order(&trains, &packages));
    let go_on = Action { train: 0, package: 1, to_pick_up: false };
    let (trains, packages, movements) =
        nav.advance(&trains, &packages, &vec![], go_on).unwrap().unwrap();
    assert!(nav.is_in_order(&trains, &packages));
    assert_eq!(trains[0].current_location, 0);
    assert_eq!(trains[0].total_distance, 5);
    assert_eq!(trains[0].packages_to_pick_up, vec![]);
    assert_eq!(trains[0].packages_picked_up, vec![0]);
    assert_eq!(trains[0].packages_delivered, vec![1]);
    assert_eq!(packages[0].status, Custody::Carried(0));
    assert_eq!(packages[1].status, Custody::Delivered(0));
    assert_eq!(movements.len(), 2);
    assert_eq!(shown(&movements[0]), (0, 2, 1, 0, 1, vec![0, 1], vec![]));
    assert_eq!(shown(&movements[1]), (0, 1, 0, 1, 5, vec![], vec![1]));
}

#[test]
fn train_away_from_a_package_it_committed_to_goes_there_first() {
    let nav = line();
    let mut packages = nav.packages.clone();
    let mut trains = nav.trains.clone();
    packages[0].status = Custody::AssignedForPickup(1);
    trains[1].packages_to_pick_up = vec![0];
    let go_on = Action { train: 1, package: 0, to_pick_up: false };
    let (trains, packages, movements) =
        nav.advance(&trains, &packages, &vec![], go_on).unwrap().unwrap();
    assert_eq!(trains[1].current_location, 2);
    assert_eq!(packages[0].status, Custody::Carried(1));
    assert_eq!(movements.len(), 1);
    assert_eq!(shown(&movements[0]), (1, 3, 2, 0, 7, vec![0], vec![]));
}

#[test]
fn commitment_on_the_spot_moves_nothing() {
    let nav = line();
    let mut trains = nav.trains.clone();
    trains[0].current_location = 2;
    let commit = Action { train: 0, package: 1, to_pick_up: true };
    let (after, packages, movements) =
        nav.advance(&trains, &nav.packages, &vec![], commit).unwrap().unwrap();
    assert_eq!(after[0], listed(trains[0].clone(), &[1], &[], &[]));
    assert_eq!(after[1], trains[1]);
    assert_eq!(packages[1].status, Custody::AssignedForPickup(0));
    assert_eq!(movements.len(), 0);
}

#[test]
fn going_on_where_one_is_changes_nothing() {
    let nav = line();
    let mut packages = nav.packages.clone();
    let mut trains = nav.trains.clone();
    packages[0].status = Custody::Carried(1);
    trains[1].packages_picked_up = vec![0];
    let go_on = Action { train: 1, package: 0, to_pick_up: false };
    assert!(nav.advance(&trains, &packages, &vec![], go_on).unwrap().is_none());
}

#[test]
fn distance_that_does_not_fit_is_refused() {
    let nav = line();
    let mut trains = nav.trains.clone();
    trains[0].total_distance = u64::MAX - 4;
    let commit = Action { train: 0, package: 0, to_pick_up: true };
    assert_eq!(
        nav.advance(&trains, &nav.packages, &vec![], commit).err(),
        Some(ConfigError::Overflow)
    );
    trains[0].total_distance = u64::MAX - 5;
    let (after, _, _) = nav.advance(&trains, &nav.packages, &vec![], commit).unwrap().unwrap();
    assert_eq!(after[0].total_distance, u64::MAX);
}

#[test]
fn cache_returns_the_last_schedule_stored_for_a_key() {
    let mut cache = ScheduleCache::new();
    assert!(cache.get(&vec![1, 2]).is_none());
    cache.insert(vec![1, 2], vec![movement(0, 0, 1, 0, 5)]);
    cache.insert(vec![2, 1], vec![]);
    cache.insert(vec![1, 2, 0], vec![movement(0, 0, 1, 0, 6), movement(0, 1, 0, 6, 12)]);
    assert_eq!(cache.get(&vec![1, 2]).unwrap().len(), 1);
    assert_eq!(cache.get(&vec![1, 2]).unwrap()[0].end_time, 5);
    assert_eq!(cache.get(&vec![2, 1]).unwrap().len(), 0);
    assert_eq!(cache.get(&vec![1, 2, 0]).unwrap().len(), 2);
    assert!(cache.get(&vec![1]).is_none());
    assert!(cache.get(&vec![]).is_none());
    cache.insert(vec![1, 2], vec![movement(3, 0, 1, 0, 9)]);
    assert_eq!(cache.get(&vec![1, 2]).unwrap()[0].train, 3);
    assert_eq!(cache.entries.len(), 4);
}

#[test]
fn cache_tells_keys_of_equal_hash_apart() {
    let a = vec![0, 31];
    let b = vec![1, 0];
    assert_eq!(ScheduleCache::hash(&a), 31);
    assert_eq!(ScheduleCache::hash(&b), 31);
    let mut cache = ScheduleCache::new();
    cache.insert(a.clone(), vec![movement(7, 0, 1, 0, 1)]);
    assert!(cache.get(&b).is_none());
    cache.insert(b.clone(), vec![movement(8, 0, 1, 0, 1)]);
    assert_eq!(cache.get(&a).unwrap()[0].train, 7);
    assert_eq!(cache.get(&b).unwrap()[0].train, 8);
}

#[test]
fn hash_of_a_key() {
    assert_eq!(ScheduleCache::hash(&vec![]), 0);
    assert_eq!(ScheduleCache::hash(&vec![5]), 5);
    assert_eq!(ScheduleCache::hash(&vec![5, 7]), 5 * 31 + 7);
    let big = ScheduleCache::hash(&vec![usize::MAX, usize::MAX, usize::MAX]);
    assert!(big < HASH_MODULUS);
    assert!(ScheduleCache::same_key(&vec![1, 2], &vec![1, 2]));
    assert!(!ScheduleCache::same_key(&vec![1, 2], &vec![1, 3]));
    assert!(!ScheduleCache::same_key(&vec![1, 2], &vec![1, 2, 0]));
}

#[test]
fn undelivered_packages_are_named() {
    let mut schedule = vec![movement(0, 0, 1, 0, 5), movement(1, 0, 1, 0, 5)];
    schedule[0].packages_delivered = vec![2];
    schedule[1].packages_delivered = vec![0, 3];
    assert!(lists(&vec![4, 2], 2));
    assert!(!lists(&vec![4, 2], 3));
    assert!(delivers(&schedule, 3));
    assert!(!delivers(&schedule, 1));
    assert_eq!(get_undelivered(&schedule, 5), vec![1, 4]);
    assert_eq!(get_undelivered(&schedule, 1), vec![]);
    assert_eq!(get_undelivered(&vec![], 2), vec![0, 1]);
}
