//! The scheduler: a search through the worlds that the trains can bring
//! about, which remembers for every world the schedule it found best.
use vstd::prelude::*;
use std::collections::HashSet;
use crate::capacity::{
    capacities, lemma_explore_within, on_board, tallied_for, weights_list, within,
};
use crate::destination::{Destination, UNREACHABLE, all_paths, table_answers};
use crate::error::ConfigError;
use crate::graph::{Graph, MAX_STATIONS};
use crate::input::{Input, built_edges, cargo_of, fleet_of};
use crate::laws::{
    can_be_carried, carriable, clear, clear_for, has_time, in_place, in_time, itinerary,
    lemma_explore_contiguous, lemma_explore_errs, lemma_explore_finds_way, lemma_explore_in_time,
    lemma_explore_itinerary, lemma_explore_serves, lemma_remaining_of_free, on_track, reserve,
    serves, starts_of, tables_answer,
};
use crate::ledger::{books, booked, ends_of, ledger, lemma_explore_books, origins_clear};
use crate::memo::ScheduleCache;
use crate::movement::{
    Movement, MovementView, clone_schedule, contiguous, delivered_in, free_at, get_undelivered,
    left_behind,
    lemma_undelivered_members, makespan, schedule_view, trains_used, undelivered_upto,
};
use crate::package::{Custody, Package, load, load_upto, remaining};
use crate::paths::{
    alone, connected, connects, lemma_reversed_walk, lower_bound, reachable, reversed,
};
use crate::route::{Route, MAX_EDGE, hops_len};
use crate::search::{
    actions, advance_actions, advances_for, cache_key, commit_actions, commits_for, custody_upto,
    explore, locations_upto, preferred, try_all,
};
use crate::train::{Train, TrainView, clone_fleet, fleet_view};
use crate::world::{
    Action, Tables, World, action_valid, after_move, capable_upto, carried_upto, committed,
    bound_upto, delivered_upto, deliveries, handed, hop_movements, lemma_hops_prefix,
    lemma_listed_load, lemma_lists_are_move, lemma_step_keeps_order, lemma_step_progress,
    lists_ok, moved, package_ok, pickups, pickups_upto, relisted, simulate, step, tables_ok,
    target_route, weights_of, world_wf,
};

verus! {

broadcast use vstd::std_specs::hash::group_hash_axioms;

/// The view of what a search returns.
pub open spec fn outcome(found: Result<Vec<Movement>, ConfigError>) -> Result<
    Seq<MovementView>,
    ConfigError,
> {
    match found {
        Ok(schedule) => Ok(schedule_view(schedule@)),
        Err(e) => Err(e),
    }
}

/// The scheduler with all it works on: the graph, the instance as it was
/// given, and the schedules found so far.
///
/// A schedule is remembered under a key that says where the trains stand
/// and who has each package, and nothing else. The memory therefore serves
/// one instance: a search for other trains or packages needs a scheduler of
/// its own.
pub struct Navigation {
    pub graph: Graph,
    pub trains: Vec<Train>,
    pub packages: Vec<Package>,
    pub cache: ScheduleCache,
}

impl Navigation {
    /// The weight that `train` has committed to or carries.
    pub fn get_load(train: usize, packages: &Vec<Package>) -> (total: u128)
        ensures
            total == load(packages@, train),
            total <= packages@.len() * 0xFFFF_FFFF_FFFF_FFFF,
    {
        let mut total: u128 = 0;
        let mut p: usize = 0;
        while p < packages.len()
            invariant
                p <= packages.len(),
                total == load_upto(packages@, train, p as int),
                total <= p * 0xFFFF_FFFF_FFFF_FFFF,
            decreases packages.len() - p,
        {
            assert(total <= 0xFFFF_FFFF_FFFF_FFFF * 0xFFFF_FFFF_FFFF_FFFF) by (nonlinear_arith)
                requires
                    total <= p * 0xFFFF_FFFF_FFFF_FFFF,
                    p <= 0xFFFF_FFFF_FFFF_FFFF,
            ;
            if packages[p].status.is_held_by(train) {
                total = total + packages[p].weight as u128;
            }
            p += 1;
        }
        total
    }

    /// The weight of the packages that `ids` lists.
    pub fn get_weight(ids: &Vec<usize>, packages: &Vec<Package>) -> (total: u128)
        requires
            forall|i: int| 0 <= i < ids@.len() ==> ids@[i] < packages@.len(),
        ensures
            total == weights_of(packages@, ids@),
            total <= ids@.len() * 0xFFFF_FFFF_FFFF_FFFF,
    {
        let mut total: u128 = 0;
        let mut i: usize = 0;
        assert(ids@.take(0) =~= Seq::<usize>::empty());
        while i < ids.len()
            invariant
                i <= ids.len(),
                forall|k: int| 0 <= k < ids@.len() ==> ids@[k] < packages@.len(),
                total == weights_of(packages@, ids@.take(i as int)),
                total <= i * 0xFFFF_FFFF_FFFF_FFFF,
            decreases ids.len() - i,
        {
            assert(total <= 0xFFFF_FFFF_FFFF_FFFF * 0xFFFF_FFFF_FFFF_FFFF) by (nonlinear_arith)
                requires
                    total <= i * 0xFFFF_FFFF_FFFF_FFFF,
                    i <= 0xFFFF_FFFF_FFFF_FFFF,
            ;
            assert(ids@.take(i + 1).drop_last() =~= ids@.take(i as int));
            total = total + packages[ids[i]].weight as u128;
            i += 1;
        }
        assert(ids@.take(ids@.len() as int) =~= ids@);
        total
    }

    /// The trains that have room for `pack` beside what they have committed
    /// to and carry, in ascending order. What a train holds is read off its
    /// two lists, which must agree with the statuses of the packages.
    pub fn get_capable_trains(pack: Package, packages: &Vec<Package>, trains: &Vec<Train>) -> (found:
        Vec<usize>)
        requires
            forall|t: int|
                0 <= t < trains@.len() ==> lists_ok(
                    packages@,
                    t as usize,
                    #[trigger] fleet_view(trains@)[t],
                ),
        ensures
            found@ == capable_upto(fleet_view(trains@), packages@, pack.weight, trains@.len() as int),
    {
        let mut found: Vec<usize> = Vec::new();
        let mut t: usize = 0;
        while t < trains.len()
            invariant
                t <= trains.len(),
                forall|k: int|
                    0 <= k < trains@.len() ==> lists_ok(
                        packages@,
                        k as usize,
                        #[trigger] fleet_view(trains@)[k],
                    ),
                found@ == capable_upto(fleet_view(trains@), packages@, pack.weight, t as int),
            decreases trains.len() - t,
        {
            let count = packages.len();
            proof {
                assert(lists_ok(packages@, t, fleet_view(trains@)[t as int]));
                assert(fleet_view(trains@)[t as int] == trains@[t as int]@);
                lemma_listed_load(packages@, t, count as int);
                Self::lemma_load_bound(packages@, t, count as int);
            }
            let committed = Self::get_weight(&trains[t].packages_to_pick_up, packages);
            let carried = Self::get_weight(&trains[t].packages_picked_up, packages);
            assert(committed + carried == load(packages@, t));
            assert(committed + carried <= 0xFFFF_FFFF_FFFF_FFFF * 0xFFFF_FFFF_FFFF_FFFF)
                by (nonlinear_arith)
                requires
                    committed + carried <= count * 0xFFFF_FFFF_FFFF_FFFF,
                    count <= 0xFFFF_FFFF_FFFF_FFFF,
            ;
            if committed + carried + pack.weight as u128 <= trains[t].capacity as u128 {
                found.push(t);
            }
            t += 1;
        }
        found
    }

    /// The first `upto` packages put no more on a train than each the
    /// largest weight there is.
    pub proof fn lemma_load_bound(packages: Seq<Package>, train: usize, upto: int)
        requires
            0 <= upto <= packages.len(),
        ensures
            load_upto(packages, train, upto) <= upto * 0xFFFF_FFFF_FFFF_FFFF,
        decreases upto,
    {
        if upto > 0 {
            Self::lemma_load_bound(packages, train, upto - 1);
        }
    }

    /// The packages that `train` has committed to, in ascending order.
    pub fn get_packages_to_pick_up(train: usize, packages: &Vec<Package>) -> (found: Vec<usize>)
        ensures
            found@ == pickups(packages@, train),
    {
        let mut found: Vec<usize> = Vec::new();
        let mut p: usize = 0;
        while p < packages.len()
            invariant
                p <= packages.len(),
                found@ == pickups_upto(packages@, train, p as int),
            decreases packages.len() - p,
        {
            if packages[p].status == Custody::AssignedForPickup(train) {
                found.push(p);
            }
            p += 1;
        }
        found
    }

    /// The packages that `train` carries, in ascending order.
    pub fn get_packages_picked_up(train: usize, packages: &Vec<Package>) -> (found: Vec<usize>)
        ensures
            found@ == carried_upto(packages@, train, packages@.len() as int),
    {
        let mut found: Vec<usize> = Vec::new();
        let mut p: usize = 0;
        while p < packages.len()
            invariant
                p <= packages.len(),
                found@ == carried_upto(packages@, train, p as int),
            decreases packages.len() - p,
        {
            if packages[p].status == Custody::Carried(train) {
                found.push(p);
            }
            p += 1;
        }
        found
    }

    /// The packages that `train` has delivered, in ascending order.
    pub fn get_packages_delivered(train: usize, packages: &Vec<Package>) -> (found: Vec<usize>)
        ensures
            found@ == delivered_upto(packages@, train, packages@.len() as int),
    {
        let mut found: Vec<usize> = Vec::new();
        let mut p: usize = 0;
        while p < packages.len()
            invariant
                p <= packages.len(),
                found@ == delivered_upto(packages@, train, p as int),
            decreases packages.len() - p,
        {
            if packages[p].status == Custody::Delivered(train) {
                found.push(p);
            }
            p += 1;
        }
        found
    }

    /// Whether trains and packages are where the graph has stations, every
    /// status names a train of the fleet, the lists of every train agree
    /// with the statuses, and no train holds more than its capacity.
    pub fn is_in_order(&self, trains: &Vec<Train>, packages: &Vec<Package>) -> (yes: bool)
        ensures
            yes == world_wf(self.graph.adj_list@.len(), fleet_view(trains@), packages@),
    {
        let stations = self.graph.adj_list.len();
        let fleet = trains.len();
        let ghost views = fleet_view(trains@);
        let mut p: usize = 0;
        while p < packages.len()
            invariant
                p <= packages.len(),
                fleet == trains@.len(),
                stations == self.graph.adj_list@.len(),
                forall|k: int|
                    0 <= k < p ==> package_ok(stations as nat, fleet as nat, #[trigger] packages@[k]),
            decreases packages.len() - p,
        {
            let named = match packages[p].status {
                Custody::Unassigned => true,
                Custody::AssignedForPickup(t) => t < fleet,
                Custody::Carried(t) => t < fleet,
                Custody::Delivered(t) => t < fleet,
            };
            if !named || packages[p].from >= stations || packages[p].to >= stations {
                assert(!package_ok(stations as nat, fleet as nat, packages@[p as int]));
                return false;
            }
            p += 1;
        }
        let mut t: usize = 0;
        while t < trains.len()
            invariant
                t <= trains.len(),
                stations == self.graph.adj_list@.len(),
                views == fleet_view(trains@),
                forall|k: int| 0 <= k < t ==> (#[trigger] views[k]).current_location < stations,
                forall|k: int|
                    0 <= k < t ==> load(packages@, k as usize) <= (#[trigger] views[k]).capacity,
                forall|k: int| 0 <= k < t ==> lists_ok(packages@, k as usize, #[trigger] views[k]),
            decreases trains.len() - t,
        {
            assert(views[t as int] == trains@[t as int]@);
            if trains[t].current_location >= stations {
                assert(!(views[t as int].current_location < stations));
                return false;
            }
            if Self::get_load(t, packages) > trains[t].capacity as u128 {
                assert(!(load(packages@, t as usize) <= views[t as int].capacity));
                return false;
            }
            let to_pick_up = Self::get_packages_to_pick_up(t, packages);
            let picked_up = Self::get_packages_picked_up(t, packages);
            let delivered = Self::get_packages_delivered(t, packages);
            if !ScheduleCache::same_key(&to_pick_up, &trains[t].packages_to_pick_up)
                || !ScheduleCache::same_key(&picked_up, &trains[t].packages_picked_up)
                || !ScheduleCache::same_key(&delivered, &trains[t].packages_delivered) {
                assert(!lists_ok(packages@, t as usize, views[t as int]));
                return false;
            }
            t += 1;
        }
        true
    }

    /// The packages that `train` holds and that are bound for station `to`:
    /// first those that it has committed to, then those that it carries,
    /// each in ascending order.
    pub fn get_packages_to_deliver(train: usize, packages: &Vec<Package>, to: usize) -> (found:
        Vec<usize>)
        ensures
            found@ == deliveries(packages@, train, to),
    {
        let mut found: Vec<usize> = Vec::new();
        let mut p: usize = 0;
        while p < packages.len()
            invariant
                p <= packages.len(),
                found@ == bound_upto(packages@, Custody::AssignedForPickup(train), to, p as int),
            decreases packages.len() - p,
        {
            if packages[p].status == Custody::AssignedForPickup(train) && packages[p].to == to {
                found.push(p);
            }
            p += 1;
        }
        let ghost first = found@;
        let mut q: usize = 0;
        while q < packages.len()
            invariant
                q <= packages.len(),
                found@ == first + bound_upto(packages@, Custody::Carried(train), to, q as int),
            decreases packages.len() - q,
        {
            if packages[q].status == Custody::Carried(train) && packages[q].to == to {
                found.push(q);
            }
            q += 1;
        }
        found
    }

    /// When `train` is free to leave: the end of its last movement, or 0.
    pub fn get_free_time(train: usize, movements: &Vec<Movement>) -> (time: u64)
        ensures
            time == free_at(schedule_view(movements@), train),
    {
        let ghost all = schedule_view(movements@);
        let mut i: usize = movements.len();
        assert(all.take(i as int) =~= all);
        while i > 0
            invariant
                i <= movements.len(),
                all == schedule_view(movements@),
                free_at(all, train) == free_at(all.take(i as int), train),
            decreases i,
        {
            assert(all.take(i as int).drop_last() =~= all.take(i - 1));
            if movements[i - 1].train == train {
                return movements[i - 1].end_time;
            }
            i -= 1;
        }
        assert(all.take(0) =~= Seq::<MovementView>::empty());
        0
    }

    /// Sends `train` along the route `destination` and says what that adds
    /// to `movements`, which packages the train loads and which it hands over.
    pub fn move_train(
        train: usize,
        destination: &Destination,
        packages: &Vec<Package>,
        movements: Vec<Movement>,
    ) -> (moved: Result<(Vec<Movement>, Vec<usize>, Vec<usize>), ConfigError>)
        ensures
            simulate(train, destination@, packages@, schedule_view(movements@)) == match moved {
                Ok((schedule, picked, delivered)) => Ok(
                    (schedule_view(schedule@), picked@, delivered@),
                ),
                Err(e) => Err(e),
            },
    {
        if destination.cumulative_distance == UNREACHABLE {
            return Err(ConfigError::Unreachable);
        }
        if destination.cumulative_distance == 0 || destination.to == destination.from {
            return Ok((movements, Vec::new(), Vec::new()));
        }
        let start = Self::get_free_time(train, &movements);
        let picked = Self::get_packages_to_pick_up(train, packages);
        let delivered = Self::get_packages_to_deliver(train, packages, destination.to);
        let ghost before = schedule_view(movements@);
        let ghost hops = destination@.hops();
        let ghost planned = hop_movements(
            train,
            destination.from,
            hops,
            start,
            picked@,
            delivered@,
        );
        let mut schedule = movements;
        let stops = destination.checkpoints.len();
        let mut clock: u64 = start;
        let mut at: usize = destination.from;
        let mut i: usize = 0;
        while i < stops
            invariant
                i <= stops,
                stops == destination.checkpoints@.len(),
                hops == destination@.hops(),
                hops.len() == stops + 1,
                destination.to != destination.from,
                destination@.found(),
                destination.cumulative_distance != 0,
                before == schedule_view(movements@),
                start == free_at(before, train),
                picked@ == pickups(packages@, train),
                delivered@ == deliveries(packages@, train, destination.to),
                planned.len() == hops.len(),
                planned == hop_movements(train, destination.from, hops, start, picked@, delivered@),
                schedule_view(schedule@) == before + planned.take(i as int),
                clock == start + hops_len(hops.take(i as int)),
                at == if i == 0 {
                    destination.from
                } else {
                    hops[i - 1].to
                },
            decreases stops - i,
        {
            let hop = destination.checkpoints[i];
            proof {
                lemma_hops_prefix(hops, i as int);
                lemma_hops_prefix(hops, i + 1);
                assert(hops[i as int] == hop);
            }
            let end = match clock.checked_add(hop.distance) {
                Some(end) => end,
                None => {
                    return Err(ConfigError::Overflow);
                },
            };
            let loaded = if i == 0 {
                picked.clone()
            } else {
                Vec::new()
            };
            let step = Movement {
                train,
                from: at,
                to: hop.to,
                start_time: clock,
                end_time: end,
                packages_picked_up: loaded,
                packages_delivered: Vec::new(),
            };
            proof {
                assert(step@ == planned[i as int]);
                let grown = schedule_view(schedule@.push(step));
                let wanted = before + planned.take(i + 1);
                assert(schedule_view(schedule@).len() == schedule@.len());
                assert(planned.take(i as int).len() == i);
                assert(planned.take(i + 1).len() == i + 1);
                assert(grown.len() == wanted.len());
                assert forall|k: int| 0 <= k < grown.len() implies grown[k] == wanted[k] by {
                    if k < before.len() + i {
                        assert(grown[k] == schedule_view(schedule@)[k]);
                        assert((before + planned.take(i as int))[k] == wanted[k]);
                    }
                }
                assert(grown =~= wanted);
            }
            schedule.push(step);
            clock = end;
            at = hop.to;
            i += 1;
        }
        proof {
            lemma_hops_prefix(hops, stops as int);
            lemma_hops_prefix(hops, stops + 1);
            assert(hops[stops as int] == (Route {
                to: destination.to,
                distance: destination.distance,
            }));
        }
        let end = match clock.checked_add(destination.distance) {
            Some(end) => end,
            None => {
                return Err(ConfigError::Overflow);
            },
        };
        let loaded = if stops == 0 {
            picked.clone()
        } else {
            Vec::new()
        };
        let step = Movement {
            train,
            from: at,
            to: destination.to,
            start_time: clock,
            end_time: end,
            packages_picked_up: loaded,
            packages_delivered: delivered.clone(),
        };
        proof {
            assert(step@ == planned[stops as int]);
            let grown = schedule_view(schedule@.push(step));
            let wanted = before + planned;
            assert(grown.len() == wanted.len());
            assert forall|k: int| 0 <= k < grown.len() implies grown[k] == wanted[k] by {
                if k < before.len() + stops {
                    assert(grown[k] == schedule_view(schedule@)[k]);
                    assert((before + planned.take(stops as int))[k] == wanted[k]);
                }
            }
            assert(grown =~= wanted);
        }
        schedule.push(step);
        Ok((schedule, picked, delivered))
    }

    /// The time at which the last movement ends, 0 where there is none.
    pub fn get_longest_distance_in_movements(movements: &Vec<Movement>) -> (longest: u64)
        ensures
            longest == makespan(schedule_view(movements@)),
    {
        let ghost all = schedule_view(movements@);
        let mut longest: u64 = 0;
        let mut i: usize = 0;
        while i < movements.len()
            invariant
                i <= movements.len(),
                all == schedule_view(movements@),
                longest == makespan(all.take(i as int)),
            decreases movements.len() - i,
        {
            assert(all.take(i + 1).drop_last() =~= all.take(i as int));
            if movements[i].end_time > longest {
                longest = movements[i].end_time;
            }
            i += 1;
        }
        assert(all.take(movements.len() as int) =~= all);
        longest
    }

    /// How many different trains move in the schedule.
    pub fn get_number_of_trains(movements: &Vec<Movement>) -> (count: usize)
        ensures
            count == trains_used(schedule_view(movements@)).len(),
    {
        let ghost all = schedule_view(movements@);
        let mut seen: HashSet<usize> = HashSet::new();
        let mut i: usize = 0;
        assert(trains_used(all.take(0)) =~= Set::<usize>::empty());
        while i < movements.len()
            invariant
                i <= movements.len(),
                all == schedule_view(movements@),
                seen@ == trains_used(all.take(i as int)),
            decreases movements.len() - i,
        {
            proof {
                let now = all.take(i as int);
                let next = all.take(i + 1);
                assert forall|t: usize| trains_used(next).contains(t) <==> trains_used(now).insert(
                    all[i as int].train,
                ).contains(t) by {
                    if trains_used(next).contains(t) {
                        let k = choose|k: int| 0 <= k < next.len() && (#[trigger] next[k]).train == t;
                        if k < i {
                            assert(now[k].train == t);
                        }
                    }
                    if trains_used(now).contains(t) {
                        let k = choose|k: int| 0 <= k < now.len() && (#[trigger] now[k]).train == t;
                        assert(next[k].train == t);
                    }
                    if t == all[i as int].train {
                        assert(next[i as int].train == t);
                    }
                }
                assert(trains_used(next) =~= trains_used(now).insert(all[i as int].train));
            }
            if !seen.contains(&movements[i].train) {
                seen.insert(movements[i].train);
            }
            i += 1;
        }
        assert(all.take(movements.len() as int) =~= all);
        seen.len()
    }

    /// The answers to all shortest-path queries, as the graph remembers them.
    pub open spec fn tables(&self) -> Tables {
        Seq::new(self.graph.cache@.len(), |a: int| self.graph.cached(a).unwrap())
    }

    /// The graph is in order and has answered the queries from every
    /// station, and the memory of schedules is in order.
    pub open spec fn ready(&self) -> bool {
        self.graph.wf() && self.graph.complete() && self.cache.wf()
    }

    /// The answers of a graph that is ready cover all its stations.
    pub proof fn lemma_tables_ok(&self)
        requires
            self.ready(),
        ensures
            tables_ok(self.tables(), self.graph.edges().len()),
    {
        let n = self.graph.edges().len();
        let tables = self.tables();
        assert forall|a: int| 0 <= a < n implies (#[trigger] tables[a]).len() == n && forall|b: int|
            0 <= b < n ==> (#[trigger] tables[a][b]).from == a && tables[a][b].to == b by {
            assert(self.graph.cache@[a] is Some);
            assert(self.graph.cached(a) matches Some(t) && table_answers(self.graph.edges(), a, t));
        }
    }

    /// Marks the packages of `picked` as carried by `train` and those of
    /// `delivered` as delivered by it.
    pub fn apply_custody(
        packages: &mut Vec<Package>,
        train: usize,
        picked: &Vec<usize>,
        delivered: &Vec<usize>,
    )
        requires
            forall|i: int| 0 <= i < picked@.len() ==> picked@[i] < old(packages)@.len(),
            forall|i: int| 0 <= i < delivered@.len() ==> delivered@[i] < old(packages)@.len(),
        ensures
            final(packages)@.len() == old(packages)@.len(),
            forall|q: usize|
                q < old(packages)@.len() ==> #[trigger] final(packages)@[q as int] == handed(
                    old(packages)@[q as int],
                    train,
                    picked@.contains(q),
                    delivered@.contains(q),
                ),
    {
        let ghost before = packages@;
        let mut i: usize = 0;
        while i < picked.len()
            invariant
                i <= picked@.len(),
                packages@.len() == before.len(),
                forall|k: int| 0 <= k < picked@.len() ==> picked@[k] < before.len(),
                forall|q: usize|
                    q < before.len() ==> #[trigger] packages@[q as int] == handed(
                        before[q as int],
                        train,
                        picked@.take(i as int).contains(q),
                        false,
                    ),
            decreases picked@.len() - i,
        {
            let id = picked[i];
            let was = packages[id];
            let ghost sofar = packages@;
            packages.set(
                id,
                Package {
                    weight: was.weight,
                    from: was.from,
                    to: was.to,
                    status: Custody::Carried(train),
                },
            );
            proof {
                let now = picked@.take(i as int);
                let next = picked@.take(i + 1);
                assert(next =~= now.push(id));
                assert forall|q: usize| q < before.len() implies #[trigger] packages@[q as int]
                    == handed(before[q as int], train, next.contains(q), false) by {
                    assert(sofar[q as int] == handed(before[q as int], train, now.contains(q), false));
                    if q == id {
                        assert(next[i as int] == id);
                    } else {
                        if next.contains(q) {
                            let k = choose|k: int| 0 <= k < next.len() && next[k] == q;
                            assert(now[k] == q);
                        }
                        if now.contains(q) {
                            let k = choose|k: int| 0 <= k < now.len() && now[k] == q;
                            assert(next[k] == q);
                        }
                    }
                }
            }
            i += 1;
        }
        assert(picked@.take(picked@.len() as int) =~= picked@);
        let mut j: usize = 0;
        assert(delivered@.take(0) =~= Seq::<usize>::empty());
        while j < delivered.len()
            invariant
                j <= delivered@.len(),
                packages@.len() == before.len(),
                forall|k: int| 0 <= k < delivered@.len() ==> delivered@[k] < before.len(),
                forall|q: usize|
                    q < before.len() ==> #[trigger] packages@[q as int] == handed(
                        before[q as int],
                        train,
                        picked@.contains(q),
                        delivered@.take(j as int).contains(q),
                    ),
            decreases delivered@.len() - j,
        {
            let id = delivered[j];
            let was = packages[id];
            let ghost sofar = packages@;
            packages.set(
                id,
                Package {
                    weight: was.weight,
                    from: was.from,
                    to: was.to,
                    status: Custody::Delivered(train),
                },
            );
            proof {
                let now = delivered@.take(j as int);
                let next = delivered@.take(j + 1);
                assert(next =~= now.push(id));
                assert forall|q: usize| q < before.len() implies #[trigger] packages@[q as int]
                    == handed(before[q as int], train, picked@.contains(q), next.contains(q)) by {
                    assert(sofar[q as int] == handed(
                        before[q as int],
                        train,
                        picked@.contains(q),
                        now.contains(q),
                    ));
                    if q == id {
                        assert(next[j as int] == id);
                    } else {
                        if next.contains(q) {
                            let k = choose|k: int| 0 <= k < next.len() && next[k] == q;
                            assert(now[k] == q);
                        }
                        if now.contains(q) {
                            let k = choose|k: int| 0 <= k < now.len() && now[k] == q;
                            assert(next[k] == q);
                        }
                    }
                }
            }
            j += 1;
        }
        assert(delivered@.take(delivered@.len() as int) =~= delivered@);
    }

    /// Takes `action` in the world given and returns the world that results,
    /// or `None` where the action changes nothing: the train would go on
    /// with a package but is where it wants to be.
    pub fn advance(
        &self,
        trains: &Vec<Train>,
        packages: &Vec<Package>,
        movements: &Vec<Movement>,
        action: Action,
    ) -> (next: Result<Option<(Vec<Train>, Vec<Package>, Vec<Movement>)>, ConfigError>)
        requires
            self.ready(),
            world_wf(self.graph.edges().len(), fleet_view(trains@), packages@),
            action_valid(fleet_view(trains@), packages@, action),
        ensures
            step(
                self.tables(),
                World {
                    trains: fleet_view(trains@),
                    packages: packages@,
                    movements: schedule_view(movements@),
                },
                action,
            ) == match next {
                Ok(Some((t, p, m))) => Ok(
                    Some(World { trains: fleet_view(t@), packages: p@, movements: schedule_view(m@) }),
                ),
                Ok(None) => Ok(None),
                Err(e) => Err(e),
            },
            next matches Ok(Some((t, p, m))) ==> world_wf(self.graph.edges().len(), fleet_view(t@), p@)
                && remaining(p@) < remaining(packages@),
    {
        proof {
            self.lemma_tables_ok();
            let w = World {
                trains: fleet_view(trains@),
                packages: packages@,
                movements: schedule_view(movements@),
            };
            if step(self.tables(), w, action) matches Ok(Some(_)) {
                lemma_step_keeps_order(self.tables(), self.graph.edges().len(), w, action);
                lemma_step_progress(self.tables(), self.graph.edges().len(), w, action);
            }
        }
        let capacity = trains[action.train].capacity;
        let start = trains[action.train].start;
        let travelled = trains[action.train].total_distance;
        let pkg = packages[action.package];
        let here = trains[action.train].current_location;
        let ghost fleet = fleet_view(trains@);
        assert(fleet[action.train as int] == trains@[action.train as int]@);
        assert(package_ok(self.graph.edges().len(), trains@.len(), pkg));
        let committed_to = pkg.status == Custody::AssignedForPickup(action.train);
        let to_origin = self.graph.route(here, pkg.from);
        let route: &Destination = if action.to_pick_up {
            to_origin
        } else if committed_to {
            if to_origin.cumulative_distance == UNREACHABLE {
                return Err(ConfigError::Unreachable);
            }
            if to_origin.cumulative_distance > 0 {
                to_origin
            } else {
                self.graph.route(here, pkg.to)
            }
        } else {
            self.graph.route(here, pkg.to)
        };
        if route.cumulative_distance == UNREACHABLE {
            return Err(ConfigError::Unreachable);
        }
        assert(target_route(self.tables(), fleet, packages@, action) == Ok::<_, ConfigError>(route@));
        let copy = clone_schedule(movements);
        let (schedule, picked, delivered) = match Self::move_train(
            action.train,
            route,
            packages,
            copy,
        ) {
            Ok(moved) => moved,
            Err(e) => {
                return Err(e);
            },
        };
        let taken = Package {
            weight: pkg.weight,
            from: pkg.from,
            to: pkg.to,
            status: Custody::AssignedForPickup(action.train),
        };
        if route.cumulative_distance == 0 || route.to == route.from {
            if !action.to_pick_up {
                return Ok(None);
            }
            let mut next_packages = packages.clone();
            next_packages.set(action.package, taken);
            assert(next_packages@ =~= committed(packages@, action));
            let mut next_trains = clone_fleet(trains);
            let relisted_train = Train {
                capacity,
                start,
                current_location: here,
                total_distance: travelled,
                packages_to_pick_up: Self::get_packages_to_pick_up(action.train, &next_packages),
                packages_picked_up: Self::get_packages_picked_up(action.train, &next_packages),
                packages_delivered: Self::get_packages_delivered(action.train, &next_packages),
            };
            assert(relisted_train@ == relisted(
                fleet[action.train as int],
                next_packages@,
                action.train,
            ));
            next_trains.set(action.train, relisted_train);
            assert(fleet_view(next_trains@) =~= fleet.update(action.train as int, relisted_train@));
            return Ok(Some((next_trains, next_packages, schedule)));
        }
        let total = match travelled.checked_add(route.cumulative_distance) {
            Some(total) => total,
            None => {
                return Err(ConfigError::Overflow);
            },
        };
        let mut next_packages = packages.clone();
        proof {
            crate::world::lemma_pickups_members(packages@, action.train, packages@.len() as int);
            crate::world::lemma_deliveries_members(packages@, action.train, route.to);
            assert(next_packages@ =~= packages@);
            assert forall|i: int| 0 <= i < picked@.len() implies picked@[i] < packages@.len() by {
                assert(picked@.contains(picked@[i]));
            }
            assert forall|i: int| 0 <= i < delivered@.len() implies delivered@[i]
                < packages@.len() by {
                assert(delivered@.contains(delivered@[i]));
            }
        }
        Self::apply_custody(&mut next_packages, action.train, &picked, &delivered);
        proof {
            assert forall|q: int| 0 <= q < packages@.len() implies next_packages@[q] == after_move(
                packages@,
                action.train,
                route.to,
            )[q] by {
                lemma_lists_are_move(packages@, action.train, route.to, q as usize);
                assert(next_packages@[(q as usize) as int] == handed(
                    packages@[q],
                    action.train,
                    picked@.contains(q as usize),
                    delivered@.contains(q as usize),
                ));
            }
            assert(next_packages@ =~= after_move(packages@, action.train, route.to));
        }
        if action.to_pick_up {
            next_packages.set(action.package, taken);
            assert(next_packages@ =~= committed(
                after_move(packages@, action.train, route.to),
                action,
            ));
        }
        let mut next_trains = clone_fleet(trains);
        let arrived = Train {
            capacity,
            start,
            current_location: route.to,
            total_distance: total,
            packages_to_pick_up: Self::get_packages_to_pick_up(action.train, &next_packages),
            packages_picked_up: Self::get_packages_picked_up(action.train, &next_packages),
            packages_delivered: Self::get_packages_delivered(action.train, &next_packages),
        };
        assert(arrived@ == relisted(
            TrainView {
                current_location: route.to,
                total_distance: total,
                ..fleet[action.train as int]
            },
            next_packages@,
            action.train,
        ));
        next_trains.set(action.train, arrived);
        assert(fleet_view(next_trains@) =~= fleet.update(action.train as int, arrived@));
        Ok(Some((next_trains, next_packages, schedule)))
    }

    /// The key under which the schedule for a world is remembered.
    pub fn get_cache_key(trains: &Vec<Train>, packages: &Vec<Package>) -> (key: Vec<usize>)
        ensures
            key@ == cache_key(fleet_view(trains@), packages@),
    {
        let mut key: Vec<usize> = Vec::new();
        key.push(trains.len());
        let mut t: usize = 0;
        while t < trains.len()
            invariant
                t <= trains.len(),
                key@ == seq![trains@.len() as usize] + locations_upto(fleet_view(trains@), t as int),
            decreases trains.len() - t,
        {
            key.push(trains[t].current_location);
            t += 1;
        }
        let ghost head = key@;
        let mut p: usize = 0;
        while p < packages.len()
            invariant
                p <= packages.len(),
                key@ == head + custody_upto(packages@, p as int),
            decreases packages.len() - p,
        {
            let (stage, train): (usize, usize) = match packages[p].status {
                Custody::Unassigned => (0, 0),
                Custody::AssignedForPickup(t) => (1, t),
                Custody::Carried(t) => (2, t),
                Custody::Delivered(t) => (3, t),
            };
            key.push(stage);
            key.push(train);
            p += 1;
        }
        key
    }

    /// All actions open in a world, in the order in which the search tries them.
    pub fn get_actions(trains: &Vec<Train>, packages: &Vec<Package>) -> (queue: Vec<Action>)
        requires
            forall|t: int|
                0 <= t < trains@.len() ==> lists_ok(
                    packages@,
                    t as usize,
                    #[trigger] fleet_view(trains@)[t],
                ),
        ensures
            queue@ == actions(fleet_view(trains@), packages@),
    {
        let mut queue: Vec<Action> = Vec::new();
        let mut p: usize = 0;
        while p < packages.len()
            invariant
                p <= packages.len(),
                forall|t: int|
                    0 <= t < trains@.len() ==> lists_ok(
                        packages@,
                        t as usize,
                        #[trigger] fleet_view(trains@)[t],
                    ),
                queue@ == commit_actions(fleet_view(trains@), packages@, p as int),
            decreases packages.len() - p,
        {
            let ghost done = queue@;
            let ghost open = commits_for(fleet_view(trains@), packages@, p as int);
            if packages[p].status == Custody::Unassigned {
                let capable_trains = Self::get_capable_trains(packages[p], packages, trains);
                let mut k: usize = 0;
                while k < capable_trains.len()
                    invariant
                        k <= capable_trains.len(),
                        p < packages.len(),
                        open.len() == capable_trains@.len(),
                        open == capable_trains@.map_values(
                            |t: usize| Action { train: t, package: p, to_pick_up: true },
                        ),
                        queue@ == done + open.take(k as int),
                    decreases capable_trains.len() - k,
                {
                    let action = Action { train: capable_trains[k], package: p, to_pick_up: true };
                    assert(open[k as int] == action);
                    assert(open.take(k + 1) =~= open.take(k as int).push(action));
                    queue.push(action);
                    k += 1;
                }
                assert(open.take(open.len() as int) =~= open);
            }
            assert(queue@ =~= done + open);
            p += 1;
        }
        let ghost commits = queue@;
        let mut t: usize = 0;
        while t < trains.len()
            invariant
                t <= trains.len(),
                queue@ == commits + advance_actions(packages@, t as int),
            decreases trains.len() - t,
        {
            let ghost done = queue@;
            let mut p: usize = 0;
            while p < packages.len()
                invariant
                    p <= packages.len(),
                    queue@ == done + advances_for(packages@, t, p as int),
                decreases packages.len() - p,
            {
                if packages[p].status.is_held_by(t) {
                    queue.push(Action { train: t, package: p, to_pick_up: false });
                }
                p += 1;
            }
            assert(queue@ =~= commits + advance_actions(packages@, t + 1));
            t += 1;
        }
        queue
    }

    /// Whether schedule `a` ends earlier than schedule `b`, or at the same
    /// time with fewer trains.
    pub fn is_preferred(a: &Vec<Movement>, b: &Vec<Movement>) -> (yes: bool)
        ensures
            yes == preferred(schedule_view(a@), schedule_view(b@)),
    {
        let end_a = Self::get_longest_distance_in_movements(a);
        let end_b = Self::get_longest_distance_in_movements(b);
        if end_a != end_b {
            return end_a < end_b;
        }
        Self::get_number_of_trains(a) < Self::get_number_of_trains(b)
    }

    /// The schedule for the world given: the one remembered for it, or else
    /// the best that any action open in it leads to, or, where no action
    /// changes it, the movements made so far. What is found is remembered.
    ///
    /// A remembered schedule is returned as it was found, with the movements
    /// that led to the world then, whatever `movements` holds now.
    pub fn calculate(
        &mut self,
        trains: Vec<Train>,
        packages: Vec<Package>,
        movements: Vec<Movement>,
    ) -> (found: Result<Vec<Movement>, ConfigError>)
        requires
            old(self).ready(),
            world_wf(old(self).graph.edges().len(), fleet_view(trains@), packages@),
        ensures
            final(self).ready(),
            final(self).graph == old(self).graph,
            final(self).trains == old(self).trains,
            final(self).packages == old(self).packages,
            explore(
                old(self).tables(),
                old(self).cache.memo(),
                World {
                    trains: fleet_view(trains@),
                    packages: packages@,
                    movements: schedule_view(movements@),
                },
            ) == (final(self).cache.memo(), outcome(found)),
        decreases remaining(packages@),
    {
        let ghost tables = self.tables();
        let ghost w = World {
            trains: fleet_view(trains@),
            packages: packages@,
            movements: schedule_view(movements@),
        };
        let ghost memo = self.cache.memo();
        let key = Self::get_cache_key(&trains, &packages);
        if let Some(known) = self.cache.get(&key) {
            return Ok(clone_schedule(known));
        }
        let queue = Self::get_actions(&trains, &packages);
        let mut best: Option<Vec<Movement>> = None;
        let mut i: usize = 0;
        while i < queue.len()
            invariant
                i <= queue.len(),
                self.ready(),
                self.graph == old(self).graph,
                self.trains == old(self).trains,
                self.packages == old(self).packages,
                tables == self.tables(),
                tables == old(self).tables(),
                memo == old(self).cache.memo(),
                !memo.contains_key(cache_key(fleet_view(trains@), packages@)),
                w == (World {
                    trains: fleet_view(trains@),
                    packages: packages@,
                    movements: schedule_view(movements@),
                }),
                world_wf(self.graph.edges().len(), fleet_view(trains@), packages@),
                queue@ == actions(fleet_view(trains@), packages@),
                try_all(
                    tables,
                    self.cache.memo(),
                    w,
                    queue@,
                    i as nat,
                    match best {
                        Some(b) => Some(schedule_view(b@)),
                        None => None,
                    },
                ) == try_all(tables, memo, w, queue@, 0, None),
            decreases queue.len() - i,
        {
            proof {
                crate::search::lemma_actions_valid(fleet_view(trains@), packages@, i as int);
                self.lemma_tables_ok();
            }
            match self.advance(&trains, &packages, &movements, queue[i]) {
                Err(e) => {
                    return Err(e);
                },
                Ok(None) => {},
                Ok(Some((next_trains, next_packages, next_movements))) => {
                    proof {
                        lemma_step_keeps_order(tables, self.graph.edges().len(), w, queue@[i as int]);
                        lemma_step_progress(tables, self.graph.edges().len(), w, queue@[i as int]);
                    }
                    match self.calculate(next_trains, next_packages, next_movements) {
                        Err(e) => {
                            return Err(e);
                        },
                        Ok(all) => {
                            best = match best {
                                None => Some(all),
                                Some(b) => if Self::is_preferred(&all, &b) {
                                    Some(all)
                                } else {
                                    Some(b)
                                },
                            };
                        },
                    }
                },
            }
            i += 1;
        }
        let result = match best {
            Some(b) => b,
            None => movements,
        };
        let copy = clone_schedule(&result);
        self.cache.insert(key, copy);
        Ok(result)
    }

    /// Builds the graph, the fleet and the cargo from `input`, and answers
    /// all shortest-path queries. Fails where `input` names a station that
    /// the graph does not have, or more stations than a graph can have.
    pub fn new(input: Input) -> (made: Result<Navigation, ConfigError>)
        ensures
            match made {
                Ok(nav) => {
                    &&& input.valid()
                    &&& nav.ready()
                    &&& nav.graph.edges().len() == input.stations
                    &&& nav.graph.edges() == built_edges(
                        input.stations,
                        input.edges@,
                        input.edges@.len() as int,
                    )
                    &&& fleet_view(nav.trains@) == fleet_of(input.trains@)
                    &&& nav.packages@ == cargo_of(input.packages@)
                    &&& nav.cache.memo() == Map::<Seq<usize>, Seq<MovementView>>::empty()
                    &&& world_wf(input.stations as nat, fleet_view(nav.trains@), nav.packages@)
                },
                Err(e) => !input.valid() && e == if input.stations > MAX_STATIONS {
                    ConfigError::TooManyStations
                } else {
                    ConfigError::UnknownStation
                },
            },
    {
        let mut graph = match Graph::new(input.stations) {
            Ok(graph) => graph,
            Err(e) => {
                return Err(e);
            },
        };
        proof {
            let none = built_edges(input.stations, input.edges@, 0);
            assert forall|a: int| 0 <= a < input.stations implies #[trigger] graph.edges()[a]
                =~= none[a] by {}
            assert(graph.edges() =~= none);
        }
        let mut i: usize = 0;
        while i < input.edges.len()
            invariant
                i <= input.edges@.len(),
                input.stations <= MAX_STATIONS,
                graph.wf(),
                graph.edges().len() == input.stations,
                graph.edges() == built_edges(input.stations, input.edges@, i as int),
                forall|k: int|
                    0 <= k < i ==> (#[trigger] input.edges@[k]).0 < input.stations
                        && input.edges@[k].1 < input.stations,
            decreases input.edges@.len() - i,
        {
            let (from, to, distance) = input.edges[i];
            proof {
                if from < input.stations && to < input.stations {
                    crate::graph::lemma_with_edge(graph.edges(), from, to, distance as u64);
                }
            }
            match graph.add_edge(from, to, distance) {
                Ok(_) => {},
                Err(e) => {
                    assert(!(input.edges@[i as int].0 < input.stations && input.edges@[i as int].1
                        < input.stations));
                    return Err(e);
                },
            }
            i += 1;
        }
        let mut trains: Vec<Train> = Vec::new();
        let mut t: usize = 0;
        while t < input.trains.len()
            invariant
                t <= input.trains@.len(),
                input.stations <= MAX_STATIONS,
                trains@.len() == t,
                forall|k: int| 0 <= k < t ==> (#[trigger] input.trains@[k]).1 < input.stations,
                forall|k: int| 0 <= k < t ==> (#[trigger] trains@[k])@ == fleet_of(input.trains@)[k],
            decreases input.trains@.len() - t,
        {
            let (capacity, start) = input.trains[t];
            if start >= input.stations {
                assert(!(input.trains@[t as int].1 < input.stations));
                return Err(ConfigError::UnknownStation);
            }
            trains.push(Train::new(capacity, start));
            t += 1;
        }
        assert(fleet_view(trains@) =~= fleet_of(input.trains@));
        let mut packages: Vec<Package> = Vec::new();
        let mut p: usize = 0;
        while p < input.packages.len()
            invariant
                p <= input.packages@.len(),
                input.stations <= MAX_STATIONS,
                packages@.len() == p,
                forall|k: int|
                    0 <= k < p ==> (#[trigger] input.packages@[k]).1 < input.stations
                        && input.packages@[k].2 < input.stations,
                forall|k: int| 0 <= k < p ==> #[trigger] packages@[k] == cargo_of(input.packages@)[k],
            decreases input.packages@.len() - p,
        {
            let (weight, from, to) = input.packages[p];
            if from >= input.stations || to >= input.stations {
                assert(!(input.packages@[p as int].1 < input.stations && input.packages@[p as int].2
                    < input.stations));
                return Err(ConfigError::UnknownStation);
            }
            packages.push(Package::new(weight, from, to));
            p += 1;
        }
        assert(packages@ =~= cargo_of(input.packages@));
        graph.prepare();
        proof {
            let views = fleet_view(trains@);
            assert forall|t: int| 0 <= t < views.len() implies load(packages@, t as usize) <= (
            #[trigger] views[t]).capacity && lists_ok(packages@, t as usize, views[t]) by {
                crate::package::lemma_load_of_free(packages@, t as usize, packages@.len() as int);
                crate::world::lemma_lists_of_free(packages@, t as usize, packages@.len() as int);
            }
        }
        Ok(Navigation { graph, trains, packages, cache: ScheduleCache::new() })
    }

    /// The answers of a graph that is ready answer every query.
    pub proof fn lemma_tables_answer(&self)
        requires
            self.ready(),
        ensures
            tables_answer(self.graph.edges(), self.tables()),
    {
        let n = self.graph.edges().len();
        let tables = self.tables();
        assert forall|a: int| 0 <= a < n implies (#[trigger] tables[a]).len() == n && forall|b: int|
            0 <= b < n ==> (#[trigger] tables[a][b]).answers(self.graph.edges(), a, b) by {
            assert(self.graph.cache@[a] is Some);
            assert(self.graph.cached(a) matches Some(t) && table_answers(self.graph.edges(), a, t));
        }
    }

    /// The edges alone decide the answers to all shortest-path queries.
    pub proof fn lemma_tables_fixed(&self)
        requires
            self.ready(),
        ensures
            self.tables() == all_paths(self.graph.edges()),
    {
        let n = self.graph.edges().len();
        assert forall|a: int| 0 <= a < n implies #[trigger] self.tables()[a] == all_paths(
            self.graph.edges(),
        )[a] by {
            assert(self.graph.cache@[a] is Some);
            self.graph.lemma_cached_is_fixed(a);
        }
        assert(self.tables() =~= all_paths(self.graph.edges()));
    }

    /// Where no other station is at distance 0 from the station that a
    /// package is bound for, and no package is bound for where it lies, no
    /// package gets stuck.
    pub proof fn lemma_tables_clear(&self, packages: Seq<Package>)
        requires
            self.ready(),
            forall|p: int|
                0 <= p < packages.len() ==> (#[trigger] packages[p]).from != packages[p].to
                    && packages[p].from < self.graph.edges().len() && packages[p].to
                    < self.graph.edges().len() && alone(self.graph.edges(), packages[p].to as int),
        ensures
            clear(self.tables(), packages),
    {
        let edges = self.graph.edges();
        let tables = self.tables();
        self.lemma_tables_answer();
        assert forall|a: int|
            0 <= a < tables.len() && a < tables[a].len() && (#[trigger] tables[a][a]).found()
            implies tables[a][a].cumulative_distance
            == 0 by {
            assert(tables[a][a].answers(edges, a, a));
            assert(tables[a][a].hops() =~= Seq::<Route>::empty());
        }
        assert forall|p: int| 0 <= p < packages.len() implies clear_for(
            tables,
            (#[trigger] packages[p]).from,
            packages[p].to,
        ) by {
            let from = packages[p].from as int;
            let to = packages[p].to as int;
            assert(alone(edges, to));
            assert forall|s: int|
                0 <= s < tables.len() && s != to && to < tables[s].len() && (
                #[trigger] tables[s][to]).found() implies tables[s][to].cumulative_distance > 0 by {
                assert(tables[s][to].answers(edges, s, to));
                assert(lower_bound(edges, s, to, 1));
                assert(connects(edges, s, to, tables[s][to].hops()));
            }
            if tables[to][from].found() {
                assert(tables[to][from].answers(edges, to, from));
                lemma_reversed_walk(edges, to, tables[to][from].hops());
                assert(lower_bound(edges, from, to, 1));
                assert(connects(edges, from, to, reversed(to, tables[to][from].hops())));
            }
        }
    }
}

impl Navigation {
    /// Where no other station is at distance 0 from the station where a
    /// package lies, a train at distance 0 from a package stands where it lies.
    pub proof fn lemma_tables_origins(&self, packages: Seq<Package>)
        requires
            self.ready(),
            forall|p: int|
                0 <= p < packages.len() ==> (#[trigger] packages[p]).from
                    < self.graph.edges().len() && alone(self.graph.edges(), packages[p].from as int),
        ensures
            origins_clear(self.tables(), packages),
    {
        let edges = self.graph.edges();
        let tables = self.tables();
        self.lemma_tables_answer();
        assert forall|p: int, s: int|
            0 <= p < packages.len() && 0 <= s < tables.len() && s != packages[p].from
                && packages[p].from < tables[s].len() && (
            #[trigger] tables[s][packages[p].from as int]).found()
            implies tables[s][packages[p].from as int].cumulative_distance
            > 0 by {
            let from = packages[p].from as int;
            assert(alone(edges, from));
            assert(tables[s][from].answers(edges, s, from));
            assert(lower_bound(edges, s, from, 1));
            assert(connects(edges, s, from, tables[s][from].hops()));
        }
    }
}

/// The world before the first move.
pub open spec fn first_world(input: Input) -> World {
    World {
        trains: fleet_of(input.trains@),
        packages: cargo_of(input.packages@),
        movements: Seq::empty(),
    }
}

/// What the scheduler has to say of an instance: the movements, and the
/// packages that they do not hand over. Where `undelivered` is not empty,
/// the instance could not be served in full.
pub struct Plan {
    pub movements: Vec<Movement>,
    pub undelivered: Vec<usize>,
}

/// The view of what `compute_schedule` returns.
pub open spec fn planned(found: Result<Plan, ConfigError>) -> Result<Seq<MovementView>, ConfigError> {
    match found {
        Ok(plan) => Ok(schedule_view(plan.movements@)),
        Err(e) => Err(e),
    }
}

/// The schedule for `input`: the graph is built, all shortest paths are
/// computed, and the search starts from the world in which every train
/// waits at its station and nobody has any package.
///
/// The movements of each train follow one another without a gap, along
/// the edges of the graph, and after each movement no train has more on
/// board than it can carry. Where no package is bound for where it lies and
/// from a package's destination no other station is at distance 0, the
/// schedule hands over every package that some train could carry, and
/// `undelivered` names the packages that are too heavy for every train.
/// Where also from a package's origin no other station is at distance 0,
/// each package handed over is loaded once, where it lies, and handed over
/// once, where it is bound for, by the train that loaded it. The search succeeds where every station can be
/// reached from every station and the times fit in 64 bits.
pub fn compute_schedule(input: Input) -> (found: Result<Plan, ConfigError>)
    ensures
        !input.valid() ==> found is Err && found->Err_0 == if input.stations > MAX_STATIONS {
            ConfigError::TooManyStations
        } else {
            ConfigError::UnknownStation
        },
        input.valid() ==> explore(
            all_paths(built_edges(input.stations, input.edges@, input.edges@.len() as int)),
            Map::empty(),
            first_world(input),
        ).1 == planned(found),
        found matches Ok(plan) ==> within(
            schedule_view(plan.movements@),
            weights_list(cargo_of(input.packages@)),
            capacities(fleet_of(input.trains@)),
        ),
        found matches Ok(plan) ==> contiguous(schedule_view(plan.movements@)) && itinerary(
            built_edges(input.stations, input.edges@, input.edges@.len() as int),
            starts_of(fleet_of(input.trains@)),
            schedule_view(plan.movements@),
        ) && plan.undelivered@ == undelivered_upto(
            schedule_view(plan.movements@),
            input.packages@.len() as int,
        ),
        input.regular() ==> (found matches Ok(plan) ==> serves(
            schedule_view(plan.movements@),
            carriable(fleet_of(input.trains@), cargo_of(input.packages@)),
        ) && forall|p: usize|
            plan.undelivered@.contains(p) <==> p < input.packages@.len() && !can_be_carried(
                fleet_of(input.trains@),
                cargo_of(input.packages@),
                p as int,
            )),
        input.regular() && input.loads_in_place() ==> (found matches Ok(plan) ==> books(
            schedule_view(plan.movements@),
            ends_of(cargo_of(input.packages@)),
            carriable(fleet_of(input.trains@), cargo_of(input.packages@)),
        )),
        input.valid() && connected(
            built_edges(input.stations, input.edges@, input.edges@.len() as int),
        ) ==> !(found matches Err(ConfigError::Unreachable)),
        input.valid() && 3 * input.packages@.len() * (input.stations * MAX_EDGE) <= u64::MAX
            ==> !(found matches Err(ConfigError::Overflow)),
        input.valid() && connected(
            built_edges(input.stations, input.edges@, input.edges@.len() as int),
        ) && 3 * input.packages@.len() * (input.stations * MAX_EDGE) <= u64::MAX ==> found is Ok,
{
    let count = input.packages.len();
    let ghost stations: nat = input.stations as nat;
    let ghost cargo: nat = input.packages@.len();
    let mut nav = match Navigation::new(input) {
        Ok(nav) => nav,
        Err(e) => {
            return Err(e);
        },
    };
    let trains = nav.trains.clone();
    let packages = nav.packages.clone();
    let ghost tables = nav.tables();
    let ghost w = first_world(input);
    let ghost edges = built_edges(input.stations, input.edges@, input.edges@.len() as int);
    proof {
        nav.lemma_tables_ok();
        assert(fleet_view(trains@) =~= w.trains);
        assert(packages@ =~= w.packages);
        assert(schedule_view(Seq::<Movement>::empty()) =~= Seq::<MovementView>::empty());
        assert forall|a: int, b: int|
            0 <= a < input.stations && 0 <= b < input.stations implies (
        #[trigger] tables[a][b]).answers(edges, a, b) by {
            assert(nav.graph.cache@[a] is Some);
            assert(nav.graph.cached(a) matches Some(t) && table_answers(nav.graph.edges(), a, t));
        }
        lemma_explore_contiguous(tables, Map::empty(), w);
        assert forall|t: int| 0 <= t < w.trains.len() implies #[trigger] tallied_for(w, t) by {
            crate::world::lemma_lists_of_free(w.packages, t as usize, w.packages.len() as int);
        }
        assert forall|k: int, t: int|
            0 <= k <= w.movements.len() && 0 <= t < capacities(w.trains).len() implies #[trigger] on_board(
            w.movements.take(k),
            weights_list(w.packages),
            t as usize,
        ) <= capacities(w.trains)[t] by {
            assert(w.movements.take(k) =~= Seq::<MovementView>::empty());
        }
        lemma_explore_within(tables, input.stations as nat, Map::empty(), w);
        nav.lemma_tables_answer();
        assert(in_place(w));
        lemma_explore_itinerary(edges, tables, Map::empty(), w);
        lemma_explore_errs(tables, Map::empty(), w);
        if 3 * cargo * (stations * MAX_EDGE) <= u64::MAX {
            let limit = stations * MAX_EDGE as nat;
            assert forall|a: int, b: int|
                0 <= a < tables.len() && 0 <= b < tables[a].len() && (
                #[trigger] tables[a][b]).found() implies tables[a][b].cumulative_distance <= limit
                && hops_len(tables[a][b].hops()) == tables[a][b].cumulative_distance by {
                assert(tables[a][b].answers(edges, a, b));
                let hops = tables[a][b].hops().len();
                assert(hops * MAX_EDGE <= stations * MAX_EDGE) by (nonlinear_arith)
                    requires
                        hops <= stations,
                ;
            }
            lemma_remaining_of_free(w.packages);
            let left = remaining(w.packages);
            let needed = reserve(w.packages, limit);
            assert(needed == left * limit) by {
                reveal(reserve);
            }
            assert(needed == 3 * cargo * (stations * MAX_EDGE)) by (nonlinear_arith)
                requires
                    needed == left * limit,
                    left == 3 * cargo,
                    limit == stations * MAX_EDGE,
            ;
            assert forall|t: int| 0 <= t < w.trains.len() implies #[trigger] has_time(
                w,
                limit,
                t,
            ) by {}
            assert(in_time(w, limit));
            lemma_explore_in_time(tables, stations, limit, Map::empty(), w);
        }
        if connected(edges) {
            assert forall|a: int, b: int|
                0 <= a < tables.len() && 0 <= b < tables[a].len() implies (
            #[trigger] tables[a][b]).found() by {
                assert(tables[a][b].answers(edges, a, b));
                assert(reachable(edges, a, b));
            }
            lemma_explore_finds_way(tables, input.stations as nat, Map::empty(), w);
        }
        nav.lemma_tables_fixed();
        if input.regular() {
            let wanted = carriable(w.trains, w.packages);
            assert forall|p: int| 0 <= p < w.packages.len() implies (#[trigger] w.packages[p]).from
                != w.packages[p].to && w.packages[p].from < edges.len() && w.packages[p].to
                < edges.len() && alone(edges, w.packages[p].to as int) by {
                assert(input.packages@[p].1 != input.packages@[p].2);
            }
            nav.lemma_tables_clear(w.packages);
            assert forall|p: usize| !(#[trigger] delivered_in(w.movements).contains(p)) by {}
            assert(on_track(w, wanted));
            lemma_explore_serves(tables, input.stations as nat, wanted, Map::empty(), w);
            if input.loads_in_place() {
                assert forall|p: int| 0 <= p < w.packages.len() implies (
                #[trigger] w.packages[p]).from < edges.len() && alone(
                    edges,
                    w.packages[p].from as int,
                ) by {
                    assert(alone(edges, input.packages@[p].1 as int));
                }
                nav.lemma_tables_origins(w.packages);
                assert forall|p: int| 0 <= p < w.packages.len() implies #[trigger] booked(
                    w.movements,
                    w.packages[p],
                    p as usize,
                ) by {}
                assert(ledger(w));
                lemma_explore_books(tables, input.stations as nat, wanted, Map::empty(), w);
            }
        }
    }
    match nav.calculate(trains, packages, Vec::new()) {
        Ok(movements) => {
            let undelivered = get_undelivered(&movements, count);
            proof {
                let schedule = schedule_view(movements@);
                lemma_undelivered_members(schedule, count as int);
                if input.regular() {
                    let wanted = carriable(w.trains, w.packages);
                    assert(serves(schedule, wanted));
                    assert(w.packages.len() == count);
                    assert forall|p: usize|
                        undelivered@.contains(p) <==> p < count && !can_be_carried(
                            w.trains,
                            w.packages,
                            p as int,
                        ) by {
                        assert(delivered_in(schedule).contains(p) <==> wanted.contains(p));
                        assert(undelivered@.contains(p) <==> left_behind(schedule, count as int, p));
                    }
                }
            }
            Ok(Plan { movements, undelivered })
        },
        Err(e) => Err(e),
    }
}

} // verus!
