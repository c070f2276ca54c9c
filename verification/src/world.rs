//! The state that the search moves through, the actions open in a state, and
//! what one action makes of it.
//!
//! A world is the trains, the packages and the movements made so far. In
//! every world a train can commit to fetch a package that nobody has and
//! that it has room for, and a train that holds packages can go on with one
//! of them. Whatever a train does, it loads what it has committed to when it
//! leaves, and it hands over what is bound for the station it arrives at.
use vstd::prelude::*;
use crate::destination::DestinationView;
use crate::error::ConfigError;
use crate::movement::{MovementView, free_at};
use crate::package::{Custody, Package, load, load_upto, remaining};
use crate::route::{Route, hops_len};
use crate::train::TrainView;

verus! {

/// The answers to all shortest-path queries: `tables[a][b]` leads from `a` to `b`.
pub type Tables = Seq<Seq<DestinationView>>;

/// One state of the search.
pub ghost struct World {
    pub trains: Seq<TrainView>,
    pub packages: Seq<Package>,
    pub movements: Seq<MovementView>,
}

/// One thing a train can do next. With `to_pick_up` the train commits to
/// fetch the package and goes to where it lies; without, the train goes on
/// with a package that it already holds.
#[derive(Clone, Copy, Debug, PartialEq, Eq, Structural)]
pub struct Action {
    pub train: usize,
    pub package: usize,
    pub to_pick_up: bool,
}

/// The tables cover `stations` stations and each entry says what it is about.
pub open spec fn tables_ok(tables: Tables, stations: nat) -> bool {
    &&& tables.len() == stations
    &&& forall|a: int| 0 <= a < stations ==> (#[trigger] tables[a]).len() == stations
    &&& forall|a: int, b: int|
        0 <= a < stations && 0 <= b < stations ==> (#[trigger] tables[a][b]).from == a
            && tables[a][b].to == b
}

/// The package lies and is bound within the graph, and the train that its
/// status names exists.
pub open spec fn package_ok(stations: nat, fleet: nat, p: Package) -> bool {
    &&& p.from < stations
    &&& p.to < stations
    &&& match p.status {
        Custody::Unassigned => true,
        Custody::AssignedForPickup(t) => t < fleet,
        Custody::Carried(t) => t < fleet,
        Custody::Delivered(t) => t < fleet,
    }
}

/// The three lists of train number `t` name the packages whose status
/// names the train, each list in ascending order.
pub open spec fn lists_ok(packages: Seq<Package>, t: usize, train: TrainView) -> bool {
    &&& train.packages_to_pick_up == pickups(packages, t)
    &&& train.packages_picked_up == carried_upto(packages, t, packages.len() as int)
    &&& train.packages_delivered == delivered_upto(packages, t, packages.len() as int)
}

/// The train with its three lists read off the packages anew.
pub open spec fn relisted(train: TrainView, packages: Seq<Package>, t: usize) -> TrainView {
    TrainView {
        packages_to_pick_up: pickups(packages, t),
        packages_picked_up: carried_upto(packages, t, packages.len() as int),
        packages_delivered: delivered_upto(packages, t, packages.len() as int),
        ..train
    }
}

/// Trains and packages are where the graph has stations, every status names
/// a train of the fleet, the lists of every train agree with the statuses,
/// and no train holds more than its capacity.
pub open spec fn world_wf(stations: nat, trains: Seq<TrainView>, packages: Seq<Package>) -> bool {
    &&& trains.len() <= usize::MAX
    &&& packages.len() <= usize::MAX
    &&& forall|t: int| 0 <= t < trains.len() ==> (#[trigger] trains[t]).current_location < stations
    &&& forall|p: int|
        0 <= p < packages.len() ==> package_ok(stations, trains.len(), #[trigger] packages[p])
    &&& forall|t: int|
        0 <= t < trains.len() ==> load(packages, t as usize) <= (#[trigger] trains[t]).capacity
    &&& forall|t: int| 0 <= t < trains.len() ==> lists_ok(packages, t as usize, #[trigger] trains[t])
}

/// Train `t` has room for `weight` more.
pub open spec fn capable(trains: Seq<TrainView>, packages: Seq<Package>, t: int, weight: u64) -> bool {
    load(packages, t as usize) + weight <= trains[t].capacity
}

/// The trains below `upto` that have room for `weight` more, in order.
pub open spec fn capable_upto(
    trains: Seq<TrainView>,
    packages: Seq<Package>,
    weight: u64,
    upto: int,
) -> Seq<usize>
    decreases upto,
{
    if upto <= 0 {
        Seq::empty()
    } else {
        let rest = capable_upto(trains, packages, weight, upto - 1);
        if capable(trains, packages, upto - 1, weight) {
            rest.push((upto - 1) as usize)
        } else {
            rest
        }
    }
}

/// The packages below `upto` that `train` has committed to, in order.
pub open spec fn pickups_upto(packages: Seq<Package>, train: usize, upto: int) -> Seq<usize>
    decreases upto,
{
    if upto <= 0 {
        Seq::empty()
    } else {
        let rest = pickups_upto(packages, train, upto - 1);
        if packages[upto - 1].status == Custody::AssignedForPickup(train) {
            rest.push((upto - 1) as usize)
        } else {
            rest
        }
    }
}

/// The packages below `upto` that have status `status` and are bound for
/// `to`, in ascending order.
pub open spec fn bound_upto(packages: Seq<Package>, status: Custody, to: usize, upto: int) -> Seq<
    usize,
>
    decreases upto,
{
    if upto <= 0 {
        Seq::empty()
    } else {
        let rest = bound_upto(packages, status, to, upto - 1);
        if packages[upto - 1].status == status && packages[upto - 1].to == to {
            rest.push((upto - 1) as usize)
        } else {
            rest
        }
    }
}

/// The packages below `upto` that `train` carries, in order.
pub open spec fn carried_upto(packages: Seq<Package>, train: usize, upto: int) -> Seq<usize>
    decreases upto,
{
    if upto <= 0 {
        Seq::empty()
    } else {
        let rest = carried_upto(packages, train, upto - 1);
        if packages[upto - 1].status == Custody::Carried(train) {
            rest.push((upto - 1) as usize)
        } else {
            rest
        }
    }
}

/// The packages below `upto` that `train` has delivered, in order.
pub open spec fn delivered_upto(packages: Seq<Package>, train: usize, upto: int) -> Seq<usize>
    decreases upto,
{
    if upto <= 0 {
        Seq::empty()
    } else {
        let rest = delivered_upto(packages, train, upto - 1);
        if packages[upto - 1].status == Custody::Delivered(train) {
            rest.push((upto - 1) as usize)
        } else {
            rest
        }
    }
}

/// The weight of the packages listed, each counted as often as it is listed.
pub open spec fn weights_of(packages: Seq<Package>, ids: Seq<usize>) -> nat
    decreases ids.len(),
{
    if ids.len() == 0 {
        0
    } else {
        weights_of(packages, ids.drop_last()) + packages[ids.last() as int].weight as nat
    }
}

/// The lists of a train that agree with the statuses name packages, and the
/// packages they name weigh what the statuses put on the train.
pub proof fn lemma_listed_load(packages: Seq<Package>, train: usize, upto: int)
    requires
        0 <= upto <= packages.len() <= usize::MAX,
    ensures
        weights_of(packages, pickups_upto(packages, train, upto)) + weights_of(
            packages,
            carried_upto(packages, train, upto),
        ) == load_upto(packages, train, upto),
        forall|i: int|
            0 <= i < pickups_upto(packages, train, upto).len() ==> #[trigger] pickups_upto(
                packages,
                train,
                upto,
            )[i] < upto,
        forall|i: int|
            0 <= i < carried_upto(packages, train, upto).len() ==> #[trigger] carried_upto(
                packages,
                train,
                upto,
            )[i] < upto,
    decreases upto,
{
    if upto > 0 {
        lemma_listed_load(packages, train, upto - 1);
        let last = (upto - 1) as usize;
        let committed = pickups_upto(packages, train, upto - 1);
        let carried = carried_upto(packages, train, upto - 1);
        assert(committed.push(last).drop_last() =~= committed);
        assert(carried.push(last).drop_last() =~= carried);
    }
}

/// All packages that `train` has committed to.
pub open spec fn pickups(packages: Seq<Package>, train: usize) -> Seq<usize> {
    pickups_upto(packages, train, packages.len() as int)
}

/// All packages that `train` holds and that are bound for `to`: first those
/// that it has committed to, then those that it carries, each in ascending
/// order.
pub open spec fn deliveries(packages: Seq<Package>, train: usize, to: usize) -> Seq<usize> {
    bound_upto(packages, Custody::AssignedForPickup(train), to, packages.len() as int)
        + bound_upto(packages, Custody::Carried(train), to, packages.len() as int)
}

pub proof fn lemma_pickups_members(packages: Seq<Package>, train: usize, upto: int)
    requires
        0 <= upto <= packages.len() <= usize::MAX,
    ensures
        forall|q: usize|
            pickups_upto(packages, train, upto).contains(q) <==> q < upto && packages[q as int].status
                == Custody::AssignedForPickup(train),
    decreases upto,
{
    if upto > 0 {
        lemma_pickups_members(packages, train, upto - 1);
        let rest = pickups_upto(packages, train, upto - 1);
        let all = pickups_upto(packages, train, upto);
        assert forall|q: usize|
            all.contains(q) <==> q < upto && packages[q as int].status == Custody::AssignedForPickup(
                train,
            ) by {
            if packages[upto - 1].status == Custody::AssignedForPickup(train) {
                assert(all == rest.push((upto - 1) as usize));
                if all.contains(q) {
                    let i = choose|i: int| 0 <= i < all.len() && all[i] == q;
                    if i < rest.len() {
                        assert(rest[i] == q);
                    }
                }
                if rest.contains(q) {
                    let i = choose|i: int| 0 <= i < rest.len() && rest[i] == q;
                    assert(all[i] == q);
                }
                if q == upto - 1 {
                    assert(all[rest.len() as int] == q);
                }
            }
        }
    }
}

pub proof fn lemma_bound_members(packages: Seq<Package>, status: Custody, to: usize, upto: int)
    requires
        0 <= upto <= packages.len() <= usize::MAX,
    ensures
        forall|q: usize|
            bound_upto(packages, status, to, upto).contains(q) <==> q < upto
                && packages[q as int].status == status && packages[q as int].to == to,
    decreases upto,
{
    if upto > 0 {
        lemma_bound_members(packages, status, to, upto - 1);
        let rest = bound_upto(packages, status, to, upto - 1);
        let all = bound_upto(packages, status, to, upto);
        assert forall|q: usize|
            all.contains(q) <==> q < upto && packages[q as int].status == status
                && packages[q as int].to == to by {
            if packages[upto - 1].status == status && packages[upto - 1].to == to {
                assert(all == rest.push((upto - 1) as usize));
                if all.contains(q) {
                    let i = choose|i: int| 0 <= i < all.len() && all[i] == q;
                    if i < rest.len() {
                        assert(rest[i] == q);
                    }
                }
                if rest.contains(q) {
                    let i = choose|i: int| 0 <= i < rest.len() && rest[i] == q;
                    assert(all[i] == q);
                }
                if q == upto - 1 {
                    assert(all[rest.len() as int] == q);
                }
            }
        }
    }
}

/// The packages to hand over are those that the train holds and that are
/// bound for the station.
pub proof fn lemma_deliveries_members(packages: Seq<Package>, train: usize, to: usize)
    requires
        packages.len() <= usize::MAX,
    ensures
        forall|q: usize|
            deliveries(packages, train, to).contains(q) <==> q < packages.len()
                && packages[q as int].status.held_by(train) && packages[q as int].to == to,
{
    let n = packages.len() as int;
    let first = bound_upto(packages, Custody::AssignedForPickup(train), to, n);
    let then = bound_upto(packages, Custody::Carried(train), to, n);
    lemma_bound_members(packages, Custody::AssignedForPickup(train), to, n);
    lemma_bound_members(packages, Custody::Carried(train), to, n);
    assert forall|q: usize|
        (first + then).contains(q) <==> q < packages.len() && packages[q as int].status.held_by(
            train,
        ) && packages[q as int].to == to by {
        if (first + then).contains(q) {
            let i = choose|i: int| 0 <= i < (first + then).len() && (first + then)[i] == q;
            if i < first.len() {
                assert(first[i] == q);
            } else {
                assert(then[i - first.len()] == q);
            }
        }
        if first.contains(q) {
            let i = choose|i: int| 0 <= i < first.len() && first[i] == q;
            assert((first + then)[i] == q);
        }
        if then.contains(q) {
            let i = choose|i: int| 0 <= i < then.len() && then[i] == q;
            assert((first + then)[first.len() + i] == q);
        }
    }
}

/// Movement number `i` of a train that leaves `from` at `start` and takes
/// `hops` one after the other. What it has committed to is loaded before
/// the first hop, and what is bound for the end of the route is handed over
/// after the last.
pub open spec fn hop_movement(
    train: usize,
    from: usize,
    hops: Seq<Route>,
    start: u64,
    picked: Seq<usize>,
    delivered: Seq<usize>,
    i: int,
) -> MovementView {
    MovementView {
        train,
        from: if i == 0 {
            from
        } else {
            hops[i - 1].to
        },
        to: hops[i].to,
        start_time: (start + hops_len(hops.take(i))) as u64,
        end_time: (start + hops_len(hops.take(i + 1))) as u64,
        packages_picked_up: if i == 0 {
            picked
        } else {
            Seq::empty()
        },
        packages_delivered: if i == hops.len() - 1 {
            delivered
        } else {
            Seq::empty()
        },
    }
}

/// One movement per hop, each starting when the one before it ends.
pub open spec fn hop_movements(
    train: usize,
    from: usize,
    hops: Seq<Route>,
    start: u64,
    picked: Seq<usize>,
    delivered: Seq<usize>,
) -> Seq<MovementView> {
    Seq::new(hops.len(), |i: int| hop_movement(train, from, hops, start, picked, delivered, i))
}

/// What sending `train` along `route` adds to the schedule, which packages
/// it loads and which it hands over.
///
/// A route of length 0, or one that ends where it begins, changes nothing.
/// Otherwise the train leaves when it
/// is free, loads all it has committed to, and hands over all that it then
/// holds and that is bound for the end of the route.
pub open spec fn simulate(
    train: usize,
    route: DestinationView,
    packages: Seq<Package>,
    movements: Seq<MovementView>,
) -> Result<(Seq<MovementView>, Seq<usize>, Seq<usize>), ConfigError> {
    if !route.found() {
        Err(ConfigError::Unreachable)
    } else if !route.moves() {
        Ok((movements, Seq::empty(), Seq::empty()))
    } else if free_at(movements, train) + hops_len(route.hops()) > u64::MAX {
        Err(ConfigError::Overflow)
    } else {
        let picked = pickups(packages, train);
        let delivered = deliveries(packages, train, route.to);
        Ok(
            (
                movements + hop_movements(
                    train,
                    route.from,
                    route.hops(),
                    free_at(movements, train),
                    picked,
                    delivered,
                ),
                picked,
                delivered,
            ),
        )
    }
}

/// The first hops of a path are no longer than the whole path.
pub proof fn lemma_hops_prefix(hops: Seq<Route>, i: int)
    requires
        0 <= i <= hops.len(),
    ensures
        hops_len(hops.take(i)) <= hops_len(hops),
        i < hops.len() ==> hops_len(hops.take(i + 1)) == hops_len(hops.take(i)) + hops[i].distance,
        hops_len(hops.take(0)) == 0,
    decreases hops.len() - i,
{
    assert(hops.take(0) =~= Seq::<Route>::empty());
    if i < hops.len() {
        lemma_hops_prefix(hops, i + 1);
        assert(hops.take(i + 1).drop_last() =~= hops.take(i));
    } else {
        assert(hops.take(i) =~= hops);
    }
}

/// The action can be taken: a train commits only to a package that nobody
/// has and that it has room for, and goes on only with a package that it holds.
pub open spec fn action_valid(trains: Seq<TrainView>, packages: Seq<Package>, a: Action) -> bool {
    &&& a.train < trains.len()
    &&& a.package < packages.len()
    &&& if a.to_pick_up {
        &&& packages[a.package as int].status == Custody::Unassigned
        &&& capable(trains, packages, a.train as int, packages[a.package as int].weight)
    } else {
        packages[a.package as int].status.held_by(a.train)
    }
}

/// An answer that names no path is no route.
pub open spec fn found_or_error(d: DestinationView) -> Result<DestinationView, ConfigError> {
    if d.found() {
        Ok(d)
    } else {
        Err(ConfigError::Unreachable)
    }
}

/// The route that the action takes.
///
/// A train that commits to a package goes to where the package lies. A train
/// that goes on with a package it has committed to also goes there, if it is
/// not there yet; otherwise, and with a package it carries, it goes to where
/// the package is bound for.
pub open spec fn target_route(
    tables: Tables,
    trains: Seq<TrainView>,
    packages: Seq<Package>,
    a: Action,
) -> Result<DestinationView, ConfigError> {
    let here = trains[a.train as int].current_location as int;
    let pkg = packages[a.package as int];
    let to_origin = tables[here][pkg.from as int];
    let to_target = tables[here][pkg.to as int];
    if a.to_pick_up {
        found_or_error(to_origin)
    } else if pkg.status == Custody::AssignedForPickup(a.train) && !to_origin.found() {
        Err(ConfigError::Unreachable)
    } else if pkg.status == Custody::AssignedForPickup(a.train) && to_origin.cumulative_distance
        > 0 {
        Ok(to_origin)
    } else {
        found_or_error(to_target)
    }
}

/// What a package becomes when the lists of a move are applied to it.
pub open spec fn handed(p: Package, train: usize, picked: bool, delivered: bool) -> Package {
    Package {
        status: if delivered {
            Custody::Delivered(train)
        } else if picked {
            Custody::Carried(train)
        } else {
            p.status
        },
        ..p
    }
}

/// What a package becomes when `train` moves to station `at`: if the train
/// holds it, it is now carried, or delivered where it is bound for `at`.
pub open spec fn moved(p: Package, train: usize, at: usize) -> Package {
    if p.status.held_by(train) {
        Package {
            status: if p.to == at {
                Custody::Delivered(train)
            } else {
                Custody::Carried(train)
            },
            ..p
        }
    } else {
        p
    }
}

/// The packages after `train` has moved to station `at`.
pub open spec fn after_move(packages: Seq<Package>, train: usize, at: usize) -> Seq<Package> {
    Seq::new(packages.len(), |i: int| moved(packages[i], train, at))
}

/// The packages after the train of the action has committed to its package.
pub open spec fn committed(packages: Seq<Package>, a: Action) -> Seq<Package> {
    packages.update(
        a.package as int,
        Package { status: Custody::AssignedForPickup(a.train), ..packages[a.package as int] },
    )
}

/// What the action makes of the world: an error, nothing at all (`None`: the
/// train would go on with a package but is where it wants to be), or the next
/// world.
pub open spec fn step(tables: Tables, w: World, a: Action) -> Result<Option<World>, ConfigError> {
    match target_route(tables, w.trains, w.packages, a) {
        Err(e) => Err(e),
        Ok(route) => match simulate(a.train, route, w.packages, w.movements) {
            Err(e) => Err(e),
            Ok((movements, picked, delivered)) => {
                let train = w.trains[a.train as int];
                if !route.moves() {
                    if a.to_pick_up {
                        Ok(
                            Some(
                                World {
                                    trains: w.trains.update(
                                        a.train as int,
                                        relisted(train, committed(w.packages, a), a.train),
                                    ),
                                    packages: committed(w.packages, a),
                                    movements: w.movements,
                                },
                            ),
                        )
                    } else {
                        Ok(None)
                    }
                } else if train.total_distance + route.cumulative_distance > u64::MAX {
                    Err(ConfigError::Overflow)
                } else {
                    let arrived = TrainView {
                        current_location: route.to,
                        total_distance: (train.total_distance + route.cumulative_distance) as u64,
                        ..train
                    };
                    let handed_over = after_move(w.packages, a.train, route.to);
                    let packages = if a.to_pick_up {
                        committed(handed_over, a)
                    } else {
                        handed_over
                    };
                    Ok(
                        Some(
                            World {
                                trains: w.trains.update(
                                    a.train as int,
                                    relisted(arrived, packages, a.train),
                                ),
                                packages,
                                movements,
                            },
                        ),
                    )
                }
            },
        },
    }
}

/// Applying the lists that a move reports is the same as saying of each
/// package what the move makes of it.
pub proof fn lemma_lists_are_move(packages: Seq<Package>, train: usize, at: usize, q: usize)
    requires
        q < packages.len() <= usize::MAX,
    ensures
        handed(
            packages[q as int],
            train,
            pickups(packages, train).contains(q),
            deliveries(packages, train, at).contains(q),
        ) == moved(packages[q as int], train, at),
{
    lemma_pickups_members(packages, train, packages.len() as int);
    lemma_deliveries_members(packages, train, at);
}

/// Where no package weighs more on the train than before, the train's load
/// is no larger than before.
pub proof fn lemma_load_shrinks(before: Seq<Package>, after: Seq<Package>, train: usize, upto: int)
    requires
        before.len() == after.len(),
        0 <= upto <= before.len(),
        forall|i: int|
            0 <= i < before.len() && (#[trigger] after[i]).status.held_by(train)
                ==> before[i].status.held_by(train) && before[i].weight == after[i].weight,
    ensures
        load_upto(after, train, upto) <= load_upto(before, train, upto),
    decreases upto,
{
    if upto > 0 {
        lemma_load_shrinks(before, after, train, upto - 1);
        assert(after[upto - 1].status.held_by(train) ==> before[upto - 1].status.held_by(train));
    }
}

/// A package that a train takes on adds its weight to the train's load.
pub proof fn lemma_load_grows(packages: Seq<Package>, a: Action, train: usize, upto: int)
    requires
        a.package < packages.len(),
        0 <= upto <= packages.len(),
        !packages[a.package as int].status.held_by(train),
    ensures
        load_upto(committed(packages, a), train, upto) == load_upto(packages, train, upto) + if a.train
            == train && a.package < upto {
            packages[a.package as int].weight as int
        } else {
            0
        },
    decreases upto,
{
    if upto > 0 {
        lemma_load_grows(packages, a, train, upto - 1);
    }
}

/// Where every package is at least as far on its way as before, and one is
/// further, less remains to be done.
pub proof fn lemma_remaining_shrinks(before: Seq<Package>, after: Seq<Package>, further: int)
    requires
        before.len() == after.len(),
        forall|i: int|
            0 <= i < before.len() ==> (#[trigger] after[i]).status.stage()
                >= before[i].status.stage(),
    ensures
        remaining(after) <= remaining(before),
        0 <= further < before.len() && after[further].status.stage()
            > before[further].status.stage() ==> remaining(after) < remaining(before),
    decreases before.len(),
{
    if before.len() > 0 {
        let b = before.drop_last();
        let a = after.drop_last();
        assert forall|i: int| 0 <= i < b.len() implies (#[trigger] a[i]).status.stage()
            >= b[i].status.stage() by {
            assert(a[i] == after[i]);
        }
        lemma_remaining_shrinks(b, a, further);
        assert(after.last() == after[after.len() - 1]);
        if 0 <= further < b.len() {
            assert(a[further] == after[further]);
        }
    }
}

/// Where nobody has any package, every list of every train is empty.
pub proof fn lemma_lists_of_free(packages: Seq<Package>, t: usize, upto: int)
    requires
        0 <= upto <= packages.len(),
        forall|i: int| 0 <= i < packages.len() ==> (#[trigger] packages[i]).status == Custody::Unassigned,
    ensures
        pickups_upto(packages, t, upto) == Seq::<usize>::empty(),
        carried_upto(packages, t, upto) == Seq::<usize>::empty(),
        delivered_upto(packages, t, upto) == Seq::<usize>::empty(),
    decreases upto,
{
    if upto > 0 {
        lemma_lists_of_free(packages, t, upto - 1);
    }
}

/// Where no package has changed its relation to a train, the train's lists
/// are what they were.
pub proof fn lemma_lists_stable(before: Seq<Package>, after: Seq<Package>, t: usize, upto: int)
    requires
        before.len() == after.len(),
        0 <= upto <= before.len(),
        forall|i: int|
            0 <= i < before.len() ==> {
                &&& ((#[trigger] after[i]).status == Custody::AssignedForPickup(t)) == (
                before[i].status == Custody::AssignedForPickup(t))
                &&& (after[i].status == Custody::Carried(t)) == (before[i].status
                    == Custody::Carried(t))
                &&& (after[i].status == Custody::Delivered(t)) == (before[i].status
                    == Custody::Delivered(t))
            },
    ensures
        pickups_upto(after, t, upto) == pickups_upto(before, t, upto),
        carried_upto(after, t, upto) == carried_upto(before, t, upto),
        delivered_upto(after, t, upto) == delivered_upto(before, t, upto),
    decreases upto,
{
    if upto > 0 {
        lemma_lists_stable(before, after, t, upto - 1);
        assert((after[upto - 1].status == Custody::AssignedForPickup(t)) == (before[upto
            - 1].status == Custody::AssignedForPickup(t)));
    }
}

/// A step leaves the world in order: trains and packages stay within the
/// graph, and no train holds more than its capacity.
pub proof fn lemma_step_keeps_order(tables: Tables, stations: nat, w: World, a: Action)
    requires
        tables_ok(tables, stations),
        world_wf(stations, w.trains, w.packages),
        action_valid(w.trains, w.packages, a),
        step(tables, w, a) matches Ok(Some(_)),
    ensures
        step(tables, w, a) matches Ok(Some(next)) && world_wf(stations, next.trains, next.packages)
            && next.trains.len() == w.trains.len() && next.packages.len() == w.packages.len(),
{
    let next = step(tables, w, a)->Ok_0->Some_0;
    let route = target_route(tables, w.trains, w.packages, a)->Ok_0;
    let here = w.trains[a.train as int].current_location as int;
    let pkg = w.packages[a.package as int];
    assert(package_ok(stations, w.trains.len(), pkg));
    assert(route == tables[here][pkg.from as int] || route == tables[here][pkg.to as int]);
    assert(route.to < stations);
    let base = if !route.moves() {
        w.packages
    } else {
        after_move(w.packages, a.train, route.to)
    };
    assert forall|p: int| 0 <= p < base.len() implies package_ok(
        stations,
        w.trains.len(),
        #[trigger] base[p],
    ) by {
        assert(package_ok(stations, w.trains.len(), w.packages[p]));
    }
    assert forall|p: int| 0 <= p < next.packages.len() implies package_ok(
        stations,
        next.trains.len(),
        #[trigger] next.packages[p],
    ) by {
        assert(package_ok(stations, w.trains.len(), base[p]));
    }
    assert forall|t: int| 0 <= t < next.trains.len() implies load(next.packages, t as usize) <= (
    #[trigger] next.trains[t]).capacity by {
        assert(load(w.packages, t as usize) <= w.trains[t].capacity);
        assert(next.trains[t].capacity == w.trains[t].capacity);
        lemma_load_shrinks(w.packages, base, t as usize, base.len() as int);
        if a.to_pick_up {
            assert(base[a.package as int].status == Custody::Unassigned);
            lemma_load_grows(base, a, t as usize, base.len() as int);
        }
    }
    assert forall|t: int| 0 <= t < next.trains.len() implies lists_ok(
        next.packages,
        t as usize,
        #[trigger] next.trains[t],
    ) by {
        if t != a.train {
            assert(lists_ok(w.packages, t as usize, w.trains[t]));
            assert(next.trains[t] == w.trains[t]);
            assert forall|i: int| 0 <= i < w.packages.len() implies {
                &&& ((#[trigger] next.packages[i]).status == Custody::AssignedForPickup(t as usize))
                    == (w.packages[i].status == Custody::AssignedForPickup(t as usize))
                &&& (next.packages[i].status == Custody::Carried(t as usize)) == (
                w.packages[i].status == Custody::Carried(t as usize))
                &&& (next.packages[i].status == Custody::Delivered(t as usize)) == (
                w.packages[i].status == Custody::Delivered(t as usize))
            } by {
                assert(base[i] == w.packages[i] || base[i] == moved(w.packages[i], a.train, route.to));
            }
            lemma_lists_stable(w.packages, next.packages, t as usize, w.packages.len() as int);
        }
    }
}

/// A step brings at least one package further on its way and none back.
pub proof fn lemma_step_progress(tables: Tables, stations: nat, w: World, a: Action)
    requires
        tables_ok(tables, stations),
        world_wf(stations, w.trains, w.packages),
        action_valid(w.trains, w.packages, a),
        step(tables, w, a) matches Ok(Some(_)),
    ensures
        step(tables, w, a) matches Ok(Some(next)) && remaining(next.packages) < remaining(w.packages),
{
    let next = step(tables, w, a)->Ok_0->Some_0;
    let route = target_route(tables, w.trains, w.packages, a)->Ok_0;
    let here = w.trains[a.train as int].current_location as int;
    let pkg = w.packages[a.package as int];
    assert(package_ok(stations, w.trains.len(), pkg));
    assert(route == tables[here][pkg.from as int] || route == tables[here][pkg.to as int]);
    assert(pkg.status is Carried ==> route.to == pkg.to);
    lemma_remaining_shrinks(w.packages, next.packages, a.package as int);
}

} // verus!
