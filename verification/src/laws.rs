//! What holds of every schedule that the search returns: the movements of
//! each train follow one another without a gap and along the edges of the
//! graph, and, where no package is bound for where it lies, the packages
//! handed over are those that some train could carry.
use vstd::prelude::*;
use crate::error::ConfigError;
use crate::memo::Memo;
use crate::movement::{MovementView, contiguous, delivered_in, free_at, position_after};
use crate::package::{Custody, Package, load, load_upto, remaining};
use crate::paths::{Edges, has_edge, is_walk, lemma_walk_prefix};
use crate::route::{Route, hops_end, hops_len};
use crate::search::{
    actions, better, cache_key, explore, lemma_actions_valid, lemma_advance_listed,
    lemma_commit_listed, try_all,
};
use crate::train::TrainView;
use crate::world::{
    Action, Tables, World, action_valid, after_move, deliveries, hop_movements,
    lemma_deliveries_members, lemma_hops_prefix, lemma_step_keeps_order, lemma_step_progress, moved,
    package_ok, pickups, step, tables_ok, target_route, world_wf,
};

verus! {

/// Train `t` could carry package `p` if it held nothing else.
pub open spec fn fits(trains: Seq<TrainView>, packages: Seq<Package>, t: int, p: int) -> bool {
    0 <= t < trains.len() && packages[p].weight <= trains[t].capacity
}

/// Some train could carry package `p`.
pub open spec fn can_be_carried(trains: Seq<TrainView>, packages: Seq<Package>, p: int) -> bool {
    exists|t: int| #[trigger] fits(trains, packages, t, p)
}

/// The packages that some train could carry.
pub open spec fn carriable(trains: Seq<TrainView>, packages: Seq<Package>) -> Set<usize> {
    Set::new(|p: usize| p < packages.len() && can_be_carried(trains, packages, p as int))
}

/// The schedule hands over the packages of `wanted` and no others.
pub open spec fn serves(schedule: Seq<MovementView>, wanted: Set<usize>) -> bool {
    forall|p: usize| #[trigger] delivered_in(schedule).contains(p) <==> wanted.contains(p)
}

/// Every schedule remembered hands over the packages of `wanted` and no others.
pub open spec fn memo_serves(memo: Memo, wanted: Set<usize>) -> bool {
    forall|k: Seq<usize>| memo.contains_key(k) ==> serves(#[trigger] memo[k], wanted)
}

/// A package that lies at `from` and is bound for `to` does not get stuck:
/// the two are different stations, no other station is at distance 0 from
/// `to`, and `from` is not at distance 0 from `to` either.
pub open spec fn clear_for(tables: Tables, from: usize, to: usize) -> bool {
    &&& from != to
    &&& forall|s: int|
        0 <= s < tables.len() && s != to && to < tables[s].len() && (
        #[trigger] tables[s][to as int]).found() ==> tables[s][to as int].cumulative_distance > 0
    &&& to < tables.len() && from < tables[to as int].len() && tables[to as int][from as int].found()
        ==> tables[to as int][from as int].cumulative_distance > 0
}

/// No package gets stuck: a station is at distance 0 from itself, and from
/// the station that a package is bound for no other station is.
pub open spec fn clear(tables: Tables, packages: Seq<Package>) -> bool {
    &&& forall|a: int|
        0 <= a < tables.len() && a < tables[a].len() && (#[trigger] tables[a][a]).found()
            ==> tables[a][a].cumulative_distance == 0
    &&& forall|p: int|
        0 <= p < packages.len() ==> clear_for(tables, (#[trigger] packages[p]).from, packages[p].to)
}

/// The world is as a search that began with nobody having any package
/// leaves it: `wanted` are the packages that some train could carry, only
/// such packages have been committed to, the movements hand over the
/// packages that are delivered and no others, and no train stands where a
/// package that it carries is bound for.
pub open spec fn on_track(w: World, wanted: Set<usize>) -> bool {
    &&& wanted == carriable(w.trains, w.packages)
    &&& forall|p: int|
        0 <= p < w.packages.len() && (#[trigger] w.packages[p]).status is Delivered
            ==> delivered_in(w.movements).contains(p as usize)
    &&& forall|p: usize| #[trigger]
        delivered_in(w.movements).contains(p) ==> p < w.packages.len()
            && w.packages[p as int].status is Delivered
    &&& forall|p: int|
        0 <= p < w.packages.len() ==> ((#[trigger] w.packages[p]).status matches Custody::Carried(t)
            ==> w.trains[t as int].current_location != w.packages[p].to)
    &&& forall|p: int|
        0 <= p < w.packages.len() && (#[trigger] w.packages[p]).status != Custody::Unassigned
            ==> wanted.contains(p as usize)
}

/// The movements of one route, appended to a schedule without gaps at the
/// time at which the train is free, leave it without gaps.
pub proof fn lemma_route_contiguous(
    movements: Seq<MovementView>,
    train: usize,
    from: usize,
    hops: Seq<Route>,
    picked: Seq<usize>,
    delivered: Seq<usize>,
    k: int,
)
    requires
        contiguous(movements),
        free_at(movements, train) + hops_len(hops) <= u64::MAX,
        0 <= k <= hops.len(),
    ensures
        ({
            let start = free_at(movements, train);
            let planned = hop_movements(train, from, hops, start, picked, delivered);
            let sofar = movements + planned.take(k);
            &&& contiguous(sofar)
            &&& free_at(sofar, train) == start + hops_len(hops.take(k))
        }),
    decreases k,
{
    let start = free_at(movements, train);
    let planned = hop_movements(train, from, hops, start, picked, delivered);
    let sofar = movements + planned.take(k);
    lemma_hops_prefix(hops, k);
    if k == 0 {
        assert(sofar =~= movements);
    } else {
        lemma_route_contiguous(movements, train, from, hops, picked, delivered, k - 1);
        lemma_hops_prefix(hops, k - 1);
        let before = movements + planned.take(k - 1);
        assert(sofar.drop_last() =~= before);
        assert(sofar.last() == planned[k - 1]);
    }
}

/// What a schedule hands over, a longer schedule hands over too; and the
/// movements of a route hand over what the route delivers.
pub proof fn lemma_route_delivers(
    movements: Seq<MovementView>,
    train: usize,
    from: usize,
    hops: Seq<Route>,
    start: u64,
    picked: Seq<usize>,
    delivered: Seq<usize>,
)
    ensures
        ({
            let all = movements + hop_movements(train, from, hops, start, picked, delivered);
            &&& forall|p: usize| delivered_in(movements).contains(p) ==> delivered_in(all).contains(p)
            &&& hops.len() > 0 ==> forall|p: usize|
                delivered.contains(p) ==> delivered_in(all).contains(p)
            &&& forall|p: usize|
                delivered_in(all).contains(p) ==> delivered_in(movements).contains(p)
                    || delivered.contains(p)
        }),
{
    let planned = hop_movements(train, from, hops, start, picked, delivered);
    let all = movements + planned;
    assert forall|p: usize| delivered_in(all).contains(p) implies delivered_in(movements).contains(
        p,
    ) || delivered.contains(p) by {
        let i = choose|i: int| 0 <= i < all.len() && (#[trigger] all[i]).packages_delivered.contains(p);
        if i < movements.len() {
            assert(movements[i].packages_delivered.contains(p));
        } else {
            assert(all[i] == planned[i - movements.len()]);
        }
    }
    assert forall|p: usize| delivered_in(movements).contains(p) implies delivered_in(all).contains(
        p,
    ) by {
        let i = choose|i: int|
            0 <= i < movements.len() && (#[trigger] movements[i]).packages_delivered.contains(p);
        assert(all[i].packages_delivered.contains(p));
    }
    if hops.len() > 0 {
        assert forall|p: usize| delivered.contains(p) implies delivered_in(all).contains(p) by {
            let last = all.len() - 1;
            assert(all[last] == planned[hops.len() - 1]);
            assert(all[last].packages_delivered.contains(p));
        }
    }
}

/// What the trains could carry does not change with a step.
pub proof fn lemma_step_keeps_carriable(tables: Tables, w: World, a: Action)
    requires
        a.train < w.trains.len(),
        a.package < w.packages.len(),
        step(tables, w, a) matches Ok(Some(_)),
    ensures
        step(tables, w, a) matches Ok(Some(next)) && carriable(next.trains, next.packages)
            == carriable(w.trains, w.packages),
{
    let next = step(tables, w, a)->Ok_0->Some_0;
    assert(next.trains.len() == w.trains.len());
    assert(next.packages.len() == w.packages.len());
    assert forall|p: int, t: int| 0 <= p < w.packages.len() implies (#[trigger] fits(
        next.trains,
        next.packages,
        t,
        p,
    ) <==> fits(w.trains, w.packages, t, p)) by {
        assert(next.packages[p].weight == w.packages[p].weight);
        if 0 <= t < w.trains.len() {
            assert(next.trains[t].capacity == w.trains[t].capacity);
        }
    }
    assert forall|p: usize| carriable(next.trains, next.packages).contains(p) <==> carriable(
        w.trains,
        w.packages,
    ).contains(p) by {
        if p < w.packages.len() {
            if can_be_carried(next.trains, next.packages, p as int) {
                let t = choose|t: int| #[trigger] fits(next.trains, next.packages, t, p as int);
                assert(fits(w.trains, w.packages, t, p as int));
            }
            if can_be_carried(w.trains, w.packages, p as int) {
                let t = choose|t: int| #[trigger] fits(w.trains, w.packages, t, p as int);
                assert(fits(next.trains, next.packages, t, p as int));
            }
        }
    }
    assert(carriable(next.trains, next.packages) =~= carriable(w.trains, w.packages));
}

/// A step taken in a world that is on track leads to a world that is on track.
pub proof fn lemma_step_stays_on_track(
    tables: Tables,
    stations: nat,
    wanted: Set<usize>,
    w: World,
    a: Action,
)
    requires
        tables_ok(tables, stations),
        world_wf(stations, w.trains, w.packages),
        clear(tables, w.packages),
        on_track(w, wanted),
        action_valid(w.trains, w.packages, a),
        step(tables, w, a) matches Ok(Some(_)),
    ensures
        step(tables, w, a) matches Ok(Some(next)) && clear(tables, next.packages) && on_track(
            next,
            wanted,
        ) && next.packages.len() == w.packages.len(),
{
    let next = step(tables, w, a)->Ok_0->Some_0;
    let route = target_route(tables, w.trains, w.packages, a)->Ok_0;
    let here = w.trains[a.train as int].current_location;
    let pkg = w.packages[a.package as int];
    assert(package_ok(stations, w.trains.len(), pkg));
    assert(route == tables[here as int][pkg.from as int] || route == tables[here as int][pkg.to as int]);
    assert(route.from == here);
    assert(route.to < stations);
    assert(next.trains.len() == w.trains.len());
    assert(next.packages.len() == w.packages.len());
    lemma_step_keeps_carriable(tables, w, a);
    assert forall|p: int| 0 <= p < next.packages.len() implies clear_for(
        tables,
        (#[trigger] next.packages[p]).from,
        next.packages[p].to,
    ) by {
        assert(clear_for(tables, w.packages[p].from, w.packages[p].to));
        assert(next.packages[p].from == w.packages[p].from);
        assert(next.packages[p].to == w.packages[p].to);
    }
    if a.to_pick_up {
        assert(fits(w.trains, w.packages, a.train as int, a.package as int));
        assert(can_be_carried(w.trains, w.packages, a.package as int));
        assert(wanted.contains(a.package));
    }
    if !route.moves() {
        assert(next.movements == w.movements);
        assert forall|p: int| 0 <= p < next.packages.len() implies ((
        #[trigger] next.packages[p]).status matches Custody::Carried(t)
            ==> next.trains[t as int].current_location != next.packages[p].to) by {
            assert(w.packages[p].status == next.packages[p].status || p == a.package);
        }
        assert forall|p: int|
            0 <= p < next.packages.len() && (#[trigger] next.packages[p]).status
                is Delivered implies delivered_in(next.movements).contains(p as usize) by {
            assert(w.packages[p].status is Delivered);
        }
        assert forall|p: usize| #[trigger]
            delivered_in(next.movements).contains(p) implies p < next.packages.len()
            && next.packages[p as int].status is Delivered by {
            assert(w.packages[p as int].status is Delivered);
        }
        assert forall|p: int|
            0 <= p < next.packages.len() && (#[trigger] next.packages[p]).status
                != Custody::Unassigned implies wanted.contains(p as usize) by {
            if p != a.package {
                assert(w.packages[p].status != Custody::Unassigned);
            }
        }
    } else {
        assert(here != route.to);
        let hops = route.hops();
        assert(hops.len() > 0);
        let start = free_at(w.movements, a.train);
        let picked = pickups(w.packages, a.train);
        let delivered = deliveries(w.packages, a.train, route.to);
        let planned = hop_movements(a.train, route.from, hops, start, picked, delivered);
        assert(next.movements == w.movements + planned);
        lemma_route_delivers(w.movements, a.train, route.from, hops, start, picked, delivered);
        lemma_deliveries_members(w.packages, a.train, route.to);
        let handed_over = after_move(w.packages, a.train, route.to);
        assert forall|p: int|
            0 <= p < next.packages.len() && (#[trigger] next.packages[p]).status
                is Delivered implies delivered_in(next.movements).contains(p as usize) by {
            assert(handed_over[p] == moved(w.packages[p], a.train, route.to));
            if w.packages[p].status is Delivered {
                assert(delivered_in(w.movements).contains(p as usize));
            } else {
                assert(delivered.contains(p as usize));
            }
        }
        assert forall|p: usize| #[trigger]
            delivered_in(next.movements).contains(p) implies p < next.packages.len()
            && next.packages[p as int].status is Delivered by {
            if delivered_in(w.movements).contains(p) {
                assert(w.packages[p as int].status is Delivered);
            } else {
                assert(delivered.contains(p));
            }
            assert(handed_over[p as int] == moved(w.packages[p as int], a.train, route.to));
        }
        assert forall|p: int| 0 <= p < next.packages.len() implies ((
        #[trigger] next.packages[p]).status matches Custody::Carried(t)
            ==> next.trains[t as int].current_location != next.packages[p].to) by {
            assert(handed_over[p] == moved(w.packages[p], a.train, route.to));
            assert(package_ok(stations, w.trains.len(), w.packages[p]));
        }
        assert forall|p: int|
            0 <= p < next.packages.len() && (#[trigger] next.packages[p]).status
                != Custody::Unassigned implies wanted.contains(p as usize) by {
            assert(handed_over[p] == moved(w.packages[p], a.train, route.to));
            if p != a.package || !a.to_pick_up {
                assert(w.packages[p].status != Custody::Unassigned);
            }
        }
    }
}

/// A train that holds no package bears no load.
pub proof fn lemma_load_of_idle(packages: Seq<Package>, train: usize, upto: int)
    requires
        0 <= upto <= packages.len(),
        forall|q: int| 0 <= q < packages.len() ==> !(#[trigger] packages[q]).status.held_by(train),
    ensures
        load_upto(packages, train, upto) == 0,
    decreases upto,
{
    if upto > 0 {
        lemma_load_of_idle(packages, train, upto - 1);
    }
}

/// In a world that is on track, going on with a package always changes
/// something or fails: a train that holds a package is never where that
/// package takes it next.
pub proof fn lemma_holder_moves(
    tables: Tables,
    stations: nat,
    wanted: Set<usize>,
    w: World,
    a: Action,
)
    requires
        tables_ok(tables, stations),
        world_wf(stations, w.trains, w.packages),
        clear(tables, w.packages),
        on_track(w, wanted),
        action_valid(w.trains, w.packages, a),
    ensures
        step(tables, w, a) != Ok::<Option<World>, ConfigError>(None),
{
    let here = w.trains[a.train as int].current_location;
    let pkg = w.packages[a.package as int];
    assert(package_ok(stations, w.trains.len(), pkg));
    assert(clear_for(tables, pkg.from, pkg.to));
    let to_origin = tables[here as int][pkg.from as int];
    let to_target = tables[here as int][pkg.to as int];
    if !a.to_pick_up {
        if pkg.status == Custody::AssignedForPickup(a.train) {
            if to_origin.found() {
                if to_origin.cumulative_distance > 0 {
                    if here == pkg.from {
                        assert(tables[here as int][here as int].cumulative_distance == 0);
                    }
                } else if here != pkg.to {
                    assert(to_target.found() ==> to_target.cumulative_distance > 0);
                }
            }
        } else {
            assert(pkg.status == Custody::Carried(a.train));
            assert(here != pkg.to);
            assert(to_target.found() ==> to_target.cumulative_distance > 0);
        }
    }
}

/// Where no action is left that changes anything, nothing is left to do:
/// every package that some train could carry has been delivered, and the
/// movements made hand over these packages and no others.
pub proof fn lemma_nothing_left(tables: Tables, stations: nat, wanted: Set<usize>, w: World)
    requires
        tables_ok(tables, stations),
        world_wf(stations, w.trains, w.packages),
        clear(tables, w.packages),
        on_track(w, wanted),
        forall|j: int|
            0 <= j < actions(w.trains, w.packages).len() ==> step(
                tables,
                w,
                #[trigger] actions(w.trains, w.packages)[j],
            ) == Ok::<Option<World>, ConfigError>(None),
    ensures
        forall|p: int|
            0 <= p < w.packages.len() ==> (#[trigger] w.packages[p]).status is Delivered || (
            w.packages[p].status == Custody::Unassigned && !wanted.contains(p as usize)),
        serves(w.movements, wanted),
{
    let queue = actions(w.trains, w.packages);
    assert forall|p: int, t: usize| 0 <= p < w.packages.len() implies !(
    #[trigger] w.packages[p].status.held_by(t)) by {
        if w.packages[p].status.held_by(t) {
            assert(package_ok(stations, w.trains.len(), w.packages[p]));
            let a = Action { train: t, package: p as usize, to_pick_up: false };
            lemma_advance_listed(w.trains, w.packages, t, p as usize);
            let j = choose|j: int| 0 <= j < queue.len() && queue[j] == a;
            lemma_holder_moves(tables, stations, wanted, w, a);
        }
    }
    assert forall|p: int| 0 <= p < w.packages.len() implies (#[trigger] w.packages[p]).status
        is Delivered || (w.packages[p].status == Custody::Unassigned && !wanted.contains(
        p as usize,
    )) by {
        if w.packages[p].status == Custody::Unassigned {
            if wanted.contains(p as usize) {
                assert(can_be_carried(w.trains, w.packages, p));
                let t = choose|t: int| #[trigger] fits(w.trains, w.packages, t, p);
                assert forall|q: int| 0 <= q < w.packages.len() implies !(
                #[trigger] w.packages[q]).status.held_by(t as usize) by {
                    assert(!w.packages[q].status.held_by(t as usize));
                }
                lemma_load_of_idle(w.packages, t as usize, w.packages.len() as int);
                let a = Action { train: t as usize, package: p as usize, to_pick_up: true };
                lemma_commit_listed(w.trains, w.packages, t as usize, p as usize);
                let j = choose|j: int| 0 <= j < queue.len() && queue[j] == a;
                lemma_holder_moves(tables, stations, wanted, w, a);
            }
        } else {
            assert(!w.packages[p].status.held_by(w.packages[p].status->AssignedForPickup_0));
            assert(!w.packages[p].status.held_by(w.packages[p].status->Carried_0));
        }
    }
    assert forall|p: usize| #[trigger]
        delivered_in(w.movements).contains(p) <==> wanted.contains(p) by {
        if wanted.contains(p) {
            assert(p < w.packages.len());
            assert(w.packages[p as int].status is Delivered);
        }
        if delivered_in(w.movements).contains(p) {
            assert(w.packages[p as int].status is Delivered);
            assert(w.packages[p as int].status != Custody::Unassigned);
        }
    }
}

/// Schedule completeness. Where no package gets stuck, a search from a
/// world on track, with a memory of schedules that serve, returns and
/// remembers only schedules that serve: they hand over every package that
/// some train could carry, and no other.
pub proof fn lemma_explore_serves(
    tables: Tables,
    stations: nat,
    wanted: Set<usize>,
    memo: Memo,
    w: World,
)
    requires
        tables_ok(tables, stations),
        world_wf(stations, w.trains, w.packages),
        clear(tables, w.packages),
        on_track(w, wanted),
        memo_serves(memo, wanted),
    ensures
        memo_serves(explore(tables, memo, w).0, wanted),
        explore(tables, memo, w).1 matches Ok(schedule) ==> serves(schedule, wanted),
    decreases remaining(w.packages), 1nat, 0nat,
{
    let key = cache_key(w.trains, w.packages);
    if !memo.contains_key(key) {
        let queue = actions(w.trains, w.packages);
        lemma_try_all_serves(tables, stations, wanted, memo, w, 0, None);
        let tried = try_all(tables, memo, w, queue, 0, None);
        if tried.1 == Ok::<Option<Seq<MovementView>>, ConfigError>(None) {
            lemma_nothing_left(tables, stations, wanted, w);
        }
    }
}

/// The same for the search over the actions of one world from action `i`
/// on. Where that search finds no schedule at all, none of these actions
/// changes anything.
pub proof fn lemma_try_all_serves(
    tables: Tables,
    stations: nat,
    wanted: Set<usize>,
    memo: Memo,
    w: World,
    i: nat,
    best: Option<Seq<MovementView>>,
)
    requires
        tables_ok(tables, stations),
        world_wf(stations, w.trains, w.packages),
        clear(tables, w.packages),
        on_track(w, wanted),
        memo_serves(memo, wanted),
        best matches Some(b) ==> serves(b, wanted),
    ensures
        ({
            let queue = actions(w.trains, w.packages);
            let tried = try_all(tables, memo, w, queue, i, best);
            &&& memo_serves(tried.0, wanted)
            &&& tried.1 matches Ok(Some(b)) ==> serves(b, wanted)
            &&& tried.1 matches Ok(None) ==> best is None && forall|j: int|
                i <= j < queue.len() ==> step(tables, w, #[trigger] queue[j]) == Ok::<
                    Option<World>,
                    ConfigError,
                >(None)
        }),
    decreases remaining(w.packages), 0nat, actions(w.trains, w.packages).len() - i,
{
    let queue = actions(w.trains, w.packages);
    if i < queue.len() {
        let a = queue[i as int];
        lemma_actions_valid(w.trains, w.packages, i as int);
        match step(tables, w, a) {
            Err(e) => {},
            Ok(None) => {
                lemma_try_all_serves(tables, stations, wanted, memo, w, i + 1, best);
            },
            Ok(Some(next)) => {
                lemma_step_keeps_order(tables, stations, w, a);
                lemma_step_progress(tables, stations, w, a);
                lemma_step_stays_on_track(tables, stations, wanted, w, a);
                lemma_explore_serves(tables, stations, wanted, memo, next);
                let explored = explore(tables, memo, next);
                if explored.1 is Ok {
                    let found = explored.1->Ok_0;
                    lemma_try_all_serves(
                        tables,
                        stations,
                        wanted,
                        explored.0,
                        w,
                        i + 1,
                        better(best, found),
                    );
                }
            },
        }
    }
}

/// Every schedule remembered has no gaps.
pub open spec fn memo_contiguous(memo: Memo) -> bool {
    forall|k: Seq<usize>| memo.contains_key(k) ==> contiguous(#[trigger] memo[k])
}

/// A step adds movements that start when the train is free and follow one
/// another: it leaves a schedule without gaps without gaps.
pub proof fn lemma_step_contiguous(tables: Tables, w: World, a: Action)
    requires
        contiguous(w.movements),
        step(tables, w, a) matches Ok(Some(_)),
    ensures
        step(tables, w, a) matches Ok(Some(next)) && contiguous(next.movements),
{
    let route = target_route(tables, w.trains, w.packages, a)->Ok_0;
    if route.moves() {
        let hops = route.hops();
        let picked = pickups(w.packages, a.train);
        let delivered = deliveries(w.packages, a.train, route.to);
        let planned = hop_movements(
            a.train,
            route.from,
            hops,
            free_at(w.movements, a.train),
            picked,
            delivered,
        );
        lemma_route_contiguous(
            w.movements,
            a.train,
            route.from,
            hops,
            picked,
            delivered,
            hops.len() as int,
        );
        assert(planned.take(hops.len() as int) =~= planned);
    }
}

/// Time contiguity. Whatever the instance, a search that starts from
/// movements without gaps, with a memory of schedules without gaps, returns
/// and remembers only schedules without gaps: each movement of a train
/// starts when the one before it ends.
pub proof fn lemma_explore_contiguous(tables: Tables, memo: Memo, w: World)
    requires
        contiguous(w.movements),
        memo_contiguous(memo),
    ensures
        memo_contiguous(explore(tables, memo, w).0),
        explore(tables, memo, w).1 matches Ok(schedule) ==> contiguous(schedule),
    decreases remaining(w.packages), 1nat, 0nat,
{
    let key = cache_key(w.trains, w.packages);
    if !memo.contains_key(key) {
        lemma_try_all_contiguous(tables, memo, w, actions(w.trains, w.packages), 0, None);
    }
}

/// The same for the search over the actions of one world from action `i` on.
pub proof fn lemma_try_all_contiguous(
    tables: Tables,
    memo: Memo,
    w: World,
    queue: Seq<Action>,
    i: nat,
    best: Option<Seq<MovementView>>,
)
    requires
        contiguous(w.movements),
        memo_contiguous(memo),
        best matches Some(b) ==> contiguous(b),
    ensures
        memo_contiguous(try_all(tables, memo, w, queue, i, best).0),
        try_all(tables, memo, w, queue, i, best).1 matches Ok(Some(b)) ==> contiguous(b),
    decreases remaining(w.packages), 0nat, queue.len() - i,
{
    if i < queue.len() {
        match step(tables, w, queue[i as int]) {
            Err(e) => {},
            Ok(None) => {
                lemma_try_all_contiguous(tables, memo, w, queue, i + 1, best);
            },
            Ok(Some(next)) => {
                if remaining(next.packages) < remaining(w.packages) {
                    lemma_step_contiguous(tables, w, queue[i as int]);
                    lemma_explore_contiguous(tables, memo, next);
                    let explored = explore(tables, memo, next);
                    if explored.1 is Ok {
                        lemma_try_all_contiguous(
                            tables,
                            explored.0,
                            w,
                            queue,
                            i + 1,
                            better(best, explored.1->Ok_0),
                        );
                    }
                } else {
                    lemma_try_all_contiguous(tables, memo, w, queue, i + 1, best);
                }
            },
        }
    }
}

/// The stations at which the trains wait before the first move.
pub open spec fn starts_of(trains: Seq<TrainView>) -> Seq<usize> {
    Seq::new(trains.len(), |t: int| trains[t].start)
}

/// Every movement leaves from where its train stands, crosses an edge of
/// the graph, and takes as long as the edge is long: the movements of each
/// train are a walk through the graph that begins where the train waited.
pub open spec fn itinerary(edges: Edges, starts: Seq<usize>, schedule: Seq<MovementView>) -> bool
    decreases schedule.len(),
{
    if schedule.len() == 0 {
        true
    } else {
        let m = schedule.last();
        &&& itinerary(edges, starts, schedule.drop_last())
        &&& m.train < starts.len()
        &&& m.from == position_after(schedule.drop_last(), m.train, starts[m.train as int])
        &&& m.start_time <= m.end_time
        &&& has_edge(edges, m.from as int, m.to as int, m.end_time - m.start_time)
    }
}

/// Every schedule remembered is an itinerary.
pub open spec fn memo_itinerary(edges: Edges, starts: Seq<usize>, memo: Memo) -> bool {
    forall|k: Seq<usize>| memo.contains_key(k) ==> itinerary(edges, starts, #[trigger] memo[k])
}

/// The tables answer the query from every station to every station.
pub open spec fn tables_answer(edges: Edges, tables: Tables) -> bool {
    &&& tables.len() == edges.len()
    &&& forall|a: int| 0 <= a < tables.len() ==> (#[trigger] tables[a]).len() == edges.len()
    &&& forall|a: int, b: int|
        0 <= a < edges.len() && 0 <= b < edges.len() ==> (#[trigger] tables[a][b]).answers(
            edges,
            a,
            b,
        )
}

/// Every train stands where its movements so far have taken it.
pub open spec fn in_place(w: World) -> bool {
    forall|t: int|
        0 <= t < w.trains.len() ==> (#[trigger] w.trains[t]).current_location == position_after(
            w.movements,
            t as usize,
            w.trains[t].start,
        )
}

/// The movements of one route, appended to an itinerary whose train stands
/// where the route begins, leave it an itinerary, take the train to the end
/// of the route and leave every other train where it was.
pub proof fn lemma_route_itinerary(
    edges: Edges,
    starts: Seq<usize>,
    movements: Seq<MovementView>,
    train: usize,
    from: usize,
    hops: Seq<Route>,
    picked: Seq<usize>,
    delivered: Seq<usize>,
    k: int,
)
    requires
        itinerary(edges, starts, movements),
        train < starts.len(),
        from == position_after(movements, train, starts[train as int]),
        is_walk(edges, from as int, hops),
        free_at(movements, train) + hops_len(hops) <= u64::MAX,
        0 <= k <= hops.len(),
    ensures
        ({
            let planned = hop_movements(
                train,
                from,
                hops,
                free_at(movements, train),
                picked,
                delivered,
            );
            let sofar = movements + planned.take(k);
            &&& itinerary(edges, starts, sofar)
            &&& position_after(sofar, train, starts[train as int]) == hops_end(
                from as int,
                hops.take(k),
            )
            &&& forall|t: usize, s: usize|
                t != train ==> position_after(sofar, t, s) == position_after(movements, t, s)
        }),
    decreases k,
{
    let start = free_at(movements, train);
    let planned = hop_movements(train, from, hops, start, picked, delivered);
    let sofar = movements + planned.take(k);
    if k == 0 {
        assert(sofar =~= movements);
        assert(hops.take(0) =~= Seq::<Route>::empty());
    } else {
        lemma_route_itinerary(edges, starts, movements, train, from, hops, picked, delivered, k - 1);
        lemma_hops_prefix(hops, k - 1);
        lemma_hops_prefix(hops, k);
        lemma_walk_prefix(edges, from as int, hops, k - 1);
        let before = movements + planned.take(k - 1);
        assert(sofar.drop_last() =~= before);
        assert(sofar.last() == planned[k - 1]);
        assert(hops.take(k).last() == hops[k - 1]);
        if k - 1 > 0 {
            assert(hops.take(k - 1).last() == hops[k - 2]);
        }
    }
}

/// A step in a world in order, whose trains stand where their movements
/// have taken them, leaves the trains so and the movements an itinerary.
pub proof fn lemma_step_itinerary(edges: Edges, tables: Tables, w: World, a: Action)
    requires
        tables_answer(edges, tables),
        world_wf(edges.len(), w.trains, w.packages),
        in_place(w),
        itinerary(edges, starts_of(w.trains), w.movements),
        action_valid(w.trains, w.packages, a),
        step(tables, w, a) matches Ok(Some(_)),
    ensures
        step(tables, w, a) matches Ok(Some(next)) && in_place(next) && itinerary(
            edges,
            starts_of(next.trains),
            next.movements,
        ) && starts_of(next.trains) == starts_of(w.trains),
{
    let next = step(tables, w, a)->Ok_0->Some_0;
    let route = target_route(tables, w.trains, w.packages, a)->Ok_0;
    let train = w.trains[a.train as int];
    let here = train.current_location;
    let pkg = w.packages[a.package as int];
    let starts = starts_of(w.trains);
    assert(package_ok(edges.len(), w.trains.len(), pkg));
    assert(route == tables[here as int][pkg.from as int] || route == tables[here as int][pkg.to as int]);
    assert(route.answers(edges, here as int, route.to as int));
    assert(starts_of(next.trains) =~= starts);
    if !route.moves() {
        assert forall|t: int| 0 <= t < next.trains.len() implies (
        #[trigger] next.trains[t]).current_location == position_after(
            next.movements,
            t as usize,
            next.trains[t].start,
        ) by {
            assert(w.trains[t].current_location == position_after(
                w.movements,
                t as usize,
                w.trains[t].start,
            ));
        }
    } else {
        let hops = route.hops();
        let picked = pickups(w.packages, a.train);
        let delivered = deliveries(w.packages, a.train, route.to);
        let planned = hop_movements(
            a.train,
            route.from,
            hops,
            free_at(w.movements, a.train),
            picked,
            delivered,
        );
        assert(starts[a.train as int] == train.start);
        lemma_route_itinerary(
            edges,
            starts,
            w.movements,
            a.train,
            route.from,
            hops,
            picked,
            delivered,
            hops.len() as int,
        );
        assert(planned.take(hops.len() as int) =~= planned);
        assert(hops.take(hops.len() as int) =~= hops);
        assert(hops_end(route.from as int, hops) == route.to);
        assert forall|t: int| 0 <= t < next.trains.len() implies (
        #[trigger] next.trains[t]).current_location == position_after(
            next.movements,
            t as usize,
            next.trains[t].start,
        ) by {
            assert(w.trains[t].current_location == position_after(
                w.movements,
                t as usize,
                w.trains[t].start,
            ));
        }
    }
}

/// Itineraries. A search that starts in a world in order, whose trains
/// stand where the movements so far have taken them, with a memory of
/// itineraries, returns and remembers only itineraries.
pub proof fn lemma_explore_itinerary(edges: Edges, tables: Tables, memo: Memo, w: World)
    requires
        tables_ok(tables, edges.len()),
        tables_answer(edges, tables),
        world_wf(edges.len(), w.trains, w.packages),
        in_place(w),
        itinerary(edges, starts_of(w.trains), w.movements),
        memo_itinerary(edges, starts_of(w.trains), memo),
    ensures
        memo_itinerary(edges, starts_of(w.trains), explore(tables, memo, w).0),
        explore(tables, memo, w).1 matches Ok(schedule) ==> itinerary(
            edges,
            starts_of(w.trains),
            schedule,
        ),
    decreases remaining(w.packages), 1nat, 0nat,
{
    let key = cache_key(w.trains, w.packages);
    if !memo.contains_key(key) {
        lemma_try_all_itinerary(edges, tables, memo, w, 0, None);
    }
}

/// The same for the search over the actions of one world from action `i` on.
pub proof fn lemma_try_all_itinerary(
    edges: Edges,
    tables: Tables,
    memo: Memo,
    w: World,
    i: nat,
    best: Option<Seq<MovementView>>,
)
    requires
        tables_ok(tables, edges.len()),
        tables_answer(edges, tables),
        world_wf(edges.len(), w.trains, w.packages),
        in_place(w),
        itinerary(edges, starts_of(w.trains), w.movements),
        memo_itinerary(edges, starts_of(w.trains), memo),
        best matches Some(b) ==> itinerary(edges, starts_of(w.trains), b),
    ensures
        ({
            let tried = try_all(tables, memo, w, actions(w.trains, w.packages), i, best);
            &&& memo_itinerary(edges, starts_of(w.trains), tried.0)
            &&& tried.1 matches Ok(Some(b)) ==> itinerary(edges, starts_of(w.trains), b)
        }),
    decreases remaining(w.packages), 0nat, actions(w.trains, w.packages).len() - i,
{
    let queue = actions(w.trains, w.packages);
    if i < queue.len() {
        let a = queue[i as int];
        lemma_actions_valid(w.trains, w.packages, i as int);
        match step(tables, w, a) {
            Err(e) => {},
            Ok(None) => {
                lemma_try_all_itinerary(edges, tables, memo, w, i + 1, best);
            },
            Ok(Some(next)) => {
                lemma_step_keeps_order(tables, edges.len(), w, a);
                lemma_step_progress(tables, edges.len(), w, a);
                lemma_step_itinerary(edges, tables, w, a);
                lemma_explore_itinerary(edges, tables, memo, next);
                let explored = explore(tables, memo, next);
                if explored.1 is Ok {
                    lemma_try_all_itinerary(
                        edges,
                        tables,
                        explored.0,
                        w,
                        i + 1,
                        better(best, explored.1->Ok_0),
                    );
                }
            },
        }
    }
}

/// Every station is reached from every station.
pub open spec fn all_found(tables: Tables) -> bool {
    forall|a: int, b: int|
        0 <= a < tables.len() && 0 <= b < tables[a].len() ==> (#[trigger] tables[a][b]).found()
}

/// Where every station is reached from every station, no step fails for
/// want of a path.
pub proof fn lemma_step_finds_way(tables: Tables, stations: nat, w: World, a: Action)
    requires
        tables_ok(tables, stations),
        all_found(tables),
        world_wf(stations, w.trains, w.packages),
        action_valid(w.trains, w.packages, a),
    ensures
        step(tables, w, a) != Err::<Option<World>, ConfigError>(ConfigError::Unreachable),
{
    let here = w.trains[a.train as int].current_location as int;
    let pkg = w.packages[a.package as int];
    assert(package_ok(stations, w.trains.len(), pkg));
    assert(tables[here][pkg.from as int].found());
    assert(tables[here][pkg.to as int].found());
}

/// Reachability. Where every station is reached from every station, the
/// search from a world in order never fails for want of a path.
pub proof fn lemma_explore_finds_way(tables: Tables, stations: nat, memo: Memo, w: World)
    requires
        tables_ok(tables, stations),
        all_found(tables),
        world_wf(stations, w.trains, w.packages),
    ensures
        explore(tables, memo, w).1 != Err::<Seq<MovementView>, ConfigError>(
            ConfigError::Unreachable,
        ),
    decreases remaining(w.packages), 1nat, 0nat,
{
    let key = cache_key(w.trains, w.packages);
    if !memo.contains_key(key) {
        lemma_try_all_finds_way(tables, stations, memo, w, 0, None);
    }
}

/// The same for the search over the actions of one world from action `i` on.
pub proof fn lemma_try_all_finds_way(
    tables: Tables,
    stations: nat,
    memo: Memo,
    w: World,
    i: nat,
    best: Option<Seq<MovementView>>,
)
    requires
        tables_ok(tables, stations),
        all_found(tables),
        world_wf(stations, w.trains, w.packages),
    ensures
        try_all(tables, memo, w, actions(w.trains, w.packages), i, best).1 != Err::<
            Option<Seq<MovementView>>,
            ConfigError,
        >(ConfigError::Unreachable),
    decreases remaining(w.packages), 0nat, actions(w.trains, w.packages).len() - i,
{
    let queue = actions(w.trains, w.packages);
    if i < queue.len() {
        let a = queue[i as int];
        lemma_actions_valid(w.trains, w.packages, i as int);
        lemma_step_finds_way(tables, stations, w, a);
        match step(tables, w, a) {
            Err(e) => {},
            Ok(None) => {
                lemma_try_all_finds_way(tables, stations, memo, w, i + 1, best);
            },
            Ok(Some(next)) => {
                lemma_step_keeps_order(tables, stations, w, a);
                lemma_step_progress(tables, stations, w, a);
                lemma_explore_finds_way(tables, stations, memo, next);
                let explored = explore(tables, memo, next);
                if explored.1 is Ok {
                    lemma_try_all_finds_way(
                        tables,
                        stations,
                        explored.0,
                        w,
                        i + 1,
                        better(best, explored.1->Ok_0),
                    );
                }
            },
        }
    }
}

/// No route of the tables is longer than `limit`, and each is as long as
/// its hops together.
pub open spec fn tables_within(tables: Tables, limit: nat) -> bool {
    forall|a: int, b: int|
        0 <= a < tables.len() && 0 <= b < tables[a].len() && (#[trigger] tables[a][b]).found() ==> {
            &&& tables[a][b].cumulative_distance <= limit
            &&& hops_len(tables[a][b].hops()) == tables[a][b].cumulative_distance
        }
}

/// The time that the stages still before the packages can take, at `limit`
/// for each.
#[verifier::opaque]
pub open spec fn reserve(packages: Seq<Package>, limit: nat) -> nat {
    remaining(packages) * limit
}

/// Every train has the time and the distance left for as many routes of
/// length `limit` as the packages have stages before them.
pub open spec fn in_time(w: World, limit: nat) -> bool {
    forall|t: int| 0 <= t < w.trains.len() ==> #[trigger] has_time(w, limit, t)
}

/// Train `t` has the time and the distance left for as many routes of
/// length `limit` as the packages have stages before them.
pub open spec fn has_time(w: World, limit: nat, t: int) -> bool {
    &&& free_at(w.movements, t as usize) + reserve(w.packages, limit) <= u64::MAX
    &&& w.trains[t].total_distance + reserve(w.packages, limit) <= u64::MAX
}

/// A package that is not delivered has a stage before it.
pub proof fn lemma_remaining_positive(packages: Seq<Package>, p: int)
    requires
        0 <= p < packages.len(),
        !(packages[p].status is Delivered),
    ensures
        remaining(packages) >= 1,
    decreases packages.len(),
{
    if p < packages.len() - 1 {
        lemma_remaining_positive(packages.drop_last(), p);
    }
}

/// The movements of one route end, for the train that takes it, when the
/// route is travelled, and leave every other train free when it was.
pub proof fn lemma_route_free_at(
    movements: Seq<MovementView>,
    train: usize,
    from: usize,
    hops: Seq<Route>,
    picked: Seq<usize>,
    delivered: Seq<usize>,
    k: int,
)
    requires
        free_at(movements, train) + hops_len(hops) <= u64::MAX,
        0 <= k <= hops.len(),
    ensures
        ({
            let start = free_at(movements, train);
            let planned = hop_movements(train, from, hops, start, picked, delivered);
            let sofar = movements + planned.take(k);
            &&& free_at(sofar, train) == start + hops_len(hops.take(k))
            &&& forall|t: usize| t != train ==> free_at(sofar, t) == free_at(movements, t)
        }),
    decreases k,
{
    let start = free_at(movements, train);
    let planned = hop_movements(train, from, hops, start, picked, delivered);
    let sofar = movements + planned.take(k);
    lemma_hops_prefix(hops, k);
    if k == 0 {
        assert(sofar =~= movements);
    } else {
        lemma_route_free_at(movements, train, from, hops, picked, delivered, k - 1);
        let before = movements + planned.take(k - 1);
        assert(sofar.drop_last() =~= before);
        assert(sofar.last() == planned[k - 1]);
    }
}

/// A step in a world that is in time does not fail for want of time, and
/// leaves the world in time.
pub proof fn lemma_step_in_time(tables: Tables, stations: nat, limit: nat, w: World, a: Action)
    requires
        tables_ok(tables, stations),
        tables_within(tables, limit),
        world_wf(stations, w.trains, w.packages),
        in_time(w, limit),
        action_valid(w.trains, w.packages, a),
    ensures
        step(tables, w, a) != Err::<Option<World>, ConfigError>(ConfigError::Overflow),
        step(tables, w, a) matches Ok(Some(next)) ==> in_time(next, limit),
{
    let train = w.trains[a.train as int];
    let here = train.current_location as int;
    let pkg = w.packages[a.package as int];
    let rem = remaining(w.packages);
    let had = reserve(w.packages, limit);
    assert(package_ok(stations, w.trains.len(), pkg));
    lemma_remaining_positive(w.packages, a.package as int);
    if target_route(tables, w.trains, w.packages, a) is Ok {
        let route = target_route(tables, w.trains, w.packages, a)->Ok_0;
        assert(route == tables[here][pkg.from as int] || route == tables[here][pkg.to as int]);
        let travelled = route.cumulative_distance;
        assert(had == rem * limit) by {
            reveal(reserve);
        }
        assert(travelled <= had) by (nonlinear_arith)
            requires
                travelled <= limit,
                rem >= 1,
                had == rem * limit,
        ;
        assert(has_time(w, limit, a.train as int));
        if step(tables, w, a) matches Ok(Some(_)) {
            let next = step(tables, w, a)->Ok_0->Some_0;
            lemma_step_progress(tables, stations, w, a);
            let left = remaining(next.packages);
            let has = reserve(next.packages, limit);
            assert(has == left * limit) by {
                reveal(reserve);
            }
            assert(has + limit <= had) by (nonlinear_arith)
                requires
                    left + 1 <= rem,
                    had == rem * limit,
                    has == left * limit,
            ;
            if route.moves() {
                let hops = route.hops();
                let picked = pickups(w.packages, a.train);
                let delivered = deliveries(w.packages, a.train, route.to);
                let planned = hop_movements(
                    a.train,
                    route.from,
                    hops,
                    free_at(w.movements, a.train),
                    picked,
                    delivered,
                );
                lemma_route_free_at(
                    w.movements,
                    a.train,
                    route.from,
                    hops,
                    picked,
                    delivered,
                    hops.len() as int,
                );
                assert(planned.take(hops.len() as int) =~= planned);
                assert(hops.take(hops.len() as int) =~= hops);
                assert(next.movements == w.movements + planned);
                assert(free_at(next.movements, a.train) == free_at(w.movements, a.train)
                    + travelled);
            } else {
                assert(next.movements == w.movements);
            }
            assert forall|t: int| 0 <= t < next.trains.len() implies #[trigger] has_time(
                next,
                limit,
                t,
            ) by {
                assert(has_time(w, limit, t));
                if t == a.train {
                    assert(next.trains[t].total_distance <= w.trains[t].total_distance + travelled);
                    assert(free_at(next.movements, t as usize) <= free_at(w.movements, t as usize)
                        + travelled);
                } else {
                    assert(next.trains[t] == w.trains[t]);
                    assert(free_at(next.movements, t as usize) == free_at(w.movements, t as usize));
                }
            }
            assert(in_time(next, limit));
        }
    }
}

/// Time. A search that starts in a world in order and in time never fails
/// for want of time.
pub proof fn lemma_explore_in_time(
    tables: Tables,
    stations: nat,
    limit: nat,
    memo: Memo,
    w: World,
)
    requires
        tables_ok(tables, stations),
        tables_within(tables, limit),
        world_wf(stations, w.trains, w.packages),
        in_time(w, limit),
    ensures
        explore(tables, memo, w).1 != Err::<Seq<MovementView>, ConfigError>(ConfigError::Overflow),
    decreases remaining(w.packages), 1nat, 0nat,
{
    let key = cache_key(w.trains, w.packages);
    if !memo.contains_key(key) {
        lemma_try_all_in_time(tables, stations, limit, memo, w, 0, None);
    }
}

/// The same for the search over the actions of one world from action `i` on.
pub proof fn lemma_try_all_in_time(
    tables: Tables,
    stations: nat,
    limit: nat,
    memo: Memo,
    w: World,
    i: nat,
    best: Option<Seq<MovementView>>,
)
    requires
        tables_ok(tables, stations),
        tables_within(tables, limit),
        world_wf(stations, w.trains, w.packages),
        in_time(w, limit),
    ensures
        try_all(tables, memo, w, actions(w.trains, w.packages), i, best).1 != Err::<
            Option<Seq<MovementView>>,
            ConfigError,
        >(ConfigError::Overflow),
    decreases remaining(w.packages), 0nat, actions(w.trains, w.packages).len() - i,
{
    let queue = actions(w.trains, w.packages);
    if i < queue.len() {
        let a = queue[i as int];
        lemma_actions_valid(w.trains, w.packages, i as int);
        lemma_step_in_time(tables, stations, limit, w, a);
        match step(tables, w, a) {
            Err(e) => {},
            Ok(None) => {
                lemma_try_all_in_time(tables, stations, limit, memo, w, i + 1, best);
            },
            Ok(Some(next)) => {
                lemma_step_keeps_order(tables, stations, w, a);
                lemma_step_progress(tables, stations, w, a);
                lemma_explore_in_time(tables, stations, limit, memo, next);
                let explored = explore(tables, memo, next);
                if explored.1 is Ok {
                    lemma_try_all_in_time(
                        tables,
                        stations,
                        limit,
                        explored.0,
                        w,
                        i + 1,
                        better(best, explored.1->Ok_0),
                    );
                }
            },
        }
    }
}

/// Where nobody has any package, every package has all its stages before it.
pub proof fn lemma_remaining_of_free(packages: Seq<Package>)
    requires
        forall|i: int| 0 <= i < packages.len() ==> (#[trigger] packages[i]).status == Custody::Unassigned,
    ensures
        remaining(packages) == 3 * packages.len(),
    decreases packages.len(),
{
    if packages.len() > 0 {
        lemma_remaining_of_free(packages.drop_last());
    }
}

/// Errors. A search fails only for want of a path or for want of time.
pub proof fn lemma_explore_errs(tables: Tables, memo: Memo, w: World)
    ensures
        explore(tables, memo, w).1 matches Err(e) ==> e == ConfigError::Unreachable || e
            == ConfigError::Overflow,
    decreases remaining(w.packages), 1nat, 0nat,
{
    let key = cache_key(w.trains, w.packages);
    if !memo.contains_key(key) {
        lemma_try_all_errs(tables, memo, w, actions(w.trains, w.packages), 0, None);
    }
}

/// The same for the search over the actions of one world from action `i` on.
pub proof fn lemma_try_all_errs(
    tables: Tables,
    memo: Memo,
    w: World,
    queue: Seq<Action>,
    i: nat,
    best: Option<Seq<MovementView>>,
)
    ensures
        try_all(tables, memo, w, queue, i, best).1 matches Err(e) ==> e == ConfigError::Unreachable
            || e == ConfigError::Overflow,
    decreases remaining(w.packages), 0nat, queue.len() - i,
{
    if i < queue.len() {
        match step(tables, w, queue[i as int]) {
            Err(e) => {},
            Ok(None) => {
                lemma_try_all_errs(tables, memo, w, queue, i + 1, best);
            },
            Ok(Some(next)) => {
                if remaining(next.packages) < remaining(w.packages) {
                    lemma_explore_errs(tables, memo, next);
                    let explored = explore(tables, memo, next);
                    if explored.1 is Ok {
                        lemma_try_all_errs(
                            tables,
                            explored.0,
                            w,
                            queue,
                            i + 1,
                            better(best, explored.1->Ok_0),
                        );
                    }
                } else {
                    lemma_try_all_errs(tables, memo, w, queue, i + 1, best);
                }
            },
        }
    }
}

} // verus!
