//! The capacity of the trains, read off the schedule: after every movement
//! of a schedule that the search returns, what a train has loaded and not
//! yet handed over weighs no more than the train can carry.
use vstd::prelude::*;
use crate::memo::Memo;
use crate::movement::{MovementView, free_at};
use crate::package::{Custody, Package, load, load_upto, remaining};
use crate::route::Route;
use crate::search::{actions, better, cache_key, explore, lemma_actions_valid, try_all};
use crate::train::TrainView;
use crate::world::{
    Action, Tables, World, action_valid, after_move, bound_upto, carried_upto, deliveries,
    hop_movements, lemma_step_keeps_order, lemma_step_progress, moved, pickups, pickups_upto,
    step, tables_ok, target_route, world_wf,
};

verus! {

/// The weights of the packages, in order.
pub open spec fn weights_list(packages: Seq<Package>) -> Seq<u64> {
    Seq::new(packages.len(), |p: int| packages[p].weight)
}

/// The capacities of the trains, in order.
pub open spec fn capacities(trains: Seq<TrainView>) -> Seq<u64> {
    Seq::new(trains.len(), |t: int| trains[t].capacity)
}

/// The weight of the packages listed.
pub open spec fn tally(weigh: Seq<u64>, ids: Seq<usize>) -> int
    decreases ids.len(),
{
    if ids.len() == 0 {
        0
    } else {
        tally(weigh, ids.drop_last()) + weigh[ids.last() as int]
    }
}

/// What `train` has loaded in the schedule and not handed over, by weight.
pub open spec fn on_board(schedule: Seq<MovementView>, weigh: Seq<u64>, train: usize) -> int
    decreases schedule.len(),
{
    if schedule.len() == 0 {
        0
    } else {
        on_board(schedule.drop_last(), weigh, train) + if schedule.last().train == train {
            tally(weigh, schedule.last().packages_picked_up) - tally(
                weigh,
                schedule.last().packages_delivered,
            )
        } else {
            0
        }
    }
}

/// After each movement of the schedule, no train has more on board than it
/// can carry.
pub open spec fn within(schedule: Seq<MovementView>, weigh: Seq<u64>, caps: Seq<u64>) -> bool {
    forall|k: int, t: int|
        0 <= k <= schedule.len() && 0 <= t < caps.len() ==> #[trigger] on_board(
            schedule.take(k),
            weigh,
            t as usize,
        ) <= caps[t]
}

/// Every schedule remembered keeps within the capacities.
pub open spec fn memo_within(memo: Memo, weigh: Seq<u64>, caps: Seq<u64>) -> bool {
    forall|k: Seq<usize>| memo.contains_key(k) ==> within(#[trigger] memo[k], weigh, caps)
}

/// What train `t` has on board by the movements is what it carries by the
/// statuses.
pub open spec fn tallied_for(w: World, t: int) -> bool {
    on_board(w.movements, weights_list(w.packages), t as usize) == tally(
        weights_list(w.packages),
        carried_upto(w.packages, t as usize, w.packages.len() as int),
    )
}

/// What each train has on board by the movements is what it carries by the
/// statuses.
pub open spec fn tallied(w: World) -> bool {
    forall|t: int| 0 <= t < w.trains.len() ==> #[trigger] tallied_for(w, t)
}

/// Two lists joined weigh what they weigh apart.
pub proof fn lemma_tally_concat(weigh: Seq<u64>, a: Seq<usize>, b: Seq<usize>)
    ensures
        tally(weigh, a + b) == tally(weigh, a) + tally(weigh, b),
    decreases b.len(),
{
    if b.len() == 0 {
        assert(a + b =~= a);
    } else {
        lemma_tally_concat(weigh, a, b.drop_last());
        assert((a + b).drop_last() =~= a + b.drop_last());
    }
}

/// What a train has committed to and what it carries weigh together what
/// the statuses put on it.
pub proof fn lemma_tally_lists(packages: Seq<Package>, t: usize, upto: int)
    requires
        0 <= upto <= packages.len() <= usize::MAX,
    ensures
        tally(weights_list(packages), pickups_upto(packages, t, upto)) + tally(
            weights_list(packages),
            carried_upto(packages, t, upto),
        ) == load_upto(packages, t, upto),
    decreases upto,
{
    if upto > 0 {
        lemma_tally_lists(packages, t, upto - 1);
        let last = (upto - 1) as usize;
        assert(pickups_upto(packages, t, upto - 1).push(last).drop_last() =~= pickups_upto(
            packages,
            t,
            upto - 1,
        ));
        assert(carried_upto(packages, t, upto - 1).push(last).drop_last() =~= carried_upto(
            packages,
            t,
            upto - 1,
        ));
    }
}

/// After a train has arrived at a station, what it still carries and what
/// it has handed over there weigh together what it held before.
pub proof fn lemma_tally_after(
    before: Seq<Package>,
    after: Seq<Package>,
    t: usize,
    at: usize,
    upto: int,
)
    requires
        0 <= upto <= before.len() <= usize::MAX,
        after.len() == before.len(),
        forall|i: int|
            0 <= i < before.len() ==> ((#[trigger] after[i]).status == Custody::Carried(t)) == (
            before[i].status.held_by(t) && before[i].to != at),
    ensures
        tally(weights_list(before), carried_upto(after, t, upto)) + tally(
            weights_list(before),
            bound_upto(before, Custody::AssignedForPickup(t), at, upto),
        ) + tally(weights_list(before), bound_upto(before, Custody::Carried(t), at, upto))
            == load_upto(before, t, upto),
    decreases upto,
{
    if upto > 0 {
        lemma_tally_after(before, after, t, at, upto - 1);
        let last = (upto - 1) as usize;
        let kept = carried_upto(after, t, upto - 1);
        let fresh = bound_upto(before, Custody::AssignedForPickup(t), at, upto - 1);
        let carried = bound_upto(before, Custody::Carried(t), at, upto - 1);
        assert(kept.push(last).drop_last() =~= kept);
        assert(fresh.push(last).drop_last() =~= fresh);
        assert(carried.push(last).drop_last() =~= carried);
        assert((after[upto - 1].status == Custody::Carried(t)) == (before[upto
            - 1].status.held_by(t) && before[upto - 1].to != at));
    }
}

/// What the movements of one route, appended to a schedule, put on board of
/// a train and take off it.
pub proof fn lemma_on_board_route(
    movements: Seq<MovementView>,
    train: usize,
    from: usize,
    hops: Seq<Route>,
    start: u64,
    picked: Seq<usize>,
    delivered: Seq<usize>,
    weigh: Seq<u64>,
    other: usize,
    j: int,
)
    requires
        0 <= j <= hops.len(),
    ensures
        ({
            let all = movements + hop_movements(train, from, hops, start, picked, delivered);
            on_board(all.take(movements.len() + j), weigh, other) == on_board(
                movements,
                weigh,
                other,
            ) + if other == train && j >= 1 {
                tally(weigh, picked) - if j == hops.len() {
                    tally(weigh, delivered)
                } else {
                    0
                }
            } else {
                0
            }
        }),
    decreases j,
{
    let planned = hop_movements(train, from, hops, start, picked, delivered);
    let all = movements + planned;
    let n = movements.len() as int;
    if j == 0 {
        assert(all.take(n) =~= movements);
    } else {
        lemma_on_board_route(movements, train, from, hops, start, picked, delivered, weigh, other, j - 1);
        assert(all.take(n + j).drop_last() =~= all.take(n + j - 1));
        assert(all.take(n + j).last() == planned[j - 1]);
        assert(tally(weigh, Seq::<usize>::empty()) == 0);
    }
}

/// No list weighs less than nothing.
pub proof fn lemma_tally_nonnegative(weigh: Seq<u64>, ids: Seq<usize>)
    ensures
        tally(weigh, ids) >= 0,
    decreases ids.len(),
{
    if ids.len() > 0 {
        lemma_tally_nonnegative(weigh, ids.drop_last());
    }
}

/// Where the same packages are carried by a train, the train's list of
/// carried packages is the same.
pub proof fn lemma_carried_same(before: Seq<Package>, after: Seq<Package>, t: usize, upto: int)
    requires
        0 <= upto <= before.len(),
        after.len() == before.len(),
        forall|i: int|
            0 <= i < before.len() ==> ((#[trigger] after[i]).status == Custody::Carried(t)) == (
            before[i].status == Custody::Carried(t)),
    ensures
        carried_upto(after, t, upto) == carried_upto(before, t, upto),
    decreases upto,
{
    if upto > 0 {
        lemma_carried_same(before, after, t, upto - 1);
        assert((after[upto - 1].status == Custody::Carried(t)) == (before[upto - 1].status
            == Custody::Carried(t)));
    }
}

/// A step leaves every train within its capacity after each movement, and
/// what the trains have on board in agreement with what they carry.
pub proof fn lemma_step_keeps_tally(tables: Tables, stations: nat, w: World, a: Action)
    requires
        tables_ok(tables, stations),
        world_wf(stations, w.trains, w.packages),
        tallied(w),
        within(w.movements, weights_list(w.packages), capacities(w.trains)),
        action_valid(w.trains, w.packages, a),
        step(tables, w, a) matches Ok(Some(_)),
    ensures
        step(tables, w, a) matches Ok(Some(next)) && tallied(next) && within(
            next.movements,
            weights_list(next.packages),
            capacities(next.trains),
        ) && weights_list(next.packages) == weights_list(w.packages) && capacities(next.trains)
            == capacities(w.trains),
{
    let next = step(tables, w, a)->Ok_0->Some_0;
    let route = target_route(tables, w.trains, w.packages, a)->Ok_0;
    let t = a.train;
    let weigh = weights_list(w.packages);
    let caps = capacities(w.trains);
    let count = w.packages.len() as int;
    assert(next.packages.len() == w.packages.len());
    assert(next.trains.len() == w.trains.len());
    assert(weights_list(next.packages) =~= weigh) by {
        assert forall|p: int| 0 <= p < count implies next.packages[p].weight
            == w.packages[p].weight by {}
    }
    assert(capacities(next.trains) =~= caps) by {
        assert forall|x: int| 0 <= x < w.trains.len() implies next.trains[x].capacity
            == w.trains[x].capacity by {}
    }
    let old = w.movements;
    let all = next.movements;
    if !route.moves() {
        assert(all == old);
        assert forall|x: int| 0 <= x < next.trains.len() implies #[trigger] tallied_for(next, x) by {
            assert(tallied_for(w, x));
            lemma_carried_same(w.packages, next.packages, x as usize, count);
        }
    } else {
        let hops = route.hops();
        let start = free_at(old, t);
        let picked = pickups(w.packages, t);
        let delivered = deliveries(w.packages, t, route.to);
        let planned = hop_movements(t, route.from, hops, start, picked, delivered);
        assert(all == old + planned);
        let n = old.len() as int;
        let handed_over = after_move(w.packages, t, route.to);
        assert forall|i: int| 0 <= i < count implies ((#[trigger] next.packages[i]).status
            == Custody::Carried(t)) == (w.packages[i].status.held_by(t) && w.packages[i].to
            != route.to) by {
            assert(handed_over[i] == moved(w.packages[i], t, route.to));
        }
        lemma_tally_lists(w.packages, t, count);
        lemma_tally_after(w.packages, next.packages, t, route.to, count);
        let fresh = bound_upto(w.packages, Custody::AssignedForPickup(t), route.to, count);
        let carried = bound_upto(w.packages, Custody::Carried(t), route.to, count);
        lemma_tally_concat(weigh, fresh, carried);
        lemma_tally_nonnegative(weigh, delivered);
        lemma_tally_nonnegative(weigh, fresh);
        lemma_tally_nonnegative(weigh, carried);
        assert(tallied_for(w, t as int));
        assert(load(w.packages, t) <= w.trains[t as int].capacity);
        assert(caps[t as int] == w.trains[t as int].capacity);
        assert(old.take(n) =~= old);
        assert(all.take(n + hops.len()) =~= all);
        assert forall|k: int, x: int|
            0 <= k <= all.len() && 0 <= x < caps.len() implies #[trigger] on_board(
            all.take(k),
            weigh,
            x as usize,
        ) <= caps[x] by {
            if k <= n {
                assert(all.take(k) =~= old.take(k));
                assert(on_board(old.take(k), weigh, x as usize) <= caps[x]);
            } else {
                lemma_on_board_route(
                    old,
                    t,
                    route.from,
                    hops,
                    start,
                    picked,
                    delivered,
                    weigh,
                    x as usize,
                    k - n,
                );
                assert(on_board(old.take(n), weigh, x as usize) <= caps[x]);
            }
        }
        assert forall|x: int| 0 <= x < next.trains.len() implies #[trigger] tallied_for(next, x) by {
            assert(tallied_for(w, x));
            lemma_on_board_route(
                old,
                t,
                route.from,
                hops,
                start,
                picked,
                delivered,
                weigh,
                x as usize,
                hops.len() as int,
            );
            if x != t {
                assert forall|i: int| 0 <= i < count implies ((
                #[trigger] next.packages[i]).status == Custody::Carried(x as usize)) == (
                w.packages[i].status == Custody::Carried(x as usize)) by {
                    assert(handed_over[i] == moved(w.packages[i], t, route.to));
                }
                lemma_carried_same(w.packages, next.packages, x as usize, count);
            }
        }
    }
}

/// Capacity. A search that starts from movements that keep within the
/// capacities and agree with what the trains carry, with a memory of
/// schedules that keep within the capacities, returns and remembers only
/// schedules that do: after each of their movements, what a train has
/// loaded and not handed over weighs no more than the train can carry.
pub proof fn lemma_explore_within(tables: Tables, stations: nat, memo: Memo, w: World)
    requires
        tables_ok(tables, stations),
        world_wf(stations, w.trains, w.packages),
        tallied(w),
        within(w.movements, weights_list(w.packages), capacities(w.trains)),
        memo_within(memo, weights_list(w.packages), capacities(w.trains)),
    ensures
        memo_within(
            explore(tables, memo, w).0,
            weights_list(w.packages),
            capacities(w.trains),
        ),
        explore(tables, memo, w).1 matches Ok(schedule) ==> within(
            schedule,
            weights_list(w.packages),
            capacities(w.trains),
        ),
    decreases remaining(w.packages), 1nat, 0nat,
{
    let key = cache_key(w.trains, w.packages);
    if !memo.contains_key(key) {
        lemma_try_all_within(tables, stations, memo, w, 0, None);
    }
}

/// The same for the search over the actions of one world from action `i` on.
pub proof fn lemma_try_all_within(
    tables: Tables,
    stations: nat,
    memo: Memo,
    w: World,
    i: nat,
    best: Option<Seq<MovementView>>,
)
    requires
        tables_ok(tables, stations),
        world_wf(stations, w.trains, w.packages),
        tallied(w),
        within(w.movements, weights_list(w.packages), capacities(w.trains)),
        memo_within(memo, weights_list(w.packages), capacities(w.trains)),
        best matches Some(b) ==> within(b, weights_list(w.packages), capacities(w.trains)),
    ensures
        ({
            let tried = try_all(tables, memo, w, actions(w.trains, w.packages), i, best);
            &&& memo_within(tried.0, weights_list(w.packages), capacities(w.trains))
            &&& tried.1 matches Ok(Some(b)) ==> within(
                b,
                weights_list(w.packages),
                capacities(w.trains),
            )
        }),
    decreases remaining(w.packages), 0nat, actions(w.trains, w.packages).len() - i,
{
    let queue = actions(w.trains, w.packages);
    if i < queue.len() {
        let a = queue[i as int];
        lemma_actions_valid(w.trains, w.packages, i as int);
        match step(tables, w, a) {
            Err(e) => {},
            Ok(None) => {
                lemma_try_all_within(tables, stations, memo, w, i + 1, best);
            },
            Ok(Some(next)) => {
                lemma_step_keeps_order(tables, stations, w, a);
                lemma_step_progress(tables, stations, w, a);
                lemma_step_keeps_tally(tables, stations, w, a);
                lemma_explore_within(tables, stations, memo, next);
                let explored = explore(tables, memo, next);
                if explored.1 is Ok {
                    lemma_try_all_within(
                        tables,
                        stations,
                        explored.0,
                        w,
                        i + 1,
                        better(best, explored.1->Ok_0),
                    );
                }
            },
        }
    }
}

} // verus!
