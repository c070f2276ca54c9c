//! What the movements of a schedule say of each package: where no package
//! gets stuck and trains load where packages lie, every package that some
//! train can carry is loaded once, where it lies, and handed over once,
//! where it is bound for, by the train that loaded it and not before.
use vstd::prelude::*;
use crate::error::ConfigError;
use crate::laws::{
    clear, lemma_nothing_left, lemma_step_stays_on_track, memo_serves, on_track, serves,
};
use crate::memo::Memo;
use crate::movement::{MovementView, free_at};
use crate::package::{Custody, Package, remaining};
use crate::route::Route;
use crate::search::{actions, better, cache_key, explore, lemma_actions_valid, try_all};
use crate::world::{
    Action, Tables, World, action_valid, after_move, deliveries, hop_movements,
    lemma_deliveries_members, lemma_pickups_members, lemma_step_keeps_order, lemma_step_progress,
    moved, package_ok, pickups, step, tables_ok, target_route, world_wf,
};

verus! {

/// Movement `i` of the schedule loads package `p`.
pub open spec fn picks_at(schedule: Seq<MovementView>, i: int, p: usize) -> bool {
    0 <= i < schedule.len() && schedule[i].packages_picked_up.contains(p)
}

/// Movement `i` of the schedule hands over package `p`.
pub open spec fn hands_at(schedule: Seq<MovementView>, i: int, p: usize) -> bool {
    0 <= i < schedule.len() && schedule[i].packages_delivered.contains(p)
}

/// No movement loads package `p`.
pub open spec fn never_picked(schedule: Seq<MovementView>, p: usize) -> bool {
    forall|i: int| !#[trigger] picks_at(schedule, i, p)
}

/// No movement hands over package `p`.
pub open spec fn never_handed(schedule: Seq<MovementView>, p: usize) -> bool {
    forall|i: int| !#[trigger] hands_at(schedule, i, p)
}

/// Movement `h`, and no other, loads package `p`; it is a movement of
/// `train` and leaves station `from`.
pub open spec fn picked_once(
    schedule: Seq<MovementView>,
    p: usize,
    h: int,
    train: usize,
    from: usize,
) -> bool {
    &&& picks_at(schedule, h, p)
    &&& schedule[h].train == train
    &&& schedule[h].from == from
    &&& forall|i: int| #[trigger] picks_at(schedule, i, p) ==> i == h
}

/// Movement `i`, and no other, hands over package `p`; it is a movement of
/// `train` and ends at station `to`.
pub open spec fn handed_once(
    schedule: Seq<MovementView>,
    p: usize,
    i: int,
    train: usize,
    to: usize,
) -> bool {
    &&& hands_at(schedule, i, p)
    &&& schedule[i].train == train
    &&& schedule[i].to == to
    &&& forall|j: int| #[trigger] hands_at(schedule, j, p) ==> j == i
}

/// Package `p` is loaded by one movement, which leaves `from`, and handed
/// over by one movement of the same train, not an earlier one, which ends
/// at `to`.
pub open spec fn served_once(schedule: Seq<MovementView>, p: usize, from: usize, to: usize) -> bool {
    exists|t: usize, h: int, i: int|
        #![trigger picked_once(schedule, p, h, t, from), handed_once(schedule, p, i, t, to)]
        picked_once(schedule, p, h, t, from) && handed_once(schedule, p, i, t, to) && h <= i
}

/// Package `p` was loaded by one movement of `train`, which left `from`.
pub open spec fn loaded_once(schedule: Seq<MovementView>, p: usize, train: usize, from: usize) -> bool {
    exists|h: int| #[trigger] picked_once(schedule, p, h, train, from)
}

/// Package `p` was loaded and handed over by one movement each of `train`.
pub open spec fn done_once(
    schedule: Seq<MovementView>,
    p: usize,
    train: usize,
    from: usize,
    to: usize,
) -> bool {
    exists|h: int, i: int|
        #![trigger picked_once(schedule, p, h, train, from), handed_once(schedule, p, i, train, to)]
        picked_once(schedule, p, h, train, from) && handed_once(schedule, p, i, train, to) && h
            <= i
}

/// The movements agree with the status of package `p`.
pub open spec fn booked(schedule: Seq<MovementView>, pkg: Package, p: usize) -> bool {
    match pkg.status {
        Custody::Unassigned => never_picked(schedule, p) && never_handed(schedule, p),
        Custody::AssignedForPickup(_) => never_picked(schedule, p) && never_handed(schedule, p),
        Custody::Carried(t) => loaded_once(schedule, p, t, pkg.from) && never_handed(schedule, p),
        Custody::Delivered(t) => done_once(schedule, p, t, pkg.from, pkg.to),
    }
}

/// A train that has committed to a package stands where the package lies.
pub open spec fn at_origin(w: World, p: int) -> bool {
    w.packages[p].status matches Custody::AssignedForPickup(t) ==> w.trains[t as int].current_location
        == w.packages[p].from
}

/// The movements made so far agree with the status of every package, and
/// every train that has committed to a package stands where it lies.
pub open spec fn ledger(w: World) -> bool {
    &&& forall|p: int|
        0 <= p < w.packages.len() ==> #[trigger] booked(w.movements, w.packages[p], p as usize)
    &&& forall|p: int| 0 <= p < w.packages.len() ==> #[trigger] at_origin(w, p)
}

/// From the station where a package lies no other station is at distance 0.
pub open spec fn origins_clear(tables: Tables, packages: Seq<Package>) -> bool {
    forall|p: int, s: int|
        0 <= p < packages.len() && 0 <= s < tables.len() && s != packages[p].from && packages[p].from
            < tables[s].len() && (#[trigger] tables[s][packages[p].from as int]).found()
            ==> tables[s][packages[p].from as int].cumulative_distance > 0
}

/// Where each package lies and where it is bound for.
pub open spec fn ends_of(packages: Seq<Package>) -> Seq<(usize, usize)> {
    Seq::new(packages.len(), |p: int| (packages[p].from, packages[p].to))
}

/// The schedule serves each package of `wanted` once.
pub open spec fn books(schedule: Seq<MovementView>, ends: Seq<(usize, usize)>, wanted: Set<usize>) -> bool {
    forall|p: usize|
        p < ends.len() && wanted.contains(p) ==> #[trigger] served_once(
            schedule,
            p,
            ends[p as int].0,
            ends[p as int].1,
        )
}

/// Every schedule remembered serves each package of `wanted` once.
pub open spec fn memo_books(memo: Memo, ends: Seq<(usize, usize)>, wanted: Set<usize>) -> bool {
    forall|k: Seq<usize>| memo.contains_key(k) ==> books(#[trigger] memo[k], ends, wanted)
}

/// What the movements of one route, appended to a schedule, load and hand over.
pub proof fn lemma_route_books(
    movements: Seq<MovementView>,
    train: usize,
    from: usize,
    hops: Seq<Route>,
    start: u64,
    picked: Seq<usize>,
    delivered: Seq<usize>,
)
    requires
        hops.len() > 0,
    ensures
        ({
            let all = movements + hop_movements(train, from, hops, start, picked, delivered);
            let first = movements.len() as int;
            let last = movements.len() + hops.len() - 1;
            &&& all.len() == movements.len() + hops.len()
            &&& forall|i: int| 0 <= i < movements.len() ==> #[trigger] all[i] == movements[i]
            &&& all[first].train == train
            &&& all[first].from == from
            &&& all[last].train == train
            &&& all[last].to == hops.last().to
            &&& forall|i: int, q: usize| #[trigger]
                picks_at(all, i, q) <==> picks_at(movements, i, q) || (i == first
                    && picked.contains(q))
            &&& forall|i: int, q: usize| #[trigger]
                hands_at(all, i, q) <==> hands_at(movements, i, q) || (i == last
                    && delivered.contains(q))
        }),
{
    let planned = hop_movements(train, from, hops, start, picked, delivered);
    let all = movements + planned;
    let first = movements.len() as int;
    let last = movements.len() + hops.len() - 1;
    assert(all[first] == planned[0]);
    assert(all[last] == planned[hops.len() - 1]);
    assert forall|i: int, q: usize| #[trigger]
        picks_at(all, i, q) <==> picks_at(movements, i, q) || (i == first && picked.contains(
            q,
        )) by {
        if 0 <= i < all.len() {
            if i < first {
                assert(all[i] == movements[i]);
            } else {
                assert(all[i] == planned[i - first]);
                if i != first {
                    assert(!Seq::<usize>::empty().contains(q));
                }
            }
        }
    }
    assert forall|i: int, q: usize| #[trigger]
        hands_at(all, i, q) <==> hands_at(movements, i, q) || (i == last && delivered.contains(
            q,
        )) by {
        if 0 <= i < all.len() {
            if i < first {
                assert(all[i] == movements[i]);
            } else {
                assert(all[i] == planned[i - first]);
                if i != last {
                    assert(!Seq::<usize>::empty().contains(q));
                }
            }
        }
    }
}

/// A step keeps the movements in agreement with the statuses, and the
/// trains that have committed to packages where these lie.
pub proof fn lemma_step_keeps_ledger(tables: Tables, stations: nat, w: World, a: Action)
    requires
        tables_ok(tables, stations),
        world_wf(stations, w.trains, w.packages),
        origins_clear(tables, w.packages),
        ledger(w),
        action_valid(w.trains, w.packages, a),
        step(tables, w, a) matches Ok(Some(_)),
    ensures
        step(tables, w, a) matches Ok(Some(next)) && ledger(next) && origins_clear(
            tables,
            next.packages,
        ),
{
    let next = step(tables, w, a)->Ok_0->Some_0;
    let route = target_route(tables, w.trains, w.packages, a)->Ok_0;
    let t = a.train;
    let here = w.trains[t as int].current_location;
    let pkg = w.packages[a.package as int];
    assert(package_ok(stations, w.trains.len(), pkg));
    assert(route == tables[here as int][pkg.from as int] || route == tables[here as int][pkg.to as int]);
    assert(a.to_pick_up ==> route == tables[here as int][pkg.from as int]);
    assert(route.from == here);
    assert(next.packages.len() == w.packages.len());
    assert(next.trains.len() == w.trains.len());
    assert forall|p: int, s: int|
        0 <= p < next.packages.len() && 0 <= s < tables.len() && s != next.packages[p].from
            && next.packages[p].from < tables[s].len() && (
        #[trigger] tables[s][next.packages[p].from as int]).found()
        implies tables[s][next.packages[p].from as int].cumulative_distance
        > 0 by {
        assert(next.packages[p].from == w.packages[p].from);
    }
    if !route.moves() {
        assert(next.movements == w.movements);
        assert forall|p: int| 0 <= p < next.packages.len() implies #[trigger] booked(
            next.movements,
            next.packages[p],
            p as usize,
        ) by {
            assert(booked(w.movements, w.packages[p], p as usize));
        }
        assert forall|p: int| 0 <= p < next.packages.len() implies #[trigger] at_origin(next, p) by {
            assert(at_origin(w, p));
            if p == a.package {
                assert(route.to == pkg.from);
                if here != pkg.from {
                    assert(tables[here as int][pkg.from as int].found());
                }
            }
        }
    } else {
        let hops = route.hops();
        let start = free_at(w.movements, t);
        let picked = pickups(w.packages, t);
        let delivered = deliveries(w.packages, t, route.to);
        let planned = hop_movements(t, route.from, hops, start, picked, delivered);
        let old = w.movements;
        let all = next.movements;
        assert(all == old + planned);
        let first = old.len() as int;
        let last = old.len() + hops.len() - 1;
        lemma_route_books(old, t, route.from, hops, start, picked, delivered);
        lemma_pickups_members(w.packages, t, w.packages.len() as int);
        lemma_deliveries_members(w.packages, t, route.to);
        assert(hops.last().to == route.to);
        let handed_over = after_move(w.packages, t, route.to);
        assert forall|p: int| 0 <= p < next.packages.len() implies #[trigger] booked(
            all,
            next.packages[p],
            p as usize,
        ) by {
            let q = p as usize;
            let was = w.packages[p];
            let now = next.packages[p];
            assert(booked(old, was, q));
            assert(at_origin(w, p));
            assert(handed_over[p] == moved(was, t, route.to));
            assert(now.from == was.from && now.to == was.to);
            assert(picked.contains(q) <==> was.status == Custody::AssignedForPickup(t));
            assert(delivered.contains(q) <==> was.status.held_by(t) && was.to == route.to);
            if was.status == Custody::AssignedForPickup(t) {
                assert(never_picked(old, q) && never_handed(old, q));
                assert(picks_at(all, first, q));
                assert forall|i: int| #[trigger] picks_at(all, i, q) implies i == first by {
                    assert(!picks_at(old, i, q));
                }
                assert(picked_once(all, q, first, t, was.from));
                if was.to == route.to {
                    assert(hands_at(all, last, q));
                    assert forall|j: int| #[trigger] hands_at(all, j, q) implies j == last by {
                        assert(!hands_at(old, j, q));
                    }
                    assert(handed_once(all, q, last, t, was.to));
                    assert(done_once(all, q, t, now.from, now.to));
                } else {
                    assert forall|j: int| !#[trigger] hands_at(all, j, q) by {
                        assert(!hands_at(old, j, q));
                    }
                    assert(loaded_once(all, q, t, now.from));
                }
            } else if was.status == Custody::Carried(t) {
                let h = choose|h: int| #[trigger] picked_once(old, q, h, t, was.from);
                assert(picks_at(all, h, q));
                assert(all[h] == old[h]);
                assert forall|i: int| #[trigger] picks_at(all, i, q) implies i == h by {
                    assert(picks_at(old, i, q));
                }
                assert(picked_once(all, q, h, t, was.from));
                if was.to == route.to {
                    assert(hands_at(all, last, q));
                    assert forall|j: int| #[trigger] hands_at(all, j, q) implies j == last by {
                        assert(!hands_at(old, j, q));
                    }
                    assert(handed_once(all, q, last, t, was.to));
                    assert(done_once(all, q, t, now.from, now.to));
                } else {
                    assert forall|j: int| !#[trigger] hands_at(all, j, q) by {
                        assert(!hands_at(old, j, q));
                    }
                    assert(loaded_once(all, q, t, now.from));
                }
            } else {
                match was.status {
                    Custody::Unassigned => {
                        assert forall|i: int| !#[trigger] picks_at(all, i, q) by {
                            assert(!picks_at(old, i, q));
                        }
                        assert forall|j: int| !#[trigger] hands_at(all, j, q) by {
                            assert(!hands_at(old, j, q));
                        }
                    },
                    Custody::AssignedForPickup(_) => {
                        assert forall|i: int| !#[trigger] picks_at(all, i, q) by {
                            assert(!picks_at(old, i, q));
                        }
                        assert forall|j: int| !#[trigger] hands_at(all, j, q) by {
                            assert(!hands_at(old, j, q));
                        }
                    },
                    Custody::Carried(other) => {
                        let h = choose|h: int| #[trigger] picked_once(old, q, h, other, was.from);
                        assert(picks_at(all, h, q));
                        assert(all[h] == old[h]);
                        assert forall|i: int| #[trigger] picks_at(all, i, q) implies i == h by {
                            assert(picks_at(old, i, q));
                        }
                        assert(picked_once(all, q, h, other, was.from));
                        assert forall|j: int| !#[trigger] hands_at(all, j, q) by {
                            assert(!hands_at(old, j, q));
                        }
                        assert(loaded_once(all, q, other, now.from));
                    },
                    Custody::Delivered(other) => {
                        let (h, i) = choose|h: int, i: int|
                            #![trigger
                                picked_once(old, q, h, other, was.from),
                                handed_once(old, q, i, other, was.to)]
                            picked_once(old, q, h, other, was.from) && handed_once(
                                old,
                                q,
                                i,
                                other,
                                was.to,
                            ) && h <= i;
                        assert(picks_at(all, h, q));
                        assert(hands_at(all, i, q));
                        assert(all[h] == old[h]);
                        assert(all[i] == old[i]);
                        assert forall|j: int| #[trigger] picks_at(all, j, q) implies j == h by {
                            assert(picks_at(old, j, q));
                        }
                        assert forall|j: int| #[trigger] hands_at(all, j, q) implies j == i by {
                            assert(hands_at(old, j, q));
                        }
                        assert(picked_once(all, q, h, other, was.from));
                        assert(handed_once(all, q, i, other, was.to));
                        assert(done_once(all, q, other, now.from, now.to));
                    },
                }
            }
        }
        assert forall|p: int| 0 <= p < next.packages.len() implies #[trigger] at_origin(next, p) by {
            assert(at_origin(w, p));
            assert(handed_over[p] == moved(w.packages[p], t, route.to));
            assert(package_ok(stations, w.trains.len(), w.packages[p]));
        }
    }
}

/// A step changes neither where a package lies nor where it is bound for.
pub proof fn lemma_step_keeps_ends(tables: Tables, w: World, a: Action)
    requires
        a.train < w.trains.len(),
        a.package < w.packages.len(),
        step(tables, w, a) matches Ok(Some(_)),
    ensures
        step(tables, w, a) matches Ok(Some(next)) && ends_of(next.packages) == ends_of(w.packages),
{
    let next = step(tables, w, a)->Ok_0->Some_0;
    assert(next.packages.len() == w.packages.len());
    assert forall|p: int| 0 <= p < w.packages.len() implies ends_of(next.packages)[p] == ends_of(
        w.packages,
    )[p] by {
        assert(next.packages[p].from == w.packages[p].from);
        assert(next.packages[p].to == w.packages[p].to);
    }
    assert(ends_of(next.packages) =~= ends_of(w.packages));
}

/// Once and in place. Where no package gets stuck and from the station
/// where a package lies no other station is at distance 0, a search from a
/// world on track whose movements agree with the statuses returns and
/// remembers only schedules in which every package that some train could
/// carry is loaded once, where it lies, and handed over once, where it is
/// bound for, by the same train and not before it is loaded.
pub proof fn lemma_explore_books(
    tables: Tables,
    stations: nat,
    wanted: Set<usize>,
    memo: Memo,
    w: World,
)
    requires
        tables_ok(tables, stations),
        clear(tables, w.packages),
        origins_clear(tables, w.packages),
        world_wf(stations, w.trains, w.packages),
        on_track(w, wanted),
        ledger(w),
        memo_serves(memo, wanted),
        memo_books(memo, ends_of(w.packages), wanted),
    ensures
        memo_books(explore(tables, memo, w).0, ends_of(w.packages), wanted),
        explore(tables, memo, w).1 matches Ok(schedule) ==> books(
            schedule,
            ends_of(w.packages),
            wanted,
        ),
    decreases remaining(w.packages), 1nat, 0nat,
{
    let key = cache_key(w.trains, w.packages);
    if !memo.contains_key(key) {
        let queue = actions(w.trains, w.packages);
        crate::laws::lemma_try_all_serves(tables, stations, wanted, memo, w, 0, None);
        lemma_try_all_books(tables, stations, wanted, memo, w, 0, None);
        let tried = try_all(tables, memo, w, queue, 0, None);
        if tried.1 == Ok::<Option<Seq<MovementView>>, ConfigError>(None) {
            lemma_nothing_left(tables, stations, wanted, w);
            assert forall|p: usize| p < w.packages.len() && wanted.contains(p) implies #[trigger] served_once(
                w.movements,
                p,
                w.packages[p as int].from,
                w.packages[p as int].to,
            ) by {
                let pkg = w.packages[p as int];
                assert(pkg.status is Delivered);
                assert(booked(w.movements, pkg, p));
                let t = pkg.status->Delivered_0;
                let (h, i) = choose|h: int, i: int|
                    #![trigger
                        picked_once(w.movements, p, h, t, pkg.from),
                        handed_once(w.movements, p, i, t, pkg.to)]
                    picked_once(w.movements, p, h, t, pkg.from) && handed_once(
                        w.movements,
                        p,
                        i,
                        t,
                        pkg.to,
                    ) && h <= i;
            }
            assert(books(w.movements, ends_of(w.packages), wanted));
        }
    }
}

/// The same for the search over the actions of one world from action `i` on.
pub proof fn lemma_try_all_books(
    tables: Tables,
    stations: nat,
    wanted: Set<usize>,
    memo: Memo,
    w: World,
    i: nat,
    best: Option<Seq<MovementView>>,
)
    requires
        tables_ok(tables, stations),
        clear(tables, w.packages),
        origins_clear(tables, w.packages),
        world_wf(stations, w.trains, w.packages),
        on_track(w, wanted),
        ledger(w),
        memo_serves(memo, wanted),
        memo_books(memo, ends_of(w.packages), wanted),
        best matches Some(b) ==> serves(b, wanted) && books(b, ends_of(w.packages), wanted),
    ensures
        ({
            let tried = try_all(tables, memo, w, actions(w.trains, w.packages), i, best);
            &&& memo_books(tried.0, ends_of(w.packages), wanted)
            &&& tried.1 matches Ok(Some(b)) ==> books(b, ends_of(w.packages), wanted)
        }),
    decreases remaining(w.packages), 0nat, actions(w.trains, w.packages).len() - i,
{
    let queue = actions(w.trains, w.packages);
    if i < queue.len() {
        let a = queue[i as int];
        lemma_actions_valid(w.trains, w.packages, i as int);
        match step(tables, w, a) {
            Err(e) => {},
            Ok(None) => {
                lemma_try_all_books(tables, stations, wanted, memo, w, i + 1, best);
            },
            Ok(Some(next)) => {
                lemma_step_keeps_order(tables, stations, w, a);
                lemma_step_progress(tables, stations, w, a);
                lemma_step_stays_on_track(tables, stations, wanted, w, a);
                lemma_step_keeps_ledger(tables, stations, w, a);
                lemma_step_keeps_ends(tables, w, a);
                crate::laws::lemma_explore_serves(tables, stations, wanted, memo, next);
                lemma_explore_books(tables, stations, wanted, memo, next);
                let explored = explore(tables, memo, next);
                if explored.1 is Ok {
                    let found = explored.1->Ok_0;
                    lemma_try_all_books(
                        tables,
                        stations,
                        wanted,
                        explored.0,
                        w,
                        i + 1,
                        better(best, found),
                    );
                }
            },
        }
    }
}

} // verus!
