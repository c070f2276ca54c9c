//! The search as a function: which schedule the scheduler returns for a
//! world, given the shortest paths and what it remembers.
//!
//! The search tries every action that is open in a world, follows each to
//! the end, and keeps the schedule that ends first; among schedules that
//! end at the same time, the one that uses fewer trains; among those, the
//! one found first. What it returns for a world it remembers under the
//! world's key, and a world whose key it remembers is not searched again.
use vstd::prelude::*;
use crate::error::ConfigError;
use crate::memo::Memo;
use crate::movement::{MovementView, makespan, trains_used};
use crate::package::{Custody, Package, remaining};
use crate::train::TrainView;
use crate::world::{Action, Tables, World, action_valid, capable, capable_upto, step};

verus! {

/// A status as two numbers: the stage and the train.
pub open spec fn custody_code(c: Custody) -> (usize, usize) {
    match c {
        Custody::Unassigned => (0, 0),
        Custody::AssignedForPickup(t) => (1, t),
        Custody::Carried(t) => (2, t),
        Custody::Delivered(t) => (3, t),
    }
}

/// Where the first `upto` trains are, in order.
pub open spec fn locations_upto(trains: Seq<TrainView>, upto: int) -> Seq<usize>
    decreases upto,
{
    if upto <= 0 {
        Seq::empty()
    } else {
        locations_upto(trains, upto - 1).push(trains[upto - 1].current_location)
    }
}

/// Stage and train of the first `upto` packages, in order.
pub open spec fn custody_upto(packages: Seq<Package>, upto: int) -> Seq<usize>
    decreases upto,
{
    if upto <= 0 {
        Seq::empty()
    } else {
        custody_upto(packages, upto - 1).push(custody_code(packages[upto - 1].status).0).push(
            custody_code(packages[upto - 1].status).1,
        )
    }
}

/// The key of a world: the number of trains, where each train is, and for
/// each package who has it. Trains and packages come in the order of their
/// numbers, so the key does not depend on how the world was reached.
pub open spec fn cache_key(trains: Seq<TrainView>, packages: Seq<Package>) -> Seq<usize> {
    seq![trains.len() as usize] + locations_upto(trains, trains.len() as int) + custody_upto(
        packages,
        packages.len() as int,
    )
}

/// The commitments open for package `p`: one for each train that has room
/// for it, if nobody has it yet.
pub open spec fn commits_for(trains: Seq<TrainView>, packages: Seq<Package>, p: int) -> Seq<Action> {
    if packages[p].status == Custody::Unassigned {
        capable_upto(trains, packages, packages[p].weight, trains.len() as int).map_values(
            |t: usize| Action { train: t, package: p as usize, to_pick_up: true },
        )
    } else {
        Seq::empty()
    }
}

/// The commitments open for the first `upto` packages.
pub open spec fn commit_actions(trains: Seq<TrainView>, packages: Seq<Package>, upto: int) -> Seq<
    Action,
>
    decreases upto,
{
    if upto <= 0 {
        Seq::empty()
    } else {
        commit_actions(trains, packages, upto - 1) + commits_for(trains, packages, upto - 1)
    }
}

/// The ways for train `t` to go on: one for each of the first `upto`
/// packages that it holds.
pub open spec fn advances_for(packages: Seq<Package>, t: usize, upto: int) -> Seq<Action>
    decreases upto,
{
    if upto <= 0 {
        Seq::empty()
    } else {
        let rest = advances_for(packages, t, upto - 1);
        if packages[upto - 1].status.held_by(t) {
            rest.push(Action { train: t, package: (upto - 1) as usize, to_pick_up: false })
        } else {
            rest
        }
    }
}

/// The ways for the first `upto` trains to go on.
pub open spec fn advance_actions(packages: Seq<Package>, upto: int) -> Seq<Action>
    decreases upto,
{
    if upto <= 0 {
        Seq::empty()
    } else {
        advance_actions(packages, upto - 1) + advances_for(
            packages,
            (upto - 1) as usize,
            packages.len() as int,
        )
    }
}

/// All actions open in a world, in the order in which the search tries
/// them: the commitments, package by package, then the ways to go on, train
/// by train.
pub open spec fn actions(trains: Seq<TrainView>, packages: Seq<Package>) -> Seq<Action> {
    commit_actions(trains, packages, packages.len() as int) + advance_actions(
        packages,
        trains.len() as int,
    )
}

/// Whether schedule `a` is to be preferred to schedule `b`: it ends
/// earlier, or at the same time with fewer trains.
pub open spec fn preferred(a: Seq<MovementView>, b: Seq<MovementView>) -> bool {
    makespan(a) < makespan(b) || (makespan(a) == makespan(b) && trains_used(a).len()
        < trains_used(b).len())
}

/// The better of the best schedule so far and a new one. The new one must
/// be preferred to replace the old.
pub open spec fn better(best: Option<Seq<MovementView>>, found: Seq<MovementView>) -> Option<
    Seq<MovementView>,
> {
    match best {
        None => Some(found),
        Some(b) => if preferred(found, b) {
            Some(found)
        } else {
            Some(b)
        },
    }
}

/// What the search returns for world `w` and what it remembers afterwards.
///
/// A world that no action changes is complete: its schedule is the
/// movements made so far.
pub open spec fn explore(tables: Tables, memo: Memo, w: World) -> (
    Memo,
    Result<Seq<MovementView>, ConfigError>,
)
    decreases remaining(w.packages), 1nat, 0nat,
{
    let key = cache_key(w.trains, w.packages);
    if memo.contains_key(key) {
        (memo, Ok(memo[key]))
    } else {
        let tried = try_all(tables, memo, w, actions(w.trains, w.packages), 0, None);
        match tried.1 {
            Err(e) => (tried.0, Err(e)),
            Ok(best) => {
                let result = match best {
                    Some(b) => b,
                    None => w.movements,
                };
                (tried.0.insert(key, result), Ok(result))
            },
        }
    }
}

/// The search over the actions `queue[i..]` of world `w`, with `best` the
/// best schedule that the actions before them have led to.
pub open spec fn try_all(
    tables: Tables,
    memo: Memo,
    w: World,
    queue: Seq<Action>,
    i: nat,
    best: Option<Seq<MovementView>>,
) -> (Memo, Result<Option<Seq<MovementView>>, ConfigError>)
    decreases remaining(w.packages), 0nat, queue.len() - i,
{
    if i >= queue.len() {
        (memo, Ok(best))
    } else {
        match step(tables, w, queue[i as int]) {
            Err(e) => (memo, Err(e)),
            Ok(None) => try_all(tables, memo, w, queue, i + 1, best),
            Ok(Some(next)) => {
                if remaining(next.packages) < remaining(w.packages) {
                    let explored = explore(tables, memo, next);
                    match explored.1 {
                        Err(e) => (explored.0, Err(e)),
                        Ok(found) => try_all(
                            tables,
                            explored.0,
                            w,
                            queue,
                            i + 1,
                            better(best, found),
                        ),
                    }
                } else {
                    try_all(tables, memo, w, queue, i + 1, best)
                }
            },
        }
    }
}

/// The trains listed as having room do have room.
pub proof fn lemma_capable_members(
    trains: Seq<TrainView>,
    packages: Seq<Package>,
    weight: u64,
    upto: int,
    k: int,
)
    requires
        0 <= upto <= trains.len() <= usize::MAX,
        0 <= k < capable_upto(trains, packages, weight, upto).len(),
    ensures
        capable_upto(trains, packages, weight, upto)[k] < upto,
        capable(trains, packages, capable_upto(trains, packages, weight, upto)[k] as int, weight),
    decreases upto,
{
    if upto > 0 {
        let rest = capable_upto(trains, packages, weight, upto - 1);
        if k < rest.len() {
            lemma_capable_members(trains, packages, weight, upto - 1, k);
        }
    }
}

/// The ways listed for a train to go on are with packages that it holds.
pub proof fn lemma_advances_valid(packages: Seq<Package>, t: usize, upto: int, k: int)
    requires
        0 <= upto <= packages.len() <= usize::MAX,
        0 <= k < advances_for(packages, t, upto).len(),
    ensures
        ({
            let a = advances_for(packages, t, upto)[k];
            &&& a.train == t
            &&& a.package < upto
            &&& !a.to_pick_up
            &&& packages[a.package as int].status.held_by(t)
        }),
    decreases upto,
{
    if upto > 0 {
        let rest = advances_for(packages, t, upto - 1);
        if k < rest.len() {
            lemma_advances_valid(packages, t, upto - 1, k);
        }
    }
}

proof fn lemma_commit_actions_valid(trains: Seq<TrainView>, packages: Seq<Package>, upto: int, k: int)
    requires
        trains.len() <= usize::MAX,
        0 <= upto <= packages.len() <= usize::MAX,
        0 <= k < commit_actions(trains, packages, upto).len(),
    ensures
        action_valid(trains, packages, commit_actions(trains, packages, upto)[k]),
    decreases upto,
{
    if upto > 0 {
        let rest = commit_actions(trains, packages, upto - 1);
        if k < rest.len() {
            lemma_commit_actions_valid(trains, packages, upto - 1, k);
        } else {
            let p = upto - 1;
            lemma_capable_members(
                trains,
                packages,
                packages[p].weight,
                trains.len() as int,
                k - rest.len(),
            );
        }
    }
}

proof fn lemma_advance_actions_valid(trains: Seq<TrainView>, packages: Seq<Package>, upto: int, k: int)
    requires
        packages.len() <= usize::MAX,
        0 <= upto <= trains.len() <= usize::MAX,
        0 <= k < advance_actions(packages, upto).len(),
    ensures
        action_valid(trains, packages, advance_actions(packages, upto)[k]),
    decreases upto,
{
    if upto > 0 {
        let rest = advance_actions(packages, upto - 1);
        if k < rest.len() {
            lemma_advance_actions_valid(trains, packages, upto - 1, k);
        } else {
            lemma_advances_valid(
                packages,
                (upto - 1) as usize,
                packages.len() as int,
                k - rest.len(),
            );
        }
    }
}

/// Every action that the search tries can be taken.
pub proof fn lemma_actions_valid(trains: Seq<TrainView>, packages: Seq<Package>, k: int)
    requires
        trains.len() <= usize::MAX,
        packages.len() <= usize::MAX,
        0 <= k < actions(trains, packages).len(),
    ensures
        action_valid(trains, packages, actions(trains, packages)[k]),
{
    let commits = commit_actions(trains, packages, packages.len() as int);
    if k < commits.len() {
        lemma_commit_actions_valid(trains, packages, packages.len() as int, k);
    } else {
        lemma_advance_actions_valid(trains, packages, trains.len() as int, k - commits.len());
    }
}

/// The search is a function of what it is given: two runs on the same
/// shortest paths, the same memory and the same world return the same
/// schedule and remember the same.
pub proof fn lemma_search_deterministic(
    tables: Tables,
    memo: Memo,
    w: World,
    first: (Memo, Result<Seq<MovementView>, ConfigError>),
    second: (Memo, Result<Seq<MovementView>, ConfigError>),
)
    requires
        first == explore(tables, memo, w),
        second == explore(tables, memo, w),
    ensures
        first == second,
{
}

/// A train that has room is listed as having room.
pub proof fn lemma_capable_listed(
    trains: Seq<TrainView>,
    packages: Seq<Package>,
    weight: u64,
    upto: int,
    t: int,
)
    requires
        0 <= t < upto <= trains.len() <= usize::MAX,
        capable(trains, packages, t, weight),
    ensures
        capable_upto(trains, packages, weight, upto).contains(t as usize),
    decreases upto,
{
    let all = capable_upto(trains, packages, weight, upto);
    let rest = capable_upto(trains, packages, weight, upto - 1);
    if t == upto - 1 {
        assert(all[rest.len() as int] == t as usize);
    } else {
        lemma_capable_listed(trains, packages, weight, upto - 1, t);
        let i = choose|i: int| 0 <= i < rest.len() && rest[i] == t as usize;
        assert(all[i] == t as usize);
    }
}

/// What is in one of two lists is in the two lists joined.
pub proof fn lemma_joined_contains(a: Seq<Action>, b: Seq<Action>, x: Action)
    requires
        a.contains(x) || b.contains(x),
    ensures
        (a + b).contains(x),
{
    if a.contains(x) {
        let i = choose|i: int| 0 <= i < a.len() && a[i] == x;
        assert((a + b)[i] == x);
    } else {
        let i = choose|i: int| 0 <= i < b.len() && b[i] == x;
        assert((a + b)[a.len() + i] == x);
    }
}

proof fn lemma_commit_in(trains: Seq<TrainView>, packages: Seq<Package>, upto: int, x: Action)
    requires
        0 <= x.package < upto <= packages.len(),
        commits_for(trains, packages, x.package as int).contains(x),
    ensures
        commit_actions(trains, packages, upto).contains(x),
    decreases upto,
{
    if x.package < upto - 1 {
        lemma_commit_in(trains, packages, upto - 1, x);
    }
    lemma_joined_contains(
        commit_actions(trains, packages, upto - 1),
        commits_for(trains, packages, upto - 1),
        x,
    );
}

proof fn lemma_advance_in_train(packages: Seq<Package>, t: usize, upto: int, p: int)
    requires
        0 <= p < upto <= packages.len() <= usize::MAX,
        packages[p].status.held_by(t),
    ensures
        advances_for(packages, t, upto).contains(
            Action { train: t, package: p as usize, to_pick_up: false },
        ),
    decreases upto,
{
    let x = Action { train: t, package: p as usize, to_pick_up: false };
    let all = advances_for(packages, t, upto);
    let rest = advances_for(packages, t, upto - 1);
    if p == upto - 1 {
        assert(all[rest.len() as int] == x);
    } else {
        lemma_advance_in_train(packages, t, upto - 1, p);
        let i = choose|i: int| 0 <= i < rest.len() && rest[i] == x;
        assert(all[i] == x);
    }
}

proof fn lemma_advance_in(packages: Seq<Package>, upto: int, x: Action)
    requires
        0 <= x.train < upto <= usize::MAX,
        advances_for(packages, x.train, packages.len() as int).contains(x),
    ensures
        advance_actions(packages, upto).contains(x),
    decreases upto,
{
    if x.train < upto - 1 {
        lemma_advance_in(packages, upto - 1, x);
    }
    lemma_joined_contains(
        advance_actions(packages, upto - 1),
        advances_for(packages, (upto - 1) as usize, packages.len() as int),
        x,
    );
}

/// Every commitment that can be made is among the actions that the search tries.
pub proof fn lemma_commit_listed(trains: Seq<TrainView>, packages: Seq<Package>, t: usize, p: usize)
    requires
        t < trains.len() <= usize::MAX,
        p < packages.len() <= usize::MAX,
        packages[p as int].status == Custody::Unassigned,
        capable(trains, packages, t as int, packages[p as int].weight),
    ensures
        actions(trains, packages).contains(Action { train: t, package: p, to_pick_up: true }),
{
    let x = Action { train: t, package: p, to_pick_up: true };
    let weight = packages[p as int].weight;
    let list = capable_upto(trains, packages, weight, trains.len() as int);
    lemma_capable_listed(trains, packages, weight, trains.len() as int, t as int);
    let i = choose|i: int| 0 <= i < list.len() && list[i] == t;
    assert(commits_for(trains, packages, p as int)[i] == x);
    lemma_commit_in(trains, packages, packages.len() as int, x);
    lemma_joined_contains(
        commit_actions(trains, packages, packages.len() as int),
        advance_actions(packages, trains.len() as int),
        x,
    );
}

/// For every package that a train holds, going on with it is among the
/// actions that the search tries.
pub proof fn lemma_advance_listed(trains: Seq<TrainView>, packages: Seq<Package>, t: usize, p: usize)
    requires
        t < trains.len() <= usize::MAX,
        p < packages.len() <= usize::MAX,
        packages[p as int].status.held_by(t),
    ensures
        actions(trains, packages).contains(Action { train: t, package: p, to_pick_up: false }),
{
    let x = Action { train: t, package: p, to_pick_up: false };
    lemma_advance_in_train(packages, t, packages.len() as int, p as int);
    lemma_advance_in(packages, trains.len() as int, x);
    lemma_joined_contains(
        commit_actions(trains, packages, packages.len() as int),
        advance_actions(packages, trains.len() as int),
        x,
    );
}

/// Where each train's station stands in the list of stations.
pub proof fn lemma_locations(trains: Seq<TrainView>, upto: int)
    requires
        0 <= upto <= trains.len(),
    ensures
        locations_upto(trains, upto).len() == upto,
        forall|i: int|
            0 <= i < upto ==> #[trigger] locations_upto(trains, upto)[i]
                == trains[i].current_location,
    decreases upto,
{
    if upto > 0 {
        lemma_locations(trains, upto - 1);
    }
}

/// Where each package's stage and train stand in the list of statuses.
pub proof fn lemma_custodies(packages: Seq<Package>, upto: int)
    requires
        0 <= upto <= packages.len(),
    ensures
        custody_upto(packages, upto).len() == 2 * upto,
        forall|j: int|
            0 <= j < upto ==> #[trigger] custody_upto(packages, upto)[2 * j] == custody_code(
                packages[j].status,
            ).0 && custody_upto(packages, upto)[2 * j + 1] == custody_code(packages[j].status).1,
    decreases upto,
{
    if upto > 0 {
        lemma_custodies(packages, upto - 1);
        let rest = custody_upto(packages, upto - 1);
        let all = custody_upto(packages, upto);
        assert forall|j: int| 0 <= j < upto implies #[trigger] all[2 * j] == custody_code(
            packages[j].status,
        ).0 && all[2 * j + 1] == custody_code(packages[j].status).1 by {
            if j < upto - 1 {
                assert(all[2 * j] == rest[2 * j]);
                assert(all[2 * j + 1] == rest[2 * j + 1]);
            }
        }
    }
}

/// The key tells worlds apart: two worlds with the same key have the same
/// number of trains and of packages, every train stands at the same station
/// in both, and every package has the same status in both.
pub proof fn lemma_key_tells_apart(
    trains: Seq<TrainView>,
    packages: Seq<Package>,
    other_trains: Seq<TrainView>,
    other_packages: Seq<Package>,
)
    requires
        trains.len() <= usize::MAX,
        other_trains.len() <= usize::MAX,
        cache_key(trains, packages) == cache_key(other_trains, other_packages),
    ensures
        trains.len() == other_trains.len(),
        packages.len() == other_packages.len(),
        forall|t: int|
            0 <= t < trains.len() ==> (#[trigger] trains[t]).current_location
                == other_trains[t].current_location,
        forall|p: int|
            0 <= p < packages.len() ==> (#[trigger] packages[p]).status == other_packages[p].status,
{
    let key = cache_key(trains, packages);
    let other = cache_key(other_trains, other_packages);
    lemma_locations(trains, trains.len() as int);
    lemma_locations(other_trains, other_trains.len() as int);
    lemma_custodies(packages, packages.len() as int);
    lemma_custodies(other_packages, other_packages.len() as int);
    assert(key[0] == trains.len());
    assert(other[0] == other_trains.len());
    assert(key.len() == 1 + trains.len() + 2 * packages.len());
    assert(other.len() == 1 + other_trains.len() + 2 * other_packages.len());
    let fleet = trains.len() as int;
    assert forall|t: int| 0 <= t < trains.len() implies (#[trigger] trains[t]).current_location
        == other_trains[t].current_location by {
        assert(key[1 + t] == locations_upto(trains, fleet)[t]);
        assert(other[1 + t] == locations_upto(other_trains, fleet)[t]);
    }
    assert forall|p: int| 0 <= p < packages.len() implies (#[trigger] packages[p]).status
        == other_packages[p].status by {
        let mine = custody_upto(packages, packages.len() as int);
        let theirs = custody_upto(other_packages, other_packages.len() as int);
        assert(key[1 + fleet + 2 * p] == mine[2 * p]);
        assert(other[1 + fleet + 2 * p] == theirs[2 * p]);
        assert(key[1 + fleet + 2 * p + 1] == mine[2 * p + 1]);
        assert(other[1 + fleet + 2 * p + 1] == theirs[2 * p + 1]);
    }
}

/// The schedules that the search over the actions `queue[i..]` of world `w`
/// finds, one for each action that changes the world, in order. The search
/// of each next world starts with what the searches before it remember.
pub open spec fn found_from(tables: Tables, memo: Memo, w: World, queue: Seq<Action>, i: nat) -> Seq<
    Seq<MovementView>,
>
    decreases remaining(w.packages), 0nat, queue.len() - i,
{
    if i >= queue.len() {
        Seq::empty()
    } else {
        match step(tables, w, queue[i as int]) {
            Err(e) => Seq::empty(),
            Ok(None) => found_from(tables, memo, w, queue, i + 1),
            Ok(Some(next)) => {
                if remaining(next.packages) < remaining(w.packages) {
                    let explored = explore(tables, memo, next);
                    match explored.1 {
                        Err(e) => Seq::empty(),
                        Ok(found) => seq![found] + found_from(tables, explored.0, w, queue, i + 1),
                    }
                } else {
                    found_from(tables, memo, w, queue, i + 1)
                }
            },
        }
    }
}

/// Branch comparison. The schedule that the search over the actions of a
/// world settles on is one of those that the actions lead to, or the best so
/// far, and none of them is preferred to it: it ends no later than any of
/// them, and where it ends together with one, it uses no more trains.
pub proof fn lemma_best_of(
    tables: Tables,
    memo: Memo,
    w: World,
    queue: Seq<Action>,
    i: nat,
    best: Option<Seq<MovementView>>,
)
    ensures
        ({
            let tried = try_all(tables, memo, w, queue, i, best);
            let found = found_from(tables, memo, w, queue, i);
            &&& tried.1 matches Ok(Some(b)) ==> {
                &&& best == Some(b) || found.contains(b)
                &&& best matches Some(b0) ==> !preferred(b0, b)
                &&& forall|k: int| 0 <= k < found.len() ==> !preferred(#[trigger] found[k], b)
            }
            &&& tried.1 matches Ok(None) ==> best is None && found.len() == 0
        }),
    decreases remaining(w.packages), 0nat, queue.len() - i,
{
    if i < queue.len() {
        match step(tables, w, queue[i as int]) {
            Err(e) => {},
            Ok(None) => {
                lemma_best_of(tables, memo, w, queue, i + 1, best);
            },
            Ok(Some(next)) => {
                if remaining(next.packages) < remaining(w.packages) {
                    let explored = explore(tables, memo, next);
                    if explored.1 is Ok {
                        let first = explored.1->Ok_0;
                        let rest = found_from(tables, explored.0, w, queue, i + 1);
                        let found = found_from(tables, memo, w, queue, i);
                        let kept = better(best, first);
                        lemma_best_of(tables, explored.0, w, queue, i + 1, kept);
                        let tried = try_all(tables, memo, w, queue, i, best);
                        assert(found == seq![first] + rest);
                        if tried.1 is Ok && tried.1->Ok_0 is Some {
                            let b = tried.1->Ok_0->Some_0;
                            assert(kept == Some(b) || rest.contains(b));
                            if rest.contains(b) {
                                let k = choose|k: int| 0 <= k < rest.len() && rest[k] == b;
                                assert(found[k + 1] == b);
                            } else if kept == Some(first) {
                                assert(found[0] == b);
                            }
                            assert forall|k: int| 0 <= k < found.len() implies !preferred(
                                #[trigger] found[k],
                                b,
                            ) by {
                                if k > 0 {
                                    assert(found[k] == rest[k - 1]);
                                }
                            }
                        }
                    }
                } else {
                    lemma_best_of(tables, memo, w, queue, i + 1, best);
                }
            },
        }
    }
}

/// What the search returns for a world it remembers for the world's key,
/// so that a second search of the same world returns the same and changes
/// nothing.
pub proof fn lemma_remembered(tables: Tables, memo: Memo, w: World)
    requires
        explore(tables, memo, w).1 is Ok,
    ensures
        ({
            let first = explore(tables, memo, w);
            &&& first.0.contains_key(cache_key(w.trains, w.packages))
            &&& first.0[cache_key(w.trains, w.packages)] == first.1->Ok_0
            &&& explore(tables, first.0, w) == first
        }),
{
}

} // verus!
