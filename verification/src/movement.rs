//! One train crossing one edge.
use vstd::prelude::*;

verus! {

/// Train `train` travels from `from` to `to` between `start_time` and
/// `end_time`. The packages it loads before it leaves and those it hands
/// over when it arrives are listed by their numbers.
#[derive(Debug)]
pub struct Movement {
    pub train: usize,
    pub from: usize,
    pub to: usize,
    pub start_time: u64,
    pub end_time: u64,
    pub packages_picked_up: Vec<usize>,
    pub packages_delivered: Vec<usize>,
}

/// The view of a `Movement`: its lists as sequences.
pub ghost struct MovementView {
    pub train: usize,
    pub from: usize,
    pub to: usize,
    pub start_time: u64,
    pub end_time: u64,
    pub packages_picked_up: Seq<usize>,
    pub packages_delivered: Seq<usize>,
}

impl View for Movement {
    type V = MovementView;

    open spec fn view(&self) -> MovementView {
        MovementView {
            train: self.train,
            from: self.from,
            to: self.to,
            start_time: self.start_time,
            end_time: self.end_time,
            packages_picked_up: self.packages_picked_up@,
            packages_delivered: self.packages_delivered@,
        }
    }
}

impl Clone for Movement {
    fn clone(&self) -> (copy: Self)
        ensures
            copy@ == self@,
    {
        Movement {
            train: self.train,
            from: self.from,
            to: self.to,
            start_time: self.start_time,
            end_time: self.end_time,
            packages_picked_up: self.packages_picked_up.clone(),
            packages_delivered: self.packages_delivered.clone(),
        }
    }
}

/// The views of a list of movements.
pub open spec fn schedule_view(movements: Seq<Movement>) -> Seq<MovementView> {
    movements.map_values(|m: Movement| m@)
}

/// A copy of a list of movements.
pub fn clone_schedule(movements: &Vec<Movement>) -> (copy: Vec<Movement>)
    ensures
        schedule_view(copy@) == schedule_view(movements@),
{
    let mut copy: Vec<Movement> = Vec::new();
    let mut i: usize = 0;
    while i < movements.len()
        invariant
            i <= movements.len(),
            copy.len() == i,
            forall|k: int| 0 <= k < i ==> copy[k]@ == movements[k]@,
        decreases movements.len() - i,
    {
        copy.push(movements[i].clone());
        i += 1;
    }
    assert(schedule_view(copy@) =~= schedule_view(movements@));
    copy
}

/// The time at which the last movement of the schedule ends, 0 for the
/// empty schedule.
pub open spec fn makespan(schedule: Seq<MovementView>) -> u64
    decreases schedule.len(),
{
    if schedule.len() == 0 {
        0
    } else {
        let before = makespan(schedule.drop_last());
        if schedule.last().end_time > before {
            schedule.last().end_time
        } else {
            before
        }
    }
}

/// The trains that move in the schedule.
pub open spec fn trains_used(schedule: Seq<MovementView>) -> Set<usize> {
    Set::new(|t: usize| exists|i: int| 0 <= i < schedule.len() && (#[trigger] schedule[i]).train == t)
}

/// The time at which `train` is free to leave: the end of its last movement
/// in the schedule, or 0 where it has none.
pub open spec fn free_at(schedule: Seq<MovementView>, train: usize) -> u64
    decreases schedule.len(),
{
    if schedule.len() == 0 {
        0
    } else if schedule.last().train == train {
        schedule.last().end_time
    } else {
        free_at(schedule.drop_last(), train)
    }
}

/// Where `train` stands after the schedule: where its last movement ends,
/// or at `start` where it has none.
pub open spec fn position_after(schedule: Seq<MovementView>, train: usize, start: usize) -> usize
    decreases schedule.len(),
{
    if schedule.len() == 0 {
        start
    } else if schedule.last().train == train {
        schedule.last().to
    } else {
        position_after(schedule.drop_last(), train, start)
    }
}

/// Each movement starts when the movement before it of the same train ends,
/// and the first movement of a train starts at 0.
pub open spec fn contiguous(schedule: Seq<MovementView>) -> bool
    decreases schedule.len(),
{
    if schedule.len() == 0 {
        true
    } else {
        &&& contiguous(schedule.drop_last())
        &&& schedule.last().start_time == free_at(schedule.drop_last(), schedule.last().train)
    }
}

/// The packages that the schedule hands over.
pub open spec fn delivered_in(schedule: Seq<MovementView>) -> Set<usize> {
    Set::new(
        |p: usize|
            exists|i: int|
                0 <= i < schedule.len() && (#[trigger] schedule[i]).packages_delivered.contains(p),
    )
}

/// Of the packages below `upto`, those that the schedule does not hand
/// over, in order.
pub open spec fn undelivered_upto(schedule: Seq<MovementView>, upto: int) -> Seq<usize>
    decreases upto,
{
    if upto <= 0 {
        Seq::empty()
    } else {
        let rest = undelivered_upto(schedule, upto - 1);
        if delivered_in(schedule).contains((upto - 1) as usize) {
            rest
        } else {
            rest.push((upto - 1) as usize)
        }
    }
}

/// Whether the schedule leaves package `p`, one of the first `upto`, undelivered.
pub open spec fn left_behind(schedule: Seq<MovementView>, upto: int, p: usize) -> bool {
    p < upto && !delivered_in(schedule).contains(p)
}

/// The packages that are left are those that the schedule does not hand over.
pub proof fn lemma_undelivered_members(schedule: Seq<MovementView>, upto: int)
    requires
        0 <= upto <= usize::MAX,
    ensures
        forall|p: usize| #[trigger]
            undelivered_upto(schedule, upto).contains(p) <==> left_behind(schedule, upto, p),
    decreases upto,
{
    if upto > 0 {
        lemma_undelivered_members(schedule, upto - 1);
        let rest = undelivered_upto(schedule, upto - 1);
        let all = undelivered_upto(schedule, upto);
        let last = (upto - 1) as usize;
        assert forall|p: usize| #[trigger] all.contains(p) <==> left_behind(schedule, upto, p) by {
            assert(rest.contains(p) <==> left_behind(schedule, upto - 1, p));
            if !delivered_in(schedule).contains(last) {
                assert(all == rest.push(last));
                if all.contains(p) {
                    let i = choose|i: int| 0 <= i < all.len() && all[i] == p;
                    if i < rest.len() {
                        assert(rest[i] == p);
                    }
                }
                if rest.contains(p) {
                    let i = choose|i: int| 0 <= i < rest.len() && rest[i] == p;
                    assert(all[i] == p);
                }
                if p == last {
                    assert(all[rest.len() as int] == p);
                }
            } else {
                assert(all == rest);
            }
        }
    }
}

/// Whether `package` is among `list`.
pub fn lists(list: &Vec<usize>, package: usize) -> (found: bool)
    ensures
        found == list@.contains(package),
{
    let mut i: usize = 0;
    while i < list.len()
        invariant
            i <= list.len(),
            forall|k: int| 0 <= k < i ==> list@[k] != package,
        decreases list.len() - i,
    {
        if list[i] == package {
            return true;
        }
        i += 1;
    }
    false
}

/// Whether the schedule hands over `package`.
pub fn delivers(movements: &Vec<Movement>, package: usize) -> (found: bool)
    ensures
        found == delivered_in(schedule_view(movements@)).contains(package),
{
    let ghost all = schedule_view(movements@);
    let mut i: usize = 0;
    while i < movements.len()
        invariant
            i <= movements.len(),
            all == schedule_view(movements@),
            forall|k: int| 0 <= k < i ==> !(#[trigger] all[k]).packages_delivered.contains(package),
        decreases movements.len() - i,
    {
        if lists(&movements[i].packages_delivered, package) {
            assert(all[i as int].packages_delivered.contains(package));
            return true;
        }
        i += 1;
    }
    false
}

/// Of the packages 0 to `count - 1`, those that the schedule does not hand
/// over, in ascending order.
pub fn get_undelivered(movements: &Vec<Movement>, count: usize) -> (left: Vec<usize>)
    ensures
        left@ == undelivered_upto(schedule_view(movements@), count as int),
{
    let mut left: Vec<usize> = Vec::new();
    let mut p: usize = 0;
    while p < count
        invariant
            p <= count,
            left@ == undelivered_upto(schedule_view(movements@), p as int),
        decreases count - p,
    {
        if !delivers(movements, p) {
            left.push(p);
        }
        p += 1;
    }
    left
}

} // verus!
