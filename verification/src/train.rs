//! The fleet.
use vstd::prelude::*;

verus! {

/// A train is known by its index in the list of trains. The three lists
/// name, in ascending order, the packages that it has committed to fetch,
/// that it carries and that it has delivered.
#[derive(Debug, PartialEq, Eq)]
pub struct Train {
    pub capacity: u64,
    pub start: usize,
    pub current_location: usize,
    pub total_distance: u64,
    pub packages_to_pick_up: Vec<usize>,
    pub packages_picked_up: Vec<usize>,
    pub packages_delivered: Vec<usize>,
}

/// The view of a `Train`: its lists as sequences.
pub ghost struct TrainView {
    pub capacity: u64,
    pub start: usize,
    pub current_location: usize,
    pub total_distance: u64,
    pub packages_to_pick_up: Seq<usize>,
    pub packages_picked_up: Seq<usize>,
    pub packages_delivered: Seq<usize>,
}

impl View for Train {
    type V = TrainView;

    open spec fn view(&self) -> TrainView {
        TrainView {
            capacity: self.capacity,
            start: self.start,
            current_location: self.current_location,
            total_distance: self.total_distance,
            packages_to_pick_up: self.packages_to_pick_up@,
            packages_picked_up: self.packages_picked_up@,
            packages_delivered: self.packages_delivered@,
        }
    }
}

impl Clone for Train {
    fn clone(&self) -> (copy: Self)
        ensures
            copy@ == self@,
    {
        Train {
            capacity: self.capacity,
            start: self.start,
            current_location: self.current_location,
            total_distance: self.total_distance,
            packages_to_pick_up: self.packages_to_pick_up.clone(),
            packages_picked_up: self.packages_picked_up.clone(),
            packages_delivered: self.packages_delivered.clone(),
        }
    }
}

impl TrainView {
    /// A train that waits at `start`, has not moved yet and has nothing to do
    /// with any package.
    pub open spec fn idle(capacity: u64, start: usize) -> TrainView {
        TrainView {
            capacity,
            start,
            current_location: start,
            total_distance: 0,
            packages_to_pick_up: Seq::empty(),
            packages_picked_up: Seq::empty(),
            packages_delivered: Seq::empty(),
        }
    }
}

impl Train {
    /// A train that waits at `start` and has not moved yet.
    pub fn new(capacity: u64, start: usize) -> (t: Train)
        ensures
            t@ == TrainView::idle(capacity, start),
    {
        Train {
            capacity,
            start,
            current_location: start,
            total_distance: 0,
            packages_to_pick_up: Vec::new(),
            packages_picked_up: Vec::new(),
            packages_delivered: Vec::new(),
        }
    }
}

/// The views of a list of trains.
pub open spec fn fleet_view(trains: Seq<Train>) -> Seq<TrainView> {
    trains.map_values(|t: Train| t@)
}

/// A copy of a list of trains.
pub fn clone_fleet(trains: &Vec<Train>) -> (copy: Vec<Train>)
    ensures
        fleet_view(copy@) == fleet_view(trains@),
{
    let mut copy: Vec<Train> = Vec::new();
    let mut i: usize = 0;
    while i < trains.len()
        invariant
            i <= trains.len(),
            copy.len() == i,
            forall|k: int| 0 <= k < i ==> copy[k]@ == trains[k]@,
        decreases trains.len() - i,
    {
        copy.push(trains[i].clone());
        i += 1;
    }
    assert(fleet_view(copy@) =~= fleet_view(trains@));
    copy
}

} // verus!
