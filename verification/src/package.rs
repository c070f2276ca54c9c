//! Cargo: what is to be carried, from where to where, and who has it now.
use vstd::prelude::*;

verus! {

/// Who holds a package. A package starts unassigned; a train commits to
/// fetch it, then carries it, then has delivered it. The number names the train.
#[derive(Clone, Copy, Debug, PartialEq, Eq, Structural)]
pub enum Custody {
    Unassigned,
    AssignedForPickup(usize),
    Carried(usize),
    Delivered(usize),
}

/// A package is known by its index in the list of packages.
#[derive(Clone, Copy, Debug, PartialEq, Eq, Structural)]
pub struct Package {
    pub weight: u64,
    pub from: usize,
    pub to: usize,
    pub status: Custody,
}

impl Custody {
    /// How many stages of its way a package has behind it: 0 to 3.
    pub open spec fn stage(self) -> nat {
        match self {
            Custody::Unassigned => 0,
            Custody::AssignedForPickup(_) => 1,
            Custody::Carried(_) => 2,
            Custody::Delivered(_) => 3,
        }
    }

    /// The package counts against the capacity of `train`: the train has
    /// committed to it or carries it.
    pub open spec fn held_by(self, train: usize) -> bool {
        self == Custody::AssignedForPickup(train) || self == Custody::Carried(train)
    }

    /// Whether `train` has committed to the package or carries it.
    pub fn is_held_by(&self, train: usize) -> (held: bool)
        ensures
            held == self.held_by(train),
    {
        match self {
            Custody::AssignedForPickup(t) => *t == train,
            Custody::Carried(t) => *t == train,
            _ => false,
        }
    }
}

impl Package {
    /// An unassigned package.
    pub fn new(weight: u64, from: usize, to: usize) -> (p: Package)
        ensures
            p == (Package { weight, from, to, status: Custody::Unassigned }),
    {
        Package { weight, from, to, status: Custody::Unassigned }
    }
}

/// The stages that the packages still have before them, all taken together.
/// Every step of a schedule makes this smaller.
pub open spec fn remaining(packages: Seq<Package>) -> nat
    decreases packages.len(),
{
    if packages.len() == 0 {
        0
    } else {
        remaining(packages.drop_last()) + (3 - packages.last().status.stage()) as nat
    }
}

/// The weight that the first `upto` packages put on `train`.
pub open spec fn load_upto(packages: Seq<Package>, train: usize, upto: int) -> nat
    decreases upto,
{
    if upto <= 0 {
        0
    } else {
        load_upto(packages, train, upto - 1) + if packages[upto - 1].status.held_by(train) {
            packages[upto - 1].weight as nat
        } else {
            0
        }
    }
}

/// The weight that `train` has committed to or carries.
pub open spec fn load(packages: Seq<Package>, train: usize) -> nat {
    load_upto(packages, train, packages.len() as int)
}

/// Packages that nobody has weigh on no train.
pub proof fn lemma_load_of_free(packages: Seq<Package>, train: usize, upto: int)
    requires
        0 <= upto <= packages.len(),
        forall|i: int| 0 <= i < packages.len() ==> (#[trigger] packages[i]).status == Custody::Unassigned,
    ensures
        load_upto(packages, train, upto) == 0,
    decreases upto,
{
    if upto > 0 {
        lemma_load_of_free(packages, train, upto - 1);
    }
}

} // verus!
