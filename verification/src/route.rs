//! One directed half of an edge, or one hop of a path: where it leads and how
//! long it is.
use vstd::prelude::*;

verus! {

/// The longest edge a graph accepts.
pub const MAX_EDGE: u64 = 0xFFFF_FFFF;

/// The station that an edge or a hop leads to, and its length.
#[derive(Clone, Copy, Debug, PartialEq, Eq, Structural)]
pub struct Route {
    pub to: usize,
    pub distance: u64,
}

/// Total length of a sequence of hops.
pub open spec fn hops_len(steps: Seq<Route>) -> nat
    decreases steps.len(),
{
    if steps.len() == 0 {
        0
    } else {
        hops_len(steps.drop_last()) + steps.last().distance as nat
    }
}

/// The station at which a sequence of hops that starts at `from` ends.
pub open spec fn hops_end(from: int, steps: Seq<Route>) -> int {
    if steps.len() == 0 {
        from
    } else {
        steps.last().to as int
    }
}

} // verus!
