//! Configuration errors. None of them is recoverable: each says that the
//! instance handed to the library cannot be scheduled as given.
use vstd::prelude::*;

verus! {

#[derive(Clone, Copy, Debug, PartialEq, Eq, Structural)]
pub enum ConfigError {
    /// More stations were asked for than path lengths can be computed for.
    TooManyStations,
    /// An edge, a train or a package names a station that the graph does not have.
    UnknownStation,
    /// The target of a move cannot be reached from where the train stands.
    Unreachable,
    /// A point in time of the schedule, or the distance a train has
    /// travelled, does not fit in 64 bits.
    Overflow,
}

} // verus!
