use vstd::prelude::*;

use crate::codes::{CellCommand, Direction, RelayCommand};

verus! {

/// One observed, timestamped event on a circuit.
///
/// The event time is held as a fixed-point count of nanoseconds, so that
/// decoding a decimal seconds value and bucketing by day are exact
/// integer arithmetic.
#[derive(Clone, Copy, Debug, PartialEq, Eq, Structural)]
pub struct Cell {
    /// Event time in nanoseconds (seconds from an arbitrary reference,
    /// scaled by 10^9).
    pub time: u64,
    /// The direction the cell was traveling.
    pub direction: Direction,
    /// The cell-level command.
    pub cell_cmd: CellCommand,
    /// The relay-level subcommand.
    pub relay_cmd: RelayCommand,
}

impl Cell {
    /// The padding cell: every field zeroed out.
    pub open spec fn spec_empty() -> Cell {
        Cell {
            time: 0,
            direction: Direction::PADDING,
            cell_cmd: CellCommand::PADDING,
            relay_cmd: RelayCommand::NOT_PRESENT,
        }
    }

    /// Creates the empty `Cell` with all meta-data zeroed out.
    pub fn empty() -> (r: Cell)
        ensures
            r == Cell::spec_empty(),
    {
        Cell {
            time: 0,
            direction: Direction::PADDING,
            cell_cmd: CellCommand::PADDING,
            relay_cmd: RelayCommand::NOT_PRESENT,
        }
    }
}

} // verus!
