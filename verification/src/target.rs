//! The locations that a circuit's values live at.

use core::ops::Range;
use vstd::prelude::*;

verus! {

/// One cell of the witness table.
#[derive(Clone, Copy, Debug, PartialEq, Eq, Structural, Hash)]
pub struct Wire {
    /// The row that the wire belongs to.
    pub row: usize,
    /// The position within the row.
    pub column: usize,
}

/// A location of a value: a wire of a gate, or a value that a builder
/// operation defines.
#[derive(Clone, Copy, Debug, PartialEq, Eq, Structural, Hash)]
pub enum Target {
    Wire(Wire),
    VirtualTarget { index: usize },
}

impl Target {
    /// The wire at the given row and column.
    pub fn wire(row: usize, column: usize) -> (t: Target)
        ensures
            t == Target::Wire(Wire { row, column }),
    {
        Target::Wire(Wire { row, column })
    }

    /// The wires of one row at the columns of `range`, in order.
    pub fn wires_from_range(row: usize, range: Range<usize>) -> (r: Vec<Target>)
        ensures
            r.len() == (if range.end >= range.start {
                range.end - range.start
            } else {
                0
            }),
            forall|i: int|
                0 <= i < r.len() ==> #[trigger] r[i] == Target::Wire(
                    Wire { row, column: (range.start + i) as usize },
                ),
    {
        let mut r: Vec<Target> = Vec::new();
        let mut column: usize = range.start;
        while column < range.end
            invariant
                range.start <= column <= range.end || (range.start > range.end && column
                    == range.start),
                r.len() == (if column >= range.start {
                    column - range.start
                } else {
                    0
                }),
                forall|i: int|
                    0 <= i < r.len() ==> #[trigger] r[i] == Target::Wire(
                        Wire { row, column: (range.start + i) as usize },
                    ),
            decreases range.end - column,
        {
            r.push(Target::wire(row, column));
            column = column + 1;
        }
        r
    }
}

} // verus!
