//! The columns of the memory table.

use vstd::prelude::*;

verus! {

/// The context of the address, in the log sorted by address.
pub const SORTED_MEMORY_ADDR_CONTEXT: usize = 0;

/// The segment of the address, in the log sorted by address.
pub const SORTED_MEMORY_ADDR_SEGMENT: usize = 1;

/// The virtual address, in the log sorted by address.
pub const SORTED_MEMORY_ADDR_VIRTUAL: usize = 2;

/// The value before the access.
pub const SORTED_MEMORY_FROM: usize = 3;

/// The value after the access.
pub const SORTED_MEMORY_TO: usize = 4;

/// The time of the access.
pub const SORTED_MEMORY_TIMESTAMP: usize = 5;

/// Whether the next access has the same context.
pub const MEMORY_TRACE_CONTEXT: usize = 6;

/// Whether the next access has the same segment.
pub const MEMORY_TRACE_SEGMENT: usize = 7;

/// Whether the next access has the same virtual address.
pub const MEMORY_TRACE_VIRTUAL: usize = 8;

/// The product of the negations of the first two trace flags.
pub const MEMORY_TWO_TRACES_COMBINED: usize = 9;

/// The product of the negations of all three trace flags.
pub const MEMORY_ALL_TRACES_COMBINED: usize = 10;

/// The value that the log carries into the row.
pub const MEMORY_CURRENT: usize = 11;

/// The first of the columns that hold the inputs of the range checks.
pub const START_RANGE_CHECK_INPUTS: usize = 12;

/// The number of inputs of the range checks.
pub const NUM_RANGE_CHECK_INPUTS: usize = 3;

/// The number of columns of the table.
pub const NUM_COLUMNS: usize = 15;

/// The column of the `i`-th input of the range checks.
pub fn col_rc_degree_input(i: usize) -> (r: usize)
    requires
        i < NUM_RANGE_CHECK_INPUTS,
    ensures
        r == START_RANGE_CHECK_INPUTS + i,
        r < NUM_COLUMNS,
{
    START_RANGE_CHECK_INPUTS + i
}

} // verus!
