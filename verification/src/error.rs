//! What loading and rollup report when they fail.

use vstd::prelude::*;

verus! {

/// Why a table of rows could not be made into a breakdown.
#[derive(Debug, Clone, PartialEq, Eq)]
pub enum LoadError {
    /// The row at this index has too few cells, or a cell that does not hold
    /// what its column asks for.
    MalformedRow { row: usize },
    /// A second item came with this identifier.
    DuplicateId { id: u32 },
}

/// Why a rollup could not be done.
#[derive(Debug, Clone, PartialEq, Eq)]
pub enum CostError {
    /// The item with this identifier names a parent that is not in the
    /// breakdown.
    DanglingParent { id: u32 },
    /// No item has this identifier.
    UnknownNode { id: u32 },
    /// The item asked for is among its own descendants. `ids` names the
    /// items of the cycle, each followed by its parent.
    CycleDetected { ids: Vec<u32> },
    /// The item with this identifier has neither a unit cost nor children.
    IncompleteLeaf { id: u32 },
    /// The cost of the item with this identifier does not fit in 64 bits.
    Overflow { id: u32 },
}

} // verus!
