//! Cost rollup over a product breakdown structure.
//!
//! A breakdown is a flat collection of line items, each naming its parent.
//! The unit cost of an item that supplies none is the sum, over the items
//! that name it as their parent, of unit cost times count. Amounts and counts
//! are whole numbers.
//!
//! `Nodes::from_rows` loads a breakdown from the rows of a table,
//! `Nodes::set_unit_cost` rolls the costs up from an item, and
//! `Nodes::cost_report` shapes what is charted. The module `model` says what a
//! rollup is; `laws` and `order` say what holds of every rollup.

pub mod decimal;
mod descent;
pub mod error;
pub mod laws;
pub mod loader;
pub mod model;
pub mod node;
pub mod nodes;
pub mod order;
mod pricing;
pub mod report;
pub mod rollup;

pub use crate::error::{CostError, LoadError};
pub use crate::loader::{Cell, CellView, ROW_WIDTH};
pub use crate::node::{Node, NodeView};
pub use crate::nodes::Nodes;
pub use crate::report::{
    cost_series_from_nodes, cost_title, in_thousands, Report, ReportError, DISPLAY_DIVISOR,
    TITLE_DIVISOR,
};
