//! The report: the direct children of an item with their total costs, and a
//! title that gives the item's own cost in millions.

use vstd::prelude::*;
use crate::decimal::{digit, digits, push_digit, push_digits};
use crate::model::{children_of, lookup};
use crate::node::{Node, NodeView};
use crate::nodes::Nodes;

verus! {

/// A charted value is a total cost divided by this.
pub const DISPLAY_DIVISOR: u64 = 1000;

/// The cost in the title is a unit cost divided by this.
pub const TITLE_DIVISOR: u64 = 1_000_000;

/// Why a report could not be made.
#[derive(Debug, Clone, PartialEq, Eq)]
pub enum ReportError {
    /// The item with this identifier is missing, or has no cost yet.
    MissingCost { id: u32 },
}

/// What a report holds: the title, and the label and total cost of each
/// charted item.
#[derive(Debug, Clone, PartialEq, Eq)]
pub struct Report {
    pub title: String,
    pub series: Vec<(String, u64)>,
}

/// `cost` in tenths of `TITLE_DIVISOR`, rounded to the nearest; a half goes to
/// the even neighbour.
pub open spec fn tenths(cost: nat) -> nat {
    let q = (cost * 10) / (TITLE_DIVISOR as nat);
    let r = (cost * 10) % (TITLE_DIVISOR as nat);
    if 2 * r > TITLE_DIVISOR || (2 * r == TITLE_DIVISOR && q % 2 == 1) {
        q + 1
    } else {
        q
    }
}

/// The title for a cost: the cost in millions with one decimal place, between
/// a caption and the unit.
pub open spec fn title_text(cost: nat) -> Seq<char> {
    "Total cost: "@ + digits(tenths(cost) / 10) + seq!['.', digit(tenths(cost) % 10)] + " M.SEK"@
}

/// The title of a report on an item whose unit cost is `cost`.
pub fn cost_title(cost: u64) -> (r: String)
    ensures
        r@ == title_text(cost as nat),
{
    let scaled: u128 = cost as u128 * 10;
    let q: u128 = scaled / (TITLE_DIVISOR as u128);
    let r: u128 = scaled % (TITLE_DIVISOR as u128);
    let rounded: u128 = if 2 * r > TITLE_DIVISOR as u128 || (2 * r == TITLE_DIVISOR as u128 && q % 2 == 1) {
        q + 1
    } else {
        q
    };
    assert(rounded == tenths(cost as nat));
    let whole: u64 = (rounded / 10) as u64;
    let tenth: u64 = (rounded % 10) as u64;
    proof {
        reveal_strlit(".");
    }
    let mut out = String::from_str("Total cost: ");
    push_digits(&mut out, whole);
    out.append(".");
    push_digit(&mut out, tenth);
    out.append(" M.SEK");
    assert(out@ =~= title_text(cost as nat));
    out
}

/// What is charted for a total cost: the total divided by `DISPLAY_DIVISOR`,
/// as the whole part and what is left over.
pub fn in_thousands(total: u64) -> (r: (u64, u64))
    ensures
        r.0 * DISPLAY_DIVISOR + r.1 == total,
        r.1 < DISPLAY_DIVISOR,
{
    (total / DISPLAY_DIVISOR, total % DISPLAY_DIVISOR)
}

/// The first of the items without a total cost stands at `i`.
pub open spec fn first_unpriced(items: Seq<NodeView>, i: int) -> bool {
    &&& 0 <= i < items.len()
    &&& items[i].total_cost is None
    &&& forall|j: int| 0 <= j < i ==> (#[trigger] items[j]).total_cost is Some
}

/// `series` holds the label and the total cost of each of `items`, in their
/// order.
pub open spec fn charts(items: Seq<NodeView>, series: Seq<(String, u64)>) -> bool {
    &&& series.len() == items.len()
    &&& forall|i: int|
        0 <= i < items.len() ==> (#[trigger] series[i]).0@ == items[i].name && items[i].total_cost == Some(
            series[i].1,
        )
}

/// The label and the total cost of each item, in the order given. It fails on
/// the first item without a total cost.
pub fn cost_series_from_nodes(nodes: &Vec<&Node>) -> (r: Result<Vec<(String, u64)>, ReportError>)
    ensures
        match r {
            Ok(series) => charts(nodes@.map_values(|n: &Node| n@), series@),
            Err(ReportError::MissingCost { id }) => exists|i: int|
                first_unpriced(nodes@.map_values(|n: &Node| n@), i) && (#[trigger] nodes@[i])@.id == id,
        },
{
    let ghost items = nodes@.map_values(|n: &Node| n@);
    let mut series: Vec<(String, u64)> = Vec::new();
    let mut i: usize = 0;
    while i < nodes.len()
        invariant
            i <= nodes.len(),
            items == nodes@.map_values(|n: &Node| n@),
            series@.len() == i,
            forall|j: int|
                0 <= j < i ==> (#[trigger] series@[j]).0@ == items[j].name && items[j].total_cost == Some(
                    series@[j].1,
                ),
        decreases nodes.len() - i,
    {
        let node = nodes[i];
        match node.total_cost() {
            Some(total) => {
                series.push((node.name().clone(), total));
            },
            None => {
                assert forall|j: int| 0 <= j < i implies (#[trigger] items[j]).total_cost is Some by {
                    assert(items[j].total_cost == Some(series@[j].1));
                }
                assert(first_unpriced(items, i as int));
                return Err(ReportError::MissingCost { id: node.id() });
            },
        }
        i += 1;
    }
    Ok(series)
}

impl Nodes {
    /// The report on the item with the identifier `root`: a title from its
    /// unit cost, and its direct children with their total costs. It fails
    /// where the item is missing or has no unit cost, or where one of its
    /// children has no total cost.
    pub fn cost_report(&self, root: u32) -> (r: Result<Report, ReportError>)
        ensures
            match r {
                Ok(report) => {
                    &&& lookup(self@, root) is Some
                    &&& lookup(self@, root)->0.unit_cost is Some
                    &&& report.title@ == title_text(lookup(self@, root)->0.unit_cost->0 as nat)
                    &&& charts(children_of(self@, root), report.series@)
                },
                Err(ReportError::MissingCost { id }) => if lookup(self@, root) is Some && lookup(
                    self@,
                    root,
                )->0.unit_cost is Some {
                    exists|i: int|
                        first_unpriced(children_of(self@, root), i) && (#[trigger] children_of(
                            self@,
                            root,
                        )[i]).id == id
                } else {
                    id == root
                },
            },
    {
        let cost = match self.get_unit_cost(root) {
            Some(cost) => cost,
            None => {
                return Err(ReportError::MissingCost { id: root });
            },
        };
        let children = self.get_nodes_with_parent(root);
        match cost_series_from_nodes(&children) {
            Ok(series) => Ok(Report { title: cost_title(cost), series }),
            Err(e) => Err(e),
        }
    }
}

} // verus!
