//! Loading a breakdown from the rows of a table.
//!
//! A row holds, in this order, the identifier, the identifier of the parent,
//! the label, the unit cost and the count of one item.

use vstd::prelude::*;
use crate::decimal::{signed_decimal, signed_digits};
use crate::error::LoadError;
use crate::model::holds_id;
use crate::node::{Node, NodeView};
use crate::nodes::Nodes;

verus! {

/// The least number of cells in a row.
pub const ROW_WIDTH: usize = 5;

/// A cell of a table.
#[derive(Debug, Clone, PartialEq, Eq)]
pub enum Cell {
    /// Nothing was entered.
    Empty,
    /// A whole number.
    Number(i64),
    /// Anything else, as text.
    Text(String),
}

/// What a cell holds, as contracts see it.
pub enum CellView {
    Empty,
    Number(i64),
    Text(Seq<char>),
}

impl View for Cell {
    type V = CellView;

    open spec fn view(&self) -> CellView {
        match self {
            Cell::Empty => CellView::Empty,
            Cell::Number(v) => CellView::Number(*v),
            Cell::Text(t) => CellView::Text(t@),
        }
    }
}

/// The identifier in a cell: a number from 1 up to the greatest identifier.
pub open spec fn cell_id(c: CellView) -> Option<u32> {
    match c {
        CellView::Number(v) => if 1 <= v <= u32::MAX {
            Some(v as u32)
        } else {
            None
        },
        _ => None,
    }
}

/// The parent in a cell: none where the cell is empty, else an identifier.
pub open spec fn cell_parent(c: CellView) -> Option<Option<u32>> {
    match c {
        CellView::Empty => Some(None),
        _ => match cell_id(c) {
            Some(id) => Some(Some(id)),
            None => None,
        },
    }
}

/// The amount in a cell: a number that is not negative.
pub open spec fn cell_amount(c: CellView) -> Option<u64> {
    match c {
        CellView::Number(v) => if v >= 0 {
            Some(v as u64)
        } else {
            None
        },
        _ => None,
    }
}

/// The unit cost in a cell: none where the cell is empty, else an amount.
pub open spec fn cell_cost(c: CellView) -> Option<Option<u64>> {
    match c {
        CellView::Empty => Some(None),
        _ => match cell_amount(c) {
            Some(u) => Some(Some(u)),
            None => None,
        },
    }
}

/// The label in a cell: its text, a number in decimal, nothing where the cell
/// is empty.
pub open spec fn cell_text(c: CellView) -> Seq<char> {
    match c {
        CellView::Empty => Seq::empty(),
        CellView::Number(v) => signed_digits(v as int),
        CellView::Text(t) => t,
    }
}

/// The item that a row stands for, where the row is well formed: it has
/// enough cells, each holds what its column asks for, and the total cost fits
/// in 64 bits.
pub open spec fn row_item(row: Seq<CellView>) -> Option<NodeView> {
    if row.len() < ROW_WIDTH {
        None
    } else {
        match (cell_id(row[0]), cell_parent(row[1]), cell_cost(row[3]), cell_amount(row[4])) {
            (Some(id), Some(parent), Some(unit_cost), Some(count)) => match unit_cost {
                Some(u) => if u * count <= u64::MAX {
                    Some(
                        NodeView {
                            id,
                            parent,
                            name: cell_text(row[2]),
                            unit_cost,
                            count,
                            total_cost: Some((u * count) as u64),
                        },
                    )
                } else {
                    None
                },
                None => Some(
                    NodeView { id, parent, name: cell_text(row[2]), unit_cost, count, total_cost: None },
                ),
            },
            _ => None,
        }
    }
}

/// What loading the rows gives: the items of the rows in their order, or the
/// error of the first row that is malformed or repeats an identifier.
pub open spec fn load(rows: Seq<Seq<CellView>>) -> Result<Seq<NodeView>, LoadError>
    decreases rows.len(),
{
    if rows.len() == 0 {
        Ok(Seq::empty())
    } else {
        match load(rows.drop_last()) {
            Err(e) => Err(e),
            Ok(s) => match row_item(rows.last()) {
                None => Err(LoadError::MalformedRow { row: (rows.len() - 1) as usize }),
                Some(n) => if holds_id(s, n.id) {
                    Err(LoadError::DuplicateId { id: n.id })
                } else {
                    Ok(s.push(n))
                },
            },
        }
    }
}

/// The rows of a table, as contracts see them.
pub open spec fn table(rows: Seq<Vec<Cell>>) -> Seq<Seq<CellView>> {
    rows.map_values(|r: Vec<Cell>| r@.map_values(|c: Cell| c@))
}

fn read_id(c: &Cell) -> (r: Option<u32>)
    ensures
        r == cell_id(c@),
{
    match c {
        Cell::Number(v) => if 1 <= *v && *v <= 0xffff_ffff {
            Some(*v as u32)
        } else {
            None
        },
        _ => None,
    }
}

fn read_parent(c: &Cell) -> (r: Option<Option<u32>>)
    ensures
        r == cell_parent(c@),
{
    match c {
        Cell::Empty => Some(None),
        _ => match read_id(c) {
            Some(id) => Some(Some(id)),
            None => None,
        },
    }
}

fn read_amount(c: &Cell) -> (r: Option<u64>)
    ensures
        r == cell_amount(c@),
{
    match c {
        Cell::Number(v) => if *v >= 0 {
            Some(*v as u64)
        } else {
            None
        },
        _ => None,
    }
}

fn read_cost(c: &Cell) -> (r: Option<Option<u64>>)
    ensures
        r == cell_cost(c@),
{
    match c {
        Cell::Empty => Some(None),
        _ => match read_amount(c) {
            Some(u) => Some(Some(u)),
            None => None,
        },
    }
}

fn read_text(c: &Cell) -> (r: String)
    ensures
        r@ == cell_text(c@),
{
    match c {
        Cell::Empty => String::new(),
        Cell::Number(v) => signed_decimal(*v),
        Cell::Text(t) => t.clone(),
    }
}

/// Reads one row.
pub fn read_row(row: &Vec<Cell>) -> (r: Option<Node>)
    ensures
        match r {
            Some(n) => row_item(row@.map_values(|c: Cell| c@)) == Some(n@) && n@.wf(),
            None => row_item(row@.map_values(|c: Cell| c@)) is None,
        },
{
    if row.len() < ROW_WIDTH {
        return None;
    }
    let id = match read_id(&row[0]) {
        Some(id) => id,
        None => {
            return None;
        },
    };
    let parent = match read_parent(&row[1]) {
        Some(parent) => parent,
        None => {
            return None;
        },
    };
    let unit_cost = match read_cost(&row[3]) {
        Some(unit_cost) => unit_cost,
        None => {
            return None;
        },
    };
    let count = match read_amount(&row[4]) {
        Some(count) => count,
        None => {
            return None;
        },
    };
    Node::new(id, parent, read_text(&row[2]), unit_cost, count)
}

impl Nodes {
    /// Loads a breakdown from the rows of a table, in their order. The first
    /// row that is malformed, or that repeats an identifier, ends the load.
    /// No cost is rolled up.
    pub fn from_rows(rows: &Vec<Vec<Cell>>) -> (r: Result<Nodes, LoadError>)
        ensures
            match r {
                Ok(nodes) => load(table(rows@)) == Ok::<Seq<NodeView>, LoadError>(nodes@) && nodes.wf(),
                Err(e) => load(table(rows@)) == Err::<Seq<NodeView>, LoadError>(e),
            },
    {
        let ghost t = table(rows@);
        let mut nodes = Nodes::new();
        let mut i: usize = 0;
        assert(t.take(0) =~= Seq::<Seq<CellView>>::empty());
        while i < rows.len()
            invariant
                i <= rows.len(),
                t == table(rows@),
                nodes.wf(),
                load(t.take(i as int)) == Ok::<Seq<NodeView>, LoadError>(nodes@),
            decreases rows.len() - i,
        {
            proof {
                assert(t.take(i + 1).drop_last() =~= t.take(i as int));
                assert(t.take(i + 1).last() == t[i as int]);
            }
            match read_row(&rows[i]) {
                None => {
                    proof {
                        lemma_load_fails(t, (i + 1) as nat);
                    }
                    return Err(LoadError::MalformedRow { row: i });
                },
                Some(node) => {
                    match nodes.insert(node) {
                        Err(e) => {
                            proof {
                                lemma_load_fails(t, (i + 1) as nat);
                            }
                            return Err(e);
                        },
                        Ok(()) => {},
                    }
                },
            }
            i += 1;
        }
        assert(t.take(i as int) =~= t);
        Ok(nodes)
    }
}

/// A load that fails on the first `k` rows fails in the same way on all.
pub proof fn lemma_load_fails(rows: Seq<Seq<CellView>>, k: nat)
    requires
        k <= rows.len(),
        load(rows.take(k as int)) is Err,
    ensures
        load(rows) == load(rows.take(k as int)),
    decreases rows.len(),
{
    if k < rows.len() {
        assert(rows.drop_last().take(k as int) =~= rows.take(k as int));
        lemma_load_fails(rows.drop_last(), k);
    } else {
        assert(rows.take(k as int) =~= rows);
    }
}

} // verus!
