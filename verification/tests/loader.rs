use cost_rollup::{Cell, LoadError, Nodes};

fn num(v: i64) -> Cell {
    Cell::Number(v)
}

fn text(t: &str) -> Cell {
    Cell::Text(t.to_string())
}

fn row(id: Cell, parent: Cell, name: Cell, unit_cost: Cell, count: Cell) -> Vec<Cell> {
    vec![id, parent, name, unit_cost, count]
}

fn good(id: i64) -> Vec<Cell> {
    row(num(id), Cell::Empty, text("item"), num(1), num(1))
}

#[test]
fn rows_become_items_in_their_order() {
    let rows = vec![
        row(num(1), Cell::Empty, text("machine"), Cell::Empty, num(1)),
        row(num(2), num(1), text("frame"), num(10), num(1)),
        row(num(3), num(1), text("wheel"), num(5), num(2)),
    ];
    let nodes = Nodes::from_rows(&rows).unwrap();
    assert_eq!(nodes.len(), 3);
    let root = nodes.get(0).unwrap();
    assert_eq!(root.id(), 1);
    assert_eq!(root.parent(), None);
    assert_eq!(root.name().as_str(), "machine");
    assert_eq!(root.unit_cost(), None);
    assert_eq!(root.count(), 1);
    assert_eq!(root.total_cost(), None);
    let wheel = nodes.get(2).unwrap();
    assert_eq!(wheel.id(), 3);
    assert_eq!(wheel.parent(), Some(1));
    assert_eq!(wheel.name().as_str(), "wheel");
    assert_eq!(wheel.unit_cost(), Some(5));
    assert_eq!(wheel.count(), 2);
    assert_eq!(wheel.total_cost(), Some(10));
}

#[test]
fn loading_rolls_nothing_up() {
    let rows = vec![
        row(num(1), Cell::Empty, text("machine"), Cell::Empty, num(1)),
        row(num(2), num(1), text("frame"), num(10), num(1)),
    ];
    let mut nodes = Nodes::from_rows(&rows).unwrap();
    assert_eq!(nodes.get_unit_cost(1), None);
    assert_eq!(nodes.set_unit_cost(1), Ok(()));
    assert_eq!(nodes.get_unit_cost(1), Some(10));
}

#[test]
fn no_rows_give_an_empty_breakdown() {
    let nodes = Nodes::from_rows(&Vec::new()).unwrap();
    assert_eq!(nodes.len(), 0);
}

#[test]
fn cells_beyond_the_fifth_are_ignored() {
    let mut cells = good(4);
    cells.push(text("remark"));
    cells.push(num(-1));
    let nodes = Nodes::from_rows(&vec![cells]).unwrap();
    assert_eq!(nodes.get(0).unwrap().id(), 4);
}

#[test]
fn a_label_may_be_a_number_or_empty() {
    let rows = vec![
        row(num(1), Cell::Empty, num(2024), num(1), num(1)),
        row(num(2), Cell::Empty, num(-17), num(1), num(1)),
        row(num(3), Cell::Empty, Cell::Empty, num(1), num(1)),
        row(num(4), Cell::Empty, num(0), num(1), num(1)),
        row(num(5), Cell::Empty, num(i64::MIN), num(1), num(1)),
    ];
    let nodes = Nodes::from_rows(&rows).unwrap();
    assert_eq!(nodes.get(0).unwrap().name().as_str(), "2024");
    assert_eq!(nodes.get(1).unwrap().name().as_str(), "-17");
    assert_eq!(nodes.get(2).unwrap().name().as_str(), "");
    assert_eq!(nodes.get(3).unwrap().name().as_str(), "0");
    assert_eq!(nodes.get(4).unwrap().name().as_str(), "-9223372036854775808");
}

#[test]
fn the_bounds_of_the_columns_are_accepted() {
    let rows = vec![
        row(num(u32::MAX as i64), num(1), text("a"), num(i64::MAX), num(1)),
        row(num(1), num(u32::MAX as i64), text("b"), num(0), num(i64::MAX)),
        row(num(2), Cell::Empty, text("c"), num(3), num(0)),
    ];
    let nodes = Nodes::from_rows(&rows).unwrap();
    assert_eq!(nodes.get(0).unwrap().id(), u32::MAX);
    assert_eq!(nodes.get(0).unwrap().total_cost(), Some(i64::MAX as u64));
    assert_eq!(nodes.get(1).unwrap().parent(), Some(u32::MAX));
    assert_eq!(nodes.get(1).unwrap().total_cost(), Some(0));
    assert_eq!(nodes.get(2).unwrap().total_cost(), Some(0));
}

fn fails_at_second(bad: Vec<Cell>) {
    let rows = vec![good(1), bad, good(3)];
    assert_eq!(
        Nodes::from_rows(&rows),
        Err(LoadError::MalformedRow { row: 1 })
    );
}

#[test]
fn a_short_row_is_malformed() {
    fails_at_second(vec![num(2), Cell::Empty, text("short"), num(1)]);
    fails_at_second(Vec::new());
}

#[test]
fn an_identifier_that_is_no_number_is_malformed() {
    fails_at_second(row(text("two"), Cell::Empty, text("x"), num(1), num(1)));
    fails_at_second(row(Cell::Empty, Cell::Empty, text("x"), num(1), num(1)));
}

#[test]
fn an_identifier_out_of_range_is_malformed() {
    fails_at_second(row(num(0), Cell::Empty, text("x"), num(1), num(1)));
    fails_at_second(row(num(-2), Cell::Empty, text("x"), num(1), num(1)));
    fails_at_second(row(num(u32::MAX as i64 + 1), Cell::Empty, text("x"), num(1), num(1)));
}

#[test]
fn a_parent_that_is_no_identifier_is_malformed() {
    fails_at_second(row(num(2), text("one"), text("x"), num(1), num(1)));
    fails_at_second(row(num(2), num(0), text("x"), num(1), num(1)));
    fails_at_second(row(num(2), num(-1), text("x"), num(1), num(1)));
    fails_at_second(row(num(2), num(u32::MAX as i64 + 1), text("x"), num(1), num(1)));
}

#[test]
fn a_unit_cost_that_is_no_amount_is_malformed() {
    fails_at_second(row(num(2), Cell::Empty, text("x"), text("cheap"), num(1)));
    fails_at_second(row(num(2), Cell::Empty, text("x"), num(-1), num(1)));
}

#[test]
fn a_count_that_is_no_amount_is_malformed() {
    fails_at_second(row(num(2), Cell::Empty, text("x"), num(1), Cell::Empty));
    fails_at_second(row(num(2), Cell::Empty, text("x"), num(1), text("many")));
    fails_at_second(row(num(2), Cell::Empty, text("x"), num(1), num(-1)));
}

#[test]
fn a_total_cost_that_does_not_fit_is_malformed() {
    fails_at_second(row(num(2), Cell::Empty, text("x"), num(i64::MAX), num(3)));
}

#[test]
fn a_repeated_identifier_is_reported() {
    let rows = vec![good(1), good(2), good(1), good(2)];
    assert_eq!(
        Nodes::from_rows(&rows),
        Err(LoadError::DuplicateId { id: 1 })
    );
}

#[test]
fn the_first_fault_ends_the_load() {
    let bad = row(text("x"), Cell::Empty, text("bad"), num(1), num(1));
    assert_eq!(
        Nodes::from_rows(&vec![good(1), good(1), bad.clone()]),
        Err(LoadError::DuplicateId { id: 1 })
    );
    assert_eq!(
        Nodes::from_rows(&vec![good(1), bad, good(1)]),
        Err(LoadError::MalformedRow { row: 1 })
    );
}

#[test]
fn permuted_rows_give_the_same_costs() {
    let table = vec![
        row(num(1), Cell::Empty, text("machine"), Cell::Empty, num(1)),
        row(num(2), num(1), text("frame"), Cell::Empty, num(2)),
        row(num(3), num(2), text("beam"), num(50), num(4)),
        row(num(4), num(2), text("bolt"), num(3), num(16)),
        row(num(5), num(1), text("motor"), num(400), num(1)),
    ];
    let mut straight = Nodes::from_rows(&table).unwrap();
    let mut reversed = Nodes::from_rows(&table.iter().rev().cloned().collect()).unwrap();
    assert_eq!(straight.set_unit_cost(1), Ok(()));
    assert_eq!(reversed.set_unit_cost(1), Ok(()));
    for id in 1..=5 {
        assert_eq!(straight.get_node_with_id(id), reversed.get_node_with_id(id));
    }
    assert_eq!(straight.get_unit_cost(2), Some(248));
    assert_eq!(straight.get_unit_cost(1), Some(896));
}
