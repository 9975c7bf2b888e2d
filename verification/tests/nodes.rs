use cost_rollup::{LoadError, Node, Nodes};

fn item(id: u32, parent: Option<u32>, name: &str, unit_cost: Option<u64>, count: u64) -> Node {
    Node::new(id, parent, name.to_string(), unit_cost, count).unwrap()
}

#[test]
fn a_new_item_holds_what_it_was_given() {
    let node = item(4, Some(2), "gear", Some(12), 5);
    assert_eq!(node.id(), 4);
    assert_eq!(node.parent(), Some(2));
    assert_eq!(node.name().as_str(), "gear");
    assert_eq!(node.unit_cost(), Some(12));
    assert_eq!(node.count(), 5);
    assert_eq!(node.total_cost(), Some(60));
}

#[test]
fn an_item_without_unit_cost_has_no_total_cost() {
    let node = item(1, None, "root", None, 3);
    assert_eq!(node.parent(), None);
    assert_eq!(node.unit_cost(), None);
    assert_eq!(node.total_cost(), None);
}

#[test]
fn the_identifier_zero_is_refused() {
    assert_eq!(Node::new(0, None, "zero".to_string(), Some(1), 1), None);
}

#[test]
fn a_total_cost_that_does_not_fit_is_refused() {
    assert_eq!(Node::new(1, None, "big".to_string(), Some(u64::MAX), 2), None);
    assert_eq!(Node::new(1, None, "big".to_string(), Some(1 << 32), 1 << 32), None);
    let edge = Node::new(1, None, "edge".to_string(), Some(u64::MAX), 1).unwrap();
    assert_eq!(edge.total_cost(), Some(u64::MAX));
    let square = Node::new(1, None, "square".to_string(), Some(u32::MAX as u64), u32::MAX as u64).unwrap();
    assert_eq!(square.total_cost(), Some(18446744065119617025));
}

#[test]
fn an_empty_breakdown_holds_nothing() {
    let nodes = Nodes::new();
    assert_eq!(nodes.len(), 0);
    assert_eq!(nodes.get(0), None);
    assert_eq!(nodes.get_node_with_id(1), None);
    assert_eq!(nodes.get_unit_cost(1), None);
    assert!(nodes.get_nodes_with_parent(1).is_empty());
}

#[test]
fn items_stay_in_the_order_of_insertion() {
    let mut nodes = Nodes::new();
    assert_eq!(nodes.insert(item(5, None, "e", None, 1)), Ok(()));
    assert_eq!(nodes.insert(item(3, Some(5), "c", Some(1), 1)), Ok(()));
    assert_eq!(nodes.insert(item(9, Some(5), "i", Some(2), 1)), Ok(()));
    assert_eq!(nodes.len(), 3);
    assert_eq!(nodes.get(0).unwrap().id(), 5);
    assert_eq!(nodes.get(1).unwrap().id(), 3);
    assert_eq!(nodes.get(2).unwrap().id(), 9);
    assert_eq!(nodes.get(3), None);
}

#[test]
fn a_second_item_with_an_identifier_is_refused() {
    let mut nodes = Nodes::new();
    assert_eq!(nodes.insert(item(5, None, "first", Some(1), 1)), Ok(()));
    assert_eq!(
        nodes.insert(item(5, Some(1), "second", Some(2), 2)),
        Err(LoadError::DuplicateId { id: 5 })
    );
    assert_eq!(nodes.len(), 1);
    assert_eq!(nodes.get_node_with_id(5).unwrap().name().as_str(), "first");
}

#[test]
fn an_item_is_found_by_its_identifier() {
    let mut nodes = Nodes::new();
    nodes.insert(item(1, None, "root", None, 1)).unwrap();
    nodes.insert(item(2, Some(1), "leaf", Some(4), 2)).unwrap();
    assert_eq!(nodes.get_node_with_id(2).unwrap().name().as_str(), "leaf");
    assert_eq!(nodes.get_node_with_id(1).unwrap().name().as_str(), "root");
    assert_eq!(nodes.get_node_with_id(3), None);
}

#[test]
fn the_unit_cost_is_read_without_a_rollup() {
    let mut nodes = Nodes::new();
    nodes.insert(item(1, None, "root", None, 1)).unwrap();
    nodes.insert(item(2, Some(1), "leaf", Some(4), 2)).unwrap();
    assert_eq!(nodes.get_unit_cost(1), None);
    assert_eq!(nodes.get_unit_cost(2), Some(4));
    assert_eq!(nodes.get_unit_cost(3), None);
    assert_eq!(nodes.get_unit_cost(1), None);
}

#[test]
fn children_come_in_the_order_of_insertion() {
    let mut nodes = Nodes::new();
    nodes.insert(item(8, Some(1), "h", Some(1), 1)).unwrap();
    nodes.insert(item(1, None, "root", None, 1)).unwrap();
    nodes.insert(item(3, Some(2), "grandchild", Some(1), 1)).unwrap();
    nodes.insert(item(2, Some(1), "b", None, 1)).unwrap();
    nodes.insert(item(5, Some(1), "e", Some(1), 1)).unwrap();
    let ids: Vec<u32> = nodes.get_nodes_with_parent(1).iter().map(|n| n.id()).collect();
    assert_eq!(ids, vec![8, 2, 5]);
    let ids: Vec<u32> = nodes.get_nodes_with_parent(2).iter().map(|n| n.id()).collect();
    assert_eq!(ids, vec![3]);
    assert!(nodes.get_nodes_with_parent(3).is_empty());
    assert!(nodes.get_nodes_with_parent(77).is_empty());
}
