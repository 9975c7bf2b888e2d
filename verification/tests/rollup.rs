use cost_rollup::{CostError, Node, Nodes};

fn item(id: u32, parent: Option<u32>, name: &str, unit_cost: Option<u64>, count: u64) -> Node {
    Node::new(id, parent, name.to_string(), unit_cost, count).unwrap()
}

fn breakdown(items: Vec<Node>) -> Nodes {
    let mut nodes = Nodes::new();
    for node in items {
        nodes.insert(node).unwrap();
    }
    nodes
}

fn costs(nodes: &Nodes, id: u32) -> (Option<u64>, Option<u64>) {
    let node = nodes.get_node_with_id(id).unwrap();
    (node.unit_cost(), node.total_cost())
}

#[test]
fn two_children_roll_up_into_the_root() {
    let mut nodes = breakdown(vec![
        item(1, None, "root", None, 1),
        item(2, Some(1), "A", Some(10), 1),
        item(3, Some(1), "B", Some(5), 2),
    ]);
    assert_eq!(nodes.set_unit_cost(1), Ok(()));
    assert_eq!(costs(&nodes, 2), (Some(10), Some(10)));
    assert_eq!(costs(&nodes, 3), (Some(5), Some(10)));
    assert_eq!(costs(&nodes, 1), (Some(20), Some(20)));
}

#[test]
fn three_levels_roll_up() {
    let mut nodes = breakdown(vec![
        item(1, None, "root", None, 1),
        item(2, Some(1), "mid", None, 4),
        item(3, Some(2), "leaf", Some(2), 3),
    ]);
    assert_eq!(nodes.set_unit_cost(1), Ok(()));
    assert_eq!(costs(&nodes, 3), (Some(2), Some(6)));
    assert_eq!(costs(&nodes, 2), (Some(6), Some(24)));
    assert_eq!(costs(&nodes, 1), (Some(24), Some(24)));
}

#[test]
fn children_may_come_before_their_parents() {
    let mut nodes = breakdown(vec![
        item(7, Some(4), "bolt", Some(3), 8),
        item(4, Some(1), "frame", None, 2),
        item(9, Some(4), "beam", Some(50), 1),
        item(1, None, "machine", None, 1),
        item(5, Some(1), "motor", Some(400), 1),
    ]);
    assert_eq!(nodes.set_unit_cost(1), Ok(()));
    assert_eq!(costs(&nodes, 4), (Some(74), Some(148)));
    assert_eq!(costs(&nodes, 1), (Some(548), Some(548)));
}

#[test]
fn a_second_rollup_changes_nothing() {
    let mut nodes = breakdown(vec![
        item(1, None, "root", None, 3),
        item(2, Some(1), "mid", None, 4),
        item(3, Some(2), "leaf", Some(2), 3),
        item(4, Some(1), "part", Some(1), 1),
    ]);
    assert_eq!(nodes.set_unit_cost(1), Ok(()));
    let once = nodes.clone();
    assert_eq!(nodes.set_unit_cost(1), Ok(()));
    assert_eq!(nodes, once);
    assert_eq!(costs(&nodes, 1), (Some(25), Some(75)));
}

#[test]
fn a_supplied_cost_is_kept() {
    let mut nodes = breakdown(vec![
        item(1, None, "root", None, 1),
        item(2, Some(1), "leaf", Some(7), 6),
    ]);
    let leaf = nodes.get_node_with_id(2).unwrap().clone();
    assert_eq!(leaf.total_cost(), Some(42));
    assert_eq!(nodes.set_unit_cost(1), Ok(()));
    assert_eq!(nodes.get_node_with_id(2), Some(&leaf));
}

#[test]
fn a_supplied_cost_wins_over_the_children() {
    let mut nodes = breakdown(vec![
        item(1, None, "root", None, 1),
        item(2, Some(1), "bought", Some(100), 2),
        item(3, Some(2), "inside", None, 5),
    ]);
    assert_eq!(nodes.set_unit_cost(1), Ok(()));
    assert_eq!(costs(&nodes, 2), (Some(100), Some(200)));
    assert_eq!(costs(&nodes, 1), (Some(200), Some(200)));
    assert_eq!(costs(&nodes, 3), (None, None));
}

#[test]
fn a_rollup_from_an_item_with_a_cost_does_nothing() {
    let mut nodes = breakdown(vec![
        item(1, None, "root", Some(9), 2),
        item(2, Some(1), "open", None, 1),
        item(3, Some(8), "stray", Some(1), 1),
    ]);
    let before = nodes.clone();
    assert_eq!(nodes.set_unit_cost(1), Ok(()));
    assert_eq!(nodes, before);
}

#[test]
fn only_what_lies_below_is_rolled_up() {
    let mut nodes = breakdown(vec![
        item(1, None, "root", None, 1),
        item(2, Some(1), "left", None, 2),
        item(3, Some(2), "a", Some(5), 1),
        item(4, Some(1), "right", None, 1),
        item(5, Some(4), "b", Some(7), 3),
    ]);
    assert_eq!(nodes.set_unit_cost(2), Ok(()));
    assert_eq!(costs(&nodes, 2), (Some(5), Some(10)));
    assert_eq!(costs(&nodes, 4), (None, None));
    assert_eq!(costs(&nodes, 1), (None, None));
    assert_eq!(nodes.set_unit_cost(1), Ok(()));
    assert_eq!(costs(&nodes, 4), (Some(21), Some(21)));
    assert_eq!(costs(&nodes, 1), (Some(31), Some(31)));
}

#[test]
fn the_order_of_the_items_does_not_matter() {
    let rows = |order: [usize; 5]| {
        let all = [
            (1, None, None, 1),
            (2, Some(1), None, 3),
            (3, Some(2), Some(11), 2),
            (4, Some(2), Some(1), 9),
            (5, Some(1), Some(40), 2),
        ];
        breakdown(
            order
                .iter()
                .map(|&i| item(all[i].0, all[i].1, "n", all[i].2, all[i].3))
                .collect(),
        )
    };
    let mut first = rows([0, 1, 2, 3, 4]);
    let mut second = rows([4, 3, 2, 1, 0]);
    let mut third = rows([2, 0, 4, 1, 3]);
    assert_eq!(first.set_unit_cost(1), Ok(()));
    assert_eq!(second.set_unit_cost(1), Ok(()));
    assert_eq!(third.set_unit_cost(1), Ok(()));
    for id in 1..=5 {
        assert_eq!(first.get_node_with_id(id), second.get_node_with_id(id));
        assert_eq!(first.get_node_with_id(id), third.get_node_with_id(id));
    }
    assert_eq!(costs(&first, 2), (Some(31), Some(93)));
    assert_eq!(costs(&first, 1), (Some(173), Some(173)));
}

#[test]
fn two_items_that_name_each_other_are_a_cycle() {
    let mut nodes = breakdown(vec![
        item(1, Some(2), "A", None, 1),
        item(2, Some(1), "B", None, 1),
    ]);
    let before = nodes.clone();
    assert_eq!(
        nodes.set_unit_cost(1),
        Err(CostError::CycleDetected { ids: vec![1, 2] })
    );
    assert_eq!(nodes, before);
    assert_eq!(
        nodes.set_unit_cost(2),
        Err(CostError::CycleDetected { ids: vec![2, 1] })
    );
}

#[test]
fn a_longer_cycle_is_named_item_by_item() {
    let mut nodes = breakdown(vec![
        item(3, Some(2), "c", None, 1),
        item(1, Some(3), "a", None, 1),
        item(2, Some(1), "b", None, 1),
        item(4, Some(1), "leaf", Some(5), 1),
    ]);
    assert_eq!(
        nodes.set_unit_cost(1),
        Err(CostError::CycleDetected { ids: vec![1, 3, 2] })
    );
}

#[test]
fn an_item_that_names_itself_is_a_cycle() {
    let mut nodes = breakdown(vec![item(1, Some(1), "self", None, 1)]);
    assert_eq!(
        nodes.set_unit_cost(1),
        Err(CostError::CycleDetected { ids: vec![1] })
    );
}

#[test]
fn a_cycle_through_a_supplied_cost_is_none() {
    let mut nodes = breakdown(vec![
        item(1, Some(2), "A", None, 2),
        item(2, Some(1), "B", Some(8), 3),
    ]);
    assert_eq!(nodes.set_unit_cost(1), Ok(()));
    assert_eq!(costs(&nodes, 1), (Some(24), Some(48)));
}

#[test]
fn a_cycle_out_of_reach_is_not_met() {
    let mut nodes = breakdown(vec![
        item(1, None, "root", None, 1),
        item(2, Some(1), "leaf", Some(4), 1),
        item(5, Some(6), "x", None, 1),
        item(6, Some(5), "y", None, 1),
    ]);
    assert_eq!(nodes.set_unit_cost(1), Ok(()));
    assert_eq!(costs(&nodes, 1), (Some(4), Some(4)));
    assert_eq!(costs(&nodes, 5), (None, None));
}

#[test]
fn a_missing_parent_is_reported() {
    let mut nodes = breakdown(vec![
        item(1, None, "root", None, 1),
        item(2, Some(1), "leaf", Some(4), 1),
        item(3, Some(99), "orphan", Some(1), 1),
        item(4, Some(98), "second orphan", Some(1), 1),
    ]);
    let before = nodes.clone();
    assert_eq!(
        nodes.set_unit_cost(1),
        Err(CostError::DanglingParent { id: 3 })
    );
    assert_eq!(nodes, before);
}

#[test]
fn a_missing_parent_comes_before_a_missing_start() {
    let mut nodes = breakdown(vec![item(3, Some(99), "orphan", Some(1), 1)]);
    assert_eq!(
        nodes.set_unit_cost(99),
        Err(CostError::DanglingParent { id: 3 })
    );
}

#[test]
fn an_unknown_identifier_is_reported() {
    let mut nodes = breakdown(vec![
        item(1, None, "root", None, 1),
        item(2, Some(1), "leaf", Some(4), 1),
    ]);
    assert_eq!(
        nodes.set_unit_cost(7),
        Err(CostError::UnknownNode { id: 7 })
    );
    let mut empty = Nodes::new();
    assert_eq!(
        empty.set_unit_cost(1),
        Err(CostError::UnknownNode { id: 1 })
    );
}

#[test]
fn a_leaf_without_a_cost_is_reported() {
    let mut nodes = breakdown(vec![
        item(1, None, "root", None, 1),
        item(2, Some(1), "priced", Some(4), 1),
        item(3, Some(1), "mid", None, 1),
        item(4, Some(3), "bare", None, 2),
        item(5, Some(1), "bare too", None, 2),
    ]);
    let before = nodes.clone();
    assert_eq!(
        nodes.set_unit_cost(1),
        Err(CostError::IncompleteLeaf { id: 4 })
    );
    assert_eq!(nodes, before);
    let mut lone = breakdown(vec![item(1, None, "root", None, 1)]);
    assert_eq!(
        lone.set_unit_cost(1),
        Err(CostError::IncompleteLeaf { id: 1 })
    );
}

#[test]
fn a_cycle_comes_before_a_bare_leaf() {
    let mut nodes = breakdown(vec![
        item(5, Some(1), "bare", None, 1),
        item(1, Some(2), "A", None, 1),
        item(2, Some(1), "B", None, 1),
    ]);
    assert_eq!(
        nodes.set_unit_cost(1),
        Err(CostError::CycleDetected { ids: vec![1, 2] })
    );
}

#[test]
fn a_sum_that_does_not_fit_is_reported() {
    let mut nodes = breakdown(vec![
        item(1, None, "root", None, 1),
        item(2, Some(1), "a", Some(u64::MAX), 1),
        item(3, Some(1), "b", Some(1), 1),
    ]);
    let before = nodes.clone();
    assert_eq!(nodes.set_unit_cost(1), Err(CostError::Overflow { id: 1 }));
    assert_eq!(nodes, before);
}

#[test]
fn a_total_that_does_not_fit_is_reported() {
    let mut nodes = breakdown(vec![
        item(1, None, "root", None, 1),
        item(2, Some(1), "mid", None, 2),
        item(3, Some(2), "leaf", Some(u64::MAX), 1),
    ]);
    assert_eq!(nodes.set_unit_cost(1), Err(CostError::Overflow { id: 2 }));
    assert_eq!(costs(&nodes, 2), (None, None));
}

#[test]
fn of_two_costs_that_do_not_fit_the_deepest_is_named() {
    let mut nodes = breakdown(vec![
        item(1, None, "root", None, 1),
        item(2, Some(1), "shallow", None, 2),
        item(3, Some(2), "big", Some(u64::MAX), 1),
        item(4, Some(1), "mid", None, 1),
        item(5, Some(4), "deep", None, 2),
        item(6, Some(5), "big", Some(u64::MAX), 1),
    ]);
    assert_eq!(nodes.set_unit_cost(1), Err(CostError::Overflow { id: 5 }));
}

#[test]
fn the_greatest_cost_that_fits_is_rolled_up() {
    let mut nodes = breakdown(vec![
        item(1, None, "root", None, 1),
        item(2, Some(1), "a", Some(u64::MAX - 1), 1),
        item(3, Some(1), "b", Some(1), 1),
        item(4, Some(1), "none of it", Some(u64::MAX), 0),
    ]);
    assert_eq!(nodes.set_unit_cost(1), Ok(()));
    assert_eq!(costs(&nodes, 1), (Some(u64::MAX), Some(u64::MAX)));
}

#[test]
fn a_count_of_zero_gives_a_total_of_zero() {
    let mut nodes = breakdown(vec![
        item(1, None, "root", None, 0),
        item(2, Some(1), "leaf", Some(4), 5),
    ]);
    assert_eq!(nodes.set_unit_cost(1), Ok(()));
    assert_eq!(costs(&nodes, 1), (Some(20), Some(0)));
}

#[test]
fn a_deep_chain_is_rolled_up() {
    let depth: u32 = 3000;
    let mut items = vec![item(depth, Some(depth - 1), "leaf", Some(3), 1)];
    for id in (2..depth).rev() {
        items.push(item(id, Some(id - 1), "link", None, 1));
    }
    items.push(item(1, None, "root", None, 2));
    let mut nodes = breakdown(items);
    assert_eq!(nodes.set_unit_cost(1), Ok(()));
    assert_eq!(costs(&nodes, 1), (Some(3), Some(6)));
    assert_eq!(costs(&nodes, depth - 1), (Some(3), Some(3)));
}

#[test]
fn a_wide_level_is_rolled_up() {
    let mut items = vec![item(1, None, "root", None, 1)];
    for id in 2..=1001 {
        items.push(item(id, Some(1), "leaf", Some(id as u64), 2));
    }
    let mut nodes = breakdown(items);
    assert_eq!(nodes.set_unit_cost(1), Ok(()));
    let expected: u64 = (2..=1001u64).map(|v| v * 2).sum();
    assert_eq!(nodes.get_unit_cost(1), Some(expected));
}

struct Plain {
    id: u32,
    parent: Option<u32>,
    unit_cost: Option<u64>,
    count: u64,
}

fn plain_unit(items: &[Plain], id: u32) -> u64 {
    let node = items.iter().find(|n| n.id == id).unwrap();
    match node.unit_cost {
        Some(unit) => unit,
        None => items
            .iter()
            .filter(|n| n.parent == Some(id))
            .map(|n| plain_unit(items, n.id) * n.count)
            .sum(),
    }
}

fn next(state: &mut u64) -> u64 {
    *state = state
        .wrapping_mul(6364136223846793005)
        .wrapping_add(1442695040888963407);
    *state >> 33
}

#[test]
fn a_rollup_matches_a_plain_recursion() {
    let mut state: u64 = 2024;
    for round in 0..40u64 {
        let size = 2 + (next(&mut state) % 40) as u32;
        let mut items: Vec<Plain> = Vec::new();
        for id in 1..=size {
            let parent = if id == 1 {
                None
            } else {
                Some(1 + (next(&mut state) % (id as u64 - 1)) as u32)
            };
            items.push(Plain {
                id,
                parent,
                unit_cost: None,
                count: 1 + next(&mut state) % 5,
            });
        }
        for at in 0..items.len() {
            let id = items[at].id;
            let is_leaf = !items.iter().any(|n| n.parent == Some(id));
            if is_leaf || next(&mut state) % 7 == 0 {
                items[at].unit_cost = Some(next(&mut state) % 100);
            }
        }
        let mut order: Vec<usize> = (0..items.len()).collect();
        for at in (1..order.len()).rev() {
            let other = (next(&mut state) % (at as u64 + 1)) as usize;
            order.swap(at, other);
        }
        let mut nodes = breakdown(
            order
                .iter()
                .map(|&at| {
                    let n = &items[at];
                    item(n.id, n.parent, "n", n.unit_cost, n.count)
                })
                .collect(),
        );
        assert_eq!(nodes.set_unit_cost(1), Ok(()), "round {}", round);
        let mut reached = vec![1u32];
        let mut at = 0;
        while at < reached.len() {
            let id = reached[at];
            let node = items.iter().find(|n| n.id == id).unwrap();
            let unit = plain_unit(&items, id);
            assert_eq!(costs(&nodes, id), (Some(unit), Some(unit * node.count)));
            if node.unit_cost.is_none() {
                reached.extend(items.iter().filter(|n| n.parent == Some(id)).map(|n| n.id));
            }
            at += 1;
        }
        for n in &items {
            if !reached.contains(&n.id) {
                let expected = n.unit_cost.map(|unit| unit * n.count);
                assert_eq!(costs(&nodes, n.id), (n.unit_cost, expected));
            }
        }
    }
}
