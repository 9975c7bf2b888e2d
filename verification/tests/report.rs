use cost_rollup::decimal::{decimal, signed_decimal};
use cost_rollup::{
    cost_series_from_nodes, cost_title, in_thousands, Node, Nodes, ReportError, DISPLAY_DIVISOR,
    TITLE_DIVISOR,
};

fn item(id: u32, parent: Option<u32>, name: &str, unit_cost: Option<u64>, count: u64) -> Node {
    Node::new(id, parent, name.to_string(), unit_cost, count).unwrap()
}

fn breakdown(items: Vec<Node>) -> Nodes {
    let mut nodes = Nodes::new();
    for node in items {
        nodes.insert(node).unwrap();
    }
    nodes
}

#[test]
fn whole_numbers_are_written_in_decimal() {
    assert_eq!(decimal(0), "0");
    assert_eq!(decimal(7), "7");
    assert_eq!(decimal(10), "10");
    assert_eq!(decimal(1234567890), "1234567890");
    assert_eq!(decimal(u64::MAX), "18446744073709551615");
}

#[test]
fn negative_numbers_get_a_sign() {
    assert_eq!(signed_decimal(0), "0");
    assert_eq!(signed_decimal(42), "42");
    assert_eq!(signed_decimal(-1), "-1");
    assert_eq!(signed_decimal(-905), "-905");
    assert_eq!(signed_decimal(i64::MAX), "9223372036854775807");
    assert_eq!(signed_decimal(i64::MIN), "-9223372036854775808");
}

#[test]
fn the_divisors_are_a_thousand_and_a_million() {
    assert_eq!(DISPLAY_DIVISOR, 1000);
    assert_eq!(TITLE_DIVISOR, 1_000_000);
}

#[test]
fn a_total_is_scaled_to_thousands() {
    assert_eq!(in_thousands(0), (0, 0));
    assert_eq!(in_thousands(999), (0, 999));
    assert_eq!(in_thousands(1000), (1, 0));
    assert_eq!(in_thousands(12_345), (12, 345));
    assert_eq!(in_thousands(u64::MAX), (18446744073709551, 615));
}

#[test]
fn the_title_gives_millions_with_one_decimal() {
    assert_eq!(cost_title(0), "Total cost: 0.0 M.SEK");
    assert_eq!(cost_title(20), "Total cost: 0.0 M.SEK");
    assert_eq!(cost_title(49_999), "Total cost: 0.0 M.SEK");
    assert_eq!(cost_title(50_001), "Total cost: 0.1 M.SEK");
    assert_eq!(cost_title(1_000_000), "Total cost: 1.0 M.SEK");
    assert_eq!(cost_title(1_949_999), "Total cost: 1.9 M.SEK");
    assert_eq!(cost_title(1_950_001), "Total cost: 2.0 M.SEK");
    assert_eq!(cost_title(123_456_789), "Total cost: 123.5 M.SEK");
    assert_eq!(cost_title(u64::MAX), "Total cost: 18446744073709.6 M.SEK");
}

#[test]
fn a_half_goes_to_the_even_tenth() {
    assert_eq!(cost_title(50_000), "Total cost: 0.0 M.SEK");
    assert_eq!(cost_title(150_000), "Total cost: 0.2 M.SEK");
    assert_eq!(cost_title(250_000), "Total cost: 0.2 M.SEK");
    assert_eq!(cost_title(1_350_000), "Total cost: 1.4 M.SEK");
    assert_eq!(cost_title(9_950_000), "Total cost: 10.0 M.SEK");
}

#[test]
fn the_series_holds_labels_and_total_costs() {
    let a = item(2, Some(1), "A", Some(10), 1);
    let b = item(3, Some(1), "B", Some(5), 2);
    let series = cost_series_from_nodes(&vec![&b, &a]).unwrap();
    assert_eq!(series, vec![("B".to_string(), 10), ("A".to_string(), 10)]);
    assert_eq!(cost_series_from_nodes(&Vec::new()), Ok(Vec::new()));
}

#[test]
fn the_series_fails_on_the_first_item_without_total_cost() {
    let a = item(2, Some(1), "A", Some(10), 1);
    let b = item(3, Some(1), "B", None, 2);
    let c = item(4, Some(1), "C", None, 2);
    assert_eq!(
        cost_series_from_nodes(&vec![&a, &b, &c]),
        Err(ReportError::MissingCost { id: 3 })
    );
}

#[test]
fn charted_values_are_in_thousands() {
    let mut nodes = breakdown(vec![
        item(1, None, "root", None, 1),
        item(2, Some(1), "A", Some(10), 1),
        item(3, Some(1), "B", Some(5), 2),
    ]);
    assert_eq!(nodes.set_unit_cost(1), Ok(()));
    let report = nodes.cost_report(1).unwrap();
    assert_eq!(report.title, "Total cost: 0.0 M.SEK");
    assert_eq!(
        report.series,
        vec![("A".to_string(), 10), ("B".to_string(), 10)]
    );
    for (_, total) in &report.series {
        let (whole, rest) = in_thousands(*total);
        assert_eq!((whole, rest), (0, 10));
        assert_eq!(whole as f32 + rest as f32 / DISPLAY_DIVISOR as f32, 0.01f32);
    }
    assert_eq!(format!("{:0.1}", 20f64 / TITLE_DIVISOR as f64), "0.0");
}

#[test]
fn a_report_on_a_larger_breakdown() {
    let mut nodes = breakdown(vec![
        item(4, Some(1), "frame", None, 2),
        item(1, None, "machine", None, 1),
        item(7, Some(4), "beam", Some(250_000), 3),
        item(5, Some(1), "motor", Some(400_000), 1),
    ]);
    assert_eq!(nodes.set_unit_cost(1), Ok(()));
    let report = nodes.cost_report(1).unwrap();
    assert_eq!(report.title, "Total cost: 1.9 M.SEK");
    assert_eq!(
        report.series,
        vec![("frame".to_string(), 1_500_000), ("motor".to_string(), 400_000)]
    );
}

#[test]
fn a_report_before_the_rollup_fails() {
    let nodes = breakdown(vec![
        item(1, None, "root", None, 1),
        item(2, Some(1), "A", Some(10), 1),
    ]);
    assert_eq!(
        nodes.cost_report(1),
        Err(ReportError::MissingCost { id: 1 })
    );
    assert_eq!(
        nodes.cost_report(9),
        Err(ReportError::MissingCost { id: 9 })
    );
}

#[test]
fn a_report_fails_on_a_child_without_total_cost() {
    let nodes = breakdown(vec![
        item(1, None, "root", Some(70), 1),
        item(2, Some(1), "A", Some(10), 1),
        item(3, Some(1), "B", None, 1),
    ]);
    assert_eq!(
        nodes.cost_report(1),
        Err(ReportError::MissingCost { id: 3 })
    );
}

#[test]
fn a_report_on_an_item_without_children_has_an_empty_series() {
    let nodes = breakdown(vec![item(1, None, "root", Some(2_500_000), 1)]);
    let report = nodes.cost_report(1).unwrap();
    assert_eq!(report.title, "Total cost: 2.5 M.SEK");
    assert!(report.series.is_empty());
}
