use tabview::filter::{build_filter_mask, FilterCondition, FilterNode, FilterOperator};
use tabview::table::{Cell, Column, Table};
use tabview::error::ViewError;

fn text(s: &str) -> Cell {
    Cell::Text(String::from(s))
}

fn col(name: &str, cells: Vec<Cell>) -> Column {
    Column { name: String::from(name), cells }
}

fn people() -> Table {
    Table {
        cols: vec![
            col("name", vec![text("alice"), text("bob"), text("carol"), Cell::Null]),
            col("age", vec![text("25"), text("35"), text("abc"), text("40")]),
        ],
    }
}

fn cond(column: &str, operator: FilterOperator, value: Option<&str>) -> FilterNode {
    FilterNode::Condition(FilterCondition {
        column: String::from(column),
        operator,
        value: value.map(String::from),
    })
}

#[test]
fn mask_has_one_entry_per_row() {
    let t = people();
    let n = cond("name", FilterOperator::Contains, Some("a"));
    let mask = build_filter_mask(&t, &n).unwrap();
    assert_eq!(mask.len(), 4);
}

#[test]
fn empty_and_group_matches_every_row() {
    let t = people();
    let n = FilterNode::Group { logic: String::from("AND"), conditions: vec![] };
    let mask = build_filter_mask(&t, &n).unwrap();
    assert_eq!(mask, vec![true, true, true, true]);
}

#[test]
fn empty_or_group_matches_every_row() {
    let t = people();
    let n = FilterNode::Group { logic: String::from("OR"), conditions: vec![] };
    let mask = build_filter_mask(&t, &n).unwrap();
    assert_eq!(mask, vec![true, true, true, true]);
}

#[test]
fn contains_is_literal_substring() {
    let t = people();
    let n = cond("name", FilterOperator::Contains, Some("aro"));
    let mask = build_filter_mask(&t, &n).unwrap();
    assert_eq!(mask, vec![false, false, true, false]);
}

#[test]
fn not_contains_excludes_null_cells_too() {
    let t = people();
    let n = cond("name", FilterOperator::NotContains, Some("bob"));
    let mask = build_filter_mask(&t, &n).unwrap();
    // The null row does not match the negated operator either.
    assert_eq!(mask, vec![true, false, true, false]);
}

#[test]
fn equals_and_not_equals() {
    let t = people();
    let eq = cond("name", FilterOperator::Equals, Some("bob"));
    assert_eq!(build_filter_mask(&t, &eq).unwrap(), vec![false, true, false, false]);
    let ne = cond("name", FilterOperator::NotEquals, Some("bob"));
    assert_eq!(build_filter_mask(&t, &ne).unwrap(), vec![true, false, true, false]);
}

#[test]
fn starts_with_and_ends_with_are_anchored() {
    let t = people();
    let sw = cond("name", FilterOperator::StartsWith, Some("al"));
    assert_eq!(build_filter_mask(&t, &sw).unwrap(), vec![true, false, false, false]);
    let ew = cond("name", FilterOperator::EndsWith, Some("ol"));
    assert_eq!(build_filter_mask(&t, &ew).unwrap(), vec![false, false, true, false]);
    // "li" occurs inside "alice" but neither starts nor ends it.
    let sw2 = cond("name", FilterOperator::StartsWith, Some("li"));
    assert_eq!(build_filter_mask(&t, &sw2).unwrap(), vec![false, false, false, false]);
}

#[test]
fn is_null_and_is_not_null() {
    let t = people();
    let n = cond("name", FilterOperator::IsNull, None);
    assert_eq!(build_filter_mask(&t, &n).unwrap(), vec![false, false, false, true]);
    let nn = cond("name", FilterOperator::IsNotNull, None);
    assert_eq!(build_filter_mask(&t, &nn).unwrap(), vec![true, true, true, false]);
}

#[test]
fn greater_than_numeric_fallback_on_mixed_column() {
    // "30" parses as a number, so the whole column is compared numerically;
    // the cell "abc" fails the numeric cast and is excluded.
    let t = people();
    let n = cond("age", FilterOperator::GreaterThan, Some("30"));
    assert_eq!(build_filter_mask(&t, &n).unwrap(), vec![false, true, false, true]);
}

#[test]
fn less_than_numeric_compares_by_value_not_text() {
    let t = Table {
        cols: vec![col("v", vec![text("9"), text("10"), text("100"), text("2.5")])],
    };
    let n = cond("v", FilterOperator::LessThan, Some("10"));
    assert_eq!(build_filter_mask(&t, &n).unwrap(), vec![true, false, false, true]);
}

#[test]
fn greater_than_falls_back_to_text_order_for_unparseable_value() {
    // "b" is not a number, so the comparison is lexicographic on the cast.
    let t = people();
    let n = cond("name", FilterOperator::GreaterThan, Some("b"));
    assert_eq!(build_filter_mask(&t, &n).unwrap(), vec![false, true, true, false]);
}

#[test]
fn negative_and_fractional_numbers_compare_exactly() {
    let t = Table {
        cols: vec![col("v", vec![text("-2"), text("-0.5"), text("0"), text("0.50")])],
    };
    let n = cond("v", FilterOperator::GreaterThan, Some("-1"));
    assert_eq!(build_filter_mask(&t, &n).unwrap(), vec![false, true, true, true]);
    let n2 = cond("v", FilterOperator::Equals, Some("0.50"));
    // Equals is exact string-cast equality, not numeric equality.
    assert_eq!(build_filter_mask(&t, &n2).unwrap(), vec![false, false, false, true]);
    let n3 = cond("v", FilterOperator::LessThan, Some("0.5"));
    // "0.50" equals 0.5 numerically, so it is not less.
    assert_eq!(build_filter_mask(&t, &n3).unwrap(), vec![true, true, true, false]);
}

#[test]
fn missing_column_is_an_error() {
    let t = people();
    let n = cond("salary", FilterOperator::Equals, Some("1"));
    match build_filter_mask(&t, &n) {
        Err(ViewError::ColumnNotFound(c)) => assert_eq!(c, "salary"),
        _ => panic!("expected a missing-column error"),
    }
}

#[test]
fn first_missing_column_in_depth_first_order_is_named() {
    let t = people();
    let n = FilterNode::Group {
        logic: String::from("AND"),
        conditions: vec![
            cond("name", FilterOperator::Equals, Some("bob")),
            cond("zip", FilterOperator::Equals, Some("1")),
            cond("city", FilterOperator::Equals, Some("2")),
        ],
    };
    match build_filter_mask(&t, &n) {
        Err(ViewError::ColumnNotFound(c)) => assert_eq!(c, "zip"),
        _ => panic!("expected a missing-column error"),
    }
}

#[test]
fn group_logic_folds_and_by_default_and_or_case_insensitively() {
    let t = people();
    let a = cond("name", FilterOperator::Contains, Some("a"));
    let b = cond("age", FilterOperator::GreaterThan, Some("30"));
    let and_group = FilterNode::Group {
        logic: String::from("anything"),
        conditions: vec![a, b],
    };
    assert_eq!(build_filter_mask(&t, &and_group).unwrap(), vec![false, false, false, false]);
    let a2 = cond("name", FilterOperator::Contains, Some("a"));
    let b2 = cond("age", FilterOperator::GreaterThan, Some("30"));
    let or_group = FilterNode::Group { logic: String::from("or"), conditions: vec![a2, b2] };
    assert_eq!(build_filter_mask(&t, &or_group).unwrap(), vec![true, true, true, true]);
}

#[test]
fn nested_groups_evaluate_recursively() {
    let t = people();
    let inner = FilterNode::Group {
        logic: String::from("OR"),
        conditions: vec![
            cond("name", FilterOperator::Equals, Some("alice")),
            cond("name", FilterOperator::Equals, Some("carol")),
        ],
    };
    let outer = FilterNode::Group {
        logic: String::from("AND"),
        conditions: vec![inner, cond("age", FilterOperator::IsNotNull, None)],
    };
    assert_eq!(build_filter_mask(&t, &outer).unwrap(), vec![true, false, true, false]);
}
