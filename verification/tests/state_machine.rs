use tabview::error::ViewError;
use tabview::filter::{FilterCondition, FilterNode, FilterOperator};
use tabview::group::AggregationType;
use tabview::state::AppState;
use tabview::table::{Cell, Column, Table};

fn text(s: &str) -> Cell {
    Cell::Text(String::from(s))
}

fn cell_str(c: &Cell) -> Option<String> {
    match c {
        Cell::Null => None,
        Cell::Text(s) => Some(s.clone()),
    }
}

fn column_values(t: &Table, name: &str) -> Vec<Option<String>> {
    for c in &t.cols {
        if c.name == name {
            return c.cells.iter().map(cell_str).collect();
        }
    }
    panic!("column {} missing", name);
}

fn scores() -> Table {
    Table {
        cols: vec![
            Column {
                name: String::from("name"),
                cells: vec![text("a"), text("b"), text("c")],
            },
            Column {
                name: String::from("score"),
                cells: vec![text("10"), text("20"), text("5")],
            },
        ],
    }
}

fn loaded() -> AppState {
    let mut st = AppState::new();
    st.load_csv(scores(), String::from("scores.csv"));
    st
}

fn cond(column: &str, operator: FilterOperator, value: Option<&str>) -> FilterNode {
    FilterNode::Condition(FilterCondition {
        column: String::from(column),
        operator,
        value: value.map(String::from),
    })
}

#[test]
fn load_sets_both_tables_and_clears_grouping() {
    let mut st = AppState::new();
    let h = st.load_csv(scores(), String::from("scores.csv"));
    assert_eq!(h, 3);
    assert_eq!(st.get_total_rows().unwrap(), 3);
    let info = st.get_current_state();
    assert_eq!(info.file_path.as_deref(), Some("scores.csv"));
    assert_eq!(info.row_count, 3);
    assert_eq!(info.columns, vec![String::from("name"), String::from("score")]);
    assert!(info.grouping.is_none());
}

#[test]
fn empty_state_queries() {
    let st = AppState::new();
    let info = st.get_current_state();
    assert!(info.file_path.is_none());
    assert_eq!(info.row_count, 0);
    assert!(info.columns.is_empty());
    assert!(matches!(st.get_columns(), Err(ViewError::NoDataLoaded)));
    assert!(matches!(st.get_total_rows(), Err(ViewError::NoDataLoaded)));
    assert!(matches!(st.get_rows(0, 10), Err(ViewError::NoDataLoaded)));
}

#[test]
fn operations_without_data_fail_with_no_data_loaded() {
    let mut st = AppState::new();
    assert!(matches!(st.apply_sort("x", false), Err(ViewError::NoDataLoaded)));
    assert!(matches!(st.apply_filter(None, "q"), Err(ViewError::NoDataLoaded)));
    let n = cond("x", FilterOperator::IsNull, None);
    assert!(matches!(st.apply_advanced_filter(&n), Err(ViewError::NoDataLoaded)));
    assert!(matches!(
        st.apply_group_by("x", &AggregationType::Count),
        Err(ViewError::NoDataLoaded)
    ));
    assert!(matches!(st.reset_grouping(), Err(ViewError::NoDataLoaded)));
}

#[test]
fn quick_filter_then_empty_query_restores_original() {
    let mut st = loaded();
    assert_eq!(st.apply_filter(None, "a").unwrap(), 1);
    assert_eq!(st.get_total_rows().unwrap(), 1);
    // Re-filtering with the empty query restores the original, row for row.
    assert_eq!(st.apply_filter(None, "").unwrap(), 3);
    let rows = st.get_rows(0, 10).unwrap();
    assert_eq!(
        column_values(&rows, "name"),
        vec![
            Some(String::from("a")),
            Some(String::from("b")),
            Some(String::from("c"))
        ]
    );
    assert_eq!(
        column_values(&rows, "score"),
        vec![
            Some(String::from("10")),
            Some(String::from("20")),
            Some(String::from("5"))
        ]
    );
}

#[test]
fn reset_grouping_restores_original() {
    let mut st = loaded();
    st.apply_filter(None, "a").unwrap();
    let h = st.reset_grouping().unwrap();
    assert_eq!(h, 3);
    let rows = st.get_rows(0, 10).unwrap();
    assert_eq!(
        column_values(&rows, "name"),
        vec![
            Some(String::from("a")),
            Some(String::from("b")),
            Some(String::from("c"))
        ]
    );
}

#[test]
fn quick_filter_no_match_yields_zero_rows_not_an_error() {
    let mut st = loaded();
    let h = st.apply_filter(None, "zebra").unwrap();
    assert_eq!(h, 0);
    assert_eq!(st.get_total_rows().unwrap(), 0);
}

#[test]
fn quick_filter_on_one_column_only_searches_that_column() {
    let mut st = loaded();
    // "2" occurs in score "20" but in no name.
    assert_eq!(st.apply_filter(Some("name"), "2").unwrap(), 0);
    assert_eq!(st.apply_filter(Some("score"), "2").unwrap(), 1);
    let rows = st.get_rows(0, 10).unwrap();
    assert_eq!(column_values(&rows, "name"), vec![Some(String::from("b"))]);
}

#[test]
fn quick_filter_missing_column_is_an_error_and_keeps_state() {
    let mut st = loaded();
    st.apply_filter(None, "a").unwrap();
    match st.apply_filter(Some("salary"), "1") {
        Err(ViewError::ColumnNotFound(c)) => assert_eq!(c, "salary"),
        _ => panic!("expected a missing-column error"),
    }
    // The failing filter left the previous view untouched.
    assert_eq!(st.get_total_rows().unwrap(), 1);
}

#[test]
fn sort_by_score_descending() {
    let mut st = loaded();
    let h = st.apply_sort("score", true).unwrap();
    assert_eq!(h, 3);
    let rows = st.get_rows(0, 10).unwrap();
    assert_eq!(
        column_values(&rows, "name"),
        vec![
            Some(String::from("b")),
            Some(String::from("a")),
            Some(String::from("c"))
        ]
    );
    assert_eq!(
        column_values(&rows, "score"),
        vec![
            Some(String::from("20")),
            Some(String::from("10")),
            Some(String::from("5"))
        ]
    );
}

#[test]
fn sort_is_numeric_for_numeric_columns_and_stable() {
    let mut st = AppState::new();
    st.load_csv(
        Table {
            cols: vec![
                Column {
                    name: String::from("k"),
                    cells: vec![text("9"), text("10"), text("9"), Cell::Null],
                },
                Column {
                    name: String::from("tag"),
                    cells: vec![text("first"), text("mid"), text("second"), text("nul")],
                },
            ],
        },
        String::from("k.csv"),
    );
    st.apply_sort("k", false).unwrap();
    let rows = st.get_rows(0, 10).unwrap();
    // 9 < 10 numerically; the two 9s keep their original order; null last.
    assert_eq!(
        column_values(&rows, "tag"),
        vec![
            Some(String::from("first")),
            Some(String::from("second")),
            Some(String::from("mid")),
            Some(String::from("nul"))
        ]
    );
}

#[test]
fn sort_missing_column_is_an_error() {
    let mut st = loaded();
    match st.apply_sort("salary", false) {
        Err(ViewError::ColumnNotFound(c)) => assert_eq!(c, "salary"),
        _ => panic!("expected a missing-column error"),
    }
}

#[test]
fn advanced_filter_or_of_equals_keeps_original_order() {
    let mut st = loaded();
    let tree = FilterNode::Group {
        logic: String::from("OR"),
        conditions: vec![
            cond("name", FilterOperator::Equals, Some("a")),
            cond("name", FilterOperator::Equals, Some("c")),
        ],
    };
    let h = st.apply_advanced_filter(&tree).unwrap();
    assert_eq!(h, 2);
    let rows = st.get_rows(0, 10).unwrap();
    assert_eq!(
        column_values(&rows, "name"),
        vec![Some(String::from("a")), Some(String::from("c"))]
    );
}

#[test]
fn group_by_count_yields_one_group_per_name() {
    let mut st = loaded();
    let summary = st.apply_group_by("name", &AggregationType::Count).unwrap();
    assert_eq!(summary, "Grouped by name with Count, found 3 groups");
    let rows = st.get_rows(0, 10).unwrap();
    assert_eq!(
        column_values(&rows, "count"),
        vec![
            Some(String::from("1")),
            Some(String::from("1")),
            Some(String::from("1"))
        ]
    );
    let info = st.get_current_state();
    let g = info.grouping.expect("grouping descriptor expected");
    assert_eq!(g.column, "name");
    assert_eq!(g.aggregation, "Count");
}

#[test]
fn group_by_sum_multiplies_key_by_multiplicity() {
    let mut st = AppState::new();
    st.load_csv(
        Table {
            cols: vec![Column {
                name: String::from("v"),
                cells: vec![text("3"), text("3"), text("-2")],
            }],
        },
        String::from("v.csv"),
    );
    st.apply_group_by("v", &AggregationType::Sum).unwrap();
    let rows = st.get_rows(0, 10).unwrap();
    // Groups sorted descending by sum: 3+3 = 6, then -2.
    assert_eq!(
        column_values(&rows, "sum"),
        vec![Some(String::from("6")), Some(String::from("-2"))]
    );
    assert_eq!(
        column_values(&rows, "v"),
        vec![Some(String::from("3")), Some(String::from("-2"))]
    );
}

#[test]
fn group_by_sum_on_non_integral_column_is_a_cast_error() {
    let mut st = loaded();
    assert!(matches!(
        st.apply_group_by("name", &AggregationType::Sum),
        Err(ViewError::CastError)
    ));
}

#[test]
fn group_by_mean_on_non_numeric_column_is_a_cast_error() {
    let mut st = loaded();
    assert!(matches!(
        st.apply_group_by("name", &AggregationType::Mean),
        Err(ViewError::CastError)
    ));
}

#[test]
fn group_by_missing_column_is_an_error() {
    let mut st = loaded();
    match st.apply_group_by("salary", &AggregationType::Count) {
        Err(ViewError::ColumnNotFound(c)) => assert_eq!(c, "salary"),
        _ => panic!("expected a missing-column error"),
    }
}

#[test]
fn filter_after_group_by_reads_original_and_clears_grouping() {
    let mut st = loaded();
    st.apply_group_by("name", &AggregationType::Count).unwrap();
    assert!(st.get_current_state().grouping.is_some());
    // The filter reads the original table, not the grouped view.
    let h = st.apply_filter(Some("score"), "0").unwrap();
    assert_eq!(h, 2);
    let rows = st.get_rows(0, 10).unwrap();
    assert_eq!(
        column_values(&rows, "name"),
        vec![Some(String::from("a")), Some(String::from("b"))]
    );
    assert!(st.get_current_state().grouping.is_none());
}

#[test]
fn sort_keeps_the_grouping_descriptor() {
    let mut st = loaded();
    st.apply_group_by("name", &AggregationType::Count).unwrap();
    st.apply_sort("name", false).unwrap();
    assert!(st.get_current_state().grouping.is_some());
}

#[test]
fn get_rows_clamps_the_window() {
    let st = loaded();
    let all = st.get_rows(0, 100).unwrap();
    assert_eq!(column_values(&all, "name").len(), 3);
    let tail = st.get_rows(2, 100).unwrap();
    assert_eq!(column_values(&tail, "name"), vec![Some(String::from("c"))]);
    let out = st.get_rows(7, 2).unwrap();
    assert_eq!(column_values(&out, "name").len(), 0);
    let none = st.get_rows(1, 0).unwrap();
    assert_eq!(column_values(&none, "name").len(), 0);
}

#[test]
fn error_messages_match_the_taxonomy() {
    assert_eq!(ViewError::NoDataLoaded.message(), "No data loaded");
    assert_eq!(
        ViewError::ColumnNotFound(String::from("x")).message(),
        "Column not found: x"
    );
    assert_eq!(ViewError::CastError.message(), "Cast failed");
    assert_eq!(ViewError::UnsupportedOperator.message(), "Operator not handled");
    assert_eq!(ViewError::LockError.message(), "Lock poisoned");
    assert_eq!(ViewError::LoadError.message(), "Failed to load data");
}

#[test]
fn group_by_count_with_duplicate_keys_counts_multiplicities() {
    let mut st = AppState::new();
    st.load_csv(
        Table {
            cols: vec![Column {
                name: String::from("city"),
                cells: vec![text("rome"), text("oslo"), text("rome"), Cell::Null, text("rome")],
            }],
        },
        String::from("c.csv"),
    );
    let summary = st.apply_group_by("city", &AggregationType::Count).unwrap();
    assert_eq!(summary, "Grouped by city with Count, found 3 groups");
    let rows = st.get_rows(0, 10).unwrap();
    // Sorted descending by count: rome(3), then oslo(1) and the null key (1).
    assert_eq!(column_values(&rows, "city")[0], Some(String::from("rome")));
    assert_eq!(column_values(&rows, "count")[0], Some(String::from("3")));
    let counts = column_values(&rows, "count");
    assert_eq!(counts.len(), 3);
    assert_eq!(counts[1], Some(String::from("1")));
    assert_eq!(counts[2], Some(String::from("1")));
}

#[test]
fn group_by_min_max_and_mean_reduce_to_the_key() {
    let mut st = AppState::new();
    st.load_csv(
        Table {
            cols: vec![Column {
                name: String::from("v"),
                cells: vec![text("2.5"), text("2.5"), text("7")],
            }],
        },
        String::from("v.csv"),
    );
    st.apply_group_by("v", &AggregationType::Max).unwrap();
    let rows = st.get_rows(0, 10).unwrap();
    // Each group's maximum of its own key column is the key; sorted
    // descending numerically: 7 before 2.5.
    assert_eq!(
        column_values(&rows, "max"),
        vec![Some(String::from("7")), Some(String::from("2.5"))]
    );
    st.reset_grouping().unwrap();
    st.apply_group_by("v", &AggregationType::Mean).unwrap();
    let rows = st.get_rows(0, 10).unwrap();
    assert_eq!(
        column_values(&rows, "mean"),
        vec![Some(String::from("7")), Some(String::from("2.5"))]
    );
    st.reset_grouping().unwrap();
    st.apply_group_by("v", &AggregationType::Min).unwrap();
    let rows = st.get_rows(0, 10).unwrap();
    assert_eq!(
        column_values(&rows, "min"),
        vec![Some(String::from("7")), Some(String::from("2.5"))]
    );
}

#[test]
fn group_by_sum_treats_an_all_null_group_as_zero() {
    let mut st = AppState::new();
    st.load_csv(
        Table {
            cols: vec![Column {
                name: String::from("v"),
                cells: vec![text("4"), Cell::Null, Cell::Null],
            }],
        },
        String::from("v.csv"),
    );
    st.apply_group_by("v", &AggregationType::Sum).unwrap();
    let rows = st.get_rows(0, 10).unwrap();
    assert_eq!(
        column_values(&rows, "sum"),
        vec![Some(String::from("4")), Some(String::from("0"))]
    );
    assert_eq!(column_values(&rows, "v"), vec![Some(String::from("4")), None]);
}

#[test]
fn group_by_a_column_named_like_the_reduction_is_a_cast_error() {
    let mut st = AppState::new();
    st.load_csv(
        Table {
            cols: vec![Column { name: String::from("count"), cells: vec![text("1")] }],
        },
        String::from("c.csv"),
    );
    assert!(matches!(
        st.apply_group_by("count", &AggregationType::Count),
        Err(ViewError::CastError)
    ));
}

#[test]
fn group_by_sum_handles_fractional_numbers_exactly() {
    let mut st = AppState::new();
    st.load_csv(
        Table {
            cols: vec![Column {
                name: String::from("v"),
                cells: vec![text("2.5"), text("2.5"), text("-0.5")],
            }],
        },
        String::from("v.csv"),
    );
    st.apply_group_by("v", &AggregationType::Sum).unwrap();
    let rows = st.get_rows(0, 10).unwrap();
    // 2.5 + 2.5 = 5.0 exactly, at the key's own scale; then -0.5.
    assert_eq!(
        column_values(&rows, "sum"),
        vec![Some(String::from("5.0")), Some(String::from("-0.5"))]
    );
    assert_eq!(
        column_values(&rows, "v"),
        vec![Some(String::from("2.5")), Some(String::from("-0.5"))]
    );
}

#[test]
fn group_by_sum_carries_across_the_decimal_point() {
    let mut st = AppState::new();
    st.load_csv(
        Table {
            cols: vec![Column {
                name: String::from("v"),
                cells: vec![text("0.25"), text("0.25"), text("0.25")],
            }],
        },
        String::from("v.csv"),
    );
    st.apply_group_by("v", &AggregationType::Sum).unwrap();
    let rows = st.get_rows(0, 10).unwrap();
    assert_eq!(column_values(&rows, "sum"), vec![Some(String::from("0.75"))]);
}
