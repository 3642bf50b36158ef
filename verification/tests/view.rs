use csvfastview::matching::contains_ascii_case_insensitive;
use csvfastview::{contains_filter_value, LogicalRows};

#[test]
fn all_except_rows_map_logical_indices_to_visible_source_rows() {
    let rows = LogicalRows::AllExcept {
        total: 8,
        excluded: vec![0, 3, 6],
    };

    assert_eq!(rows.len(), 5);
    assert_eq!(rows.get(0), Some(1));
    assert_eq!(rows.get(1), Some(2));
    assert_eq!(rows.get(2), Some(4));
    assert_eq!(rows.get(3), Some(5));
    assert_eq!(rows.get(4), Some(7));
    assert_eq!(rows.get(5), None);
    assert_eq!(rows.slice_to_vec(1, 4), vec![2, 4, 5]);
}

#[test]
fn ascii_filter_match_is_case_insensitive_without_lowercase_allocations() {
    assert!(contains_filter_value("ESP01", "esp", "esp"));
    assert!(contains_filter_value("sensor_VALUE", "VALUE", "value"));
    assert!(!contains_filter_value("ESP01", "ic", "ic"));
}

#[test]
fn unicode_filter_match_still_works() {
    assert!(contains_filter_value("城市-上海", "上海", "上海"));
}

#[test]
fn all_rows_map_positions_to_themselves() {
    let rows = LogicalRows::All(3);
    assert_eq!(rows.len(), 3);
    assert_eq!(rows.get(0), Some(0));
    assert_eq!(rows.get(2), Some(2));
    assert_eq!(rows.get(3), None);
    assert!(rows.is_all());
    assert_eq!(rows.slice_to_vec(1, 3), vec![1, 2]);
    assert_eq!(rows.slice_to_vec(2, 1), Vec::<usize>::new());
}

#[test]
fn filtered_rows_follow_the_list() {
    let rows = LogicalRows::Filtered(vec![4, 9, 10]);
    assert_eq!(rows.len(), 3);
    assert_eq!(rows.get(1), Some(9));
    assert_eq!(rows.get(3), None);
    assert!(!rows.is_all());
    assert_eq!(rows.slice_to_vec(0, 2), vec![4, 9]);
}

#[test]
fn default_rows_are_empty() {
    let rows = LogicalRows::default();
    assert!(rows.is_all());
    assert_eq!(rows.len(), 0);
    assert_eq!(rows.get(0), None);
}

#[test]
fn all_except_slice_stops_at_last_shown_row() {
    let rows = LogicalRows::AllExcept {
        total: 5,
        excluded: vec![1, 2],
    };
    assert_eq!(rows.len(), 3);
    assert_eq!(rows.slice_to_vec(1, 10), vec![3, 4]);
    assert_eq!(rows.slice_to_vec(4, 10), Vec::<usize>::new());
}

#[test]
fn all_except_with_exclusions_past_the_end_counts_by_the_list_length() {
    let rows = LogicalRows::AllExcept {
        total: 4,
        excluded: vec![1, 9],
    };
    assert_eq!(rows.len(), 2);
    assert_eq!(rows.get(0), Some(0));
    assert_eq!(rows.get(1), Some(2));
    assert_eq!(rows.get(2), None);
}

#[test]
fn ascii_match_ignores_case_of_either_side() {
    assert!(contains_ascii_case_insensitive(b"Sensor", b"SENS"));
    assert!(contains_ascii_case_insensitive(b"SENSOR", b"sens"));
    assert!(contains_ascii_case_insensitive(b"abc", b""));
    assert!(!contains_ascii_case_insensitive(b"ab", b"abc"));
    assert!(!contains_ascii_case_insensitive(b"a-c", b"A_C"));
}

#[test]
fn non_ascii_values_compare_lower_cased() {
    assert!(contains_filter_value("ÄRGER", "ärg", "ärg"));
    assert!(!contains_filter_value("城市", "上海", "上海"));
}
