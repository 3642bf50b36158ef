use csvfastview::session::{StatusChange, UniqueColumnState, ViewState};
use csvfastview::{CsvSnapshot, Event, FilterRows, LogicalRows, UniqueValue};

fn snapshot(rows: usize) -> CsvSnapshot {
    CsvSnapshot { headers: vec!["a".to_string(), "b".to_string()], row_count: rows }
}

#[test]
fn preview_then_index_progress_grows_the_rows() {
    let mut view = ViewState::new();
    view.page_start = 50;
    let change = view.apply_view_event(Event::Previewed(Ok(snapshot(10))));
    assert!(matches!(change, StatusChange::PreviewReady { rows: 10 }));
    assert_eq!(view.total_rows, 10);
    assert_eq!(view.page_start, 9);
    assert_eq!(view.jump_to, 9);
    assert_eq!(view.visible_columns, vec![true, true]);

    view.apply_view_event(Event::IndexProgress { indexed_rows: 500, bytes: 10, total_bytes: 100 });
    assert_eq!(view.total_rows, 500);
    assert!(view.indexing);
    assert_eq!(view.index_progress, Some((500, 10, 100)));
    assert!(matches!(view.rows.logical_rows, LogicalRows::All(500)));

    let change = view.apply_view_event(Event::Opened(Ok(snapshot(600))));
    assert!(matches!(change, StatusChange::Opened { rows: 600, columns: 2 }));
    assert!(!view.indexing);
    assert_eq!(view.page_start, 0);
}

#[test]
fn index_progress_keeps_a_filter() {
    let mut view = ViewState::new();
    view.apply_view_event(Event::Filtered(Ok(FilterRows::Rows(vec![1, 4]))));
    view.apply_view_event(Event::IndexProgress { indexed_rows: 9, bytes: 1, total_bytes: 2 });
    assert_eq!(view.total_rows, 9);
    assert!(matches!(&view.rows.logical_rows, LogicalRows::Filtered(r) if r == &vec![1, 4]));
}

#[test]
fn a_filter_result_resets_the_page() {
    let mut view = ViewState::new();
    view.page_start = 7;
    view.filtering = true;
    let change = view.apply_view_event(Event::Filtered(Ok(FilterRows::AllExcept { total: 5, excluded: vec![3, 1, 3] })));
    assert!(matches!(change, StatusChange::FilterDone { shown: 3 }));
    assert_eq!(view.page_start, 0);
    assert_eq!(view.scroll_to_row, Some(0));
    assert!(!view.filtering);
}

#[test]
fn unique_index_keeps_known_choices() {
    let mut view = ViewState::new();
    view.apply_view_event(Event::UniqueIndexProgress { col: 2, done: 1, total: 4 });
    assert!(view.unique_columns[&2].indexing);
    view.unique_columns.get_mut(&2).unwrap().selected = vec!["x".to_string(), "gone".to_string()];
    let values = vec![UniqueValue { value: "x".to_string(), count: 3 }, UniqueValue { value: "y".to_string(), count: 1 }];
    let change = view.apply_view_event(Event::UniqueIndexed { col: 2, result: Ok(values) });
    assert!(matches!(change, StatusChange::UniqueReady { col: 2, values: 2 }));
    let state = &view.unique_columns[&2];
    assert_eq!(state.selected, vec!["x".to_string()]);
    assert!(!state.indexing);
    assert_eq!(view.active_filter_column, Some(2));
}

#[test]
fn stale_and_current_replies_through_events() {
    let mut view = ViewState::new();
    view.rows.row_request_floor = 1;
    view.rows.row_request_id = 2;
    view.apply_view_event(Event::RowsRead { request_id: 1, rows: vec![(5, vec![(0, "old".to_string())])] });
    assert!(!view.rows.row_cache.contains_key(&5));
    view.apply_view_event(Event::RowsRead { request_id: 2, rows: vec![(6, vec![(0, "new".to_string())])] });
    assert_eq!(view.rows.row_cache.get(&6).and_then(|row| row.get(0)), Some("new"));
    view.apply_view_event(Event::RowsReadDone { request_id: 2 });
    assert_eq!(view.rows.row_request_floor, 1);
}

#[test]
fn checking_values_lists_them_on_the_right_side() {
    let mut state = UniqueColumnState::new();
    let a = "a".to_string();
    state.set_checked(&a, true);
    state.set_checked(&a, true);
    assert_eq!(state.selected, vec!["a".to_string()]);
    state.set_checked(&a, false);
    assert!(state.selected.is_empty());
    state.all_selected = true;
    state.set_checked(&a, false);
    assert_eq!(state.excluded, vec!["a".to_string()]);
    state.set_checked(&a, true);
    assert!(state.excluded.is_empty());
}
