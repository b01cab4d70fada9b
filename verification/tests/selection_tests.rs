use diagram_viewer::selection::{collapse_full_relation, count_selected_segments, is_selected, toggle_selected, Selected};

fn rel(relation: usize, segment: Option<usize>) -> Selected {
    Selected::Relation { relation, segment }
}

fn table(table: usize, column: Option<usize>) -> Selected {
    Selected::Table { table, column }
}

#[test]
fn toggling_a_whole_relation_adds_then_removes_it() {
    let mut sel = vec![table(0, None)];
    toggle_selected(&mut sel, rel(2, None), 3);
    assert_eq!(sel, vec![table(0, None), rel(2, None)]);
    toggle_selected(&mut sel, rel(2, None), 3);
    assert_eq!(sel, vec![table(0, None)]);
}

#[test]
fn whole_relation_replaces_its_segments() {
    let mut sel = vec![rel(1, Some(0)), table(3, None), rel(1, Some(2)), rel(4, Some(0))];
    toggle_selected(&mut sel, rel(1, None), 3);
    assert_eq!(sel, vec![table(3, None), rel(4, Some(0)), rel(1, None)]);
}

#[test]
fn segment_of_whole_relation_opens_it_into_segments() {
    // The whole relation becomes all of its segments, then the clicked one leaves.
    let mut sel = vec![rel(0, None)];
    toggle_selected(&mut sel, rel(0, Some(1)), 3);
    assert_eq!(sel, vec![rel(0, Some(0)), rel(0, Some(2))]);
}

#[test]
fn last_missing_segment_collapses_into_whole_relation() {
    let mut sel = vec![rel(0, Some(0)), table(1, None), rel(0, Some(2))];
    toggle_selected(&mut sel, rel(0, Some(1)), 3);
    assert_eq!(sel, vec![table(1, None), rel(0, None)]);
}

#[test]
fn segment_of_relation_without_segments_selects_it_whole() {
    // With no stored bends the single segment stands for the whole relation.
    let mut sel: Vec<Selected> = Vec::new();
    toggle_selected(&mut sel, rel(5, Some(0)), 0);
    assert_eq!(sel, vec![rel(5, None)]);
}

#[test]
fn segment_toggles_off_when_selected() {
    let mut sel = vec![rel(0, Some(0)), rel(0, Some(3))];
    toggle_selected(&mut sel, rel(0, Some(3)), 5);
    assert_eq!(sel, vec![rel(0, Some(0))]);
}

#[test]
fn table_click_widens_columns_and_toggles() {
    let mut sel = vec![table(0, Some(1)), rel(2, None), table(1, None)];
    toggle_selected(&mut sel, table(2, None), 0);
    assert_eq!(sel, vec![table(0, None), rel(2, None), table(1, None), table(2, None)]);
    toggle_selected(&mut sel, table(1, None), 0);
    assert_eq!(sel, vec![table(0, None), rel(2, None), table(2, None)]);
}

#[test]
fn column_click_replaces_its_whole_table() {
    let mut sel = vec![table(0, None), table(4, None)];
    toggle_selected(&mut sel, table(0, Some(2)), 0);
    assert_eq!(sel, vec![table(4, None), table(0, Some(2))]);
}

#[test]
fn selecting_a_table_twice_restores_selection() {
    let start = vec![table(1, None), rel(0, Some(1))];
    let mut sel = start.clone();
    toggle_selected(&mut sel, table(3, None), 0);
    toggle_selected(&mut sel, table(3, None), 0);
    assert_eq!(sel, start);
}

#[test]
fn selecting_a_relation_twice_restores_selection() {
    let start = vec![table(1, Some(0)), rel(0, Some(1))];
    let mut sel = start.clone();
    toggle_selected(&mut sel, rel(4, None), 2);
    toggle_selected(&mut sel, rel(4, None), 2);
    assert_eq!(sel, start);
}

#[test]
fn counting_and_collapsing_segments() {
    let mut sel = vec![rel(0, Some(0)), rel(1, Some(0)), rel(0, Some(1))];
    assert_eq!(count_selected_segments(&sel, 0), 2);
    assert!(is_selected(&sel, rel(1, Some(0))));
    assert!(!is_selected(&sel, rel(1, None)));
    collapse_full_relation(&mut sel, 0, 3);
    assert_eq!(sel, vec![rel(0, Some(0)), rel(1, Some(0)), rel(0, Some(1))]);
    collapse_full_relation(&mut sel, 0, 2);
    assert_eq!(sel, vec![rel(1, Some(0)), rel(0, None)]);
}
