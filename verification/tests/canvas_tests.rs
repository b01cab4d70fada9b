use diagram_viewer::diagram::{CardinalityDisplay, Column, DescriptionIndicator, Relation, Table};
use diagram_viewer::highlight::{relation_line_style, relation_touched, table_highlight, LineStyle, TableHighlight};
use diagram_viewer::layout::auto_layout_positions;
use diagram_viewer::navigation::{navigate_selection, ArrowKeys};
use diagram_viewer::notation::{
    end_label, end_marker, end_shift, is_primary_key, key_label, shows_cardinality, shows_description_marker,
    start_label, start_marker, start_shift, MANY, ONE, ZERO,
};
use diagram_viewer::selection::Selected;

fn rel(relation: usize, segment: Option<usize>) -> Selected {
    Selected::Relation { relation, segment }
}

fn tab(table: usize, column: Option<usize>) -> Selected {
    Selected::Table { table, column }
}

fn relation(tables: [usize; 2], columns: [usize; 2]) -> Relation<f32> {
    Relation { name: String::new(), relation_segments: vec![], tables, columns, description: String::new() }
}

fn table_with_columns(n: usize) -> Table<(f32, f32)> {
    let mut columns = Vec::new();
    for i in 0..n {
        columns.push(Column { name: format!("c{}", i), ..Default::default() });
    }
    Table { name: String::new(), pos: (0.0, 0.0), columns, description: String::new() }
}

fn keys(right: bool, left: bool, down: bool, up: bool) -> ArrowKeys {
    ArrowKeys { right, left, down, up }
}

#[test]
fn highlight_from_selected_relation_and_column() {
    let rels = vec![relation([1, 0], [1, 0]), relation([1, 2], [2, 0]), relation([2, 0], [0, 1])];
    // Relation 2 reaches table 0 at column 1; column 1 of table 1 reaches table 0 at column 0.
    let sel = vec![rel(2, None), tab(1, Some(1)), tab(0, None)];
    let h = table_highlight(0, &sel, &rels);
    assert_eq!(
        h,
        TableHighlight {
            table_selected: true,
            column_selected: None,
            highlight_table: true,
            highlight_columns: vec![1, 0],
        }
    );
    let h2 = table_highlight(2, &sel, &rels);
    assert_eq!(
        h2,
        TableHighlight { table_selected: false, column_selected: None, highlight_table: true, highlight_columns: vec![0] }
    );
    for t in 0..4 {
        let ht = table_highlight(t, &sel, &rels);
        assert_eq!(ht.highlight_table, !ht.highlight_columns.is_empty());
    }
    let h3 = table_highlight(1, &vec![tab(1, Some(2)), rel(0, Some(0))], &rels);
    assert_eq!(
        h3,
        TableHighlight { table_selected: true, column_selected: Some(2), highlight_table: true, highlight_columns: vec![1] }
    );
}

#[test]
fn highlight_columns_are_listed_once() {
    let rels = vec![relation([1, 0], [1, 0]), relation([2, 0], [0, 0])];
    let sel = vec![rel(0, None), rel(1, Some(0))];
    let h = table_highlight(0, &sel, &rels);
    assert_eq!(h.highlight_columns, vec![0]);
}

#[test]
fn line_styles() {
    let r = relation([1, 2], [2, 0]);
    assert_eq!(relation_line_style(&vec![rel(3, None)], 3, &r), LineStyle::WholeSelected);
    assert_eq!(relation_line_style(&vec![tab(2, Some(0))], 3, &r), LineStyle::ColumnHighlighted);
    assert_eq!(relation_line_style(&vec![tab(2, Some(1)), rel(3, Some(0))], 3, &r), LineStyle::Normal);
    assert!(relation_touched(&vec![rel(3, Some(0))], 3));
    assert!(!relation_touched(&vec![tab(3, None)], 3));
}

#[test]
fn arrow_keys_move_between_tables_and_columns() {
    let tables = vec![table_with_columns(2), table_with_columns(0), table_with_columns(3)];
    let mut item = tab(2, Some(1));
    navigate_selection(&mut item, &tables, keys(true, false, false, false));
    assert_eq!(item, tab(0, None));
    navigate_selection(&mut item, &tables, keys(false, true, false, false));
    assert_eq!(item, tab(2, None));
    navigate_selection(&mut item, &tables, keys(false, false, true, false));
    assert_eq!(item, tab(2, Some(0)));
    navigate_selection(&mut item, &tables, keys(false, false, false, true));
    assert_eq!(item, tab(2, None));
    navigate_selection(&mut item, &tables, keys(false, false, false, true));
    assert_eq!(item, tab(2, Some(2)));
    navigate_selection(&mut item, &tables, keys(false, false, true, false));
    assert_eq!(item, tab(2, None));
    let mut empty = tab(1, None);
    navigate_selection(&mut empty, &tables, keys(false, false, true, false));
    assert_eq!(empty, tab(1, None));
    let mut r = rel(0, None);
    navigate_selection(&mut r, &tables, keys(true, true, true, true));
    assert_eq!(r, rel(0, None));
}

#[test]
fn notation_markers_and_shifts() {
    assert_eq!(start_marker(true), ONE);
    assert_eq!(start_marker(false), MANY);
    assert_eq!(end_marker(true), ZERO);
    assert_eq!(end_marker(false), ONE);
    // A unique start going right with "many" and "zero" already there moves up two.
    assert_eq!(start_shift(true, false, [true, false, true]), -2);
    assert_eq!(start_shift(true, true, [true, false, false]), 1);
    assert_eq!(start_shift(false, false, [false, true, false]), 1);
    assert_eq!(start_shift(false, true, [false, true, true]), -2);
    assert_eq!(end_shift(true, false, [false, true, false]), 1);
    assert_eq!(end_shift(true, false, [true, false, false]), -1);
    assert_eq!(end_shift(true, true, [true, true, true]), 0);
    assert_eq!(end_shift(false, false, [true, false, true]), -2);
    assert_eq!(end_shift(false, true, [false, false, true]), 1);
}

#[test]
fn labels_and_markers() {
    assert_eq!(start_label(true), "1");
    assert_eq!(start_label(false), "*");
    assert_eq!(end_label(true), "0..1");
    assert_eq!(end_label(false), "1");
    assert!(!shows_cardinality(CardinalityDisplay::Never, true));
    assert!(shows_cardinality(CardinalityDisplay::SelectedOnly, true));
    assert!(!shows_cardinality(CardinalityDisplay::SelectedOnly, false));
    assert!(shows_cardinality(CardinalityDisplay::Always, false));
    assert!(!shows_description_marker(DescriptionIndicator::Off, false));
    assert!(shows_description_marker(DescriptionIndicator::Missing, false));
    assert!(!shows_description_marker(DescriptionIndicator::Missing, true));
    assert!(shows_description_marker(DescriptionIndicator::Existing, true));
    assert!(is_primary_key(&"PK".to_string()));
    assert!(!is_primary_key(&"FK".to_string()));
    assert_eq!(key_label(&"PK".to_string()), "Primary Key");
    assert_eq!(key_label(&"FK".to_string()), "Foreign Key");
    assert_eq!(key_label(&String::new()), "No key");
}

#[test]
fn automatic_layout_rows() {
    assert_eq!(
        auto_layout_positions(9),
        vec![(200, 200), (550, 200), (900, 200), (50, 550), (400, 550), (750, 550), (1100, 550), (50, 900), (400, 900)]
    );
    assert_eq!(auto_layout_positions(0), vec![]);
}
