use diagram_viewer::diagram::{column_total_fits, Column, Relation, Table};
use diagram_viewer::export::references_resolve;
use diagram_viewer::highlight::{names_existing_relations, table_highlight};
use diagram_viewer::navigation::{can_navigate, navigate_selection, ArrowKeys};
use diagram_viewer::selection::{toggle_selected, Selected};

fn table_with_columns(n: usize) -> Table<(i32, i32)> {
    let mut columns = Vec::new();
    for i in 0..n {
        columns.push(Column { name: format!("c{}", i), ..Default::default() });
    }
    Table { name: String::new(), pos: (0, 0), columns, description: String::new() }
}

fn relation(tables: [usize; 2], columns: [usize; 2]) -> Relation<i32> {
    Relation { name: String::new(), relation_segments: vec![], tables, columns, description: String::new() }
}

fn keys(right: bool, left: bool, down: bool, up: bool) -> ArrowKeys {
    ArrowKeys { right, left, down, up }
}

#[test]
fn references_must_resolve_for_relations_leaving_existing_tables() {
    let tables = vec![table_with_columns(1), table_with_columns(2)];
    assert!(references_resolve(&tables, &vec![relation([0, 1], [0, 1])]));
    assert!(!references_resolve(&tables, &vec![relation([0, 1], [0, 2])]));
    assert!(!references_resolve(&tables, &vec![relation([1, 5], [0, 0])]));
    assert!(!references_resolve(&tables, &vec![relation([1, 0], [2, 0])]));
    // A relation from a table that does not exist never reaches the report.
    assert!(references_resolve(&tables, &vec![relation([7, 9], [9, 9])]));
}

#[test]
fn selection_must_name_existing_relations() {
    let sel = vec![Selected::Relation { relation: 2, segment: None }, Selected::Table { table: 9, column: None }];
    assert!(names_existing_relations(&sel, 3));
    assert!(!names_existing_relations(&sel, 2));
}

#[test]
fn column_totals_fit() {
    assert!(column_total_fits(&vec![table_with_columns(3), table_with_columns(4)]));
}

#[test]
fn navigation_guard() {
    let tables = vec![table_with_columns(2), table_with_columns(0)];
    assert!(can_navigate(&Selected::Table { table: 0, column: Some(1) }, &tables, keys(false, false, true, false)));
    // The empty table has no column to step down from.
    assert!(!can_navigate(&Selected::Table { table: 1, column: Some(0) }, &tables, keys(false, false, true, false)));
    // The whole-table entry of a missing table is looked up.
    assert!(!can_navigate(&Selected::Table { table: 5, column: None }, &tables, keys(false, false, false, false)));
    assert!(can_navigate(&Selected::Table { table: 5, column: Some(3) }, &tables, keys(false, false, false, true)));
    let no_tables: Vec<Table<(i32, i32)>> = Vec::new();
    assert!(!can_navigate(&Selected::Table { table: 0, column: None }, &no_tables, keys(true, false, false, false)));
    assert!(can_navigate(&Selected::Relation { relation: 4, segment: None }, &no_tables, keys(true, true, true, true)));
}

#[test]
fn down_then_up_returns_to_the_same_entry() {
    let tables = vec![table_with_columns(3)];
    for start in [Selected::Table { table: 0, column: None }, Selected::Table { table: 0, column: Some(0) },
                  Selected::Table { table: 0, column: Some(2) }] {
        let mut item = start;
        navigate_selection(&mut item, &tables, keys(false, false, true, false));
        navigate_selection(&mut item, &tables, keys(false, false, false, true));
        assert_eq!(item, start);
        navigate_selection(&mut item, &tables, keys(false, false, false, true));
        navigate_selection(&mut item, &tables, keys(false, false, true, false));
        assert_eq!(item, start);
    }
}

#[test]
fn right_then_left_returns_to_the_same_table() {
    let tables = vec![table_with_columns(1), table_with_columns(1), table_with_columns(1)];
    for t in 0..3 {
        let mut item = Selected::Table { table: t, column: None };
        navigate_selection(&mut item, &tables, keys(true, false, false, false));
        navigate_selection(&mut item, &tables, keys(false, true, false, false));
        assert_eq!(item, Selected::Table { table: t, column: None });
    }
}

fn well_formed(sel: &[Selected]) -> bool {
    for (i, a) in sel.iter().enumerate() {
        for (j, b) in sel.iter().enumerate() {
            if i == j {
                continue;
            }
            let clash = match (a, b) {
                (Selected::Table { table: t1, .. }, Selected::Table { table: t2, .. }) => t1 == t2,
                (
                    Selected::Relation { relation: r1, segment: g1 },
                    Selected::Relation { relation: r2, segment: g2 },
                ) => r1 == r2 && !(g1.is_some() && g2.is_some() && g1 != g2),
                _ => false,
            };
            if clash {
                return false;
            }
        }
    }
    true
}

#[test]
fn toggling_keeps_the_selection_well_formed() {
    let items = [
        Selected::Table { table: 0, column: None },
        Selected::Table { table: 0, column: Some(1) },
        Selected::Table { table: 1, column: Some(0) },
        Selected::Relation { relation: 0, segment: None },
        Selected::Relation { relation: 0, segment: Some(0) },
        Selected::Relation { relation: 0, segment: Some(1) },
        Selected::Relation { relation: 1, segment: Some(2) },
        Selected::Relation { relation: 1, segment: None },
    ];
    let mut sel: Vec<Selected> = Vec::new();
    for round in 0..40usize {
        let item = items[(round * 7 + round / 3) % items.len()];
        toggle_selected(&mut sel, item, round % 4);
        assert!(well_formed(&sel), "not well formed after round {}: {:?}", round, sel);
    }
}

#[test]
fn selected_column_belongs_to_the_selection() {
    let rels: Vec<Relation<i32>> = vec![];
    let sel = vec![Selected::Table { table: 3, column: Some(1) }, Selected::Relation { relation: 0, segment: None }];
    let h = table_highlight(3, &sel, &vec![relation([0, 1], [0, 0])]);
    assert_eq!(h.column_selected, Some(1));
    assert!(sel.contains(&Selected::Table { table: 3, column: Some(1) }));
    let h2 = table_highlight(3, &vec![Selected::Table { table: 3, column: None }], &rels);
    assert_eq!(h2.column_selected, None);
    assert!(h2.table_selected);
}
