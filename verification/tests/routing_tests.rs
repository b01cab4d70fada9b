use diagram_viewer::diagram::Relation;
use diagram_viewer::routing::{
    join_with_end, join_with_next, join_with_previous, join_with_start, segments_to_verify, verify_line_segment_joins,
};
use diagram_viewer::movement::{movement_plan, Axis, Movement};
use diagram_viewer::selection::Selected;

fn rel(relation: usize, segment: Option<usize>) -> Selected {
    Selected::Relation { relation, segment }
}

#[test]
fn join_with_next_drops_two_bends_and_renumbers() {
    let mut segs = vec![10.0f32, 20.0, 30.0, 12.0, 40.0, 50.0];
    let mut sel = vec![rel(0, Some(1)), rel(0, Some(4)), rel(1, Some(4)), rel(0, Some(0)), rel(0, Some(2))];
    join_with_next(&mut segs, &mut sel, 1, 0);
    assert_eq!(segs, vec![10.0, 20.0, 40.0, 50.0]);
    assert_eq!(sel, vec![rel(0, Some(1)), rel(0, Some(2)), rel(1, Some(4)), rel(0, Some(0))]);
}

#[test]
fn join_with_previous_drops_two_bends_and_renumbers() {
    let mut segs = vec![10.0f32, 20.0, 12.0, 30.0, 40.0];
    let mut sel = vec![rel(0, Some(0)), rel(0, Some(1)), rel(0, Some(2)), rel(0, Some(4))];
    join_with_previous(&mut segs, &mut sel, 2, 0);
    assert_eq!(segs, vec![12.0, 30.0, 40.0]);
    assert_eq!(sel, vec![rel(0, Some(0)), rel(0, Some(2))]);
}

#[test]
fn join_with_end_and_start() {
    let mut segs = vec![1.0f32, 2.0, 3.0, 4.0];
    let mut sel = vec![rel(2, Some(3)), rel(2, Some(1)), rel(3, Some(2))];
    join_with_end(&mut segs, &mut sel, 2);
    assert_eq!(segs, vec![1.0, 2.0]);
    assert_eq!(sel, vec![rel(2, Some(1)), rel(3, Some(2))]);

    let mut segs = vec![1.0f32, 2.0, 3.0, 4.0, 5.0];
    let mut sel = vec![rel(2, Some(0)), rel(2, Some(4)), rel(2, None), rel(2, Some(2))];
    join_with_start(&mut segs, &mut sel, 2);
    assert_eq!(segs, vec![3.0, 4.0, 5.0]);
    assert_eq!(sel, vec![rel(2, Some(2)), rel(2, None), rel(2, Some(0))]);
}

#[test]
fn tidy_ups_after_a_drag() {
    let rels = vec![
        Relation { name: String::new(), relation_segments: Vec::<f32>::new(), tables: [1, 0], columns: [0, 0], description: String::new() },
        Relation { name: String::new(), relation_segments: Vec::<f32>::new(), tables: [2, 3], columns: [0, 0], description: String::new() },
        Relation { name: String::new(), relation_segments: Vec::<f32>::new(), tables: [0, 2], columns: [0, 0], description: String::new() },
    ];
    let sel = vec![Selected::Table { table: 0, column: None }, rel(1, Some(3)), rel(1, None)];
    assert_eq!(segments_to_verify(&sel, &rels), vec![(0, None), (2, None), (1, Some(3)), (1, None)]);
}

fn near(a: f32, b: f32) -> bool {
    (a - b).abs() < 10.0
}

#[test]
fn tidying_joins_close_runs_and_the_start() {
    let mut segs = vec![100.0f32, 50.0, 105.0, 200.0, 300.0];
    let mut sel = vec![rel(0, Some(3)), rel(0, Some(1)), rel(1, Some(0))];
    verify_line_segment_joins(&mut segs, 0, 205.0, 500.0, &mut sel, 0, near);
    assert_eq!(segs, vec![300.0]);
    assert_eq!(sel, vec![rel(1, Some(0))]);
}

#[test]
fn tidying_drops_a_last_bend_between_aligned_ends() {
    let mut segs = vec![40.0f32];
    let mut sel = vec![rel(0, Some(0))];
    verify_line_segment_joins(&mut segs, 0, 10.0, 15.0, &mut sel, 0, near);
    assert!(segs.is_empty());
    assert_eq!(sel, vec![rel(0, None)]);
}

#[test]
fn tidying_leaves_distant_runs_alone() {
    let mut segs = vec![100.0f32, 50.0, 300.0, 200.0, 500.0];
    let mut sel = vec![rel(0, Some(2))];
    verify_line_segment_joins(&mut segs, 2, 0.0, 1000.0, &mut sel, 0, near);
    assert_eq!(segs, vec![100.0, 50.0, 300.0, 200.0, 500.0]);
    assert_eq!(sel, vec![rel(0, Some(2))]);
}

#[test]
fn drag_plan_moves_tables_bends_and_seeds_a_first_bend() {
    let rels = vec![
        Relation { name: String::new(), relation_segments: vec![1.0f32, 2.0, 3.0], tables: [0, 1], columns: [0, 0], description: String::new() },
        Relation { name: String::new(), relation_segments: Vec::<f32>::new(), tables: [1, 0], columns: [0, 0], description: String::new() },
    ];
    let sel = vec![
        Selected::Table { table: 2, column: Some(1) },
        rel(0, None),
        rel(1, None),
        rel(1, Some(0)),
        rel(0, Some(5)),
        rel(0, Some(1)),
    ];
    assert_eq!(
        movement_plan(&sel, &rels),
        vec![
            Movement::Table(2),
            Movement::Bend { relation: 0, index: 0, axis: Axis::X },
            Movement::Bend { relation: 0, index: 1, axis: Axis::Y },
            Movement::Bend { relation: 0, index: 2, axis: Axis::X },
            Movement::FirstBend(1),
            Movement::Bend { relation: 1, index: 0, axis: Axis::X },
            Movement::Bend { relation: 1, index: 0, axis: Axis::X },
            Movement::Bend { relation: 0, index: 1, axis: Axis::Y },
        ]
    );
}
