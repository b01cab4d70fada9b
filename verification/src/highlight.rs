//! How the selection shows on the canvas: which tables and columns are
//! selected or lit up because a selected column or relation reaches them,
//! and how a relation's line is drawn.
use vstd::prelude::*;
use crate::diagram::Relation;
use crate::selection::{Selected, is_entry_of_table, touches_relation, whole_relation};

verus! {

/// The column of table `id` at which `rel` ends (its first end when both
/// ends lie on `id`).
pub open spec fn end_column_on<S>(rel: Relation<S>, id: usize) -> usize {
    if rel.tables[0] == id {
        rel.columns[0]
    } else {
        rel.columns[1]
    }
}

/// The column of table `id` that `rel` links to column `column` of table
/// `table`, if it links that column to table `id`.
pub open spec fn linked_column<S>(rel: Relation<S>, table: usize, column: usize, id: usize) -> Option<
    usize,
> {
    if rel.tables[0] == table && rel.columns[0] == column {
        if rel.tables[1] == id {
            Some(rel.columns[1])
        } else {
            None
        }
    } else if rel.tables[1] == table && rel.columns[1] == column {
        if rel.tables[0] == id {
            Some(rel.columns[0])
        } else {
            None
        }
    } else {
        None
    }
}

/// `s` with `x` appended unless it is already there.
pub open spec fn add_unique(s: Seq<usize>, x: usize) -> Seq<usize> {
    if s.contains(x) {
        s
    } else {
        s.push(x)
    }
}

/// `acc` extended, relation by relation, with the columns of table `id`
/// that `rels` link to column `column` of table `table`.
pub open spec fn add_linked_columns<S>(
    acc: Seq<usize>,
    rels: Seq<Relation<S>>,
    table: usize,
    column: usize,
    id: usize,
) -> Seq<usize>
    decreases rels.len(),
{
    if rels.len() == 0 {
        acc
    } else {
        let before = add_linked_columns(acc, rels.drop_last(), table, column, id);
        match linked_column(rels.last(), table, column, id) {
            Some(c) => add_unique(before, c),
            None => before,
        }
    }
}

/// The columns of table `id` lit up by the selection, in the order in
/// which the selection reaches them, each once.
pub open spec fn highlighted_columns<S>(sel: Seq<Selected>, rels: Seq<Relation<S>>, id: usize) -> Seq<
    usize,
>
    decreases sel.len(),
{
    if sel.len() == 0 {
        seq![]
    } else {
        let before = highlighted_columns(sel.drop_last(), rels, id);
        match sel.last() {
            Selected::Relation { relation, .. } => {
                let rel = rels[relation as int];
                if rel.tables[0] == id || rel.tables[1] == id {
                    add_unique(before, end_column_on(rel, id))
                } else {
                    before
                }
            },
            Selected::Table { table, column: Some(c) } => add_linked_columns(
                before,
                rels,
                table,
                c,
                id,
            ),
            Selected::Table { column: None, .. } => before,
        }
    }
}

/// Entry `s` lights up table `id`: a relation ending on it, or a column that
/// some relation links to it.
pub open spec fn lights_table<S>(s: Selected, rels: Seq<Relation<S>>, id: usize) -> bool {
    match s {
        Selected::Relation { relation, .. } => rels[relation as int].tables[0] == id
            || rels[relation as int].tables[1] == id,
        Selected::Table { table, column: Some(c) } => exists|k: int|
            0 <= k < rels.len() && #[trigger] linked_column(rels[k], table, c, id) is Some,
        Selected::Table { column: None, .. } => false,
    }
}

/// The column of the last selection entry of table `id`, if that entry is a
/// column (`None` when it is the whole table or there is no such entry).
pub open spec fn selected_column_of(sel: Seq<Selected>, id: usize) -> Option<usize>
    decreases sel.len(),
{
    if sel.len() == 0 {
        None
    } else {
        match sel.last() {
            Selected::Table { table, column } if table == id => column,
            _ => selected_column_of(sel.drop_last(), id),
        }
    }
}

/// Every relation that the selection names exists.
pub open spec fn relations_in_range<S>(sel: Seq<Selected>, rels: Seq<Relation<S>>) -> bool {
    forall|k: int|
        0 <= k < sel.len() ==> (#[trigger] sel[k] matches Selected::Relation { relation, .. }
            ==> relation < rels.len())
}

proof fn lemma_add_unique_no_duplicates(s: Seq<usize>, x: usize)
    requires
        s.no_duplicates(),
    ensures
        add_unique(s, x).no_duplicates(),
{
    if !s.contains(x) {
        let t = s.push(x);
        assert forall|i: int, j: int| 0 <= i < t.len() && 0 <= j < t.len() && i != j implies t[i]
            != t[j] by {
            if i == s.len() {
                assert(!s.contains(t[j]) || t[j] != x);
            } else if j == s.len() {
                assert(s.contains(t[i]));
            }
        }
    }
}

proof fn lemma_linked_columns_no_duplicates<S>(
    acc: Seq<usize>,
    rels: Seq<Relation<S>>,
    table: usize,
    column: usize,
    id: usize,
)
    requires
        acc.no_duplicates(),
    ensures
        add_linked_columns(acc, rels, table, column, id).no_duplicates(),
    decreases rels.len(),
{
    if rels.len() > 0 {
        lemma_linked_columns_no_duplicates(acc, rels.drop_last(), table, column, id);
        let before = add_linked_columns(acc, rels.drop_last(), table, column, id);
        if let Some(c) = linked_column(rels.last(), table, column, id) {
            lemma_add_unique_no_duplicates(before, c);
        }
    }
}

/// Law: the columns lit up on a table are listed each once.
pub proof fn lemma_highlighted_columns_distinct<S>(
    sel: Seq<Selected>,
    rels: Seq<Relation<S>>,
    id: usize,
)
    ensures
        highlighted_columns(sel, rels, id).no_duplicates(),
    decreases sel.len(),
{
    if sel.len() > 0 {
        lemma_highlighted_columns_distinct(sel.drop_last(), rels, id);
        let before = highlighted_columns(sel.drop_last(), rels, id);
        match sel.last() {
            Selected::Relation { relation, .. } => {
                let rel = rels[relation as int];
                lemma_add_unique_no_duplicates(before, end_column_on(rel, id));
            },
            Selected::Table { table, column: Some(c) } => {
                lemma_linked_columns_no_duplicates(before, rels, table, c, id);
            },
            _ => {},
        }
    }
}

/// Law: a table shows a selected column only when the table itself counts
/// as selected, and that column is the one the selection names for it.
pub proof fn lemma_selected_column_is_selected(sel: Seq<Selected>, id: usize)
    ensures
        selected_column_of(sel, id) matches Some(c) ==> sel.contains(
            Selected::Table { table: id, column: Some(c) },
        ),
    decreases sel.len(),
{
    if sel.len() > 0 {
        lemma_selected_column_is_selected(sel.drop_last(), id);
        match sel.last() {
            Selected::Table { table, column } if table == id => {
                assert(sel[sel.len() - 1] == sel.last());
            },
            _ => {
                if let Some(c) = selected_column_of(sel.drop_last(), id) {
                    let x = Selected::Table { table: id, column: Some(c) };
                    let k = choose|k: int| 0 <= k < sel.drop_last().len() && sel.drop_last()[k] == x;
                    assert(sel[k] == x);
                }
            },
        }
    }
}

proof fn lemma_add_unique_grows(s: Seq<usize>, x: usize)
    ensures
        add_unique(s, x).len() > 0,
{
}

proof fn lemma_linked_columns_nonempty<S>(
    acc: Seq<usize>,
    rels: Seq<Relation<S>>,
    table: usize,
    column: usize,
    id: usize,
)
    ensures
        add_linked_columns(acc, rels, table, column, id).len() > 0 <==> (acc.len() > 0 || exists|k: int|
            0 <= k < rels.len() && #[trigger] linked_column(rels[k], table, column, id) is Some),
    decreases rels.len(),
{
    if rels.len() > 0 {
        let rest = rels.drop_last();
        lemma_linked_columns_nonempty(acc, rest, table, column, id);
        if exists|k: int| 0 <= k < rest.len() && #[trigger] linked_column(rest[k], table, column, id) is Some {
            let k = choose|k: int| 0 <= k < rest.len() && #[trigger] linked_column(rest[k], table, column, id) is Some;
            assert(rels[k] == rest[k]);
        }
        if exists|k: int| 0 <= k < rels.len() && #[trigger] linked_column(rels[k], table, column, id) is Some {
            let k = choose|k: int| 0 <= k < rels.len() && #[trigger] linked_column(rels[k], table, column, id) is Some;
            if k < rest.len() {
                assert(rest[k] == rels[k]);
            } else {
                assert(rels[k] == rels.last());
            }
        }
    }
}

/// Law: a table is lit up exactly when at least one of its columns is.
pub proof fn lemma_lit_table_has_lit_column<S>(sel: Seq<Selected>, rels: Seq<Relation<S>>, id: usize)
    ensures
        highlighted_columns(sel, rels, id).len() > 0 <==> exists|k: int|
            0 <= k < sel.len() && lights_table(#[trigger] sel[k], rels, id),
    decreases sel.len(),
{
    if sel.len() > 0 {
        let rest = sel.drop_last();
        lemma_lit_table_has_lit_column(rest, rels, id);
        let before = highlighted_columns(rest, rels, id);
        if exists|k: int| 0 <= k < rest.len() && lights_table(#[trigger] rest[k], rels, id) {
            let k = choose|k: int| 0 <= k < rest.len() && lights_table(#[trigger] rest[k], rels, id);
            assert(sel[k] == rest[k]);
        }
        if exists|k: int| 0 <= k < sel.len() && lights_table(#[trigger] sel[k], rels, id) {
            let k = choose|k: int| 0 <= k < sel.len() && lights_table(#[trigger] sel[k], rels, id);
            if k < rest.len() {
                assert(rest[k] == sel[k]);
            }
        }
        assert(sel[sel.len() - 1] == sel.last());
        match sel.last() {
            Selected::Relation { relation, .. } => {
                lemma_add_unique_grows(before, end_column_on(rels[relation as int], id));
            },
            Selected::Table { table, column: Some(c) } => {
                lemma_linked_columns_nonempty(before, rels, table, c, id);
            },
            _ => {},
        }
    }
}

/// Column `x` of table `id` is an end of some relation of `rels`.
pub open spec fn is_end_column_on<S>(rels: Seq<Relation<S>>, id: usize, x: usize) -> bool {
    exists|k: int|
        0 <= k < rels.len() && ((#[trigger] rels[k]).tables[0] == id && rels[k].columns[0] == x
            || rels[k].tables[1] == id && rels[k].columns[1] == x)
}

/// Entry `s` lights column `y` of table `id`.
spec fn lights_column<S>(s: Selected, rels: Seq<Relation<S>>, id: usize, y: usize) -> bool {
    match s {
        Selected::Relation { relation, .. } => (rels[relation as int].tables[0] == id
            || rels[relation as int].tables[1] == id) && end_column_on(rels[relation as int], id)
            == y,
        Selected::Table { table, column: Some(c) } => exists|j: int|
            0 <= j < rels.len() && #[trigger] linked_column(rels[j], table, c, id) == Some(y),
        Selected::Table { column: None, .. } => false,
    }
}

proof fn lemma_add_unique_contains(s: Seq<usize>, x: usize, y: usize)
    ensures
        add_unique(s, x).contains(y) <==> s.contains(y) || y == x,
{
    if !s.contains(x) {
        let t = s.push(x);
        if t.contains(y) {
            let m = choose|m: int| 0 <= m < t.len() && t[m] == y;
            if m < s.len() {
                assert(s[m] == y);
            }
        }
        if s.contains(y) {
            let m = choose|m: int| 0 <= m < s.len() && s[m] == y;
            assert(t[m] == y);
        }
        assert(t[s.len() as int] == x);
    }
}

proof fn lemma_linked_contains<S>(
    acc: Seq<usize>,
    rels: Seq<Relation<S>>,
    table: usize,
    column: usize,
    id: usize,
    y: usize,
)
    ensures
        add_linked_columns(acc, rels, table, column, id).contains(y) <==> (acc.contains(y)
            || exists|j: int|
            0 <= j < rels.len() && #[trigger] linked_column(rels[j], table, column, id) == Some(y)),
    decreases rels.len(),
{
    if rels.len() > 0 {
        let rest = rels.drop_last();
        lemma_linked_contains(acc, rest, table, column, id, y);
        let before = add_linked_columns(acc, rest, table, column, id);
        if let Some(c) = linked_column(rels.last(), table, column, id) {
            lemma_add_unique_contains(before, c, y);
        }
        if exists|j: int| 0 <= j < rest.len() && #[trigger] linked_column(rest[j], table, column, id) == Some(y) {
            let j = choose|j: int| 0 <= j < rest.len() && #[trigger] linked_column(rest[j], table, column, id) == Some(y);
            assert(rels[j] == rest[j]);
        }
        if exists|j: int| 0 <= j < rels.len() && #[trigger] linked_column(rels[j], table, column, id) == Some(y) {
            let j = choose|j: int| 0 <= j < rels.len() && #[trigger] linked_column(rels[j], table, column, id) == Some(y);
            if j < rest.len() {
                assert(rest[j] == rels[j]);
            } else {
                assert(rels[j] == rels.last());
            }
        }
    }
}

proof fn lemma_highlighted_contains<S>(sel: Seq<Selected>, rels: Seq<Relation<S>>, id: usize, y: usize)
    ensures
        highlighted_columns(sel, rels, id).contains(y) <==> exists|k: int|
            0 <= k < sel.len() && lights_column(#[trigger] sel[k], rels, id, y),
    decreases sel.len(),
{
    if sel.len() > 0 {
        let rest = sel.drop_last();
        lemma_highlighted_contains(rest, rels, id, y);
        let before = highlighted_columns(rest, rels, id);
        assert(sel[sel.len() - 1] == sel.last());
        match sel.last() {
            Selected::Relation { relation, .. } => {
                lemma_add_unique_contains(before, end_column_on(rels[relation as int], id), y);
            },
            Selected::Table { table, column: Some(c) } => {
                lemma_linked_contains(before, rels, table, c, id, y);
            },
            _ => {},
        }
        if exists|k: int| 0 <= k < rest.len() && lights_column(#[trigger] rest[k], rels, id, y) {
            let k = choose|k: int| 0 <= k < rest.len() && lights_column(#[trigger] rest[k], rels, id, y);
            assert(sel[k] == rest[k]);
        }
        if exists|k: int| 0 <= k < sel.len() && lights_column(#[trigger] sel[k], rels, id, y) {
            let k = choose|k: int| 0 <= k < sel.len() && lights_column(#[trigger] sel[k], rels, id, y);
            if k < rest.len() {
                assert(rest[k] == sel[k]);
            }
        }
    }
}

/// Law: every column lit up on table `id` is an end, on table `id`, of some
/// relation.
pub proof fn lemma_lit_columns_are_relation_ends<S>(
    sel: Seq<Selected>,
    rels: Seq<Relation<S>>,
    id: usize,
)
    requires
        relations_in_range(sel, rels),
    ensures
        forall|x: usize|
            #[trigger] highlighted_columns(sel, rels, id).contains(x) ==> is_end_column_on(
                rels,
                id,
                x,
            ),
{
    assert forall|x: usize| #[trigger]
        highlighted_columns(sel, rels, id).contains(x) implies is_end_column_on(rels, id, x) by {
        lemma_highlighted_contains(sel, rels, id, x);
        let k = choose|k: int| 0 <= k < sel.len() && lights_column(#[trigger] sel[k], rels, id, x);
        match sel[k] {
            Selected::Relation { relation, .. } => {
                let r = relation as int;
                assert(0 <= r < rels.len() && (rels[r].tables[0] == id && rels[r].columns[0] == x
                    || rels[r].tables[1] == id && rels[r].columns[1] == x));
            },
            Selected::Table { table, column: Some(c) } => {
                let j = choose|j: int| 0 <= j < rels.len() && #[trigger] linked_column(rels[j], table, c, id) == Some(x);
                assert(rels[j].tables[0] == id && rels[j].columns[0] == x || rels[j].tables[1] == id
                    && rels[j].columns[1] == x);
            },
            _ => {},
        }
    }
}

/// Law: a selected column lights, on the table at the other end of a
/// relation that starts or ends at it, the column at that other end.
pub proof fn lemma_selected_column_lights_other_end<S>(
    sel: Seq<Selected>,
    rels: Seq<Relation<S>>,
    k: int,
)
    requires
        0 <= k < rels.len(),
        rels[k].tables[0] != rels[k].tables[1],
    ensures
        sel.contains(
            Selected::Table { table: rels[k].tables[1], column: Some(rels[k].columns[1]) },
        ) ==> highlighted_columns(sel, rels, rels[k].tables[0]).contains(rels[k].columns[0]),
        sel.contains(
            Selected::Table { table: rels[k].tables[0], column: Some(rels[k].columns[0]) },
        ) ==> highlighted_columns(sel, rels, rels[k].tables[1]).contains(rels[k].columns[1]),
{
    let rel = rels[k];
    let e1 = Selected::Table { table: rel.tables[1], column: Some(rel.columns[1]) };
    let e0 = Selected::Table { table: rel.tables[0], column: Some(rel.columns[0]) };
    if sel.contains(e1) {
        let m = choose|m: int| 0 <= m < sel.len() && sel[m] == e1;
        assert(linked_column(rels[k], rel.tables[1], rel.columns[1], rel.tables[0]) == Some(
            rel.columns[0],
        ));
        assert(lights_column(sel[m], rels, rel.tables[0], rel.columns[0]));
        lemma_highlighted_contains(sel, rels, rel.tables[0], rel.columns[0]);
    }
    if sel.contains(e0) {
        let m = choose|m: int| 0 <= m < sel.len() && sel[m] == e0;
        assert(linked_column(rels[k], rel.tables[0], rel.columns[0], rel.tables[1]) == Some(
            rel.columns[1],
        ));
        assert(lights_column(sel[m], rels, rel.tables[1], rel.columns[1]));
        lemma_highlighted_contains(sel, rels, rel.tables[1], rel.columns[1]);
    }
}

/// Law: with one relation between two different tables and one of its end
/// columns selected, exactly the column at the other end is lit up on the
/// other table.
pub proof fn lemma_single_link_lights_exactly_other_end<S>(rel: Relation<S>)
    requires
        rel.tables[0] != rel.tables[1],
    ensures
        highlighted_columns(
            seq![Selected::Table { table: rel.tables[1], column: Some(rel.columns[1]) }],
            seq![rel],
            rel.tables[0],
        ) == seq![rel.columns[0]],
        highlighted_columns(
            seq![Selected::Table { table: rel.tables[0], column: Some(rel.columns[0]) }],
            seq![rel],
            rel.tables[1],
        ) == seq![rel.columns[1]],
{
    let rels = seq![rel];
    let s1 = seq![Selected::Table { table: rel.tables[1], column: Some(rel.columns[1]) }];
    let s0 = seq![Selected::Table { table: rel.tables[0], column: Some(rel.columns[0]) }];
    assert(s1.drop_last() =~= Seq::<Selected>::empty());
    assert(s0.drop_last() =~= Seq::<Selected>::empty());
    assert(rels.drop_last() =~= Seq::<Relation<S>>::empty());
    let e = Seq::<usize>::empty();
    assert(rels.last() == rel);
    assert(add_linked_columns(e, rels.drop_last(), rel.tables[1], rel.columns[1], rel.tables[0]) == e);
    assert(add_linked_columns(e, rels.drop_last(), rel.tables[0], rel.columns[0], rel.tables[1]) == e);
    assert(!e.contains(rel.columns[0]) && !e.contains(rel.columns[1]));
    assert(add_unique(e, rel.columns[0]) =~= seq![rel.columns[0]]);
    assert(add_unique(e, rel.columns[1]) =~= seq![rel.columns[1]]);
    assert(highlighted_columns(s1.drop_last(), rels, rel.tables[0]) == e);
    assert(highlighted_columns(s0.drop_last(), rels, rel.tables[1]) == e);
}

/// How the selection shows on table `id`.
#[derive(Clone, Debug, PartialEq, Eq)]
pub struct TableHighlight {
    /// Some entry of the selection is the table or one of its columns.
    pub table_selected: bool,
    /// The selected column of the table, if any.
    pub column_selected: Option<usize>,
    /// A selected relation or column reaches the table.
    pub highlight_table: bool,
    /// The columns of the table that a selected relation or column reaches.
    pub highlight_columns: Vec<usize>,
}

fn vec_contains(v: &Vec<usize>, x: usize) -> (b: bool)
    ensures
        b == v@.contains(x),
{
    let mut i: usize = 0;
    while i < v.len()
        invariant
            i <= v.len(),
            forall|j: int| 0 <= j < i ==> v@[j] != x,
        decreases v.len() - i,
    {
        if v[i] == x {
            return true;
        }
        i += 1;
    }
    false
}

fn push_unique(v: &mut Vec<usize>, x: usize)
    ensures
        final(v)@ == add_unique(old(v)@, x),
{
    if !vec_contains(v, x) {
        v.push(x);
    }
}

fn linked_column_exec<S>(rel: &Relation<S>, table: usize, column: usize, id: usize) -> (c: Option<
    usize,
>)
    ensures
        c == linked_column(*rel, table, column, id),
{
    if rel.tables[0] == table && rel.columns[0] == column {
        if rel.tables[1] == id {
            Some(rel.columns[1])
        } else {
            None
        }
    } else if rel.tables[1] == table && rel.columns[1] == column {
        if rel.tables[0] == id {
            Some(rel.columns[0])
        } else {
            None
        }
    } else {
        None
    }
}

/// Whether every relation that the selection names is one of the first
/// `relation_count`.
pub fn names_existing_relations(selected: &Vec<Selected>, relation_count: usize) -> (ok: bool)
    ensures
        ok == forall|k: int|
            0 <= k < selected@.len() ==> (#[trigger] selected@[k] matches Selected::Relation {
                relation,
                ..
            } ==> relation < relation_count),
{
    let mut i: usize = 0;
    while i < selected.len()
        invariant
            i <= selected.len(),
            forall|k: int|
                0 <= k < i ==> (#[trigger] selected@[k] matches Selected::Relation { relation, .. }
                    ==> relation < relation_count),
        decreases selected.len() - i,
    {
        match selected[i] {
            Selected::Relation { relation, .. } => {
                if relation >= relation_count {
                    assert(selected@[i as int] matches Selected::Relation { relation: r, .. } && r
                        >= relation_count);
                    return false;
                }
            },
            _ => {},
        }
        i += 1;
    }
    true
}

/// Works out how the selection shows on table `id`.
pub fn table_highlight<S>(id: usize, selected: &Vec<Selected>, relations: &Vec<Relation<S>>) -> (h:
    TableHighlight)
    requires
        relations_in_range(selected@, relations@),
    ensures
        h.table_selected == exists|k: int|
            0 <= k < selected@.len() && is_entry_of_table(#[trigger] selected@[k], id),
        h.column_selected == selected_column_of(selected@, id),
        h.highlight_table == exists|k: int|
            0 <= k < selected@.len() && lights_table(#[trigger] selected@[k], relations@, id),
        h.highlight_columns@ == highlighted_columns(selected@, relations@, id),
{
    let mut table_selected = false;
    let mut column_selected: Option<usize> = None;
    let mut highlight_table = false;
    let mut highlight_columns: Vec<usize> = Vec::new();
    let mut i: usize = 0;
    while i < selected.len()
        invariant
            i <= selected.len(),
            relations_in_range(selected@, relations@),
            table_selected == exists|k: int|
                0 <= k < i && is_entry_of_table(#[trigger] selected@[k], id),
            column_selected == selected_column_of(selected@.take(i as int), id),
            highlight_table == exists|k: int|
                0 <= k < i && lights_table(#[trigger] selected@[k], relations@, id),
            highlight_columns@ == highlighted_columns(selected@.take(i as int), relations@, id),
        decreases selected.len() - i,
    {
        let ghost before = highlight_columns@;
        let ghost lit_before = highlight_table;
        proof {
            assert(selected@.take(i + 1).drop_last() =~= selected@.take(i as int));
            assert(selected@.take(i + 1).last() == selected@[i as int]);
        }
        match selected[i] {
            Selected::Relation { relation, .. } => {
                let rel = &relations[relation];
                if rel.tables[0] == id || rel.tables[1] == id {
                    highlight_table = true;
                    let col_idx = if rel.tables[0] == id {
                        rel.columns[0]
                    } else {
                        rel.columns[1]
                    };
                    push_unique(&mut highlight_columns, col_idx);
                }
            },
            Selected::Table { table, column } => {
                if let Some(c) = column {
                    let mut k: usize = 0;
                    while k < relations.len()
                        invariant
                            k <= relations.len(),
                            highlight_columns@ == add_linked_columns(
                                before,
                                relations@.take(k as int),
                                table,
                                c,
                                id,
                            ),
                            highlight_table == (lit_before || exists|m: int|
                                0 <= m < k && #[trigger] linked_column(
                                    relations@[m],
                                    table,
                                    c,
                                    id,
                                ) is Some),
                        decreases relations.len() - k,
                    {
                        proof {
                            assert(relations@.take(k + 1).drop_last() =~= relations@.take(
                                k as int,
                            ));
                            assert(relations@.take(k + 1).last() == relations@[k as int]);
                        }
                        match linked_column_exec(&relations[k], table, c, id) {
                            Some(col_idx) => {
                                highlight_table = true;
                                push_unique(&mut highlight_columns, col_idx);
                            },
                            None => {},
                        }
                        k += 1;
                    }
                    proof {
                        assert(relations@.take(relations@.len() as int) =~= relations@);
                    }
                }
                if table == id {
                    table_selected = true;
                    column_selected = column;
                }
            },
        }
        proof {
            if lights_table(selected@[i as int], relations@, id) {
                assert(highlight_table);
            }
        }
        i += 1;
    }
    proof {
        assert(selected@.take(selected@.len() as int) =~= selected@);
    }
    TableHighlight { table_selected, column_selected, highlight_table, highlight_columns }
}

/// How a relation's line is drawn.
#[derive(Clone, Copy, Debug, PartialEq, Eq, Structural)]
pub enum LineStyle {
    /// The whole relation is selected.
    WholeSelected,
    /// A selected column is one of its ends.
    ColumnHighlighted,
    /// Neither.
    Normal,
}

/// Entry `s` is a column at one of the ends of `rel`.
pub open spec fn column_at_end_of<S>(s: Selected, rel: Relation<S>) -> bool {
    s matches Selected::Table { table, column: Some(c) } && ((rel.tables[0] == table
        && rel.columns[0] == c) || (rel.tables[1] == table && rel.columns[1] == c))
}

/// The style of the line of relation `rela_idx`.
pub fn relation_line_style<S>(selected: &Vec<Selected>, rela_idx: usize, relation: &Relation<S>) -> (style:
    LineStyle)
    ensures
        style == if selected@.contains(whole_relation(rela_idx)) {
            LineStyle::WholeSelected
        } else if exists|k: int|
            0 <= k < selected@.len() && column_at_end_of(#[trigger] selected@[k], *relation) {
            LineStyle::ColumnHighlighted
        } else {
            LineStyle::Normal
        },
{
    let mut whole = false;
    let mut linked = false;
    let mut i: usize = 0;
    while i < selected.len()
        invariant
            i <= selected.len(),
            whole == exists|k: int| 0 <= k < i && selected@[k] == whole_relation(rela_idx),
            linked == exists|k: int|
                0 <= k < i && column_at_end_of(#[trigger] selected@[k], *relation),
        decreases selected.len() - i,
    {
        match selected[i] {
            Selected::Relation { relation: r, segment: None } => {
                if r == rela_idx {
                    whole = true;
                }
            },
            Selected::Relation { .. } => {},
            Selected::Table { table, column } => {
                if let Some(c) = column {
                    if (relation.tables[0] == table && relation.columns[0] == c) || (
                    relation.tables[1] == table && relation.columns[1] == c) {
                        linked = true;
                    }
                }
            },
        }
        i += 1;
    }
    if whole {
        LineStyle::WholeSelected
    } else if linked {
        LineStyle::ColumnHighlighted
    } else {
        LineStyle::Normal
    }
}

/// Whether relation `rela_idx` is selected, whole or by some segment.
pub fn relation_touched(selected: &Vec<Selected>, rela_idx: usize) -> (b: bool)
    ensures
        b == exists|k: int|
            0 <= k < selected@.len() && touches_relation(#[trigger] selected@[k], rela_idx),
{
    let mut i: usize = 0;
    while i < selected.len()
        invariant
            i <= selected.len(),
            forall|k: int| 0 <= k < i ==> !touches_relation(#[trigger] selected@[k], rela_idx),
        decreases selected.len() - i,
    {
        match selected[i] {
            Selected::Relation { relation, .. } => {
                if relation == rela_idx {
                    return true;
                }
            },
            _ => {},
        }
        i += 1;
    }
    false
}

} // verus!
