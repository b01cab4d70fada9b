//! The editor's selection: which tables, columns, relations and relation
//! segments the user has picked, and how a click changes that choice.
use vstd::prelude::*;

verus! {

/// An item of the editor's selection.
#[derive(Clone, Copy, Debug, PartialEq, Eq, Structural)]
pub enum Selected {
    /// A whole table (`column == None`) or one of its columns.
    Table { table: usize, column: Option<usize> },
    /// A whole relation (`segment == None`) or one of its segments.
    Relation { relation: usize, segment: Option<usize> },
}

/// `s` selects one segment of relation `rela_idx`.
pub open spec fn is_segment_of(s: Selected, rela_idx: usize) -> bool {
    s matches Selected::Relation { relation, segment: Some(_) } && relation == rela_idx
}

/// `s` selects relation `rela_idx` as a whole or one of its segments.
pub open spec fn touches_relation(s: Selected, rela_idx: usize) -> bool {
    s matches Selected::Relation { relation, .. } && relation == rela_idx
}

/// `s` selects table `table_idx` as a whole or one of its columns.
pub open spec fn is_entry_of_table(s: Selected, table_idx: usize) -> bool {
    s matches Selected::Table { table, .. } && table == table_idx
}

/// The whole relation `rela_idx`.
pub open spec fn whole_relation(rela_idx: usize) -> Selected {
    Selected::Relation { relation: rela_idx, segment: None }
}

/// The whole table that `s` lies in, or `s` itself when it is no table.
pub open spec fn whole_table_of(s: Selected) -> Selected {
    match s {
        Selected::Table { table, .. } => Selected::Table { table, column: None },
        _ => s,
    }
}

/// Maps each item to its whole table, leaving relations as they are.
pub open spec fn widen_to_table() -> spec_fn(Selected) -> Selected {
    |s: Selected| whole_table_of(s)
}

/// Predicate: the item is not `item`.
pub open spec fn differs_from(item: Selected) -> spec_fn(Selected) -> bool {
    |s: Selected| s != item
}

/// Predicate: the item is no segment of relation `rela_idx`.
pub open spec fn not_segment_of(rela_idx: usize) -> spec_fn(Selected) -> bool {
    |s: Selected| !is_segment_of(s, rela_idx)
}

/// Predicate: the item is a segment of relation `rela_idx`.
pub open spec fn segment_of(rela_idx: usize) -> spec_fn(Selected) -> bool {
    |s: Selected| is_segment_of(s, rela_idx)
}

/// Predicate: the item is no segment of relation `rela_idx` with index `a` or `b`.
pub open spec fn not_segment_at(rela_idx: usize, a: usize, b: usize) -> spec_fn(Selected) -> bool {
    |s: Selected|
        !(s matches Selected::Relation { relation, segment: Some(i) } && relation == rela_idx && (
        i == a || i == b))
}

/// Segments `0 .. count` of relation `rela_idx`, in that order.
pub open spec fn every_segment(rela_idx: usize, count: nat) -> Seq<Selected> {
    Seq::new(count, |i: int| Selected::Relation { relation: rela_idx, segment: Some(i as usize) })
}

/// Number of selected segments of relation `rela_idx`.
pub open spec fn selected_segment_count(sel: Seq<Selected>, rela_idx: usize) -> nat {
    sel.filter(segment_of(rela_idx)).len()
}

/// Once at least one segment of relation `rela_idx` is selected and as many
/// as the relation has (`segment_count`), the segments give way to the
/// whole relation, which is appended.
pub open spec fn collapsed(sel: Seq<Selected>, rela_idx: usize, segment_count: nat) -> Seq<
    Selected,
> {
    let n = selected_segment_count(sel, rela_idx);
    if n >= 1 && n >= segment_count {
        sel.filter(not_segment_of(rela_idx)).push(whole_relation(rela_idx))
    } else {
        sel
    }
}

/// The selection after the user toggles `item`; `rela_len` is the number of
/// segments of the relation concerned, when `item` is a relation segment.
///
/// - a whole relation leaves the selection if it was in it; else it joins,
///   replacing any selected segments of that relation;
/// - a segment of a fully selected relation first turns the whole relation
///   into all of its segments (into that segment alone when the relation
///   has no bends); then the segment leaves or joins, and when
///   all segments of the relation are selected they become the whole
///   relation again;
/// - a table or column first turns every selected column into its whole
///   table; then the item leaves if it is there, else it joins, replacing
///   its whole table.
pub open spec fn toggled(sel: Seq<Selected>, item: Selected, rela_len: nat) -> Seq<Selected> {
    match item {
        Selected::Relation { relation, segment: None } => {
            if sel.contains(item) {
                sel.filter(differs_from(item))
            } else {
                sel.filter(not_segment_of(relation)).push(item)
            }
        },
        Selected::Relation { relation, segment: Some(_) } => {
            let whole = whole_relation(relation);
            let opened = if sel.contains(whole) {
                sel.filter(differs_from(whole)) + if rela_len == 0 {
                    seq![item]
                } else {
                    every_segment(relation, rela_len)
                }
            } else {
                sel
            };
            let flipped = if opened.contains(item) {
                opened.filter(differs_from(item))
            } else {
                opened.push(item)
            };
            collapsed(flipped, relation, rela_len)
        },
        Selected::Table { table, .. } => {
            let tables_only = sel.map_values(widen_to_table());
            if tables_only.contains(item) {
                tables_only.filter(differs_from(item))
            } else {
                tables_only.filter(differs_from(Selected::Table { table, column: None })).push(item)
            }
        },
    }
}

/// Two entries that may stand together in a selection: two tables must
/// differ, and two entries of one relation must be distinct segments.
pub open spec fn compatible(a: Selected, b: Selected) -> bool {
    match (a, b) {
        (Selected::Table { table: t1, .. }, Selected::Table { table: t2, .. }) => t1 != t2,
        (
            Selected::Relation { relation: r1, segment: g1 },
            Selected::Relation { relation: r2, segment: g2 },
        ) => r1 != r2 || (g1 is Some && g2 is Some && g1 != g2),
        _ => true,
    }
}

/// A well-formed selection: no entry twice, at most one entry per table,
/// and no relation selected both whole and by segments.
pub open spec fn selection_wf(sel: Seq<Selected>) -> bool {
    forall|i: int, j: int|
        0 <= i < sel.len() && 0 <= j < sel.len() && i != j ==> compatible(
            #[trigger] sel[i],
            #[trigger] sel[j],
        )
}

proof fn lemma_compatible_symmetric(a: Selected, b: Selected)
    ensures
        compatible(a, b) == compatible(b, a),
{
}

pub(crate) proof fn lemma_filter_contains_iff(s: Seq<Selected>, p: spec_fn(Selected) -> bool, x: Selected)
    ensures
        s.filter(p).contains(x) <==> s.contains(x) && p(x),
{
    if s.filter(p).contains(x) {
        s.lemma_filter_contains_rev(p, x);
        let k = choose|k: int| 0 <= k < s.filter(p).len() && s.filter(p)[k] == x;
        s.lemma_filter_pred(p, k);
    }
    if s.contains(x) && p(x) {
        let k = choose|k: int| 0 <= k < s.len() && s[k] == x;
        s.lemma_filter_contains(p, k);
    }
}

proof fn lemma_push_keeps_wf(s: Seq<Selected>, x: Selected)
    requires
        selection_wf(s),
        forall|k: int| 0 <= k < s.len() ==> compatible(x, #[trigger] s[k]),
    ensures
        selection_wf(s.push(x)),
{
    let t = s.push(x);
    assert forall|i: int, j: int| 0 <= i < t.len() && 0 <= j < t.len() && i != j implies compatible(
        #[trigger] t[i],
        #[trigger] t[j],
    ) by {
        if i == s.len() {
            assert(compatible(x, s[j]));
        } else if j == s.len() {
            assert(compatible(x, s[i]));
            lemma_compatible_symmetric(x, s[i]);
        } else {
            assert(t[i] == s[i] && t[j] == s[j]);
        }
    }
}

pub(crate) proof fn lemma_filter_keeps_wf(s: Seq<Selected>, p: spec_fn(Selected) -> bool)
    requires
        selection_wf(s),
    ensures
        selection_wf(s.filter(p)),
    decreases s.len(),
{
    reveal(Seq::filter);
    if s.len() > 0 {
        let rest = s.drop_last();
        assert(selection_wf(rest)) by {
            assert forall|i: int, j: int|
                0 <= i < rest.len() && 0 <= j < rest.len() && i != j implies compatible(
                #[trigger] rest[i],
                #[trigger] rest[j],
            ) by {
                assert(rest[i] == s[i] && rest[j] == s[j]);
            }
        }
        lemma_filter_keeps_wf(rest, p);
        let f = rest.filter(p);
        if p(s.last()) {
            assert forall|k: int| 0 <= k < f.len() implies compatible(s.last(), #[trigger] f[k]) by {
                assert(f.contains(f[k]));
                rest.lemma_filter_contains_rev(p, f[k]);
                let m = choose|m: int| 0 <= m < rest.len() && rest[m] == f[k];
                assert(s[m] == rest[m]);
                assert(compatible(s[s.len() - 1], s[m]));
            }
            lemma_push_keeps_wf(f, s.last());
        }
    }
}

proof fn lemma_concat_keeps_wf(a: Seq<Selected>, b: Seq<Selected>)
    requires
        selection_wf(a),
        selection_wf(b),
        forall|i: int, j: int|
            0 <= i < a.len() && 0 <= j < b.len() ==> compatible(#[trigger] a[i], #[trigger] b[j]),
    ensures
        selection_wf(a + b),
{
    let t = a + b;
    assert forall|i: int, j: int| 0 <= i < t.len() && 0 <= j < t.len() && i != j implies compatible(
        #[trigger] t[i],
        #[trigger] t[j],
    ) by {
        if i < a.len() && j < a.len() {
            assert(t[i] == a[i] && t[j] == a[j]);
        } else if i >= a.len() && j >= a.len() {
            assert(t[i] == b[i - a.len()] && t[j] == b[j - a.len()]);
        } else if i < a.len() {
            assert(t[i] == a[i] && t[j] == b[j - a.len()]);
        } else {
            assert(t[j] == a[j] && t[i] == b[i - a.len()]);
            assert(compatible(a[j], b[i - a.len()]));
            lemma_compatible_symmetric(a[j], b[i - a.len()]);
        }
    }
}

pub(crate) proof fn lemma_index_of(s: Seq<Selected>, x: Selected) -> (k: int)
    requires
        s.contains(x),
    ensures
        0 <= k < s.len(),
        s[k] == x,
{
    choose|k: int| 0 <= k < s.len() && s[k] == x
}

/// Law: replacing a relation's selected segments by the whole relation
/// keeps a well-formed selection well-formed.
pub proof fn lemma_collapse_keeps_wf(sel: Seq<Selected>, rela_idx: usize, segment_count: usize)
    requires
        selection_wf(sel),
    ensures
        selection_wf(collapsed(sel, rela_idx, segment_count as nat)),
{
    let n = selected_segment_count(sel, rela_idx);
    if n >= 1 && n >= segment_count {
        let whole = whole_relation(rela_idx);
        let segs = sel.filter(segment_of(rela_idx));
        assert(segs.contains(segs[0]));
        lemma_filter_contains_iff(sel, segment_of(rela_idx), segs[0]);
        let m = lemma_index_of(sel, segs[0]);
        let f = sel.filter(not_segment_of(rela_idx));
        lemma_filter_keeps_wf(sel, not_segment_of(rela_idx));
        assert forall|k: int| 0 <= k < f.len() implies compatible(whole, #[trigger] f[k]) by {
            assert(f.contains(f[k]));
            lemma_filter_contains_iff(sel, not_segment_of(rela_idx), f[k]);
            let j = lemma_index_of(sel, f[k]);
            if f[k] == whole {
                assert(compatible(sel[j], sel[m]));
            }
        }
        lemma_push_keeps_wf(f, whole);
    }
}

/// Law: toggling any item keeps a well-formed selection well-formed.
pub proof fn lemma_toggle_keeps_wf(sel: Seq<Selected>, item: Selected, segment_count: usize)
    requires
        selection_wf(sel),
    ensures
        selection_wf(toggled(sel, item, segment_count as nat)),
{
    let rela_len = segment_count as nat;
    match item {
        Selected::Relation { relation, segment: None } => {
            if sel.contains(item) {
                lemma_filter_keeps_wf(sel, differs_from(item));
            } else {
                let f = sel.filter(not_segment_of(relation));
                lemma_filter_keeps_wf(sel, not_segment_of(relation));
                assert forall|k: int| 0 <= k < f.len() implies compatible(item, #[trigger] f[k]) by {
                    assert(f.contains(f[k]));
                    lemma_filter_contains_iff(sel, not_segment_of(relation), f[k]);
                }
                lemma_push_keeps_wf(f, item);
            }
        },
        Selected::Relation { relation, segment: Some(seg) } => {
            let whole = whole_relation(relation);
            let opened = if sel.contains(whole) {
                sel.filter(differs_from(whole)) + if rela_len == 0 {
                    seq![item]
                } else {
                    every_segment(relation, rela_len)
                }
            } else {
                sel
            };
            if sel.contains(whole) {
                let a = sel.filter(differs_from(whole));
                let b = if rela_len == 0 {
                    seq![item]
                } else {
                    every_segment(relation, rela_len)
                };
                lemma_filter_keeps_wf(sel, differs_from(whole));
                let w = lemma_index_of(sel, whole);
                assert forall|i: int, j: int|
                    0 <= i < a.len() && 0 <= j < b.len() implies compatible(
                    #[trigger] a[i],
                    #[trigger] b[j],
                ) by {
                    assert(a.contains(a[i]));
                    lemma_filter_contains_iff(sel, differs_from(whole), a[i]);
                    let m = lemma_index_of(sel, a[i]);
                    assert(compatible(sel[w], sel[m]));
                }
                assert(selection_wf(b)) by {
                    assert forall|i: int, j: int|
                        0 <= i < b.len() && 0 <= j < b.len() && i != j implies compatible(
                        #[trigger] b[i],
                        #[trigger] b[j],
                    ) by {
                        if rela_len > 0 {
                            assert(b[i] == Selected::Relation { relation, segment: Some(i as usize) });
                            assert(b[j] == Selected::Relation { relation, segment: Some(j as usize) });
                        }
                    }
                }
                lemma_concat_keeps_wf(a, b);
                assert forall|x: Selected| opened.contains(x) implies x != whole by {
                    let m = lemma_index_of(opened, x);
                    if m < a.len() {
                        assert(a.contains(opened[m]));
                        lemma_filter_contains_iff(sel, differs_from(whole), opened[m]);
                    } else {
                        assert(opened[m] == b[m - a.len()]);
                    }
                }
            } else {
                assert forall|x: Selected| opened.contains(x) implies x != whole by {}
            }
            assert(selection_wf(opened));
            let flipped = if opened.contains(item) {
                opened.filter(differs_from(item))
            } else {
                opened.push(item)
            };
            if opened.contains(item) {
                lemma_filter_keeps_wf(opened, differs_from(item));
                assert forall|x: Selected| flipped.contains(x) implies x != whole by {
                    lemma_filter_contains_iff(opened, differs_from(item), x);
                }
            } else {
                assert forall|k: int| 0 <= k < opened.len() implies compatible(
                    item,
                    #[trigger] opened[k],
                ) by {
                    assert(opened.contains(opened[k]));
                }
                lemma_push_keeps_wf(opened, item);
                assert forall|x: Selected| flipped.contains(x) implies x != whole by {
                    let m = lemma_index_of(flipped, x);
                    if m < opened.len() {
                        assert(opened.contains(flipped[m]));
                    }
                }
            }
            let n = selected_segment_count(flipped, relation);
            if n >= 1 && n >= rela_len {
                let f = flipped.filter(not_segment_of(relation));
                lemma_filter_keeps_wf(flipped, not_segment_of(relation));
                assert forall|k: int| 0 <= k < f.len() implies compatible(whole, #[trigger] f[k]) by {
                    assert(f.contains(f[k]));
                    lemma_filter_contains_iff(flipped, not_segment_of(relation), f[k]);
                }
                lemma_push_keeps_wf(f, whole);
            }
        },
        Selected::Table { table, .. } => {
            let t = sel.map_values(widen_to_table());
            assert(selection_wf(t)) by {
                assert forall|i: int, j: int|
                    0 <= i < t.len() && 0 <= j < t.len() && i != j implies compatible(
                    #[trigger] t[i],
                    #[trigger] t[j],
                ) by {
                    assert(compatible(sel[i], sel[j]));
                }
            }
            if t.contains(item) {
                lemma_filter_keeps_wf(t, differs_from(item));
            } else {
                let whole = Selected::Table { table, column: None };
                let f = t.filter(differs_from(whole));
                lemma_filter_keeps_wf(t, differs_from(whole));
                assert forall|k: int| 0 <= k < f.len() implies compatible(item, #[trigger] f[k]) by {
                    assert(f.contains(f[k]));
                    lemma_filter_contains_iff(t, differs_from(whole), f[k]);
                    let m = lemma_index_of(t, f[k]);
                    assert(t[m] == whole_table_of(sel[m]));
                }
                lemma_push_keeps_wf(f, item);
            }
        },
    }
}

proof fn lemma_filter_keeps_all(s: Seq<Selected>, p: spec_fn(Selected) -> bool)
    requires
        forall|k: int| 0 <= k < s.len() ==> p(#[trigger] s[k]),
    ensures
        s.filter(p) == s,
    decreases s.len(),
{
    reveal(Seq::filter);
    if s.len() > 0 {
        let rest = s.drop_last();
        assert forall|k: int| 0 <= k < rest.len() implies p(#[trigger] rest[k]) by {
            assert(rest[k] == s[k]);
        }
        lemma_filter_keeps_all(rest, p);
        assert(rest.push(s.last()) =~= s);
    }
}

/// Law: toggling a whole relation flips whether it is selected.
pub proof fn lemma_toggle_relation_flips(sel: Seq<Selected>, rela_idx: usize, segment_count: usize)
    ensures
        toggled(sel, whole_relation(rela_idx), segment_count as nat).contains(
            whole_relation(rela_idx),
        ) <==> !sel.contains(whole_relation(rela_idx)),
{
    let w = whole_relation(rela_idx);
    if sel.contains(w) {
        lemma_filter_contains_iff(sel, differs_from(w), w);
    } else {
        let f = sel.filter(not_segment_of(rela_idx));
        assert(f.push(w)[f.len() as int] == w);
    }
}

/// Law: toggling a whole table leaves it selected exactly when no entry of
/// that table (whole or column) was selected before.
pub proof fn lemma_toggle_table_flips(sel: Seq<Selected>, table: usize)
    ensures
        toggled(sel, Selected::Table { table, column: None }, 0).contains(
            Selected::Table { table, column: None },
        ) <==> !(exists|k: int|
            0 <= k < sel.len() && is_entry_of_table(#[trigger] sel[k], table)),
{
    let item = Selected::Table { table, column: None };
    let t = sel.map_values(widen_to_table());
    if exists|k: int| 0 <= k < sel.len() && is_entry_of_table(#[trigger] sel[k], table) {
        let k = choose|k: int| 0 <= k < sel.len() && is_entry_of_table(#[trigger] sel[k], table);
        assert(t[k] == item);
        assert(t.contains(item));
        lemma_filter_contains_iff(t, differs_from(item), item);
    } else {
        assert(!t.contains(item)) by {
            if t.contains(item) {
                let m = lemma_index_of(t, item);
                assert(t[m] == whole_table_of(sel[m]));
            }
        }
        let f = t.filter(differs_from(item));
        assert(f.push(item)[f.len() as int] == item);
    }
}

/// Law: selecting a whole relation that was not selected, and none of
/// whose segments was, and then toggling it again gives back the selection
/// one started from.
pub proof fn lemma_toggle_relation_twice(sel: Seq<Selected>, rela_idx: usize, segment_count: usize)
    requires
        !sel.contains(whole_relation(rela_idx)),
        forall|k: int| 0 <= k < sel.len() ==> !is_segment_of(#[trigger] sel[k], rela_idx),
    ensures
        toggled(
            toggled(sel, whole_relation(rela_idx), segment_count as nat),
            whole_relation(rela_idx),
            segment_count as nat,
        ) == sel,
{
    let w = whole_relation(rela_idx);
    lemma_filter_keeps_all(sel, not_segment_of(rela_idx));
    let once = sel.push(w);
    assert(once[sel.len() as int] == w);
    assert(once.contains(w));
    sel.lemma_filter_push(w, differs_from(w));
    assert forall|k: int| 0 <= k < sel.len() implies differs_from(w)(#[trigger] sel[k]) by {
        assert(sel.contains(sel[k]));
    }
    lemma_filter_keeps_all(sel, differs_from(w));
}

/// Law: with no column selected, selecting a table none of whose entries
/// was selected and then toggling it again gives back the selection one
/// started from.
pub proof fn lemma_toggle_table_twice(sel: Seq<Selected>, table: usize)
    requires
        forall|k: int|
            0 <= k < sel.len() ==> (#[trigger] sel[k] matches Selected::Table { table: t, column }
                ==> t != table && column is None),
    ensures
        toggled(
            toggled(sel, Selected::Table { table, column: None }, 0),
            Selected::Table { table, column: None },
            0,
        ) == sel,
{
    let item = Selected::Table { table, column: None };
    assert(sel.map_values(widen_to_table()) =~= sel);
    assert(!sel.contains(item)) by {
        if sel.contains(item) {
            let m = lemma_index_of(sel, item);
        }
    }
    assert forall|k: int| 0 <= k < sel.len() implies differs_from(item)(#[trigger] sel[k]) by {}
    lemma_filter_keeps_all(sel, differs_from(item));
    let once = sel.push(item);
    assert(toggled(sel, item, 0) == once);
    assert(once.map_values(widen_to_table()) =~= once);
    assert(once[sel.len() as int] == item);
    assert(once.contains(item));
    sel.lemma_filter_push(item, differs_from(item));
}

proof fn lemma_filter_shorter(s: Seq<Selected>, p: spec_fn(Selected) -> bool, k: int)
    requires
        0 <= k < s.len(),
        !p(s[k]),
    ensures
        s.filter(p).len() < s.len(),
    decreases s.len(),
{
    reveal(Seq::filter);
    let rest = s.drop_last();
    rest.lemma_filter_len(p);
    if k < s.len() - 1 {
        assert(rest[k] == s[k]);
        lemma_filter_shorter(rest, p, k);
    }
}

proof fn lemma_filter_empty(s: Seq<Selected>, p: spec_fn(Selected) -> bool)
    requires
        forall|k: int| 0 <= k < s.len() ==> !p(#[trigger] s[k]),
    ensures
        s.filter(p).len() == 0,
{
    if s.filter(p).len() > 0 {
        let x = s.filter(p)[0];
        s.lemma_filter_pred(p, 0);
        assert(s.filter(p).contains(x));
        lemma_filter_contains_iff(s, p, x);
        let m = lemma_index_of(s, x);
    }
}

proof fn lemma_concat_contains(a: Seq<Selected>, b: Seq<Selected>, x: Selected)
    ensures
        (a + b).contains(x) <==> a.contains(x) || b.contains(x),
{
    let t = a + b;
    if t.contains(x) {
        let m = lemma_index_of(t, x);
        if m < a.len() {
            assert(a[m] == x);
        } else {
            assert(b[m - a.len()] == x);
        }
    }
    if a.contains(x) {
        let m = lemma_index_of(a, x);
        assert(t[m] == x);
    }
    if b.contains(x) {
        let m = lemma_index_of(b, x);
        assert(t[a.len() + m] == x);
    }
}

/// Law: clicking one segment of a relation that is selected as a whole
/// opens the relation into its segments and drops the clicked one, so
/// exactly the other segments of that relation stay selected; a relation
/// without bends (`segment_count == 0`) is thereby deselected altogether.
/// Entries of other relations and of tables are untouched.
pub proof fn lemma_segment_click_opens_whole_relation(
    sel: Seq<Selected>,
    rela_idx: usize,
    seg: usize,
    segment_count: usize,
)
    requires
        selection_wf(sel),
        sel.contains(whole_relation(rela_idx)),
        segment_count == 0 || seg < segment_count,
    ensures
        forall|s: Selected|
            !touches_relation(s, rela_idx) ==> (#[trigger] toggled(
                sel,
                Selected::Relation { relation: rela_idx, segment: Some(seg) },
                segment_count as nat,
            ).contains(s) <==> sel.contains(s)),
        forall|s: Selected|
            touches_relation(s, rela_idx) ==> (#[trigger] toggled(
                sel,
                Selected::Relation { relation: rela_idx, segment: Some(seg) },
                segment_count as nat,
            ).contains(s) <==> (s matches Selected::Relation { segment: Some(j), .. } && j
                < segment_count && j != seg)),
        segment_count == 0 ==> forall|k: int|
            0 <= k < toggled(
                sel,
                Selected::Relation { relation: rela_idx, segment: Some(seg) },
                0,
            ).len() ==> !touches_relation(
                #[trigger] toggled(
                    sel,
                    Selected::Relation { relation: rela_idx, segment: Some(seg) },
                    0,
                )[k],
                rela_idx,
            ),
{
    let whole = whole_relation(rela_idx);
    let item = Selected::Relation { relation: rela_idx, segment: Some(seg) };
    let n = segment_count as nat;
    let w = lemma_index_of(sel, whole);
    assert forall|k: int| 0 <= k < sel.len() && k != w implies !touches_relation(
        #[trigger] sel[k],
        rela_idx,
    ) by {
        assert(compatible(sel[w], sel[k]));
    }
    let a = sel.filter(differs_from(whole));
    let b = if n == 0 {
        seq![item]
    } else {
        every_segment(rela_idx, n)
    };
    let opened = a + b;
    assert forall|s: Selected| a.contains(s) implies sel.contains(s) && s != whole
        && !touches_relation(s, rela_idx) by {
        lemma_filter_contains_iff(sel, differs_from(whole), s);
        let m = lemma_index_of(sel, s);
    }
    assert forall|s: Selected| sel.contains(s) && s != whole implies #[trigger] a.contains(s) by {
        lemma_filter_contains_iff(sel, differs_from(whole), s);
    }
    assert forall|s: Selected| #[trigger] b.contains(s) <==> (s matches Selected::Relation {
        relation,
        segment: Some(j),
    } && relation == rela_idx && (if n == 0 {
        s == item
    } else {
        j < n
    })) by {
        if b.contains(s) {
            let m = lemma_index_of(b, s);
        }
        if s matches Selected::Relation { relation, segment: Some(j) } && relation == rela_idx && (
        if n == 0 {
            s == item
        } else {
            j < n
        }) {
            if n == 0 {
                assert(b[0] == s);
            } else {
                let j = s->segment->0;
                assert(b[j as int] == s);
            }
        }
    }
    assert forall|s: Selected| #[trigger] opened.contains(s) <==> a.contains(s) || b.contains(s) by {
        lemma_concat_contains(a, b, s);
    }
    assert(b.contains(item));
    assert(opened.contains(item));
    let flipped = opened.filter(differs_from(item));
    // no collapse: fewer segments of the relation remain than it has
    let pa = a.filter(differs_from(item));
    let pb = b.filter(differs_from(item));
    Seq::filter_distributes_over_add(a, b, differs_from(item));
    assert(flipped == pa + pb);
    Seq::filter_distributes_over_add(pa, pb, segment_of(rela_idx));
    assert forall|k: int| 0 <= k < pa.len() implies !segment_of(rela_idx)(#[trigger] pa[k]) by {
        assert(pa.contains(pa[k]));
        lemma_filter_contains_iff(a, differs_from(item), pa[k]);
    }
    lemma_filter_empty(pa, segment_of(rela_idx));
    pb.lemma_filter_len(segment_of(rela_idx));
    let bi: int = if n == 0 {
        0
    } else {
        seg as int
    };
    assert(b[bi] == item);
    lemma_filter_shorter(b, differs_from(item), bi);
    assert(selected_segment_count(flipped, rela_idx) == pb.filter(segment_of(rela_idx)).len());
    assert(toggled(sel, item, n) == flipped);
    assert forall|s: Selected| #[trigger] flipped.contains(s) <==> opened.contains(s) && s != item by {
        lemma_filter_contains_iff(opened, differs_from(item), s);
    }
    assert forall|k: int| 0 <= k < flipped.len() implies flipped.contains(#[trigger] flipped[k]) by {}
}

/// Law: clicking a column selects that column; afterwards no other entry of
/// the selection names a column, and the column's table is not also
/// selected as a whole.
pub proof fn lemma_column_click_selects_it(sel: Seq<Selected>, table: usize, column: usize)
    ensures
        toggled(sel, Selected::Table { table, column: Some(column) }, 0).contains(
            Selected::Table { table, column: Some(column) },
        ),
        !toggled(sel, Selected::Table { table, column: Some(column) }, 0).contains(
            Selected::Table { table, column: None },
        ),
        forall|k: int|
            0 <= k < toggled(sel, Selected::Table { table, column: Some(column) }, 0).len() ==> (
            #[trigger] toggled(sel, Selected::Table { table, column: Some(column) }, 0)[k] matches Selected::Table {
                column: Some(_),
                ..
            } ==> toggled(sel, Selected::Table { table, column: Some(column) }, 0)[k]
                == Selected::Table { table, column: Some(column) }),
{
    let item = Selected::Table { table, column: Some(column) };
    let whole = Selected::Table { table, column: None };
    let t = sel.map_values(widen_to_table());
    assert forall|k: int| 0 <= k < t.len() implies !(#[trigger] t[k] matches Selected::Table {
        column: Some(_),
        ..
    }) by {}
    assert(!t.contains(item));
    let f = t.filter(differs_from(whole));
    let res = f.push(item);
    assert(toggled(sel, item, 0) == res);
    assert(res[f.len() as int] == item);
    assert forall|k: int| 0 <= k < f.len() implies #[trigger] f[k] != whole && !(f[k] matches Selected::Table {
        column: Some(_),
        ..
    }) by {
        assert(f.contains(f[k]));
        lemma_filter_contains_iff(t, differs_from(whole), f[k]);
        let m = lemma_index_of(t, f[k]);
    }
    if res.contains(whole) {
        let m = lemma_index_of(res, whole);
        if m < f.len() {
            assert(res[m] == f[m]);
        }
    }
    assert forall|k: int| 0 <= k < res.len() implies (#[trigger] res[k] matches Selected::Table {
        column: Some(_),
        ..
    } ==> res[k] == item) by {
        if k < f.len() {
            assert(res[k] == f[k]);
        }
    }
}

/// Which items a filtering pass drops.
pub(crate) enum Discard {
    Item(Selected),
    SegmentsOf(usize),
    SegmentsAt(usize, usize, usize),
}

pub(crate) open spec fn keeps(d: Discard) -> spec_fn(Selected) -> bool {
    match d {
        Discard::Item(item) => differs_from(item),
        Discard::SegmentsOf(r) => not_segment_of(r),
        Discard::SegmentsAt(r, a, b) => not_segment_at(r, a, b),
    }
}

fn kept(d: &Discard, s: &Selected) -> (b: bool)
    ensures
        b == keeps(*d)(*s),
{
    match d {
        Discard::Item(item) => *s != *item,
        Discard::SegmentsOf(r) => match s {
            Selected::Relation { relation, segment: Some(_) } => *relation != *r,
            _ => true,
        },
        Discard::SegmentsAt(r, a, b) => match s {
            Selected::Relation { relation, segment: Some(i) } => !(*relation == *r && (*i == *a
                || *i == *b)),
            _ => true,
        },
    }
}

proof fn lemma_take_succ(s: Seq<Selected>, i: int)
    requires
        0 <= i < s.len(),
    ensures
        s.take(i + 1) == s.take(i).push(s[i]),
{
    assert(s.take(i + 1) =~= s.take(i).push(s[i]));
}

/// The items of `v` that `d` keeps, in order.
pub(crate) fn filtered(v: &Vec<Selected>, d: Discard) -> (r: Vec<Selected>)
    ensures
        r@ == v@.filter(keeps(d)),
{
    let mut r: Vec<Selected> = Vec::new();
    let mut i: usize = 0;
    while i < v.len()
        invariant
            i <= v.len(),
            r@ == v@.take(i as int).filter(keeps(d)),
        decreases v.len() - i,
    {
        proof {
            lemma_take_succ(v@, i as int);
            v@.take(i as int).lemma_filter_push(v@[i as int], keeps(d));
        }
        if kept(&d, &v[i]) {
            r.push(v[i]);
        }
        i += 1;
    }
    proof {
        assert(v@.take(v@.len() as int) =~= v@);
    }
    r
}

/// Whether `item` is selected.
pub fn is_selected(selected: &Vec<Selected>, item: Selected) -> (b: bool)
    ensures
        b == selected@.contains(item),
{
    let mut i: usize = 0;
    while i < selected.len()
        invariant
            i <= selected.len(),
            forall|j: int| 0 <= j < i ==> selected@[j] != item,
        decreases selected.len() - i,
    {
        if selected[i] == item {
            return true;
        }
        i += 1;
    }
    false
}

/// Number of selected segments of relation `rela_idx`.
pub fn count_selected_segments(selected: &Vec<Selected>, rela_idx: usize) -> (n: usize)
    ensures
        n == selected_segment_count(selected@, rela_idx),
{
    let mut n: usize = 0;
    let mut i: usize = 0;
    while i < selected.len()
        invariant
            i <= selected.len(),
            n == selected@.take(i as int).filter(segment_of(rela_idx)).len(),
            n <= i,
        decreases selected.len() - i,
    {
        proof {
            lemma_take_succ(selected@, i as int);
            selected@.take(i as int).lemma_filter_push(selected@[i as int], segment_of(rela_idx));
        }
        match selected[i] {
            Selected::Relation { relation, segment: Some(_) } => {
                if relation == rela_idx {
                    n += 1;
                }
            },
            _ => {},
        }
        i += 1;
    }
    proof {
        assert(selected@.take(selected@.len() as int) =~= selected@);
    }
    n
}

/// When at least one segment of relation `rela_idx` is selected and as many
/// as the relation has, replaces them by the whole relation.
pub fn collapse_full_relation(selected: &mut Vec<Selected>, rela_idx: usize, segment_count: usize)
    ensures
        final(selected)@ == collapsed(old(selected)@, rela_idx, segment_count as nat),
{
    let n = count_selected_segments(selected, rela_idx);
    if n >= 1 && n >= segment_count {
        let mut rest = filtered(selected, Discard::SegmentsOf(rela_idx));
        rest.push(Selected::Relation { relation: rela_idx, segment: None });
        *selected = rest;
    }
}

/// Turns every selected column into its whole table.
fn widen_columns(selected: &mut Vec<Selected>)
    ensures
        final(selected)@ == old(selected)@.map_values(widen_to_table()),
{
    let ghost start = selected@;
    let mut i: usize = 0;
    while i < selected.len()
        invariant
            i <= selected.len(),
            selected@.len() == start.len(),
            forall|j: int| 0 <= j < i ==> selected@[j] == whole_table_of(start[j]),
            forall|j: int| i <= j < start.len() ==> selected@[j] == start[j],
        decreases selected.len() - i,
    {
        match selected[i] {
            Selected::Table { table, column: _ } => {
                selected.set(i, Selected::Table { table, column: None });
            },
            Selected::Relation { .. } => {},
        }
        i += 1;
    }
    proof {
        assert(selected@ =~= start.map_values(widen_to_table()));
    }
}

/// Toggles `item` in the selection, as `toggled` states; `rela_len` is the
/// number of segments of the relation concerned.
pub fn toggle_selected(selected: &mut Vec<Selected>, item: Selected, rela_len: usize)
    ensures
        final(selected)@ == toggled(old(selected)@, item, rela_len as nat),
{
    match item {
        Selected::Relation { relation, segment: None } => {
            if is_selected(selected, item) {
                let rest = filtered(selected, Discard::Item(item));
                *selected = rest;
            } else {
                let mut rest = filtered(selected, Discard::SegmentsOf(relation));
                rest.push(item);
                *selected = rest;
            }
        },
        Selected::Relation { relation, segment: Some(_) } => {
            let whole = Selected::Relation { relation, segment: None };
            if is_selected(selected, whole) {
                let mut opened = filtered(selected, Discard::Item(whole));
                let ghost base = opened@;
                if rela_len == 0 {
                    opened.push(item);
                    assert(opened@ =~= base + seq![item]);
                } else {
                    let mut k: usize = 0;
                    while k < rela_len
                        invariant
                            k <= rela_len,
                            opened@ == base + every_segment(relation, k as nat),
                        decreases rela_len - k,
                    {
                        opened.push(Selected::Relation { relation, segment: Some(k) });
                        k += 1;
                        assert(opened@ =~= base + every_segment(relation, k as nat));
                    }
                }
                *selected = opened;
            }
            if is_selected(selected, item) {
                let rest = filtered(selected, Discard::Item(item));
                *selected = rest;
            } else {
                selected.push(item);
            }
            collapse_full_relation(selected, relation, rela_len);
        },
        Selected::Table { table, .. } => {
            widen_columns(selected);
            if is_selected(selected, item) {
                let rest = filtered(selected, Discard::Item(item));
                *selected = rest;
            } else {
                let mut rest = filtered(
                    selected,
                    Discard::Item(Selected::Table { table, column: None }),
                );
                rest.push(item);
                *selected = rest;
            }
        },
    }
}

} // verus!
