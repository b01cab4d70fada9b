//! Edits of a relation's bend list: when two parallel runs of a relation's
//! line come close, the bends between them go, and the selection of that
//! relation's segments follows. `S` is the type of a bend coordinate; the
//! editor decides with it whether two runs are close, and these functions
//! carry out what follows from that decision.
use vstd::prelude::*;
use crate::diagram::Relation;
use crate::selection::{
    Discard,
    Selected,
    filtered,
    keeps,
    compatible,
    lemma_filter_contains_iff,
    lemma_filter_keeps_wf,
    lemma_index_of,
    not_segment_at,
    selection_wf,
    collapse_full_relation,
    collapsed,
    lemma_collapse_keeps_wf,
    segment_of,
    not_segment_of,
    selected_segment_count,
};

verus! {

/// Every selected segment of relation `rela_idx` has an index below `count`.
pub open spec fn segment_indices_below(sel: Seq<Selected>, rela_idx: usize, count: nat) -> bool {
    forall|k: int|
        0 <= k < sel.len() ==> (#[trigger] sel[k] matches Selected::Relation {
            relation,
            segment: Some(i),
        } ==> (relation == rela_idx ==> i < count))
}

/// `s` with its segment index lowered by two when it is a segment of
/// relation `rela_idx` with index `from` or more.
pub open spec fn shifted_down(s: Selected, rela_idx: usize, from: usize) -> Selected {
    match s {
        Selected::Relation { relation, segment: Some(i) } => if relation == rela_idx && i >= from {
            Selected::Relation { relation, segment: Some((i - 2) as usize) }
        } else {
            s
        },
        _ => s,
    }
}

/// Lowers by two the index of every selected segment of relation
/// `rela_idx` from index `from` on.
pub open spec fn renumbered(sel: Seq<Selected>, rela_idx: usize, from: usize) -> Seq<Selected> {
    sel.map_values(|s: Selected| shifted_down(s, rela_idx, from))
}

fn renumber(selected: &mut Vec<Selected>, rela_idx: usize, from: usize)
    requires
        forall|k: int|
            0 <= k < old(selected)@.len() ==> (#[trigger] old(selected)@[k] matches Selected::Relation {
                relation,
                segment: Some(i),
            } ==> (relation == rela_idx && i >= from ==> i >= 2)),
    ensures
        final(selected)@ == renumbered(old(selected)@, rela_idx, from),
{
    let ghost start = selected@;
    let mut i: usize = 0;
    while i < selected.len()
        invariant
            i <= selected.len(),
            selected@.len() == start.len(),
            forall|k: int|
                0 <= k < start.len() ==> (#[trigger] start[k] matches Selected::Relation {
                    relation,
                    segment: Some(i),
                } ==> (relation == rela_idx && i >= from ==> i >= 2)),
            forall|j: int| 0 <= j < i ==> selected@[j] == shifted_down(start[j], rela_idx, from),
            forall|j: int| i <= j < start.len() ==> selected@[j] == start[j],
        decreases selected.len() - i,
    {
        match selected[i] {
            Selected::Relation { relation, segment: Some(idx) } => {
                if relation == rela_idx && idx >= from {
                    assert(start[i as int] == selected@[i as int]);
                    selected.set(i, Selected::Relation { relation, segment: Some(idx - 2) });
                }
            },
            _ => {},
        }
        i += 1;
    }
    proof {
        assert(selected@ =~= renumbered(start, rela_idx, from));
    }
}

/// Joins segment `seg_idx` with segment `seg_idx + 2`: the two bends after
/// `seg_idx` go, those two segments leave the selection, and the selected
/// segments after them are renumbered.
pub fn join_with_next<S>(
    segments: &mut Vec<S>,
    selected: &mut Vec<Selected>,
    seg_idx: usize,
    rela_idx: usize,
)
    requires
        seg_idx + 2 < old(segments)@.len(),
    ensures
        final(segments)@ == old(segments)@.remove(seg_idx + 2).remove(seg_idx + 1),
        final(selected)@ == renumbered(
            old(selected)@.filter(not_segment_at(rela_idx, (seg_idx + 2) as usize, (seg_idx + 1) as usize)),
            rela_idx,
            (seg_idx + 1) as usize,
        ),
        segment_indices_below(old(selected)@, rela_idx, old(segments)@.len())
            ==> segment_indices_below(final(selected)@, rela_idx, final(segments)@.len()),
        selection_wf(old(selected)@) ==> selection_wf(final(selected)@),
{
    let _n = segments.len();
    segments.remove(seg_idx + 2);
    segments.remove(seg_idx + 1);
    let d = Discard::SegmentsAt(rela_idx, seg_idx + 2, seg_idx + 1);
    let mut rest = filtered(selected, d);
    let ghost kept = rest@;
    proof {
        lemma_kept_segments(old(selected)@, d, rela_idx, (seg_idx + 2) as usize, (seg_idx + 1) as usize);
    }
    proof {
        if selection_wf(old(selected)@) {
            lemma_filter_keeps_wf(old(selected)@, keeps(d));
            lemma_renumbered_keeps_wf(kept, rela_idx, (seg_idx + 1) as usize);
        }
    }
    renumber(&mut rest, rela_idx, seg_idx + 1);
    proof {
        if segment_indices_below(old(selected)@, rela_idx, old(segments)@.len()) {
            lemma_kept_in_range(old(selected)@, kept, rela_idx, old(segments)@.len(), (seg_idx + 2) as usize, (seg_idx + 1) as usize);
            lemma_renumbered_below(kept, rela_idx, (seg_idx + 1) as usize, old(segments)@.len());
        }
    }
    *selected = rest;
}

/// Joins segment `seg_idx` with segment `seg_idx - 2`: the two bends before
/// `seg_idx` go, those two segments leave the selection, and the selected
/// segments from `seg_idx` on are renumbered.
pub fn join_with_previous<S>(
    segments: &mut Vec<S>,
    selected: &mut Vec<Selected>,
    seg_idx: usize,
    rela_idx: usize,
)
    requires
        2 <= seg_idx < old(segments)@.len(),
    ensures
        final(segments)@ == old(segments)@.remove(seg_idx - 1).remove(seg_idx - 2),
        final(selected)@ == renumbered(
            old(selected)@.filter(not_segment_at(rela_idx, (seg_idx - 1) as usize, (seg_idx - 2) as usize)),
            rela_idx,
            seg_idx,
        ),
        segment_indices_below(old(selected)@, rela_idx, old(segments)@.len())
            ==> segment_indices_below(final(selected)@, rela_idx, final(segments)@.len()),
        selection_wf(old(selected)@) ==> selection_wf(final(selected)@),
{
    segments.remove(seg_idx - 1);
    segments.remove(seg_idx - 2);
    let d = Discard::SegmentsAt(rela_idx, seg_idx - 1, seg_idx - 2);
    let mut rest = filtered(selected, d);
    let ghost kept = rest@;
    proof {
        lemma_kept_segments(old(selected)@, d, rela_idx, (seg_idx - 1) as usize, (seg_idx - 2) as usize);
    }
    proof {
        if selection_wf(old(selected)@) {
            lemma_filter_keeps_wf(old(selected)@, keeps(d));
            lemma_renumbered_keeps_wf(kept, rela_idx, seg_idx);
        }
    }
    renumber(&mut rest, rela_idx, seg_idx);
    proof {
        if segment_indices_below(old(selected)@, rela_idx, old(segments)@.len()) {
            lemma_kept_in_range(old(selected)@, kept, rela_idx, old(segments)@.len(), (seg_idx - 1) as usize, (seg_idx - 2) as usize);
            lemma_renumbered_below(kept, rela_idx, seg_idx, old(segments)@.len());
        }
    }
    *selected = rest;
}

/// Joins the second-to-last run with the end of the line: the last two
/// bends go, and so do their segments from the selection.
pub fn join_with_end<S>(segments: &mut Vec<S>, selected: &mut Vec<Selected>, rela_idx: usize)
    requires
        old(segments)@.len() >= 3,
    ensures
        final(segments)@ == old(segments)@.take(old(segments)@.len() - 2),
        final(selected)@ == old(selected)@.filter(
            not_segment_at(
                rela_idx,
                (old(segments)@.len() - 1) as usize,
                (old(segments)@.len() - 2) as usize,
            ),
        ),
        segment_indices_below(old(selected)@, rela_idx, old(segments)@.len())
            ==> segment_indices_below(final(selected)@, rela_idx, final(segments)@.len()),
        selection_wf(old(selected)@) ==> selection_wf(final(selected)@),
{
    let n = segments.len();
    segments.pop();
    segments.pop();
    proof {
        assert(segments@ =~= old(segments)@.take(n - 2));
    }
    let d = Discard::SegmentsAt(rela_idx, n - 1, n - 2);
    let rest = filtered(selected, d);
    proof {
        lemma_kept_segments(old(selected)@, d, rela_idx, (n - 1) as usize, (n - 2) as usize);
        if segment_indices_below(old(selected)@, rela_idx, old(segments)@.len()) {
            lemma_kept_in_range(old(selected)@, rest@, rela_idx, n as nat, (n - 1) as usize, (n - 2) as usize);
        }
        if selection_wf(old(selected)@) {
            lemma_filter_keeps_wf(old(selected)@, keeps(d));
        }
    }
    *selected = rest;
}

/// Joins the second run with the start of the line: the first two bends go,
/// those two segments leave the selection, and every other selected segment
/// of the relation is renumbered.
pub fn join_with_start<S>(segments: &mut Vec<S>, selected: &mut Vec<Selected>, rela_idx: usize)
    requires
        old(segments)@.len() >= 3,
    ensures
        final(segments)@ == old(segments)@.skip(2),
        final(selected)@ == renumbered(
            old(selected)@.filter(not_segment_at(rela_idx, 1, 0)),
            rela_idx,
            0,
        ),
        segment_indices_below(old(selected)@, rela_idx, old(segments)@.len())
            ==> segment_indices_below(final(selected)@, rela_idx, final(segments)@.len()),
        selection_wf(old(selected)@) ==> selection_wf(final(selected)@),
{
    segments.remove(1);
    segments.remove(0);
    proof {
        assert(segments@ =~= old(segments)@.skip(2));
    }
    let d = Discard::SegmentsAt(rela_idx, 1, 0);
    let mut rest = filtered(selected, d);
    let ghost kept = rest@;
    proof {
        lemma_kept_segments(old(selected)@, d, rela_idx, 1, 0);
    }
    proof {
        if selection_wf(old(selected)@) {
            lemma_filter_keeps_wf(old(selected)@, keeps(d));
            lemma_renumbered_keeps_wf(kept, rela_idx, 0);
        }
    }
    renumber(&mut rest, rela_idx, 0);
    proof {
        if segment_indices_below(old(selected)@, rela_idx, old(segments)@.len()) {
            lemma_kept_in_range(old(selected)@, kept, rela_idx, old(segments)@.len(), 1, 0);
            lemma_renumbered_below(kept, rela_idx, 0, old(segments)@.len());
        }
    }
    *selected = rest;
}

/// What filtering out segments `a` and `b` of relation `rela_idx` leaves.
proof fn lemma_kept_segments(sel: Seq<Selected>, d: Discard, rela_idx: usize, a: usize, b: usize)
    requires
        d == Discard::SegmentsAt(rela_idx, a, b),
    ensures
        ({
            let f = sel.filter(keeps(d));
            forall|k: int|
                0 <= k < f.len() ==> (#[trigger] f[k] matches Selected::Relation {
                    relation,
                    segment: Some(i),
                } ==> (relation == rela_idx ==> i != a && i != b))
        }),
        forall|k: int|
            0 <= k < sel.filter(keeps(d)).len() ==> sel.contains(#[trigger] sel.filter(keeps(d))[k]),
{
    let f = sel.filter(keeps(d));
    assert forall|k: int| 0 <= k < f.len() implies sel.contains(#[trigger] f[k]) && (f[k] matches Selected::Relation {
        relation,
        segment: Some(i),
    } ==> (relation == rela_idx ==> i != a && i != b)) by {
        assert(f.contains(f[k]));
        lemma_filter_contains_iff(sel, keeps(d), f[k]);
    }
}

/// Renumbering keeps a selection well-formed when the segments it moves
/// cannot land on ones it leaves: either none sits at `from` or `from + 1`,
/// or none sits at `from - 2` or `from - 1`.
proof fn lemma_renumbered_keeps_wf(sel: Seq<Selected>, rela_idx: usize, from: usize)
    requires
        selection_wf(sel),
        forall|k: int|
            0 <= k < sel.len() ==> (#[trigger] sel[k] matches Selected::Relation {
                relation,
                segment: Some(i),
            } ==> (relation == rela_idx && i >= from ==> i >= 2)),
        (forall|k: int|
            0 <= k < sel.len() ==> (#[trigger] sel[k] matches Selected::Relation {
                relation,
                segment: Some(i),
            } ==> (relation == rela_idx ==> !(from <= i < from + 2)))) || (forall|k: int|
            0 <= k < sel.len() ==> (#[trigger] sel[k] matches Selected::Relation {
                relation,
                segment: Some(i),
            } ==> (relation == rela_idx ==> !(from - 2 <= i < from)))),
    ensures
        selection_wf(renumbered(sel, rela_idx, from)),
{
    let t = renumbered(sel, rela_idx, from);
    assert forall|a: int, b: int| 0 <= a < t.len() && 0 <= b < t.len() && a != b implies compatible(
        #[trigger] t[a],
        #[trigger] t[b],
    ) by {
        assert(t[a] == shifted_down(sel[a], rela_idx, from));
        assert(t[b] == shifted_down(sel[b], rela_idx, from));
        assert(compatible(sel[a], sel[b]));
        if let (
            Selected::Relation { relation: r1, segment: Some(i) },
            Selected::Relation { relation: r2, segment: Some(j) },
        ) = (sel[a], sel[b]) {
            if r1 == rela_idx && r2 == rela_idx {
                assert(i != j);
                if forall|k: int|
                    0 <= k < sel.len() ==> (#[trigger] sel[k] matches Selected::Relation {
                        relation,
                        segment: Some(i),
                    } ==> (relation == rela_idx ==> !(from <= i < from + 2))) {
                    assert(!(from <= i < from + 2));
                    assert(!(from <= j < from + 2));
                } else {
                    assert(!(from - 2 <= i < from));
                    assert(!(from - 2 <= j < from));
                }
            }
        }
    }
}

/// The kept segments were in range and are neither `a` nor `b`.
proof fn lemma_kept_in_range(
    sel: Seq<Selected>,
    kept: Seq<Selected>,
    rela_idx: usize,
    count: nat,
    a: usize,
    b: usize,
)
    requires
        segment_indices_below(sel, rela_idx, count),
        kept == sel.filter(keeps(Discard::SegmentsAt(rela_idx, a, b))),
    ensures
        forall|k: int|
            0 <= k < kept.len() ==> (#[trigger] kept[k] matches Selected::Relation {
                relation,
                segment: Some(i),
            } ==> (relation == rela_idx ==> i < count && i != a && i != b)),
{
    lemma_kept_segments(sel, Discard::SegmentsAt(rela_idx, a, b), rela_idx, a, b);
    assert forall|k: int| 0 <= k < kept.len() implies (#[trigger] kept[k] matches Selected::Relation {
        relation,
        segment: Some(i),
    } ==> (relation == rela_idx ==> i < count && i != a && i != b)) by {
        let m = lemma_index_of(sel, kept[k]);
        assert(sel[m] == kept[k]);
    }
}

/// Renumbering keeps indices in range once the two joined segments are gone.
proof fn lemma_renumbered_below(kept: Seq<Selected>, rela_idx: usize, from: usize, count: nat)
    requires
        count >= 2,
        forall|k: int|
            0 <= k < kept.len() ==> (#[trigger] kept[k] matches Selected::Relation {
                relation,
                segment: Some(i),
            } ==> (relation == rela_idx ==> (i < count && (i < from ==> i + 2 < count) && (i
                >= from ==> i >= 2)))),
    ensures
        segment_indices_below(renumbered(kept, rela_idx, from), rela_idx, (count - 2) as nat),
{
    let r = renumbered(kept, rela_idx, from);
    assert forall|k: int| 0 <= k < r.len() implies (#[trigger] r[k] matches Selected::Relation {
        relation,
        segment: Some(i),
    } ==> (relation == rela_idx ==> i < count - 2)) by {
        assert(r[k] == shifted_down(kept[k], rela_idx, from));
    }
}

/// Bends and selection after `join_with_next`.
pub open spec fn after_join_next<S>(segs: Seq<S>, sel: Seq<Selected>, seg_idx: usize, rela_idx: usize) -> (
    Seq<S>,
    Seq<Selected>,
) {
    (
        segs.remove(seg_idx + 2).remove(seg_idx + 1),
        renumbered(
            sel.filter(not_segment_at(rela_idx, (seg_idx + 2) as usize, (seg_idx + 1) as usize)),
            rela_idx,
            (seg_idx + 1) as usize,
        ),
    )
}

/// Bends and selection after `join_with_previous`.
pub open spec fn after_join_previous<S>(segs: Seq<S>, sel: Seq<Selected>, seg_idx: usize, rela_idx: usize) -> (
    Seq<S>,
    Seq<Selected>,
) {
    (
        segs.remove(seg_idx - 1).remove(seg_idx - 2),
        renumbered(
            sel.filter(not_segment_at(rela_idx, (seg_idx - 1) as usize, (seg_idx - 2) as usize)),
            rela_idx,
            seg_idx,
        ),
    )
}

/// Bends and selection after `join_with_end`.
pub open spec fn after_join_end<S>(segs: Seq<S>, sel: Seq<Selected>, rela_idx: usize) -> (
    Seq<S>,
    Seq<Selected>,
) {
    (
        segs.take(segs.len() - 2),
        sel.filter(not_segment_at(rela_idx, (segs.len() - 1) as usize, (segs.len() - 2) as usize)),
    )
}

/// Bends and selection after `join_with_start`.
pub open spec fn after_join_start<S>(segs: Seq<S>, sel: Seq<Selected>, rela_idx: usize) -> (
    Seq<S>,
    Seq<Selected>,
) {
    (segs.skip(2), renumbered(sel.filter(not_segment_at(rela_idx, 1, 0)), rela_idx, 0))
}

/// The outcome of tidying the bends of relation `rela_idx` around
/// `seg_idx`, given the answers `d` of the closeness test at each of its
/// five steps; each answer is one that `near` can give on the two values
/// that the step compares, and counts only where the step applies:
/// 1. segment `seg_idx` near segment `seg_idx + 2`: join them;
/// 2. segment `seg_idx` near segment `seg_idx - 2`: join them;
/// 3. with three bends or more, the second-to-last near `end_height`: join
///    with the end;
/// 4. with three bends or more, the second near `start_height`: join with
///    the start;
/// 5. with one bend left and the two ends near each other: drop it;
/// then the relation's segments collapse into the whole relation if all of
/// them are selected.
pub open spec fn joins_outcome<S, F: Fn(S, S) -> bool>(
    near: F,
    segs: Seq<S>,
    sel: Seq<Selected>,
    seg_idx: usize,
    rela_idx: usize,
    start_height: S,
    end_height: S,
    d: (bool, bool, bool, bool, bool),
    out_segs: Seq<S>,
    out_sel: Seq<Selected>,
) -> bool {
    let g1 = seg_idx + 2 < segs.len();
    let s1 = if g1 && d.0 {
        after_join_next(segs, sel, seg_idx, rela_idx)
    } else {
        (segs, sel)
    };
    let g2 = seg_idx >= 2 && seg_idx < s1.0.len();
    let s2 = if g2 && d.1 {
        after_join_previous(s1.0, s1.1, seg_idx, rela_idx)
    } else {
        s1
    };
    let g3 = s2.0.len() >= 3;
    let s3 = if g3 && d.2 {
        after_join_end(s2.0, s2.1, rela_idx)
    } else {
        s2
    };
    let g4 = s3.0.len() >= 3;
    let s4 = if g4 && d.3 {
        after_join_start(s3.0, s3.1, rela_idx)
    } else {
        s3
    };
    let g5 = s4.0.len() == 1;
    let segs5 = if g5 && d.4 {
        Seq::<S>::empty()
    } else {
        s4.0
    };
    &&& g1 ==> call_ensures(near, (segs[seg_idx as int], segs[seg_idx + 2]), d.0)
    &&& g2 ==> call_ensures(near, (s1.0[seg_idx as int], s1.0[seg_idx - 2]), d.1)
    &&& g3 ==> call_ensures(near, (s2.0[s2.0.len() - 2], end_height), d.2)
    &&& g4 ==> call_ensures(near, (s3.0[1], start_height), d.3)
    &&& g5 ==> call_ensures(near, (start_height, end_height), d.4)
    &&& out_segs == segs5
    &&& out_sel == collapsed(s4.1, rela_idx, segs5.len())
}

/// `near` says yes, and only yes, on `a` and `b`.
pub open spec fn surely_near<S, F: Fn(S, S) -> bool>(near: F, a: S, b: S) -> bool {
    forall|r: bool| call_ensures(near, (a, b), r) ==> r
}

/// `near` says no, and only no, on `a` and `b`.
pub open spec fn surely_apart<S, F: Fn(S, S) -> bool>(near: F, a: S, b: S) -> bool {
    forall|r: bool| call_ensures(near, (a, b), r) ==> !r
}

/// Law: when the dragged segment `seg_idx` has not come close to the
/// segment two after it but has come close to the segment two before it,
/// the two bends between them go: the tidied line has at least two bends
/// fewer. When, after that, the runs at either end are apart from the
/// line's ends (and more than one bend is left), the bends are exactly the
/// input without bends `seg_idx - 1` and `seg_idx - 2`, and the dragged
/// segment, if it was selected, stays selected under its new index
/// `seg_idx - 2` (or the whole relation is selected).
pub proof fn lemma_close_previous_run_is_joined<S, F: Fn(S, S) -> bool>(
    near: F,
    segs: Seq<S>,
    sel: Seq<Selected>,
    seg_idx: usize,
    rela_idx: usize,
    start_height: S,
    end_height: S,
    d: (bool, bool, bool, bool, bool),
    out_segs: Seq<S>,
    out_sel: Seq<Selected>,
)
    requires
        joins_outcome(
            near,
            segs,
            sel,
            seg_idx,
            rela_idx,
            start_height,
            end_height,
            d,
            out_segs,
            out_sel,
        ),
        2 <= seg_idx < segs.len(),
        seg_idx + 2 < segs.len() ==> surely_apart(near, segs[seg_idx as int], segs[seg_idx + 2]),
        surely_near(near, segs[seg_idx as int], segs[seg_idx - 2]),
    ensures
        out_segs.len() + 2 <= segs.len(),
        ({
            let r = segs.remove(seg_idx - 1).remove(seg_idx - 2);
            (r.len() >= 3 ==> surely_apart(near, r[r.len() - 2], end_height) && surely_apart(
                near,
                r[1],
                start_height,
            )) && r.len() != 1 ==> {
                &&& out_segs == r
                &&& sel.contains(
                    Selected::Relation { relation: rela_idx, segment: Some(seg_idx) },
                ) ==> (out_sel.contains(
                    Selected::Relation { relation: rela_idx, segment: Some((seg_idx - 2) as usize) },
                ) || out_sel.contains(
                    Selected::Relation { relation: rela_idx, segment: None },
                ))
            }
        }),
{
    let g1 = seg_idx + 2 < segs.len();
    assert(!(g1 && d.0));
    let s2 = after_join_previous(segs, sel, seg_idx, rela_idx);
    assert(d.1);
    let r = segs.remove(seg_idx - 1).remove(seg_idx - 2);
    assert(s2.0 == r);
    assert(r.len() == segs.len() - 2);
    let s3 = if r.len() >= 3 && d.2 {
        after_join_end(s2.0, s2.1, rela_idx)
    } else {
        s2
    };
    assert(s3.0.len() <= r.len());
    let s4 = if s3.0.len() >= 3 && d.3 {
        after_join_start(s3.0, s3.1, rela_idx)
    } else {
        s3
    };
    assert(s4.0.len() <= r.len());
    if (r.len() >= 3 ==> surely_apart(near, r[r.len() - 2], end_height) && surely_apart(
        near,
        r[1],
        start_height,
    )) && r.len() != 1 {
        assert(s3 == s2);
        assert(s4 == s2);
        assert(out_segs == r);
        let x = Selected::Relation { relation: rela_idx, segment: Some(seg_idx) };
        let y = Selected::Relation { relation: rela_idx, segment: Some((seg_idx - 2) as usize) };
        if sel.contains(x) {
            let p = not_segment_at(rela_idx, (seg_idx - 1) as usize, (seg_idx - 2) as usize);
            let f = sel.filter(p);
            lemma_filter_contains_iff(sel, p, x);
            let m = lemma_index_of(f, x);
            let rn = renumbered(f, rela_idx, seg_idx);
            assert(rn[m] == shifted_down(x, rela_idx, seg_idx));
            assert(rn[m] == y);
            assert(rn.contains(y));
            let n = selected_segment_count(rn, rela_idx);
            if n >= 1 && n >= r.len() {
                let c = rn.filter(not_segment_of(rela_idx)).push(
                    Selected::Relation { relation: rela_idx, segment: None },
                );
                assert(c[c.len() - 1] == Selected::Relation { relation: rela_idx, segment: None });
                assert(out_sel == c);
            } else {
                assert(out_sel == rn);
            }
        }
    }
}

/// Collapsing keeps selected segment indices in range, and leaves none of
/// the relation when its bends are all gone.
proof fn lemma_collapse_keeps_range(sel: Seq<Selected>, rela_idx: usize, before: nat, after: nat)
    requires
        segment_indices_below(sel, rela_idx, before),
        after == before || after == 0,
    ensures
        segment_indices_below(collapsed(sel, rela_idx, after), rela_idx, after),
{
    let n = selected_segment_count(sel, rela_idx);
    let c = collapsed(sel, rela_idx, after);
    if n >= 1 && n >= after {
        let f = sel.filter(not_segment_of(rela_idx));
        assert forall|k: int| 0 <= k < c.len() implies (#[trigger] c[k] matches Selected::Relation {
            relation,
            segment: Some(i),
        } ==> (relation == rela_idx ==> i < after)) by {
            if k < f.len() {
                assert(f.contains(f[k]));
                lemma_filter_contains_iff(sel, not_segment_of(rela_idx), f[k]);
            }
        }
    } else if after == 0 {
        assert forall|k: int| 0 <= k < sel.len() implies !(#[trigger] sel[k] matches Selected::Relation {
            relation,
            segment: Some(_),
        } && relation == rela_idx) by {
            if sel[k] matches Selected::Relation { relation, segment: Some(_) } && relation == rela_idx {
                sel.lemma_filter_contains(segment_of(rela_idx), k);
                assert(sel.filter(segment_of(rela_idx)).len() > 0);
            }
        }
    }
}

/// Tidies the bends of relation `rela_idx` around segment `seg_idx`, as
/// `joins_outcome` states; `near` tells whether two coordinates are close
/// enough to join.
pub fn verify_line_segment_joins<S: Copy, F: Fn(S, S) -> bool>(
    segments: &mut Vec<S>,
    seg_idx: usize,
    start_height: S,
    end_height: S,
    selected: &mut Vec<Selected>,
    rela_idx: usize,
    near: F,
)
    requires
        seg_idx + 2 <= usize::MAX,
        forall|a: S, b: S| call_requires(near, (a, b)),
    ensures
        exists|d: (bool, bool, bool, bool, bool)|
            joins_outcome(
                near,
                old(segments)@,
                old(selected)@,
                seg_idx,
                rela_idx,
                start_height,
                end_height,
                d,
                final(segments)@,
                final(selected)@,
            ),
        selection_wf(old(selected)@) ==> selection_wf(final(selected)@),
        segment_indices_below(old(selected)@, rela_idx, old(segments)@.len())
            ==> segment_indices_below(final(selected)@, rela_idx, final(segments)@.len()),
{
    let ghost segs0 = segments@;
    let ghost sel0 = selected@;
    let d1 = next_step(segments, selected, seg_idx, rela_idx, &near);
    let ghost segs1 = segments@;
    let ghost sel1 = selected@;
    let d2 = previous_step(segments, selected, seg_idx, rela_idx, &near);
    let ghost segs2 = segments@;
    let ghost sel2 = selected@;
    let d3 = end_step(segments, selected, end_height, rela_idx, &near);
    let ghost segs3 = segments@;
    let ghost sel3 = selected@;
    let d4 = start_step(segments, selected, start_height, rela_idx, &near);
    let ghost segs4 = segments@;
    let ghost sel4 = selected@;
    let mut d5 = false;
    if segments.len() == 1 {
        d5 = near(start_height, end_height);
        if d5 {
            segments.clear();
        }
    }
    proof {
        if selection_wf(sel0) {
            assert(selection_wf(sel4));
            lemma_collapse_keeps_wf(sel4, rela_idx, segments@.len() as usize);
        }
        if segment_indices_below(sel0, rela_idx, segs0.len()) {
            assert(segment_indices_below(sel4, rela_idx, segs4.len()));
            lemma_collapse_keeps_range(sel4, rela_idx, segs4.len(), segments@.len());
        }
    }
    collapse_full_relation(selected, rela_idx, segments.len());
    proof {
        assert(joins_outcome(
            near,
            segs0,
            sel0,
            seg_idx,
            rela_idx,
            start_height,
            end_height,
            (d1, d2, d3, d4, d5),
            segments@,
            selected@,
        ));
    }
}

fn next_step<S: Copy, F: Fn(S, S) -> bool>(
    segments: &mut Vec<S>,
    selected: &mut Vec<Selected>,
    seg_idx: usize,
    rela_idx: usize,
    near: &F,
) -> (d: bool)
    requires
        seg_idx + 2 <= usize::MAX,
        forall|a: S, b: S| call_requires(*near, (a, b)),
    ensures
        ({
            let g = seg_idx + 2 < old(segments)@.len();
            &&& (final(segments)@, final(selected)@) == if g && d {
                after_join_next(old(segments)@, old(selected)@, seg_idx, rela_idx)
            } else {
                (old(segments)@, old(selected)@)
            }
            &&& g ==> call_ensures(*near, (old(segments)@[seg_idx as int], old(segments)@[seg_idx + 2]), d)
        }),
        selection_wf(old(selected)@) ==> selection_wf(final(selected)@),
        segment_indices_below(old(selected)@, rela_idx, old(segments)@.len())
            ==> segment_indices_below(final(selected)@, rela_idx, final(segments)@.len()),
{
    let mut d = false;
    if seg_idx + 2 < segments.len() {
        d = near(segments[seg_idx], segments[seg_idx + 2]);
        if d {
            join_with_next(segments, selected, seg_idx, rela_idx);
        }
    }
    d
}

fn previous_step<S: Copy, F: Fn(S, S) -> bool>(
    segments: &mut Vec<S>,
    selected: &mut Vec<Selected>,
    seg_idx: usize,
    rela_idx: usize,
    near: &F,
) -> (d: bool)
    requires
        forall|a: S, b: S| call_requires(*near, (a, b)),
    ensures
        ({
            let g = seg_idx >= 2 && seg_idx < old(segments)@.len();
            &&& (final(segments)@, final(selected)@) == if g && d {
                after_join_previous(old(segments)@, old(selected)@, seg_idx, rela_idx)
            } else {
                (old(segments)@, old(selected)@)
            }
            &&& g ==> call_ensures(*near, (old(segments)@[seg_idx as int], old(segments)@[seg_idx - 2]), d)
        }),
        selection_wf(old(selected)@) ==> selection_wf(final(selected)@),
        segment_indices_below(old(selected)@, rela_idx, old(segments)@.len())
            ==> segment_indices_below(final(selected)@, rela_idx, final(segments)@.len()),
{
    let mut d = false;
    if seg_idx >= 2 && seg_idx < segments.len() {
        d = near(segments[seg_idx], segments[seg_idx - 2]);
        if d {
            join_with_previous(segments, selected, seg_idx, rela_idx);
        }
    }
    d
}

fn end_step<S: Copy, F: Fn(S, S) -> bool>(
    segments: &mut Vec<S>,
    selected: &mut Vec<Selected>,
    end_height: S,
    rela_idx: usize,
    near: &F,
) -> (d: bool)
    requires
        forall|a: S, b: S| call_requires(*near, (a, b)),
    ensures
        ({
            let g = old(segments)@.len() >= 3;
            &&& (final(segments)@, final(selected)@) == if g && d {
                after_join_end(old(segments)@, old(selected)@, rela_idx)
            } else {
                (old(segments)@, old(selected)@)
            }
            &&& g ==> call_ensures(*near, (old(segments)@[old(segments)@.len() - 2], end_height), d)
        }),
        selection_wf(old(selected)@) ==> selection_wf(final(selected)@),
        segment_indices_below(old(selected)@, rela_idx, old(segments)@.len())
            ==> segment_indices_below(final(selected)@, rela_idx, final(segments)@.len()),
{
    let mut d = false;
    if segments.len() >= 3 {
        d = near(segments[segments.len() - 2], end_height);
        if d {
            join_with_end(segments, selected, rela_idx);
        }
    }
    d
}

fn start_step<S: Copy, F: Fn(S, S) -> bool>(
    segments: &mut Vec<S>,
    selected: &mut Vec<Selected>,
    start_height: S,
    rela_idx: usize,
    near: &F,
) -> (d: bool)
    requires
        forall|a: S, b: S| call_requires(*near, (a, b)),
    ensures
        ({
            let g = old(segments)@.len() >= 3;
            &&& (final(segments)@, final(selected)@) == if g && d {
                after_join_start(old(segments)@, old(selected)@, rela_idx)
            } else {
                (old(segments)@, old(selected)@)
            }
            &&& g ==> call_ensures(*near, (old(segments)@[1], start_height), d)
        }),
        selection_wf(old(selected)@) ==> selection_wf(final(selected)@),
        segment_indices_below(old(selected)@, rela_idx, old(segments)@.len())
            ==> segment_indices_below(final(selected)@, rela_idx, final(segments)@.len()),
{
    let mut d = false;
    if segments.len() >= 3 {
        d = near(segments[1], start_height);
        if d {
            join_with_start(segments, selected, rela_idx);
        }
    }
    d
}

/// Which relations a finished drag asks to tidy: `(relation, None)` for a
/// whole relation, `(relation, Some(segment))` for one segment.
pub open spec fn relations_ending_at<S>(rels: Seq<Relation<S>>, table: usize) -> Seq<
    (usize, Option<usize>),
>
    decreases rels.len(),
{
    if rels.len() == 0 {
        seq![]
    } else {
        let before = relations_ending_at(rels.drop_last(), table);
        let last = rels.last();
        if last.tables[0] == table || last.tables[1] == table {
            before.push(((rels.len() - 1) as usize, None))
        } else {
            before
        }
    }
}

/// The tidy-ups that one selection entry asks for: every relation ending at
/// a selected table, a selected relation, or a selected segment.
pub open spec fn checks_for<S>(s: Selected, rels: Seq<Relation<S>>) -> Seq<(usize, Option<usize>)> {
    match s {
        Selected::Table { table, .. } => relations_ending_at(rels, table),
        Selected::Relation { relation, segment } => seq![(relation, segment)],
    }
}

/// The tidy-ups that the whole selection asks for, entry by entry.
pub open spec fn checks_for_selection<S>(sel: Seq<Selected>, rels: Seq<Relation<S>>) -> Seq<
    (usize, Option<usize>),
>
    decreases sel.len(),
{
    if sel.len() == 0 {
        seq![]
    } else {
        checks_for_selection(sel.drop_last(), rels) + checks_for(sel.last(), rels)
    }
}

/// Lists the relations (whole or by one segment) whose bends are to be
/// tidied after the selection was dragged.
pub fn segments_to_verify<S>(selected: &Vec<Selected>, relations: &Vec<Relation<S>>) -> (checks:
    Vec<(usize, Option<usize>)>)
    ensures
        checks@ == checks_for_selection(selected@, relations@),
{
    let mut checks: Vec<(usize, Option<usize>)> = Vec::new();
    let mut i: usize = 0;
    while i < selected.len()
        invariant
            i <= selected.len(),
            checks@ == checks_for_selection(selected@.take(i as int), relations@),
        decreases selected.len() - i,
    {
        let ghost before = checks@;
        proof {
            assert(selected@.take(i + 1).drop_last() =~= selected@.take(i as int));
            assert(selected@.take(i + 1).last() == selected@[i as int]);
        }
        match selected[i] {
            Selected::Table { table, .. } => {
                let mut k: usize = 0;
                while k < relations.len()
                    invariant
                        k <= relations.len(),
                        checks@ == before + relations_ending_at(relations@.take(k as int), table),
                    decreases relations.len() - k,
                {
                    proof {
                        assert(relations@.take(k + 1).drop_last() =~= relations@.take(k as int));
                        assert(relations@.take(k + 1).last() == relations@[k as int]);
                    }
                    if relations[k].tables[0] == table || relations[k].tables[1] == table {
                        checks.push((k, None));
                    }
                    k += 1;
                    proof {
                        assert(checks@ =~= before + relations_ending_at(
                            relations@.take(k as int),
                            table,
                        ));
                    }
                }
                proof {
                    assert(relations@.take(relations@.len() as int) =~= relations@);
                }
            },
            Selected::Relation { relation, segment } => {
                checks.push((relation, segment));
                proof {
                    assert(checks@ =~= before + seq![(relation, segment)]);
                }
            },
        }
        i += 1;
    }
    proof {
        assert(selected@.take(selected@.len() as int) =~= selected@);
    }
    checks
}

} // verus!
