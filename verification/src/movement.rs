//! What dragging the selection moves: selected tables, and the bends of
//! selected relations and segments. The editor adds the drag offset to the
//! positions that this plan names.
use vstd::prelude::*;
use crate::diagram::Relation;
use crate::selection::Selected;

verus! {

/// The coordinate that a bend holds: x for even bends, y for odd ones.
#[derive(Clone, Copy, Debug, PartialEq, Eq, Structural)]
pub enum Axis {
    X,
    Y,
}

/// One change that a drag makes.
#[derive(Clone, Copy, Debug, PartialEq, Eq, Structural)]
pub enum Movement {
    /// Table `0` moves by the drag.
    Table(usize),
    /// Relation `0`, routed automatically so far, gets its first bend at
    /// the x halfway between its two tables.
    FirstBend(usize),
    /// Bend `index` of relation `relation` moves along `axis`.
    Bend { relation: usize, index: usize, axis: Axis },
}

/// The axis of bend `index`.
pub open spec fn axis_of(index: int) -> Axis {
    if index % 2 == 0 {
        Axis::X
    } else {
        Axis::Y
    }
}

/// The moves for one selection entry, given the current numbers of bends
/// `lens`, and the numbers of bends after them.
pub open spec fn moves_for(s: Selected, lens: Seq<nat>) -> (Seq<Movement>, Seq<nat>) {
    match s {
        Selected::Table { table, .. } => (seq![Movement::Table(table)], lens),
        Selected::Relation { relation, segment: None } => {
            let n = lens[relation as int];
            if n == 0 {
                (
                    seq![
                        Movement::FirstBend(relation),
                        Movement::Bend { relation, index: 0, axis: Axis::X },
                    ],
                    lens.update(relation as int, 1),
                )
            } else {
                (
                    Seq::new(
                        n,
                        |i: int| Movement::Bend { relation, index: i as usize, axis: axis_of(i) },
                    ),
                    lens,
                )
            }
        },
        Selected::Relation { relation, segment: Some(k) } => {
            if lens[relation as int] > k {
                (seq![Movement::Bend { relation, index: k, axis: axis_of(k as int) }], lens)
            } else {
                (seq![], lens)
            }
        },
    }
}

/// The moves for the selection entry by entry, and the numbers of bends
/// after them.
pub open spec fn moves(sel: Seq<Selected>, lens: Seq<nat>) -> (Seq<Movement>, Seq<nat>)
    decreases sel.len(),
{
    if sel.len() == 0 {
        (seq![], lens)
    } else {
        let (before, lens1) = moves(sel.drop_last(), lens);
        let (last, lens2) = moves_for(sel.last(), lens1);
        (before + last, lens2)
    }
}

/// The numbers of bends of `relations`.
pub open spec fn bend_counts<S>(relations: Seq<Relation<S>>) -> Seq<nat> {
    Seq::new(relations.len(), |i: int| relations[i].relation_segments@.len())
}

/// Every relation that the selection names exists.
pub open spec fn names_relations_below(sel: Seq<Selected>, count: nat) -> bool {
    forall|k: int|
        0 <= k < sel.len() ==> (#[trigger] sel[k] matches Selected::Relation { relation, .. }
            ==> relation < count)
}

/// Law: every bend that the plan moves exists once the plan's first bends
/// are added, and the plan only ever adds bends.
pub proof fn lemma_moved_bends_exist(sel: Seq<Selected>, lens: Seq<nat>)
    requires
        names_relations_below(sel, lens.len()),
    ensures
        moves(sel, lens).1.len() == lens.len(),
        forall|r: int| 0 <= r < lens.len() ==> #[trigger] moves(sel, lens).1[r] >= lens[r],
        forall|k: int|
            0 <= k < moves(sel, lens).0.len() ==> (#[trigger] moves(sel, lens).0[k] matches Movement::Bend {
                relation,
                index,
                ..
            } ==> relation < lens.len() && index < moves(sel, lens).1[relation as int]),
    decreases sel.len(),
{
    if sel.len() > 0 {
        let rest = sel.drop_last();
        assert(names_relations_below(rest, lens.len())) by {
            assert forall|k: int| 0 <= k < rest.len() implies (#[trigger] rest[k] matches Selected::Relation {
                relation,
                ..
            } ==> relation < lens.len()) by {
                assert(rest[k] == sel[k]);
            }
        }
        lemma_moved_bends_exist(rest, lens);
        let (before, lens1) = moves(rest, lens);
        let (last, lens2) = moves_for(sel.last(), lens1);
        assert(sel[sel.len() - 1] == sel.last());
        let all = before + last;
        assert forall|k: int| 0 <= k < all.len() implies (#[trigger] all[k] matches Movement::Bend {
            relation,
            index,
            ..
        } ==> relation < lens.len() && index < lens2[relation as int]) by {
            if k < before.len() {
                assert(all[k] == before[k]);
            } else {
                assert(all[k] == last[k - before.len()]);
            }
        }
    }
}

/// The moves that dragging the selection makes, in order.
pub fn movement_plan<S>(selected: &Vec<Selected>, relations: &Vec<Relation<S>>) -> (plan: Vec<
    Movement,
>)
    requires
        names_relations_below(selected@, relations@.len()),
    ensures
        plan@ == moves(selected@, bend_counts(relations@)).0,
{
    let mut lens: Vec<usize> = Vec::new();
    let mut j: usize = 0;
    while j < relations.len()
        invariant
            j <= relations.len(),
            lens@.len() == j,
            forall|k: int| 0 <= k < j ==> lens@[k] == relations@[k].relation_segments@.len(),
        decreases relations.len() - j,
    {
        lens.push(relations[j].relation_segments.len());
        j += 1;
    }
    let ghost lens0 = bend_counts(relations@);
    assert(lens@.map_values(|n: usize| n as nat) =~= lens0);
    let mut plan: Vec<Movement> = Vec::new();
    let mut i: usize = 0;
    while i < selected.len()
        invariant
            i <= selected.len(),
            names_relations_below(selected@, relations@.len()),
            lens@.len() == relations@.len(),
            lens0 == bend_counts(relations@),
            plan@ == moves(selected@.take(i as int), lens0).0,
            lens@.map_values(|n: usize| n as nat) == moves(selected@.take(i as int), lens0).1,
        decreases selected.len() - i,
    {
        let ghost before = plan@;
        let ghost state = moves(selected@.take(i as int), lens0).1;
        proof {
            assert(selected@.take(i + 1).drop_last() =~= selected@.take(i as int));
            assert(selected@.take(i + 1).last() == selected@[i as int]);
            assert(state.len() == lens@.len());
        }
        match selected[i] {
            Selected::Table { table, .. } => {
                plan.push(Movement::Table(table));
                assert(plan@ =~= before + seq![Movement::Table(table)]);
            },
            Selected::Relation { relation, segment: None } => {
                assert(selected@[i as int] matches Selected::Relation { relation: r, .. } && r
                    < relations@.len());
                assert(lens@[relation as int] as nat == state[relation as int]);
                let n = lens[relation];
                if n == 0 {
                    plan.push(Movement::FirstBend(relation));
                    plan.push(Movement::Bend { relation, index: 0, axis: Axis::X });
                    lens.set(relation, 1);
                    assert(plan@ =~= before + seq![
                        Movement::FirstBend(relation),
                        Movement::Bend { relation, index: 0, axis: Axis::X },
                    ]);
                    assert(lens@.map_values(|n: usize| n as nat) =~= state.update(relation as int, 1));
                } else {
                    let mut k: usize = 0;
                    while k < n
                        invariant
                            k <= n,
                            plan@ == before + Seq::new(
                                k as nat,
                                |m: int|
                                    Movement::Bend {
                                        relation,
                                        index: m as usize,
                                        axis: axis_of(m),
                                    },
                            ),
                        decreases n - k,
                    {
                        let axis = if k % 2 == 0 {
                            Axis::X
                        } else {
                            Axis::Y
                        };
                        plan.push(Movement::Bend { relation, index: k, axis });
                        k += 1;
                        assert(plan@ =~= before + Seq::new(
                            k as nat,
                            |m: int|
                                Movement::Bend {
                                    relation,
                                    index: m as usize,
                                    axis: axis_of(m),
                                },
                        ));
                    }
                }
            },
            Selected::Relation { relation, segment: Some(k) } => {
                assert(selected@[i as int] matches Selected::Relation { relation: r, .. } && r
                    < relations@.len());
                assert(lens@[relation as int] as nat == state[relation as int]);
                if lens[relation] > k {
                    let axis = if k % 2 == 0 {
                        Axis::X
                    } else {
                        Axis::Y
                    };
                    plan.push(Movement::Bend { relation, index: k, axis });
                    assert(plan@ =~= before + seq![
                        Movement::Bend { relation, index: k, axis: axis_of(k as int) },
                    ]);
                } else {
                    assert(plan@ =~= before + Seq::<Movement>::empty());
                }
            },
        }
        i += 1;
    }
    proof {
        assert(selected@.take(selected@.len() as int) =~= selected@);
    }
    plan
}

} // verus!
