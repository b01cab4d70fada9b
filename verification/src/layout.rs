//! The initial placement of tables that arrive without positions: left to
//! right in rows 350 units apart, starting a new row once past x = 1200.
use vstd::prelude::*;

verus! {

/// Where the automatic layout places table `i` (x, y).
pub open spec fn layout_position(i: nat) -> (int, int)
    decreases i,
{
    if i == 0 {
        (200, 200)
    } else {
        let (x, y) = layout_position((i - 1) as nat);
        if x + 350 > 1200 {
            (50, y + 350)
        } else {
            (x + 350, y)
        }
    }
}

/// Law: every automatically placed table lies between x = 50 and x = 1200,
/// and no higher than y = 200 + 350 i.
pub proof fn lemma_layout_bounds(i: nat)
    ensures
        50 <= layout_position(i).0 <= 1200,
        200 <= layout_position(i).1 <= 200 + 350 * i,
    decreases i,
{
    if i > 0 {
        lemma_layout_bounds((i - 1) as nat);
    }
}

/// `a` comes after `b` in reading order: a lower row, or further right in
/// the same row.
pub open spec fn later(a: (int, int), b: (int, int)) -> bool {
    a.1 > b.1 || (a.1 == b.1 && a.0 > b.0)
}

/// Law: the automatic layout places tables in reading order, so no two
/// tables share a position.
pub proof fn lemma_layout_in_reading_order(i: nat, j: nat)
    requires
        i < j,
    ensures
        later(layout_position(j), layout_position(i)),
        layout_position(i) != layout_position(j),
    decreases j - i,
{
    if j == i + 1 {
    } else {
        lemma_layout_in_reading_order(i, (j - 1) as nat);
    }
}

/// The positions of the first `count` tables under the automatic layout.
pub fn auto_layout_positions(count: usize) -> (positions: Vec<(u64, u128)>)
    ensures
        positions@.len() == count,
        forall|i: int|
            0 <= i < count ==> (#[trigger] positions@[i]).0 as int == layout_position(i as nat).0
                && positions@[i].1 as int == layout_position(i as nat).1,
{
    let mut positions: Vec<(u64, u128)> = Vec::new();
    let mut x: u64 = 200;
    let mut y: u128 = 200;
    let mut i: usize = 0;
    while i < count
        invariant
            i <= count,
            positions@.len() == i,
            forall|k: int|
                0 <= k < i ==> (#[trigger] positions@[k]).0 as int == layout_position(k as nat).0
                    && positions@[k].1 as int == layout_position(k as nat).1,
            x as int == layout_position(i as nat).0,
            y as int == layout_position(i as nat).1,
        decreases count - i,
    {
        proof {
            lemma_layout_bounds(i as nat);
            lemma_layout_bounds((i + 1) as nat);
            assert(350 * (i + 1) <= 350 * 0x1_0000_0000_0000_0000int) by (nonlinear_arith)
                requires
                    i < 0x1_0000_0000_0000_0000int,
            ;
        }
        positions.push((x, y));
        x = x + 350;
        if x > 1200 {
            x = 50;
            y = y + 350;
        }
        i += 1;
    }
    positions
}

} // verus!
