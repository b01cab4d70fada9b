//! Moving a single selected table or column with the arrow keys.
use vstd::prelude::*;
use crate::diagram::Table;
use crate::selection::Selected;

verus! {

/// The arrow keys pressed in one frame.
#[derive(Clone, Copy, Debug, PartialEq, Eq)]
pub struct ArrowKeys {
    pub right: bool,
    pub left: bool,
    pub down: bool,
    pub up: bool,
}

/// Table and column after the right and left keys: right goes to the next
/// table, left to the previous one (both wrapping around), and either
/// selects the table as a whole.
pub open spec fn after_horizontal(table: usize, column: Option<usize>, count: nat, keys: ArrowKeys) -> (
    usize,
    Option<usize>,
) {
    let (t1, c1) = if keys.right {
        (((table + 1) % (count as int)) as usize, None)
    } else {
        (table, column)
    };
    if keys.left {
        (((t1 + count - 1) % (count as int)) as usize, None)
    } else {
        (t1, c1)
    }
}

/// Column after the down and up keys, in a table of `columns` columns:
/// down goes to the next column (from the whole table to the first column,
/// from the last column to the whole table), up to the previous one.
pub open spec fn after_vertical(column: Option<usize>, columns: nat, keys: ArrowKeys) -> Option<
    usize,
> {
    match column {
        Some(c) => if keys.down {
            if c != columns - 1 {
                Some((c + 1) as usize)
            } else {
                None
            }
        } else if keys.up {
            if c != 0 {
                Some((c - 1) as usize)
            } else {
                None
            }
        } else {
            Some(c)
        },
        None => if columns != 0 {
            if keys.down {
                Some(0)
            } else if keys.up {
                Some((columns - 1) as usize)
            } else {
                None
            }
        } else {
            None
        },
    }
}

/// Where the arrow keys move a single selected entry; a relation stays.
pub open spec fn navigated<P>(item: Selected, tables: Seq<Table<P>>, keys: ArrowKeys) -> Selected {
    match item {
        Selected::Relation { .. } => item,
        Selected::Table { table, column } => {
            let (t, c) = after_horizontal(table, column, tables.len(), keys);
            Selected::Table {
                table: t,
                column: after_vertical(c, tables[t as int].columns@.len(), keys),
            }
        },
    }
}

/// The inputs on which moving does not fail: the table count is not zero
/// when right or left is pressed, no index overflows, and the table that
/// the move lands on exists where its columns are consulted.
pub open spec fn navigation_defined<P>(item: Selected, tables: Seq<Table<P>>, keys: ArrowKeys) -> bool {
    match item {
        Selected::Relation { .. } => true,
        Selected::Table { table, column } => {
            let n = tables.len();
            let t1 = if keys.right {
                ((table + 1) % (n as int)) as usize
            } else {
                table
            };
            let (t, c) = after_horizontal(table, column, n, keys);
            &&& keys.right ==> n > 0 && table + 1 <= usize::MAX
            &&& keys.left ==> n > 0 && t1 + n <= usize::MAX
            &&& c is None ==> t < n
            &&& (c is Some && keys.down) ==> t < n && tables[t as int].columns@.len() >= 1 && (
            c->0 + 1 <= usize::MAX || c->0 == tables[t as int].columns@.len() - 1)
        },
    }
}

/// Law: in a table with columns, moving down and then up comes back to the
/// same entry (the whole table or a column of it).
pub proof fn lemma_up_undoes_down(column: Option<usize>, columns: usize)
    requires
        columns >= 1,
        column matches Some(c) ==> c < columns,
    ensures
        after_vertical(
            after_vertical(column, columns as nat, ArrowKeys { right: false, left: false, down: true, up: false }),
            columns as nat,
            ArrowKeys { right: false, left: false, down: false, up: true },
        ) == column,
{
}

/// Law: in a table with columns, moving up and then down comes back to the
/// same entry.
pub proof fn lemma_down_undoes_up(column: Option<usize>, columns: usize)
    requires
        columns >= 1,
        column matches Some(c) ==> c < columns,
    ensures
        after_vertical(
            after_vertical(column, columns as nat, ArrowKeys { right: false, left: false, down: false, up: true }),
            columns as nat,
            ArrowKeys { right: false, left: false, down: true, up: false },
        ) == column,
{
}

/// Law: moving right and then left comes back to the same table (as a
/// whole), and so does moving left and then right.
pub proof fn lemma_left_undoes_right(table: usize, count: usize)
    requires
        table < count,
    ensures
        after_horizontal(
            after_horizontal(table, None, count as nat, ArrowKeys { right: true, left: false, down: false, up: false }).0,
            None,
            count as nat,
            ArrowKeys { right: false, left: true, down: false, up: false },
        ) == (table, None::<usize>),
        after_horizontal(
            after_horizontal(table, None, count as nat, ArrowKeys { right: false, left: true, down: false, up: false }).0,
            None,
            count as nat,
            ArrowKeys { right: true, left: false, down: false, up: false },
        ) == (table, None::<usize>),
{
    let n = count as int;
    let t = table as int;
    if t + 1 < n {
        assert((t + 1) % n == t + 1) by (nonlinear_arith) requires 0 <= t + 1 < n;
        assert((t + 1 + n - 1) % n == t) by (nonlinear_arith) requires 0 <= t < n;
    } else {
        assert((t + 1) % n == 0) by (nonlinear_arith) requires t + 1 == n, n > 0;
        assert((0 + n - 1) % n == t) by (nonlinear_arith) requires t == n - 1, n > 0;
    }
    if t == 0 {
        assert((t + n - 1) % n == n - 1) by (nonlinear_arith) requires t == 0, n > 0;
        assert((n - 1 + 1) % n == 0) by (nonlinear_arith) requires n > 0;
    } else {
        assert((t + n - 1) % n == t - 1) by (nonlinear_arith) requires 0 < t < n;
        assert((t - 1 + 1) % n == t) by (nonlinear_arith) requires 0 < t < n;
    }
}

/// Law: pressing left or right (without up or down) always lands on a whole
/// table, whatever column was selected: left on the previous table, right
/// on the next one, both wrapping around.
pub proof fn lemma_sideways_lands_on_whole_table<P>(
    table: usize,
    column: Option<usize>,
    tables: Seq<Table<P>>,
    keys: ArrowKeys,
)
    requires
        table < tables.len(),
        !keys.down,
        !keys.up,
    ensures
        keys.left && !keys.right ==> navigated((Selected::Table { table, column }), tables, keys)
            == (Selected::Table {
            table: ((table + tables.len() - 1) % (tables.len() as int)) as usize,
            column: None,
        }),
        keys.right && !keys.left ==> navigated((Selected::Table { table, column }), tables, keys)
            == (Selected::Table { table: ((table + 1) % (tables.len() as int)) as usize, column: None }),
{
}

/// Whether moving `item` with `keys` is defined (see `navigation_defined`).
pub fn can_navigate<P>(item: &Selected, tables: &Vec<Table<P>>, keys: ArrowKeys) -> (ok: bool)
    ensures
        ok == navigation_defined(*item, tables@, keys),
{
    match *item {
        Selected::Relation { .. } => true,
        Selected::Table { table, column } => {
            let n = tables.len();
            let mut t = table;
            let mut c = column;
            if keys.right {
                if n == 0 || table == usize::MAX {
                    return false;
                }
                t = (table + 1) % n;
                c = None;
            }
            if keys.left {
                if n == 0 || t > usize::MAX - n {
                    return false;
                }
                t = (t + n - 1) % n;
                c = None;
            }
            match c {
                None => t < n,
                Some(ci) => {
                    if keys.down {
                        t < n && tables[t].columns.len() >= 1 && (ci < usize::MAX || ci
                            == tables[t].columns.len() - 1)
                    } else {
                        true
                    }
                },
            }
        },
    }
}

/// Moves a single selected entry with the arrow keys.
pub fn navigate_selection<P>(item: &mut Selected, tables: &Vec<Table<P>>, keys: ArrowKeys)
    requires
        navigation_defined(*old(item), tables@, keys),
    ensures
        *final(item) == navigated(*old(item), tables@, keys),
{
    match *item {
        Selected::Relation { .. } => {},
        Selected::Table { table, column } => {
            let mut t = table;
            let mut c = column;
            if keys.right {
                t = (t + 1) % tables.len();
                c = None;
            }
            if keys.left {
                t = (t + tables.len() - 1) % tables.len();
                c = None;
            }
            match c {
                Some(col_idx) => {
                    if keys.down {
                        if col_idx != tables[t].columns.len() - 1 {
                            c = Some(col_idx + 1);
                        } else {
                            c = None;
                        }
                    } else if keys.up {
                        if col_idx != 0 {
                            c = Some(col_idx - 1);
                        } else {
                            c = None;
                        }
                    }
                },
                None => {
                    if tables[t].columns.len() != 0 {
                        if keys.down {
                            c = Some(0);
                        } else if keys.up {
                            c = Some(tables[t].columns.len() - 1);
                        }
                    }
                },
            }
            *item = Selected::Table { table: t, column: c };
        },
    }
}

} // verus!
