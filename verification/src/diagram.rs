//! The diagram's data: tables with their columns, relations between two
//! columns, and the options of the editor. Positions and line coordinates
//! are kept opaque (`P`, `S`): nothing here computes with them.
use vstd::prelude::*;

verus! {

/// A column of a table.
#[derive(Clone, Debug, Default, PartialEq)]
pub struct Column {
    pub name: String,
    pub column_type: String,
    pub nullable: bool,
    pub unique: bool,
    pub description: String,
    /// `"PK"`, `"FK"` or empty.
    pub key_type: String,
}

/// A table; `P` is the type of its position on the canvas.
#[derive(Clone, Debug, Default, PartialEq)]
pub struct Table<P> {
    pub name: String,
    pub pos: P,
    pub columns: Vec<Column>,
    pub description: String,
}

/// A relation from column `columns[0]` of table `tables[0]` to column
/// `columns[1]` of table `tables[1]`. `relation_segments` holds the
/// coordinates of its bends (x, y, x, ... alternately); when it is empty
/// the line is routed automatically.
#[derive(Clone, Debug, Default, PartialEq)]
pub struct Relation<S> {
    pub name: String,
    pub relation_segments: Vec<S>,
    pub tables: [usize; 2],
    pub columns: [usize; 2],
    pub description: String,
}

/// The part of the editor's state that undo and redo go through.
#[derive(Clone, Debug, Default, PartialEq)]
pub struct AppState<P, S> {
    pub tables: Vec<Table<P>>,
    pub relations: Vec<Relation<S>>,
}

/// When the cardinality labels of a relation are drawn.
#[derive(Clone, Copy, Debug, PartialEq, Eq, Structural)]
pub enum CardinalityDisplay {
    /// Never.
    Never,
    /// Only on a selected relation.
    SelectedOnly,
    /// On every relation.
    Always,
}

/// Which tables and columns get a red marker about their description.
#[derive(Clone, Copy, Debug, PartialEq, Eq, Structural)]
pub enum DescriptionIndicator {
    /// No marker (offered as "None" in the inspector).
    Off,
    /// Mark the tables and columns without a description.
    Missing,
    /// Mark the tables and columns with a description.
    Existing,
}

/// The options that the inspector window offers.
#[derive(Clone, Debug, PartialEq)]
pub struct OptionsMenu {
    pub cardinality_display: CardinalityDisplay,
    pub description_indicator: DescriptionIndicator,
    pub search_table: String,
}

/// Number of columns over all tables.
pub open spec fn column_total<P>(tables: Seq<Table<P>>) -> nat
    decreases tables.len(),
{
    if tables.len() == 0 {
        0
    } else {
        column_total(tables.drop_last()) + tables.last().columns@.len()
    }
}

/// Number of tables with a description.
pub open spec fn described_tables<P>(tables: Seq<Table<P>>) -> nat
    decreases tables.len(),
{
    if tables.len() == 0 {
        0
    } else {
        described_tables(tables.drop_last()) + if tables.last().description@.len() > 0 {
            1nat
        } else {
            0nat
        }
    }
}

/// Number of columns of `columns` with a description.
pub open spec fn described_columns_of(columns: Seq<Column>) -> nat
    decreases columns.len(),
{
    if columns.len() == 0 {
        0
    } else {
        described_columns_of(columns.drop_last()) + if columns.last().description@.len() > 0 {
            1nat
        } else {
            0nat
        }
    }
}

/// Number of columns with a description, over all tables.
pub open spec fn described_columns<P>(tables: Seq<Table<P>>) -> nat
    decreases tables.len(),
{
    if tables.len() == 0 {
        0
    } else {
        described_columns(tables.drop_last()) + described_columns_of(tables.last().columns@)
    }
}

/// Number of relations with a description.
pub open spec fn described_relations<S>(relations: Seq<Relation<S>>) -> nat
    decreases relations.len(),
{
    if relations.len() == 0 {
        0
    } else {
        described_relations(relations.drop_last()) + if relations.last().description@.len()
            > 0 {
            1nat
        } else {
            0nat
        }
    }
}

/// The counts that the inspector's statistics show.
#[derive(Clone, Copy, Debug, PartialEq, Eq)]
pub struct DiagramStatistics {
    pub total_tables: usize,
    pub total_columns: usize,
    pub total_relations: usize,
    pub tables_with_desc: usize,
    pub columns_with_desc: usize,
    pub relations_with_desc: usize,
}

proof fn lemma_described_columns_of_bound(columns: Seq<Column>)
    ensures
        described_columns_of(columns) <= columns.len(),
    decreases columns.len(),
{
    if columns.len() > 0 {
        lemma_described_columns_of_bound(columns.drop_last());
    }
}

proof fn lemma_described_columns_bound<P>(tables: Seq<Table<P>>)
    ensures
        described_columns(tables) <= column_total(tables),
    decreases tables.len(),
{
    if tables.len() > 0 {
        lemma_described_columns_bound(tables.drop_last());
        lemma_described_columns_of_bound(tables.last().columns@);
    }
}

proof fn lemma_column_total_prefix<P>(tables: Seq<Table<P>>, i: int)
    requires
        0 <= i <= tables.len(),
    ensures
        column_total(tables.take(i)) <= column_total(tables),
    decreases tables.len() - i,
{
    if i < tables.len() {
        lemma_column_total_prefix(tables, i + 1);
        assert(tables.take(i + 1).drop_last() =~= tables.take(i));
    } else {
        assert(tables.take(i) =~= tables);
    }
}

proof fn lemma_described_tables_bound<P>(tables: Seq<Table<P>>)
    ensures
        described_tables(tables) <= tables.len(),
    decreases tables.len(),
{
    if tables.len() > 0 {
        lemma_described_tables_bound(tables.drop_last());
    }
}

proof fn lemma_described_relations_bound<S>(relations: Seq<Relation<S>>)
    ensures
        described_relations(relations) <= relations.len(),
    decreases relations.len(),
{
    if relations.len() > 0 {
        lemma_described_relations_bound(relations.drop_last());
    }
}

/// Whether the number of columns over all tables fits a `usize`.
pub fn column_total_fits<P>(tables: &Vec<Table<P>>) -> (ok: bool)
    ensures
        ok == (column_total(tables@) <= usize::MAX),
{
    let mut total: usize = 0;
    let mut i: usize = 0;
    while i < tables.len()
        invariant
            i <= tables.len(),
            total == column_total(tables@.take(i as int)),
        decreases tables.len() - i,
    {
        proof {
            assert(tables@.take(i + 1).drop_last() =~= tables@.take(i as int));
        }
        match total.checked_add(tables[i].columns.len()) {
            Some(t) => {
                total = t;
            },
            None => {
                proof {
                    lemma_column_total_prefix(tables@, i + 1);
                }
                return false;
            },
        }
        i += 1;
    }
    proof {
        assert(tables@.take(tables@.len() as int) =~= tables@);
    }
    true
}

/// Law: the statistics never count more described tables, columns or
/// relations than there are.
pub proof fn lemma_statistics_bounds<P, S>(tables: Seq<Table<P>>, relations: Seq<Relation<S>>)
    ensures
        described_tables(tables) <= tables.len(),
        described_columns(tables) <= column_total(tables),
        described_relations(relations) <= relations.len(),
{
    lemma_described_tables_bound(tables);
    lemma_described_columns_bound(tables);
    lemma_described_relations_bound(relations);
}

/// Counts the tables, columns and relations, and those of each with a
/// description.
pub fn diagram_statistics<P, S>(tables: &Vec<Table<P>>, relations: &Vec<Relation<S>>) -> (st:
    DiagramStatistics)
    requires
        column_total(tables@) <= usize::MAX,
    ensures
        st.total_tables == tables@.len(),
        st.total_relations == relations@.len(),
        st.total_columns == column_total(tables@),
        st.tables_with_desc == described_tables(tables@),
        st.columns_with_desc == described_columns(tables@),
        st.relations_with_desc == described_relations(relations@),
{
    let mut total_columns: usize = 0;
    let mut tables_with_desc: usize = 0;
    let mut columns_with_desc: usize = 0;
    let mut i: usize = 0;
    while i < tables.len()
        invariant
            i <= tables.len(),
            column_total(tables@) <= usize::MAX,
            total_columns == column_total(tables@.take(i as int)),
            tables_with_desc == described_tables(tables@.take(i as int)),
            columns_with_desc == described_columns(tables@.take(i as int)),
        decreases tables.len() - i,
    {
        let table = &tables[i];
        proof {
            assert(tables@.take(i + 1).drop_last() =~= tables@.take(i as int));
            lemma_column_total_prefix(tables@, i + 1);
            lemma_described_tables_bound(tables@.take(i as int));
            lemma_described_columns_bound(tables@.take(i + 1));
        }
        total_columns = total_columns + table.columns.len();
        if !table.description.as_str().is_empty() {
            tables_with_desc = tables_with_desc + 1;
        }
        let mut j: usize = 0;
        while j < table.columns.len()
            invariant
                j <= table.columns.len(),
                table == tables@[i as int],
                columns_with_desc == described_columns(tables@.take(i as int))
                    + described_columns_of(table.columns@.take(j as int)),
                described_columns(tables@.take(i as int)) + described_columns_of(table.columns@)
                    <= usize::MAX,
            decreases table.columns.len() - j,
        {
            proof {
                assert(table.columns@.take(j + 1).drop_last() =~= table.columns@.take(j as int));
                lemma_described_columns_of_bound(table.columns@.take(j + 1));
                assert(table.columns@.take(j + 1) =~= table.columns@.subrange(0, j + 1));
                described_columns_of_prefix(table.columns@, j + 1);
            }
            if !table.columns[j].description.as_str().is_empty() {
                columns_with_desc = columns_with_desc + 1;
            }
            j += 1;
        }
        proof {
            assert(table.columns@.take(table.columns@.len() as int) =~= table.columns@);
        }
        i += 1;
    }
    let mut relations_with_desc: usize = 0;
    let mut k: usize = 0;
    while k < relations.len()
        invariant
            k <= relations.len(),
            relations_with_desc == described_relations(relations@.take(k as int)),
        decreases relations.len() - k,
    {
        proof {
            assert(relations@.take(k + 1).drop_last() =~= relations@.take(k as int));
            lemma_described_relations_bound(relations@.take(k as int));
        }
        if !relations[k].description.as_str().is_empty() {
            relations_with_desc = relations_with_desc + 1;
        }
        k += 1;
    }
    proof {
        assert(tables@.take(tables@.len() as int) =~= tables@);
        assert(relations@.take(relations@.len() as int) =~= relations@);
    }
    DiagramStatistics {
        total_tables: tables.len(),
        total_columns,
        total_relations: relations.len(),
        tables_with_desc,
        columns_with_desc,
        relations_with_desc,
    }
}

proof fn described_columns_of_prefix(columns: Seq<Column>, j: int)
    requires
        0 <= j <= columns.len(),
    ensures
        described_columns_of(columns.take(j)) <= described_columns_of(columns),
    decreases columns.len() - j,
{
    if j < columns.len() {
        described_columns_of_prefix(columns, j + 1);
        assert(columns.take(j + 1).drop_last() =~= columns.take(j));
    } else {
        assert(columns.take(j) =~= columns);
    }
}

/// The last table named `name`, if any.
pub fn find_table<P>(tables: &Vec<Table<P>>, name: &String) -> (found: Option<usize>)
    ensures
        match found {
            Some(i) => i < tables@.len() && tables@[i as int].name@ == name@ && forall|j: int|
                i < j < tables@.len() ==> #[trigger] tables@[j].name@ != name@,
            None => forall|j: int| 0 <= j < tables@.len() ==> #[trigger] tables@[j].name@ != name@,
        },
{
    let mut i: usize = tables.len();
    while i > 0
        invariant
            i <= tables.len(),
            forall|j: int| i <= j < tables@.len() ==> #[trigger] tables@[j].name@ != name@,
        decreases i,
    {
        i -= 1;
        if tables[i].name == *name {
            return Some(i);
        }
    }
    None
}

} // verus!
