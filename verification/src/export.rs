//! The plain-text report of a diagram: every table with its description and
//! columns, followed by the relations that leave it.
use vstd::prelude::*;
use crate::diagram::{Column, Relation, Table};

verus! {

/// `s` when `cond` holds, else nothing.
pub open spec fn when(cond: bool, s: Seq<char>) -> Seq<char> {
    if cond {
        s
    } else {
        seq![]
    }
}

/// Minimum cardinality of a relation: "0" when its foreign key is
/// nullable, else "1".
pub open spec fn min_cardinality(nullable: bool) -> Seq<char> {
    if nullable {
        "0"@
    } else {
        "1"@
    }
}

/// Maximum cardinality of a relation: "1" when its foreign key is unique,
/// else "N".
pub open spec fn max_cardinality(unique: bool) -> Seq<char> {
    if unique {
        "1"@
    } else {
        "N"@
    }
}

/// The report line of a column.
pub open spec fn column_line(c: Column) -> Seq<char> {
    "  - "@ + c.name@ + " | Tipo: "@ + c.column_type@ + " | Restrição: "@ + (if c.nullable {
        "NULL"@
    } else {
        "NOT NULL"@
    }) + when(c.key_type@.len() > 0, " | Chave: "@ + c.key_type@) + when(
        c.description@.len() > 0,
        " | Descrição: "@ + c.description@,
    ) + "\n"@
}

/// Law: the key and the description of a column are reported
/// independently of each other: a non-empty description adds
/// `" | Descrição: "` and the description at the end of the column's line,
/// whatever its key, and a non-empty key adds `" | Chave: "` and the key
/// before that, whatever its description. `c0` is `c` without description
/// and `c00` is `c` without description and key.
pub proof fn lemma_column_parts_independent(c: Column, c0: Column, c00: Column)
    requires
        c0.name@ == c.name@ && c00.name@ == c.name@,
        c0.column_type@ == c.column_type@ && c00.column_type@ == c.column_type@,
        c0.nullable == c.nullable && c00.nullable == c.nullable,
        c0.key_type@ == c.key_type@,
        c0.description@.len() == 0 && c00.description@.len() == 0,
        c00.key_type@.len() == 0,
    ensures
        c.description@.len() > 0 ==> column_line(c) == column_line(c0).drop_last()
            + " | Descrição: "@ + c.description@ + "\n"@,
        c.key_type@.len() > 0 ==> column_line(c0) == column_line(c00).drop_last() + " | Chave: "@
            + c.key_type@ + "\n"@,
        c.description@.len() == 0 ==> column_line(c) == column_line(c0),
{
    reveal_strlit("\n");
    let head = "  - "@ + c.name@ + " | Tipo: "@ + c.column_type@ + " | Restrição: "@ + (if c.nullable {
        "NULL"@
    } else {
        "NOT NULL"@
    });
    let key = when(c.key_type@.len() > 0, " | Chave: "@ + c.key_type@);
    assert(column_line(c0) =~= head + key + "\n"@);
    assert((head + key + "\n"@).drop_last() =~= head + key);
    assert(column_line(c00) =~= head + "\n"@);
    assert((head + "\n"@).drop_last() =~= head);
    if c.description@.len() > 0 {
        assert(column_line(c) =~= head + key + " | Descrição: "@ + c.description@ + "\n"@);
    } else {
        assert(column_line(c) =~= head + key + "\n"@);
    }
    if c.key_type@.len() > 0 {
        assert(column_line(c0) =~= head + " | Chave: "@ + c.key_type@ + "\n"@);
    }
}

/// The report lines of `columns`, in order.
pub open spec fn columns_text(columns: Seq<Column>) -> Seq<char>
    decreases columns.len(),
{
    if columns.len() == 0 {
        seq![]
    } else {
        columns_text(columns.drop_last()) + column_line(columns.last())
    }
}

/// The report entry of relation `rel`, which leaves table `origin`.
pub open spec fn relation_entry<P, S>(tables: Seq<Table<P>>, origin: Table<P>, rel: Relation<S>) -> Seq<
    char,
> {
    let target = tables[rel.tables[1] as int];
    let origin_col = origin.columns@[rel.columns[0] as int];
    let target_col = target.columns@[rel.columns[1] as int];
    "  - Relação: "@ + rel.name@ + "\n    Ligação: "@ + origin_col.name@ + "  ->  "@ + target.name@
        + "."@ + target_col.name@ + "\n    Cardinalidade: "@ + min_cardinality(origin_col.nullable)
        + ":"@ + max_cardinality(origin_col.unique) + "\n"@ + when(
        rel.description@.len() > 0,
        "    Descrição: "@ + rel.description@ + "\n"@,
    ) + "\n"@
}

/// The entries of the relations of `rels` that leave table `table_idx`, in
/// order.
pub open spec fn relations_text<P, S>(tables: Seq<Table<P>>, table_idx: int, rels: Seq<Relation<S>>) -> Seq<
    char,
>
    decreases rels.len(),
{
    if rels.len() == 0 {
        seq![]
    } else {
        relations_text(tables, table_idx, rels.drop_last()) + when(
            rels.last().tables[0] == table_idx,
            relation_entry(tables, tables[table_idx], rels.last()),
        )
    }
}

/// The report section of table `i`.
pub open spec fn table_section<P, S>(tables: Seq<Table<P>>, rels: Seq<Relation<S>>, i: int) -> Seq<
    char,
> {
    let t = tables[i];
    let rt = relations_text(tables, i, rels);
    "\nTabela: "@ + t.name@ + "\n"@ + when(
        t.description@.len() > 0,
        "Descrição: "@ + t.description@ + "\n"@,
    ) + "Colunas:\n"@ + columns_text(t.columns@) + when(rt.len() > 0, "Relações:\n"@ + rt)
}

/// The sections of the first `n` tables.
pub open spec fn tables_text<P, S>(tables: Seq<Table<P>>, rels: Seq<Relation<S>>, n: nat) -> Seq<
    char,
>
    decreases n,
{
    if n == 0 {
        seq![]
    } else {
        tables_text(tables, rels, (n - 1) as nat) + table_section(tables, rels, n - 1)
    }
}

/// The whole report.
pub open spec fn text_export<P, S>(tables: Seq<Table<P>>, rels: Seq<Relation<S>>) -> Seq<char> {
    "== TABELAS E RELAÇÕES ==\n"@ + tables_text(tables, rels, tables.len())
}

/// Every relation that leaves an existing table reaches an existing table,
/// and both of its columns exist.
pub open spec fn relations_resolve<P, S>(tables: Seq<Table<P>>, rels: Seq<Relation<S>>) -> bool {
    forall|k: int|
        0 <= k < rels.len() && (#[trigger] rels[k]).tables[0] < tables.len() ==> {
            &&& rels[k].tables[1] < tables.len()
            &&& rels[k].columns[0] < tables[rels[k].tables[0] as int].columns@.len()
            &&& rels[k].columns[1] < tables[rels[k].tables[1] as int].columns@.len()
        }
}

/// Whether every relation leaving an existing table reaches an existing
/// table and names existing columns, so that the report can be written.
pub fn references_resolve<P, S>(tables: &Vec<Table<P>>, relations: &Vec<Relation<S>>) -> (ok: bool)
    ensures
        ok == relations_resolve(tables@, relations@),
{
    let mut k: usize = 0;
    while k < relations.len()
        invariant
            k <= relations.len(),
            forall|j: int|
                0 <= j < k && (#[trigger] relations@[j]).tables[0] < tables@.len() ==> {
                    &&& relations@[j].tables[1] < tables@.len()
                    &&& relations@[j].columns[0] < tables@[relations@[j].tables[0] as int].columns@.len()
                    &&& relations@[j].columns[1] < tables@[relations@[j].tables[1] as int].columns@.len()
                },
        decreases relations.len() - k,
    {
        let rel = &relations[k];
        if rel.tables[0] < tables.len() {
            if rel.tables[1] >= tables.len() || rel.columns[0] >= tables[rel.tables[0]].columns.len()
                || rel.columns[1] >= tables[rel.tables[1]].columns.len() {
                assert(!relations_resolve(tables@, relations@)) by {
                    assert(relations@[k as int] == *rel);
                }
                return false;
            }
        }
        k += 1;
    }
    true
}

fn column_line_exec(c: &Column) -> (line: String)
    ensures
        line@ == column_line(*c),
{
    let mut line = String::new();
    line.append("  - ");
    line.append(c.name.as_str());
    line.append(" | Tipo: ");
    line.append(c.column_type.as_str());
    line.append(" | Restrição: ");
    if c.nullable {
        line.append("NULL");
    } else {
        line.append("NOT NULL");
    }
    let ghost head = line@;
    if !c.key_type.as_str().is_empty() {
        line.append(" | Chave: ");
        line.append(c.key_type.as_str());
    }
    assert(line@ =~= head + when(c.key_type@.len() > 0, " | Chave: "@ + c.key_type@));
    let ghost head2 = line@;
    if !c.description.as_str().is_empty() {
        line.append(" | Descrição: ");
        line.append(c.description.as_str());
    }
    assert(line@ =~= head2 + when(c.description@.len() > 0, " | Descrição: "@ + c.description@));
    line.append("\n");
    assert(line@ =~= column_line(*c));
    line
}

fn relation_entry_exec<P, S>(tables: &Vec<Table<P>>, origin: &Table<P>, rel: &Relation<S>) -> (entry:
    String)
    requires
        rel.tables[1] < tables@.len(),
        rel.columns[0] < origin.columns@.len(),
        rel.columns[1] < tables@[rel.tables[1] as int].columns@.len(),
    ensures
        entry@ == relation_entry(tables@, *origin, *rel),
{
    let target = &tables[rel.tables[1]];
    let origin_col = &origin.columns[rel.columns[0]];
    let target_col = &target.columns[rel.columns[1]];
    let mut entry = String::new();
    entry.append("  - Relação: ");
    entry.append(rel.name.as_str());
    entry.append("\n    Ligação: ");
    entry.append(origin_col.name.as_str());
    entry.append("  ->  ");
    entry.append(target.name.as_str());
    entry.append(".");
    entry.append(target_col.name.as_str());
    entry.append("\n    Cardinalidade: ");
    if origin_col.nullable {
        entry.append("0");
    } else {
        entry.append("1");
    }
    entry.append(":");
    if origin_col.unique {
        entry.append("1");
    } else {
        entry.append("N");
    }
    entry.append("\n");
    let ghost head = entry@;
    if !rel.description.as_str().is_empty() {
        entry.append("    Descrição: ");
        entry.append(rel.description.as_str());
        entry.append("\n");
    }
    assert(entry@ =~= head + when(
        rel.description@.len() > 0,
        "    Descrição: "@ + rel.description@ + "\n"@,
    ));
    entry.append("\n");
    assert(entry@ =~= relation_entry(tables@, *origin, *rel));
    entry
}

fn table_section_exec<P, S>(tables: &Vec<Table<P>>, relations: &Vec<Relation<S>>, i: usize) -> (section:
    String)
    requires
        i < tables@.len(),
        relations_resolve(tables@, relations@),
    ensures
        section@ == table_section(tables@, relations@, i as int),
{
    let table = &tables[i];
    let mut section = String::new();
    section.append("\nTabela: ");
    section.append(table.name.as_str());
    section.append("\n");
    let ghost head = section@;
    if !table.description.as_str().is_empty() {
        section.append("Descrição: ");
        section.append(table.description.as_str());
        section.append("\n");
    }
    assert(section@ =~= head + when(
        table.description@.len() > 0,
        "Descrição: "@ + table.description@ + "\n"@,
    ));
    section.append("Colunas:\n");
    let ghost before_columns = section@;
    let mut j: usize = 0;
    while j < table.columns.len()
        invariant
            j <= table.columns.len(),
            section@ == before_columns + columns_text(table.columns@.take(j as int)),
        decreases table.columns.len() - j,
    {
        proof {
            assert(table.columns@.take(j + 1).drop_last() =~= table.columns@.take(j as int));
            assert(table.columns@.take(j + 1).last() == table.columns@[j as int]);
        }
        let line = column_line_exec(&table.columns[j]);
        section.append(line.as_str());
        j += 1;
        assert(section@ =~= before_columns + columns_text(table.columns@.take(j as int)));
    }
    assert(table.columns@.take(table.columns@.len() as int) =~= table.columns@);
    let mut rels_text = String::new();
    let mut k: usize = 0;
    while k < relations.len()
        invariant
            k <= relations.len(),
            i < tables@.len(),
            table == tables@[i as int],
            relations_resolve(tables@, relations@),
            rels_text@ == relations_text(tables@, i as int, relations@.take(k as int)),
        decreases relations.len() - k,
    {
        proof {
            assert(relations@.take(k + 1).drop_last() =~= relations@.take(k as int));
            assert(relations@.take(k + 1).last() == relations@[k as int]);
        }
        let ghost head = rels_text@;
        let rel = &relations[k];
        if rel.tables[0] == i {
            proof {
                assert(relations@[k as int].tables[0] < tables@.len());
            }
            let entry = relation_entry_exec(tables, table, rel);
            rels_text.append(entry.as_str());
        }
        k += 1;
        assert(rels_text@ =~= relations_text(tables@, i as int, relations@.take(k as int)));
    }
    assert(relations@.take(relations@.len() as int) =~= relations@);
    let ghost head3 = section@;
    if !rels_text.as_str().is_empty() {
        section.append("Relações:\n");
        section.append(rels_text.as_str());
    }
    assert(section@ =~= head3 + when(rels_text@.len() > 0, "Relações:\n"@ + rels_text@));
    assert(section@ =~= table_section(tables@, relations@, i as int));
    section
}

/// The plain-text report of the diagram.
pub fn generate_text_export<P, S>(tables: &Vec<Table<P>>, relations: &Vec<Relation<S>>) -> (report:
    String)
    requires
        relations_resolve(tables@, relations@),
    ensures
        report@ == text_export(tables@, relations@),
{
    let mut report = String::new();
    report.append("== TABELAS E RELAÇÕES ==\n");
    let ghost head = report@;
    let mut i: usize = 0;
    while i < tables.len()
        invariant
            i <= tables.len(),
            relations_resolve(tables@, relations@),
            report@ == head + tables_text(tables@, relations@, i as nat),
        decreases tables.len() - i,
    {
        let section = table_section_exec(tables, relations, i);
        report.append(section.as_str());
        i += 1;
        assert(report@ =~= head + tables_text(tables@, relations@, i as nat));
    }
    report
}

} // verus!
