use diagram_viewer::diagram::{diagram_statistics, find_table, Column, DiagramStatistics, Relation, Table};
use diagram_viewer::export::generate_text_export;

fn column(name: &str, column_type: &str, nullable: bool, unique: bool, key_type: &str) -> Column {
    Column {
        name: name.to_string(),
        column_type: column_type.to_string(),
        nullable,
        unique,
        description: String::new(),
        key_type: key_type.to_string(),
    }
}

fn table(name: &str, pos: (f32, f32), columns: Vec<Column>) -> Table<(f32, f32)> {
    Table { name: name.to_string(), pos, columns, description: String::new() }
}

fn relation(segments: Vec<f32>, tables: [usize; 2], columns: [usize; 2]) -> Relation<f32> {
    Relation { name: String::new(), relation_segments: segments, tables, columns, description: String::new() }
}

/// The sample diagram that the editor opens with.
fn sample_tables() -> Vec<Table<(f32, f32)>> {
    vec![
        table("primeira", (200.0, 200.0), vec![
            column("id", "NUMBER", false, false, "PK"),
            column("name", "VARCHAR2", false, false, ""),
        ]),
        table("segunda", (700.0, 300.0), vec![
            column("id", "NUMBER", false, false, "PK"),
            column("primeira_id", "NUMBER", true, true, "FK"),
            column("terceira_id", "NUMBER", false, true, "FK"),
        ]),
        table("terceira", (300.0, 400.0), vec![
            column("id", "NUMBER", false, false, "PK"),
            column("idade", "NUMBER", true, false, ""),
        ]),
        table("quarta", (500.0, 600.0), vec![
            column("id", "NUMBER", false, false, "PK"),
            column("valor", "NUMBER", true, false, ""),
        ]),
    ]
}

fn sample_relations() -> Vec<Relation<f32>> {
    vec![
        relation(vec![450.0], [1, 0], [1, 0]),
        relation(vec![], [1, 2], [2, 0]),
        relation(vec![], [2, 3], [0, 0]),
        relation(vec![], [1, 2], [2, 1]),
        relation(vec![], [2, 3], [1, 0]),
        relation(vec![], [3, 2], [1, 1]),
    ]
}

#[test]
fn export_of_the_sample_diagram() {
    let expected = String::new()
        + "== TABELAS E RELAÇÕES ==\n"
        + "\nTabela: primeira\n"
        + "Colunas:\n"
        + "  - id | Tipo: NUMBER | Restrição: NOT NULL | Chave: PK\n"
        + "  - name | Tipo: VARCHAR2 | Restrição: NOT NULL\n"
        + "\nTabela: segunda\n"
        + "Colunas:\n"
        + "  - id | Tipo: NUMBER | Restrição: NOT NULL | Chave: PK\n"
        + "  - primeira_id | Tipo: NUMBER | Restrição: NULL | Chave: FK\n"
        + "  - terceira_id | Tipo: NUMBER | Restrição: NOT NULL | Chave: FK\n"
        + "Relações:\n"
        + "  - Relação: \n    Ligação: primeira_id  ->  primeira.id\n    Cardinalidade: 0:1\n\n"
        + "  - Relação: \n    Ligação: terceira_id  ->  terceira.id\n    Cardinalidade: 1:1\n\n"
        + "  - Relação: \n    Ligação: terceira_id  ->  terceira.idade\n    Cardinalidade: 1:1\n\n"
        + "\nTabela: terceira\n"
        + "Colunas:\n"
        + "  - id | Tipo: NUMBER | Restrição: NOT NULL | Chave: PK\n"
        + "  - idade | Tipo: NUMBER | Restrição: NULL\n"
        + "Relações:\n"
        + "  - Relação: \n    Ligação: id  ->  quarta.id\n    Cardinalidade: 1:N\n\n"
        + "  - Relação: \n    Ligação: idade  ->  quarta.id\n    Cardinalidade: 0:N\n\n"
        + "\nTabela: quarta\n"
        + "Colunas:\n"
        + "  - id | Tipo: NUMBER | Restrição: NOT NULL | Chave: PK\n"
        + "  - valor | Tipo: NUMBER | Restrição: NULL\n"
        + "Relações:\n"
        + "  - Relação: \n    Ligação: valor  ->  terceira.idade\n    Cardinalidade: 0:N\n\n";
    assert_eq!(generate_text_export(&sample_tables(), &sample_relations()), expected);
}

#[test]
fn export_with_descriptions_and_names() {
    let mut tables = vec![
        table("a", (0.0, 0.0), vec![column("x", "INT", false, true, "")]),
        table("b", (0.0, 0.0), vec![column("y", "INT", true, false, "PK")]),
    ];
    tables[0].description = "tabela a".to_string();
    tables[0].columns[0].description = "coluna x".to_string();
    let mut rels = vec![relation(vec![], [0, 1], [0, 0])];
    rels[0].name = "liga".to_string();
    rels[0].description = "rel".to_string();
    let expected = String::new()
        + "== TABELAS E RELAÇÕES ==\n"
        + "\nTabela: a\nDescrição: tabela a\nColunas:\n"
        + "  - x | Tipo: INT | Restrição: NOT NULL | Descrição: coluna x\n"
        + "Relações:\n"
        + "  - Relação: liga\n    Ligação: x  ->  b.y\n    Cardinalidade: 1:1\n    Descrição: rel\n\n"
        + "\nTabela: b\nColunas:\n"
        + "  - y | Tipo: INT | Restrição: NULL | Chave: PK\n";
    assert_eq!(generate_text_export(&tables, &rels), expected);
}

#[test]
fn export_of_empty_diagram() {
    let tables: Vec<Table<(f32, f32)>> = Vec::new();
    let rels: Vec<Relation<f32>> = Vec::new();
    assert_eq!(generate_text_export(&tables, &rels), "== TABELAS E RELAÇÕES ==\n");
}

#[test]
fn statistics_of_the_sample_diagram() {
    let mut tables = sample_tables();
    let mut rels = sample_relations();
    tables[2].description = "d".to_string();
    tables[1].columns[2].description = "c".to_string();
    tables[3].columns[0].description = "c".to_string();
    rels[5].description = "r".to_string();
    let st = diagram_statistics(&tables, &rels);
    assert_eq!(
        st,
        DiagramStatistics {
            total_tables: 4,
            total_columns: 9,
            total_relations: 6,
            tables_with_desc: 1,
            columns_with_desc: 2,
            relations_with_desc: 1,
        }
    );
}

#[test]
fn search_finds_the_last_table_with_the_name() {
    let mut tables = sample_tables();
    tables[3].name = "segunda".to_string();
    assert_eq!(find_table(&tables, &"segunda".to_string()), Some(3));
    assert_eq!(find_table(&tables, &"primeira".to_string()), Some(0));
    assert_eq!(find_table(&tables, &"Primeira".to_string()), None);
}
