use ast_indexer::schema::{
    add_column_statement, column_default, column_definition, column_name, column_present, init_db,
    Column, ColumnDefault, Index, Statement, Table,
};

fn head() -> Vec<Statement> {
    vec![
        Statement::CreateTable(Table::Files),
        Statement::CreateTable(Table::Symbols),
        Statement::CreateTable(Table::Calls),
        Statement::CreateIndex(Index::SymbolsFile),
        Statement::CreateIndex(Index::SymbolsName),
        Statement::CreateIndex(Index::SymbolsQualifiedName),
        Statement::CreateIndex(Index::CallsCaller),
        Statement::CreateIndex(Index::CallsCalleeName),
    ]
}

fn tail() -> Vec<Statement> {
    vec![Statement::CreateIndex(Index::SymbolsScopePath), Statement::CreateIndex(Index::CallsCalleeId)]
}

fn all_columns() -> Vec<Column> {
    vec![
        Column::ScopePath,
        Column::CalleeId,
        Column::FileSize,
        Column::FileMtime,
        Column::IndexLevel,
        Column::IndexedAt,
    ]
}

#[test]
fn legacy_database_gets_every_migrated_column() {
    let plan = init_db(&Vec::new());
    let mut expected = head();
    for c in all_columns() {
        expected.push(Statement::AddColumn(c));
    }
    expected.extend(tail());
    assert_eq!(plan, expected);
}

#[test]
fn current_database_gets_no_column() {
    let plan = init_db(&all_columns());
    let mut expected = head();
    expected.extend(tail());
    assert_eq!(plan, expected);
}

#[test]
fn only_missing_columns_are_added() {
    let plan = init_db(&vec![Column::IndexedAt, Column::ScopePath, Column::FileSize]);
    let added: Vec<Statement> =
        plan.iter().filter(|s| matches!(s, Statement::AddColumn(_))).cloned().collect();
    assert_eq!(
        added,
        vec![
            Statement::AddColumn(Column::CalleeId),
            Statement::AddColumn(Column::FileMtime),
            Statement::AddColumn(Column::IndexLevel),
        ]
    );
}

#[test]
fn migration_is_idempotent() {
    let mut present = vec![Column::FileMtime];
    for s in init_db(&present) {
        if let Statement::AddColumn(c) = s {
            present.push(c);
        }
    }
    let again = init_db(&present);
    assert!(again.iter().all(|s| !matches!(s, Statement::AddColumn(_))));
    assert_eq!(again.len(), 10);
}

#[test]
fn all_seven_indices_are_created() {
    let plan = init_db(&all_columns());
    let indices: Vec<Index> = plan
        .iter()
        .filter_map(|s| match s {
            Statement::CreateIndex(i) => Some(*i),
            _ => None,
        })
        .collect();
    assert_eq!(indices.len(), 7);
    for i in [
        Index::SymbolsFile,
        Index::SymbolsName,
        Index::SymbolsQualifiedName,
        Index::SymbolsScopePath,
        Index::CallsCaller,
        Index::CallsCalleeName,
        Index::CallsCalleeId,
    ] {
        assert!(indices.contains(&i));
    }
}

#[test]
fn indices_on_migrated_columns_come_after_the_columns() {
    let plan = init_db(&Vec::new());
    let at = |s: Statement| plan.iter().position(|x| *x == s).unwrap();
    assert!(at(Statement::AddColumn(Column::ScopePath)) < at(Statement::CreateIndex(Index::SymbolsScopePath)));
    assert!(at(Statement::AddColumn(Column::CalleeId)) < at(Statement::CreateIndex(Index::CallsCalleeId)));
    assert!(at(Statement::CreateTable(Table::Symbols)) < at(Statement::AddColumn(Column::ScopePath)));
}

#[test]
fn columns_and_their_tables() {
    assert_eq!(column_name(Column::ScopePath), ("symbols", "scope_path"));
    assert_eq!(column_name(Column::CalleeId), ("calls", "callee_id"));
    assert_eq!(column_name(Column::FileSize), ("files", "file_size"));
    assert_eq!(column_name(Column::FileMtime), ("files", "file_mtime"));
    assert_eq!(column_name(Column::IndexLevel), ("files", "index_level"));
    assert_eq!(column_name(Column::IndexedAt), ("files", "indexed_at"));
    assert!(column_present(&vec![Column::FileSize], Column::FileSize));
    assert!(!column_present(&vec![Column::FileSize], Column::FileMtime));
}

#[test]
fn added_columns_have_their_type_and_default() {
    assert_eq!(column_default(Column::ScopePath), ColumnDefault::Null);
    assert_eq!(column_default(Column::CalleeId), ColumnDefault::Null);
    assert_eq!(column_default(Column::FileSize), ColumnDefault::Zero);
    assert_eq!(column_default(Column::FileMtime), ColumnDefault::Zero);
    assert_eq!(column_default(Column::IndexedAt), ColumnDefault::Zero);
    assert_eq!(column_default(Column::IndexLevel), ColumnDefault::SymbolLevel);
    assert_eq!(column_definition(Column::ScopePath), "TEXT");
    assert_eq!(column_definition(Column::FileMtime), "INTEGER DEFAULT 0");
    assert_eq!(column_definition(Column::IndexLevel), "TEXT DEFAULT 'symbol'");
}

#[test]
fn statements_that_add_a_column() {
    assert_eq!(
        add_column_statement(Column::ScopePath),
        "ALTER TABLE symbols ADD COLUMN scope_path TEXT"
    );
    assert_eq!(
        add_column_statement(Column::CalleeId),
        "ALTER TABLE calls ADD COLUMN callee_id TEXT"
    );
    assert_eq!(
        add_column_statement(Column::FileSize),
        "ALTER TABLE files ADD COLUMN file_size INTEGER DEFAULT 0"
    );
    assert_eq!(
        add_column_statement(Column::FileMtime),
        "ALTER TABLE files ADD COLUMN file_mtime INTEGER DEFAULT 0"
    );
    assert_eq!(
        add_column_statement(Column::IndexLevel),
        "ALTER TABLE files ADD COLUMN index_level TEXT DEFAULT 'symbol'"
    );
    assert_eq!(
        add_column_statement(Column::IndexedAt),
        "ALTER TABLE files ADD COLUMN indexed_at INTEGER DEFAULT 0"
    );
}
