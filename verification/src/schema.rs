//! The schema of the persisted state and its forward-compatible migration:
//! which statements bring a database, new or old, to the current schema.

use vstd::prelude::*;
use vstd::string::*;

verus! {

/// The tables of the persisted state.
#[derive(Clone, Copy, Debug, PartialEq, Eq, Structural)]
pub enum Table {
    Files,
    Symbols,
    Calls,
}

/// The columns that older databases may lack.
#[derive(Clone, Copy, Debug, PartialEq, Eq, Structural)]
pub enum Column {
    ScopePath,
    CalleeId,
    FileSize,
    FileMtime,
    IndexLevel,
    IndexedAt,
}

/// The indices that exist after startup.
#[derive(Clone, Copy, Debug, PartialEq, Eq, Structural)]
pub enum Index {
    SymbolsFile,
    SymbolsName,
    SymbolsQualifiedName,
    CallsCaller,
    CallsCalleeName,
    SymbolsScopePath,
    CallsCalleeId,
}

/// One statement of the startup plan.
#[derive(Clone, Copy, Debug, PartialEq, Eq, Structural)]
pub enum Statement {
    CreateTable(Table),
    CreateIndex(Index),
    AddColumn(Column),
}

/// The columns that may have to be added, in the order in which they are.
pub open spec fn migrated_columns() -> Seq<Column> {
    seq![
        Column::ScopePath,
        Column::CalleeId,
        Column::FileSize,
        Column::FileMtime,
        Column::IndexLevel,
        Column::IndexedAt,
    ]
}

/// The statements that add those of `columns` that are not `present`, in
/// order.
pub open spec fn additions(columns: Seq<Column>, present: Seq<Column>) -> Seq<Statement>
    decreases columns.len(),
{
    if columns.len() == 0 {
        Seq::empty()
    } else if present.contains(columns.last()) {
        additions(columns.drop_last(), present)
    } else {
        additions(columns.drop_last(), present).push(Statement::AddColumn(columns.last()))
    }
}

/// What comes before the migration: the three tables and the indices on
/// the columns that every database has.
pub open spec fn plan_head() -> Seq<Statement> {
    seq![
        Statement::CreateTable(Table::Files),
        Statement::CreateTable(Table::Symbols),
        Statement::CreateTable(Table::Calls),
        Statement::CreateIndex(Index::SymbolsFile),
        Statement::CreateIndex(Index::SymbolsName),
        Statement::CreateIndex(Index::SymbolsQualifiedName),
        Statement::CreateIndex(Index::CallsCaller),
        Statement::CreateIndex(Index::CallsCalleeName),
    ]
}

/// What comes after the migration: the indices on migrated columns.
pub open spec fn plan_tail() -> Seq<Statement> {
    seq![
        Statement::CreateIndex(Index::SymbolsScopePath),
        Statement::CreateIndex(Index::CallsCalleeId),
    ]
}

/// The startup plan for a database in which the columns `present` exist:
/// tables and indices are created where they are missing, and every
/// migrated column that is not present is added, once.
pub open spec fn startup_plan(present: Seq<Column>) -> Seq<Statement> {
    plan_head() + additions(migrated_columns(), present) + plan_tail()
}

/// The table that a column belongs to.
pub open spec fn table_of(c: Column) -> Table {
    match c {
        Column::ScopePath => Table::Symbols,
        Column::CalleeId => Table::Calls,
        _ => Table::Files,
    }
}

/// No column is added where all migrated columns are present.
pub proof fn lemma_nothing_to_add(columns: Seq<Column>, present: Seq<Column>)
    requires
        forall|i: int| 0 <= i < columns.len() ==> present.contains(#[trigger] columns[i]),
    ensures
        additions(columns, present).len() == 0,
    decreases columns.len(),
{
    if columns.len() > 0 {
        assert(present.contains(columns[columns.len() - 1]));
        assert forall|i: int| 0 <= i < columns.drop_last().len() implies present.contains(
            #[trigger] columns.drop_last()[i],
        ) by {
            assert(columns.drop_last()[i] == columns[i]);
        }
        lemma_nothing_to_add(columns.drop_last(), present);
    }
}

/// The columns that a sequence of statements adds.
pub open spec fn added_by(plan: Seq<Statement>) -> Seq<Column>
    decreases plan.len(),
{
    if plan.len() == 0 {
        Seq::empty()
    } else {
        match plan.last() {
            Statement::AddColumn(c) => added_by(plan.drop_last()).push(c),
            _ => added_by(plan.drop_last()),
        }
    }
}

/// The additions add exactly the columns that are missing.
pub proof fn lemma_additions_complete(columns: Seq<Column>, present: Seq<Column>)
    ensures
        forall|i: int|
            0 <= i < columns.len() ==> present.contains(#[trigger] columns[i]) || added_by(
                additions(columns, present),
            ).contains(columns[i]),
        forall|c: Column| #[trigger]
            added_by(additions(columns, present)).contains(c) ==> !present.contains(c)
                && columns.contains(c),
    decreases columns.len(),
{
    if columns.len() > 0 {
        let head = columns.drop_last();
        let c = columns.last();
        lemma_additions_complete(head, present);
        let before = added_by(additions(head, present));
        let after = added_by(additions(columns, present));
        if !present.contains(c) {
            assert(additions(columns, present).drop_last() =~= additions(head, present));
            assert(after == before.push(c));
        }
        assert forall|i: int| 0 <= i < columns.len() implies present.contains(
            #[trigger] columns[i],
        ) || after.contains(columns[i]) by {
            if i < head.len() {
                assert(head[i] == columns[i]);
                if before.contains(columns[i]) {
                    let k = choose|k: int| 0 <= k < before.len() && before[k] == columns[i];
                    assert(after[k] == columns[i]);
                }
            } else if !present.contains(c) {
                assert(after[after.len() - 1] == c);
            }
        }
        assert forall|x: Column| #[trigger] after.contains(x) implies !present.contains(x)
            && columns.contains(x) by {
            let k = choose|k: int| 0 <= k < after.len() && after[k] == x;
            if k < before.len() {
                assert(before[k] == x);
                assert(before.contains(x));
                let j = choose|j: int| 0 <= j < head.len() && head[j] == x;
                assert(columns[j] == x);
            } else {
                assert(columns[columns.len() - 1] == x);
            }
        }
    }
}

/// Migration is idempotent: once the columns that a startup adds are
/// present, the next startup adds none.
pub proof fn lemma_migration_idempotent(present: Seq<Column>)
    ensures
        additions(
            migrated_columns(),
            present + added_by(additions(migrated_columns(), present)),
        ).len() == 0,
{
    let columns = migrated_columns();
    let added = added_by(additions(columns, present));
    let after = present + added;
    lemma_additions_complete(columns, present);
    assert forall|i: int| 0 <= i < columns.len() implies after.contains(
        #[trigger] columns[i],
    ) by {
        if present.contains(columns[i]) {
            let k = choose|k: int| 0 <= k < present.len() && present[k] == columns[i];
            assert(after[k] == columns[i]);
        } else {
            let k = choose|k: int| 0 <= k < added.len() && added[k] == columns[i];
            assert(after[present.len() + k] == columns[i]);
        }
    }
    lemma_nothing_to_add(columns, after);
}

/// Whether the column is among `present`.
pub fn column_present(present: &Vec<Column>, c: Column) -> (r: bool)
    ensures
        r == present@.contains(c),
{
    let mut i: usize = 0;
    while i < present.len()
        invariant
            i <= present.len(),
            forall|k: int| 0 <= k < i ==> present@[k] != c,
        decreases present.len() - i,
    {
        if present[i] == c {
            return true;
        }
        i += 1;
    }
    false
}

/// Migrated column `i`, in the order of the migration.
fn migrated_column_at(i: usize) -> (c: Column)
    requires
        i < 6,
    ensures
        c == migrated_columns()[i as int],
{
    if i == 0 {
        Column::ScopePath
    } else if i == 1 {
        Column::CalleeId
    } else if i == 2 {
        Column::FileSize
    } else if i == 3 {
        Column::FileMtime
    } else if i == 4 {
        Column::IndexLevel
    } else {
        Column::IndexedAt
    }
}

/// The startup plan: the statements that bring a database in which the
/// columns `present` exist to the current schema.
pub fn init_db(present: &Vec<Column>) -> (plan: Vec<Statement>)
    ensures
        plan@ == startup_plan(present@),
{
    let mut plan: Vec<Statement> = Vec::new();
    plan.push(Statement::CreateTable(Table::Files));
    plan.push(Statement::CreateTable(Table::Symbols));
    plan.push(Statement::CreateTable(Table::Calls));
    plan.push(Statement::CreateIndex(Index::SymbolsFile));
    plan.push(Statement::CreateIndex(Index::SymbolsName));
    plan.push(Statement::CreateIndex(Index::SymbolsQualifiedName));
    plan.push(Statement::CreateIndex(Index::CallsCaller));
    plan.push(Statement::CreateIndex(Index::CallsCalleeName));
    assert(plan@ =~= plan_head());
    let ghost columns = migrated_columns();
    let mut i: usize = 0;
    assert(columns.take(0) =~= Seq::<Column>::empty());
    assert(plan@ =~= plan_head() + additions(columns.take(0), present@));
    while i < 6
        invariant
            i <= 6,
            columns == migrated_columns(),
            plan@ == plan_head() + additions(columns.take(i as int), present@),
        decreases 6 - i,
    {
        let c = migrated_column_at(i);
        let ghost before = plan@;
        proof {
            assert(columns.take(i + 1).drop_last() =~= columns.take(i as int));
            assert(columns.take(i + 1).last() == c);
        }
        if !column_present(present, c) {
            plan.push(Statement::AddColumn(c));
            assert(plan@ =~= plan_head() + additions(columns.take(i + 1), present@));
        }
        i += 1;
    }
    assert(columns.take(6) =~= columns);
    let ghost middle = plan@;
    plan.push(Statement::CreateIndex(Index::SymbolsScopePath));
    plan.push(Statement::CreateIndex(Index::CallsCalleeId));
    assert(plan@ =~= middle + plan_tail());
    plan
}

/// The name of a migrated column and of its table.
pub fn column_name(c: Column) -> (r: (&'static str, &'static str))
    ensures
        r.0@ == table_name_of(table_of(c)),
        r.1@ == name_of(c),
{
    match c {
        Column::ScopePath => ("symbols", "scope_path"),
        Column::CalleeId => ("calls", "callee_id"),
        Column::FileSize => ("files", "file_size"),
        Column::FileMtime => ("files", "file_mtime"),
        Column::IndexLevel => ("files", "index_level"),
        Column::IndexedAt => ("files", "indexed_at"),
    }
}

/// What a migrated column reads in a row that was there before the column
/// was added.
#[derive(Clone, Copy, Debug, PartialEq, Eq, Structural)]
pub enum ColumnDefault {
    /// Nothing: the column is null.
    Null,
    /// The number 0.
    Zero,
    /// The name of the symbol level.
    SymbolLevel,
}

/// What each migrated column reads in an older row: nothing for the scope
/// path and the resolved callee, 0 for the size, the modification time and
/// the time of indexing, and the symbol level for the index level.
pub open spec fn default_of(c: Column) -> ColumnDefault {
    match c {
        Column::ScopePath => ColumnDefault::Null,
        Column::CalleeId => ColumnDefault::Null,
        Column::FileSize => ColumnDefault::Zero,
        Column::FileMtime => ColumnDefault::Zero,
        Column::IndexLevel => ColumnDefault::SymbolLevel,
        Column::IndexedAt => ColumnDefault::Zero,
    }
}

/// The type and the default of a migrated column, as the statement that
/// adds it spells them: text columns are `TEXT`, the numbers are
/// `INTEGER DEFAULT 0`, and the index level is `TEXT DEFAULT 'symbol'`.
pub open spec fn definition_of(c: Column) -> Seq<char> {
    match c {
        Column::ScopePath => "TEXT"@,
        Column::CalleeId => "TEXT"@,
        Column::FileSize => "INTEGER DEFAULT 0"@,
        Column::FileMtime => "INTEGER DEFAULT 0"@,
        Column::IndexLevel => "TEXT DEFAULT 'symbol'"@,
        Column::IndexedAt => "INTEGER DEFAULT 0"@,
    }
}

/// The name of a migrated column.
pub open spec fn name_of(c: Column) -> Seq<char> {
    match c {
        Column::ScopePath => "scope_path"@,
        Column::CalleeId => "callee_id"@,
        Column::FileSize => "file_size"@,
        Column::FileMtime => "file_mtime"@,
        Column::IndexLevel => "index_level"@,
        Column::IndexedAt => "indexed_at"@,
    }
}

/// The name of a table.
pub open spec fn table_name_of(t: Table) -> Seq<char> {
    match t {
        Table::Files => "files"@,
        Table::Symbols => "symbols"@,
        Table::Calls => "calls"@,
    }
}

/// The statement that adds a migrated column to its table.
pub open spec fn add_column_text(c: Column) -> Seq<char> {
    "ALTER TABLE "@ + table_name_of(table_of(c)) + " ADD COLUMN "@ + name_of(c) + " "@
        + definition_of(c)
}

/// What a migrated column reads in a row that was there before the column
/// was added.
pub fn column_default(c: Column) -> (r: ColumnDefault)
    ensures
        r == default_of(c),
{
    match c {
        Column::ScopePath => ColumnDefault::Null,
        Column::CalleeId => ColumnDefault::Null,
        Column::FileSize => ColumnDefault::Zero,
        Column::FileMtime => ColumnDefault::Zero,
        Column::IndexLevel => ColumnDefault::SymbolLevel,
        Column::IndexedAt => ColumnDefault::Zero,
    }
}

/// The type and the default of a migrated column, as the statement that
/// adds it spells them.
pub fn column_definition(c: Column) -> (r: &'static str)
    ensures
        r@ == definition_of(c),
{
    match c {
        Column::ScopePath => "TEXT",
        Column::CalleeId => "TEXT",
        Column::FileSize => "INTEGER DEFAULT 0",
        Column::FileMtime => "INTEGER DEFAULT 0",
        Column::IndexLevel => "TEXT DEFAULT 'symbol'",
        Column::IndexedAt => "INTEGER DEFAULT 0",
    }
}

/// The statement that adds a migrated column to its table, with the type
/// and the default of the column.
pub fn add_column_statement(c: Column) -> (r: String)
    ensures
        r@ == add_column_text(c),
{
    let names = column_name(c);
    let mut r = String::from_str("ALTER TABLE ");
    r.append(names.0);
    r.append(" ADD COLUMN ");
    r.append(names.1);
    r.append(" ");
    r.append(column_definition(c));
    r
}

} // verus!
