//! The schema of the store: one table, `counters`, brought about by one
//! migration.

use vstd::prelude::*;

verus! {

/// The direction of a migration.
#[derive(Clone, Copy, Debug, PartialEq, Eq, Structural)]
pub enum MigrationKind {
    /// Moves the schema forward.
    Up,
    /// Takes a forward step back.
    Down,
}

/// One versioned change of the schema.
#[derive(Clone, Copy, Debug)]
pub struct Migration {
    /// Orders the migrations and names this one in the store's ledger.
    pub version: i64,
    pub description: &'static str,
    /// The statement that makes the change.
    pub sql: &'static str,
    pub kind: MigrationKind,
}

/// The logical name under which the database file is opened.
pub const DATABASE_URL: &'static str = "sqlite:counters.db";

/// The description of the migration that creates the table.
pub const CREATE_COUNTERS_DESCRIPTION: &'static str = "create_counters_table";

/// The statement that creates the table.  Stores that already ran it have
/// recorded this very text, so it is kept character for character.
pub const CREATE_COUNTERS_SQL: &'static str = "CREATE TABLE counters (
                id INTEGER PRIMARY KEY AUTOINCREMENT,
                name TEXT NOT NULL,
                value INTEGER NOT NULL DEFAULT 0,
                created_at DATETIME DEFAULT CURRENT_TIMESTAMP,
                updated_at DATETIME DEFAULT CURRENT_TIMESTAMP
            );";

/// Whether `list` is the schema of this store: the single forward migration,
/// version 1, that creates the `counters` table.
pub open spec fn is_schema(list: Seq<Migration>) -> bool {
    &&& list.len() == 1
    &&& list[0].version == 1
    &&& list[0].description@ == CREATE_COUNTERS_DESCRIPTION@
    &&& list[0].sql@ == CREATE_COUNTERS_SQL@
    &&& list[0].kind == MigrationKind::Up
}

/// The migrations of this store, in ascending order of version.
pub fn migrations() -> (list: Vec<Migration>)
    ensures
        is_schema(list@),
{
    let mut list: Vec<Migration> = Vec::new();
    list.push(
        Migration {
            version: 1,
            description: CREATE_COUNTERS_DESCRIPTION,
            sql: CREATE_COUNTERS_SQL,
            kind: MigrationKind::Up,
        },
    );
    list
}

} // verus!
