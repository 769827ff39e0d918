//! An embedded store for named integer counters.
//!
//! The crate holds the data shapes that travel between a user interface and
//! the store, the versioned schema of the `counters` table, the rule by which
//! schema migrations are applied, and an in-memory store that implements the
//! create / read / update / delete contract.  Every function is verified
//! against the contract written in its signature.

pub mod counter;
pub mod error;
pub mod migrate;
pub mod schema;
pub mod store;

pub use counter::{Counter, NewCounter, UpdateCounter};
pub use error::StoreError;
pub use migrate::Ledger;
pub use schema::{migrations, Migration, MigrationKind, DATABASE_URL};
pub use store::CounterStore;
