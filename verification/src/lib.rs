//! A verified engine for applying versioned schema-change scripts to a
//! ScyllaDB cluster exactly once, tracking applied state in the database
//! itself.
//!
//! The library holds the pure core: filename parsing, checksum identity,
//! reconciliation against the applied-state ledger, statement splitting and
//! run planning. The surrounding process (directory listing, the database
//! session) hands plain values in and carries the planned actions out.

pub mod engine;
pub mod error;
pub mod ledger;
pub mod migration;
pub mod queries;
pub mod reconcile;
pub mod source;
pub mod statements;

pub use engine::{RunPlan, plan_run};
pub use error::MigrateError;
pub use ledger::Ledger;
pub use migration::{AppliedMigration, Migration, MigrationView};
pub use reconcile::Action;
pub use source::SourceFile;

