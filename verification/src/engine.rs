//! The run planner: the engine's full discover → reconcile cycle on plain
//! values, producing the ordered list of migrations and the action decided
//! for each.
//!
//! The surrounding process lists the source directory, reads one snapshot
//! of the ledger table, hands both in, and then carries the plan out in
//! order: it executes the statements of every migration not decided
//! `Skip`, recording each under its version as it completes.

use vstd::prelude::*;

use crate::error::MigrateError;
use crate::ledger::{Ledger, ledger_of_rows};
use crate::migration::Migration;
use crate::reconcile::{Action, decide_spec, plan};
use crate::source::{
    SourceFile, duplicate_source_version, load_fails_naming, load_migrations, loaded_migrations,
    migration_files, sources_valid, versions_distinct,
};

verus! {

/// The plan for one run: the discovered migrations, sorted ascending by
/// version, and the action decided for each against the ledger snapshot.
pub struct RunPlan {
    pub migrations: Vec<Migration>,
    pub actions: Vec<Action>,
}

/// Plans a full run from a directory listing and one read of the ledger
/// table's `(version, checksum, applied_at)` rows: loads and sorts the
/// migration scripts, builds the applied-state snapshot (latest applied row
/// per version), and decides every action. Nothing is planned when the load
/// fails, so a malformed filename aborts the run before any statement
/// would execute.
pub fn plan_run(files: &Vec<SourceFile>, rows: Vec<(i64, Vec<u8>, i64)>) -> (r: Result<
    RunPlan,
    MigrateError,
>)
    ensures
        match r {
            Ok(p) => {
                let g = migration_files(files@);
                &&& sources_valid(g)
                &&& versions_distinct(g)
                &&& loaded_migrations(p.migrations@, g)
                &&& p.actions@.len() == p.migrations@.len()
                &&& forall|i: int|
                    0 <= i < p.migrations@.len() ==> p.actions@[i] == decide_spec(
                        (#[trigger] p.migrations@[i])@.version,
                        p.migrations@[i]@.checksum,
                        ledger_of_rows(rows@),
                    )
            },
            Err(e) => {
                let g = migration_files(files@);
                match e {
                    MigrateError::MalformedSource { filename } => load_fails_naming(g, filename@),
                    MigrateError::DuplicateVersion { version } => sources_valid(g)
                        && duplicate_source_version(g, version as int),
                }
            },
        },
{
    let migrations = match load_migrations(files) {
        Ok(ms) => ms,
        Err(e) => {
            return Err(e);
        },
    };
    let ledger = Ledger::from_rows(rows);
    let actions = plan(&migrations, &ledger);
    Ok(RunPlan { migrations, actions })
}

} // verus!
