//! Errors raised while loading migration scripts.

use vstd::prelude::*;

verus! {

/// Why a run was aborted before any statement was planned.
///
/// `MalformedSource` names a script file whose name does not start with a
/// parseable integer version; one such file aborts the whole load.
/// `DuplicateVersion` names a version that two script files share; relying on
/// listing order to pick one of them would be unsound, so the load aborts.
#[derive(Debug, PartialEq, Eq)]
pub enum MigrateError {
    MalformedSource { filename: String },
    DuplicateVersion { version: i64 },
}

impl MigrateError {
    /// A short human-readable account of the error, for the caller to print.
    pub fn message(&self) -> (r: String)
        ensures
            self matches MigrateError::MalformedSource { filename } ==> r@
                == "invalid migration filename format: "@ + filename@,
            self matches MigrateError::DuplicateVersion { .. } ==> r@
                == "duplicate migration version"@,
    {
        match self {
            MigrateError::MalformedSource { filename } => {
                let mut m = "invalid migration filename format: ".to_owned();
                m.append(filename.as_str());
                m
            },
            MigrateError::DuplicateVersion { .. } => "duplicate migration version".to_owned(),
        }
    }
}

} // verus!
