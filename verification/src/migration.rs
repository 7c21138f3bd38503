//! The migration record: one discovered script, its version, description,
//! raw statement text and content checksum.

use vstd::prelude::*;

use crate::statements;

verus! {

/// The digest that `sha2::Sha384` computes over the UTF-8 encoding of a
/// string with the given characters. The digest depends on those characters
/// alone; nothing further is assumed about its value.
pub uninterp spec fn sha384_of(s: Seq<char>) -> Seq<u8>;

/// Relies on `sha2::Sha384` (through `sha2::Digest::digest`): a deterministic
/// digest of the input bytes, 48 bytes long.
#[verifier::external_body]
fn sha384(text: &str) -> (r: Vec<u8>)
    ensures
        r@ == sha384_of(text@),
        r@.len() == 48,
{
    <sha2::Sha384 as sha2::Digest>::digest(text.as_bytes()).as_slice().to_vec()
}

/// A row of the applied-state ledger as reconciliation reads it: a recorded
/// checksum and the time it was applied, in milliseconds since the epoch.
/// The timestamp decides, among a version's historical rows, which checksum
/// is the live one.
pub struct AppliedMigration {
    pub checksum: Vec<u8>,
    pub applied_at: i64,
}

/// The mathematical content of a [`Migration`].
pub ghost struct MigrationView {
    pub version: int,
    pub description: Seq<char>,
    pub cql: Seq<char>,
    pub checksum: Seq<u8>,
}

/// One discovered migration script.
///
/// Built once by the loader from a script file, read-only afterwards. The
/// checksum is the SHA-384 digest of the raw script text and serves as a
/// change-detection fingerprint, not as a security control.
#[derive(Debug)]
pub struct Migration {
    pub version: i64,
    pub description: String,
    pub cql: String,
    pub checksum: Vec<u8>,
}

impl View for Migration {
    type V = MigrationView;

    open spec fn view(&self) -> MigrationView {
        MigrationView {
            version: self.version as int,
            description: self.description@,
            cql: self.cql@,
            checksum: self.checksum@,
        }
    }
}

impl Migration {
    /// Builds a migration record, computing the checksum of the script text.
    pub fn new(version: i64, description: String, cql: String) -> (m: Migration)
        ensures
            m@.version == version as int,
            m@.description == description@,
            m@.cql == cql@,
            m@.checksum == sha384_of(cql@),
            m@.checksum.len() == 48,
    {
        let checksum = sha384(cql.as_str());
        Migration { version, description, cql, checksum }
    }

    /// Splits the script text into the individual statements to execute:
    /// the pieces between `;` separators, trimmed, with empty pieces
    /// discarded.
    pub fn statements(&self) -> (r: Vec<String>)
        ensures
            r@.map_values(|t: String| t@) == statements::statements_spec(self@.cql),
    {
        statements::split_statements(self.cql.as_str())
    }
}

} // verus!
