//! The ledger's own CQL: the statements that create its keyspace and table
//! and that read and write its rows. The surrounding process executes them
//! against the session; binding row values into the placeholders is its
//! part.

use vstd::prelude::*;

verus! {

pub open spec fn create_keyspace_cql_spec() -> Seq<char> {
    "CREATE KEYSPACE IF NOT EXISTS public WITH REPLICATION = {'class' : 'NetworkTopologyStrategy', 'replication_factor' : 1}"@
}

pub open spec fn create_migration_table_cql_spec() -> Seq<char> {
    "CREATE TABLE IF NOT EXISTS public.migrations (version bigint, checksum blob, description text, applied_at timestamp, PRIMARY KEY (version, checksum))"@
}

pub open spec fn select_applied_cql_spec() -> Seq<char> {
    "SELECT version, checksum, applied_at FROM public.migrations"@
}

pub open spec fn record_migration_cql_spec() -> Seq<char> {
    "INSERT INTO public.migrations (version, description, checksum, applied_at) VALUES (?, ?, ?, ?)"@
}

/// Creates the ledger's keyspace; safe to run on every start.
pub fn create_keyspace_cql() -> (r: &'static str)
    ensures
        r@ == create_keyspace_cql_spec(),
{
    "CREATE KEYSPACE IF NOT EXISTS public WITH REPLICATION = {'class' : 'NetworkTopologyStrategy', 'replication_factor' : 1}"
}

/// Creates the ledger table, keyed by version and checksum so that a
/// re-applied migration adds a row rather than rewriting history; safe to
/// run on every start.
pub fn create_migration_table_cql() -> (r: &'static str)
    ensures
        r@ == create_migration_table_cql_spec(),
{
    "CREATE TABLE IF NOT EXISTS public.migrations (version bigint, checksum blob, description text, applied_at timestamp, PRIMARY KEY (version, checksum))"
}

/// Reads the snapshot rows that [`crate::ledger::Ledger::from_rows`] takes:
/// version, checksum, and the time of application, which decides the live
/// row among a version's history.
pub fn select_applied_cql() -> (r: &'static str)
    ensures
        r@ == select_applied_cql_spec(),
{
    "SELECT version, checksum, applied_at FROM public.migrations"
}

/// Records one applied migration: version, description, checksum, and the
/// time of application, bound in that order.
pub fn record_migration_cql() -> (r: &'static str)
    ensures
        r@ == record_migration_cql_spec(),
{
    "INSERT INTO public.migrations (version, description, checksum, applied_at) VALUES (?, ?, ?, ?)"
}

} // verus!
