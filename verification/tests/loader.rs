//! Tests for filename recognition, version parsing, and the loader.

use scylla_migrate::{MigrateError, SourceFile, source};

fn sf(name: &str, content: &str) -> SourceFile {
    SourceFile { name: name.to_string(), content: content.to_string() }
}

#[test]
fn recognizes_cql_files_only() {
    assert!(source::is_migration_file("1_a.cql"));
    assert!(source::is_migration_file("20240117000000_create_users.cql"));
    assert!(!source::is_migration_file(".cql"));
    assert!(!source::is_migration_file("a.txt"));
    assert!(!source::is_migration_file("b.CQL"));
    assert!(!source::is_migration_file("cql"));
}

#[test]
fn parses_plain_versions() {
    assert_eq!(source::parse_version("1_a.cql").unwrap(), 1);
    assert_eq!(source::parse_version("00123_a.cql").unwrap(), 123);
    assert_eq!(source::parse_version("20240117000000_create_users.cql").unwrap(), 20240117000000);
}

#[test]
fn parses_signed_versions() {
    assert_eq!(source::parse_version("+5_a.cql").unwrap(), 5);
    assert_eq!(source::parse_version("-5_a.cql").unwrap(), -5);
}

#[test]
fn parses_extreme_versions() {
    assert_eq!(source::parse_version("9223372036854775807_a.cql").unwrap(), i64::MAX);
    assert_eq!(source::parse_version("-9223372036854775808_a.cql").unwrap(), i64::MIN);
}

#[test]
fn rejects_out_of_range_versions() {
    assert!(source::parse_version("9223372036854775808_a.cql").is_err());
    assert!(source::parse_version("-9223372036854775809_a.cql").is_err());
    assert!(source::parse_version("99999999999999999999_a.cql").is_err());
}

#[test]
fn rejects_unparseable_names() {
    assert!(source::parse_version("a_b.cql").is_err());
    assert!(source::parse_version("_a.cql").is_err());
    assert!(source::parse_version("12.cql").is_err());
    assert!(source::parse_version("+_a.cql").is_err());
    assert!(source::parse_version("1x_a.cql").is_err());
}

#[test]
fn malformed_name_reports_the_filename() {
    match source::parse_version("nope.cql") {
        Err(MigrateError::MalformedSource { filename }) => assert_eq!(filename, "nope.cql"),
        other => panic!("expected MalformedSource, got {:?}", other),
    }
}

#[test]
fn load_sorts_by_version() {
    let files = vec![
        sf("3_third.cql", "c"),
        sf("1_first.cql", "a"),
        sf("2_second.cql", "b"),
    ];
    let ms = source::load_migrations(&files).unwrap();
    let versions: Vec<i64> = ms.iter().map(|m| m.version).collect();
    assert_eq!(versions, vec![1, 2, 3]);
    assert_eq!(ms[0].cql, "a");
    assert_eq!(ms[1].cql, "b");
    assert_eq!(ms[2].cql, "c");
}

#[test]
fn load_derives_descriptions() {
    let files = vec![sf("1_create_users.cql", "x"), sf("2_.cql", "y")];
    let ms = source::load_migrations(&files).unwrap();
    assert_eq!(ms[0].description, "create_users");
    assert_eq!(ms[1].description, "");
}

#[test]
fn load_ignores_unrecognized_files() {
    let files = vec![sf("readme.txt", "not a script"), sf("1_a.cql", "x")];
    let ms = source::load_migrations(&files).unwrap();
    assert_eq!(ms.len(), 1);
    assert_eq!(ms[0].version, 1);
}

#[test]
fn load_fails_fast_on_bad_filename() {
    let files = vec![sf("1_a.cql", "x"), sf("broken.cql", "y"), sf("2_b.cql", "z")];
    match source::load_migrations(&files) {
        Err(MigrateError::MalformedSource { filename }) => assert_eq!(filename, "broken.cql"),
        other => panic!("expected MalformedSource, got {:?}", other),
    }
}

#[test]
fn load_rejects_duplicate_versions() {
    let files = vec![sf("1_a.cql", "x"), sf("2_b.cql", "y"), sf("1_c.cql", "z")];
    match source::load_migrations(&files) {
        Err(MigrateError::DuplicateVersion { version }) => assert_eq!(version, 1),
        other => panic!("expected DuplicateVersion, got {:?}", other),
    }
}

#[test]
fn error_messages_name_the_cause() {
    let e = MigrateError::MalformedSource { filename: "nope.cql".to_string() };
    assert_eq!(e.message(), "invalid migration filename format: nope.cql");
    let d = MigrateError::DuplicateVersion { version: 7 };
    assert_eq!(d.message(), "duplicate migration version");
}
