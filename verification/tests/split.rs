//! Tests for splitting script text into statements.

use scylla_migrate::Migration;

fn statements_of(cql: &str) -> Vec<String> {
    Migration::new(1, "t".to_string(), cql.to_string()).statements()
}

#[test]
fn splits_on_semicolons() {
    assert_eq!(statements_of("a; b; c"), vec!["a", "b", "c"]);
}

#[test]
fn trims_each_statement() {
    assert_eq!(statements_of("  CREATE TABLE t (x int)  ;\n  CREATE INDEX i ON t (x)\n"), vec![
        "CREATE TABLE t (x int)",
        "CREATE INDEX i ON t (x)",
    ]);
}

#[test]
fn drops_empty_pieces() {
    assert_eq!(statements_of("a;; ;b;"), vec!["a", "b"]);
    assert_eq!(statements_of(";;;"), Vec::<String>::new());
    assert_eq!(statements_of(""), Vec::<String>::new());
    assert_eq!(statements_of("   \n\t  "), Vec::<String>::new());
}

#[test]
fn keeps_multi_line_statements_whole() {
    let cql = "CREATE TABLE users (\n  id bigint,\n  PRIMARY KEY (id)\n);\n-- a comment\nCREATE INDEX ON users (id)";
    assert_eq!(statements_of(cql), vec![
        "CREATE TABLE users (\n  id bigint,\n  PRIMARY KEY (id)\n)",
        "-- a comment\nCREATE INDEX ON users (id)",
    ]);
}

#[test]
fn trims_unicode_whitespace() {
    assert_eq!(statements_of("\u{a0}a\u{a0}; \u{2003}b\u{2028}"), vec!["a", "b"]);
    assert_eq!(statements_of("\u{a0}\u{3000}\u{85}"), Vec::<String>::new());
}

#[test]
fn one_statement_without_separator() {
    assert_eq!(statements_of("CREATE TABLE t (x int)"), vec!["CREATE TABLE t (x int)"]);
}
