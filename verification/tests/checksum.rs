//! Tests for the content checksum carried by migration records.

use scylla_migrate::Migration;
use sha2::Digest;

#[test]
fn checksum_is_sha384_of_the_content() {
    let content = "CREATE TABLE t (x int);";
    let m = Migration::new(1, "t".to_string(), content.to_string());
    let expected = sha2::Sha384::digest(content.as_bytes());
    assert_eq!(m.checksum, expected.as_slice().to_vec());
}

#[test]
fn checksum_is_48_bytes() {
    let m = Migration::new(1, "t".to_string(), "x".to_string());
    assert_eq!(m.checksum.len(), 48);
}

#[test]
fn checksum_changes_with_any_edit() {
    let a = Migration::new(1, "t".to_string(), "CREATE TABLE t (x int)".to_string());
    let b = Migration::new(1, "t".to_string(), "CREATE TABLE t (x int) ".to_string());
    assert_ne!(a.checksum, b.checksum);
}

#[test]
fn checksum_is_deterministic() {
    let a = Migration::new(1, "t".to_string(), "same".to_string());
    let b = Migration::new(2, "other".to_string(), "same".to_string());
    assert_eq!(a.checksum, b.checksum);
}
