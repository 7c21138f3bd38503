//! End-to-end planning tests: discover, reconcile, and the ledger each run
//! leaves behind, simulated on plain values.

use scylla_migrate::{Action, Ledger, MigrateError, Migration, SourceFile, plan_run, reconcile};

fn sf(name: &str, content: &str) -> SourceFile {
    SourceFile { name: name.to_string(), content: content.to_string() }
}

/// Carries one run's plan out against an in-memory ledger: every migration
/// not decided `Skip` has its statements counted as executed and is then
/// recorded as a new row with a fresh (strictly newer) applied time, as the
/// real runner records it after running them.
fn simulate_run(
    files: &Vec<SourceFile>,
    rows: Vec<(i64, Vec<u8>, i64)>,
) -> (Vec<(i64, Vec<u8>, i64)>, usize, Vec<Action>) {
    let plan = plan_run(files, rows.clone()).unwrap();
    let mut new_rows = rows;
    let mut clock = new_rows.iter().map(|r| r.2).max().unwrap_or(0);
    let mut executed = 0;
    let mut actions = Vec::new();
    for (i, m) in plan.migrations.iter().enumerate() {
        let a = plan.actions[i];
        actions.push(a);
        if a != Action::Skip {
            executed += m.statements().len();
            clock += 1;
            new_rows.push((m.version, m.checksum.clone(), clock));
        }
    }
    (new_rows, executed, actions)
}

#[test]
fn first_run_applies_everything_in_order() {
    let files = vec![
        sf("3_third.cql", "CREATE TABLE c (x int)"),
        sf("1_first.cql", "CREATE TABLE a (x int)"),
        sf("2_second.cql", "CREATE TABLE b (x int)"),
    ];
    let plan = plan_run(&files, vec![]).unwrap();
    let versions: Vec<i64> = plan.migrations.iter().map(|m| m.version).collect();
    assert_eq!(versions, vec![1, 2, 3]);
    assert_eq!(plan.actions, vec![Action::Apply, Action::Apply, Action::Apply]);
}

#[test]
fn second_run_is_idempotent() {
    let files = vec![
        sf("1_users.cql", "CREATE TABLE users (id bigint, PRIMARY KEY (id))"),
        sf("2_index.cql", "CREATE INDEX ON users (id)"),
    ];
    let (rows1, executed1, actions1) = simulate_run(&files, vec![]);
    assert_eq!(actions1, vec![Action::Apply, Action::Apply]);
    assert_eq!(executed1, 2);
    assert_eq!(rows1.len(), 2);

    let (rows2, executed2, actions2) = simulate_run(&files, rows1.clone());
    assert_eq!(actions2, vec![Action::Skip, Action::Skip]);
    assert_eq!(executed2, 0);
    assert_eq!(rows2, rows1);
}

#[test]
fn changed_content_is_reapplied_and_others_untouched() {
    let files = vec![
        sf("1_users.cql", "CREATE TABLE users (id bigint, PRIMARY KEY (id))"),
        sf("2_index.cql", "CREATE INDEX ON users (id)"),
        sf("3_more.cql", "CREATE TABLE more (id bigint, PRIMARY KEY (id))"),
    ];
    let (rows1, _, _) = simulate_run(&files, vec![]);

    let mut changed = files.clone();
    changed[1] = sf("2_index.cql", "CREATE INDEX ON users (id); CREATE INDEX ON more (id)");
    let old_checksum = rows1.iter().find(|r| r.0 == 2).unwrap().1.clone();

    let (rows2, executed2, actions2) = simulate_run(&changed, rows1.clone());
    assert_eq!(actions2, vec![Action::Skip, Action::Reapply, Action::Skip]);
    assert_eq!(executed2, 2);
    // a new row for version 2, with a new checksum; versions 1 and 3 untouched
    assert_eq!(rows2.len(), 4);
    let new_checksum = &rows2[3].1;
    assert_eq!(rows2[3].0, 2);
    assert_ne!(*new_checksum, old_checksum);
    assert_eq!(rows2[0], rows1[0]);
    assert_eq!(rows2[2], rows1[2]);

    // the run after that skips everything again, even though both the old
    // and the new row for version 2 stand in the ledger
    let (_, executed3, actions3) = simulate_run(&changed, rows2);
    assert_eq!(actions3, vec![Action::Skip, Action::Skip, Action::Skip]);
    assert_eq!(executed3, 0);
}

#[test]
fn reapply_history_stays_idempotent_in_any_read_order() {
    let files = vec![sf("1_users.cql", "CREATE TABLE users (id bigint, PRIMARY KEY (id))")];
    let (rows1, _, _) = simulate_run(&files, vec![]);
    let changed = vec![sf("1_users.cql", "CREATE TABLE users (id bigint, PRIMARY KEY (id)); x")];
    let (rows2, _, actions2) = simulate_run(&changed, rows1);
    assert_eq!(actions2, vec![Action::Reapply]);
    assert_eq!(rows2.len(), 2);

    // however the read orders version 1's two historical rows, the newer
    // applied time decides, and the next run skips
    let forward = rows2.clone();
    let mut backward = rows2.clone();
    backward.reverse();
    let (_, executed_f, actions_f) = simulate_run(&changed, forward);
    let (_, executed_b, actions_b) = simulate_run(&changed, backward);
    assert_eq!(actions_f, vec![Action::Skip]);
    assert_eq!(actions_b, vec![Action::Skip]);
    assert_eq!(executed_f + executed_b, 0);
}

#[test]
fn bad_filename_fails_before_anything_is_planned() {
    let files = vec![sf("1_ok.cql", "CREATE TABLE a (x int)"), sf("oops.cql", "b")];
    let rows: Vec<(i64, Vec<u8>, i64)> = vec![];
    match plan_run(&files, rows.clone()) {
        Err(MigrateError::MalformedSource { filename }) => assert_eq!(filename, "oops.cql"),
        other => panic!("expected MalformedSource, got {:?}", other.map(|_| ())),
    }
    // nothing ran, so the ledger stays empty
    assert!(rows.is_empty());
}

#[test]
fn duplicate_version_fails_the_run() {
    let files = vec![sf("1_a.cql", "x"), sf("1_b.cql", "y")];
    match plan_run(&files, vec![]) {
        Err(MigrateError::DuplicateVersion { version }) => assert_eq!(version, 1),
        other => panic!("expected DuplicateVersion, got {:?}", other.map(|_| ())),
    }
}

#[test]
fn empty_directory_succeeds_with_nothing_to_do() {
    let files: Vec<SourceFile> = vec![];
    let (rows, executed, actions) = simulate_run(&files, vec![]);
    assert!(rows.is_empty());
    assert_eq!(executed, 0);
    assert!(actions.is_empty());
}

#[test]
fn failed_migration_stays_unrecorded_and_is_retried_whole() {
    let files = vec![sf("1_two_steps.cql", "CREATE TABLE a (x int); THIS IS NOT VALID CQL")];
    let plan1 = plan_run(&files, vec![]).unwrap();
    assert_eq!(plan1.actions, vec![Action::Apply]);
    let stmts = plan1.migrations[0].statements();
    assert_eq!(stmts, vec!["CREATE TABLE a (x int)", "THIS IS NOT VALID CQL"]);

    // the second statement fails, so the runner records nothing; the next
    // run attempts the same migration again, from its first statement
    let plan2 = plan_run(&files, vec![]).unwrap();
    assert_eq!(plan2.actions, vec![Action::Apply]);
    assert_eq!(plan2.migrations[0].statements(), stmts);
}

#[test]
fn create_and_index_scenario() {
    let files = vec![
        sf("1_create_users.cql", "CREATE TABLE users (id bigint, PRIMARY KEY (id))"),
        sf("2_add_index.cql", "CREATE INDEX ON users (id)"),
    ];
    let (rows1, executed1, actions1) = simulate_run(&files, vec![]);
    assert_eq!(actions1, vec![Action::Apply, Action::Apply]);
    assert_eq!(executed1, 2);
    let versions: Vec<i64> = rows1.iter().map(|r| r.0).collect();
    assert_eq!(versions, vec![1, 2]);

    let (rows2, executed2, actions2) = simulate_run(&files, rows1.clone());
    assert_eq!(actions2, vec![Action::Skip, Action::Skip]);
    assert_eq!(executed2, 0);
    assert_eq!(rows2, rows1);
}

#[test]
fn decide_follows_the_ledger() {
    let m = Migration {
        version: 1,
        description: "a".to_string(),
        cql: "x".to_string(),
        checksum: vec![1, 2, 3],
    };
    let empty = Ledger::from_rows(vec![]);
    assert_eq!(reconcile::decide(&m, &empty), Action::Apply);
    let same = Ledger::from_rows(vec![(1, vec![1, 2, 3], 10)]);
    assert_eq!(reconcile::decide(&m, &same), Action::Skip);
    let other = Ledger::from_rows(vec![(1, vec![9, 9], 10)]);
    assert_eq!(reconcile::decide(&m, &other), Action::Reapply);
    let unrelated = Ledger::from_rows(vec![(2, vec![1, 2, 3], 10)]);
    assert_eq!(reconcile::decide(&m, &unrelated), Action::Apply);
}

#[test]
fn latest_applied_row_wins_in_any_read_order() {
    let m = Migration {
        version: 1,
        description: "a".to_string(),
        cql: "x".to_string(),
        checksum: vec![7, 7],
    };
    // the row with applied_at 20 carries this migration's checksum
    let newest_last = Ledger::from_rows(vec![(1, vec![5, 5], 10), (1, vec![7, 7], 20)]);
    assert_eq!(reconcile::decide(&m, &newest_last), Action::Skip);
    let newest_first = Ledger::from_rows(vec![(1, vec![7, 7], 20), (1, vec![5, 5], 10)]);
    assert_eq!(reconcile::decide(&m, &newest_first), Action::Skip);
    // when the stale row carries it instead, the migration is re-applied,
    // again in either read order
    let stale = Migration {
        version: 1,
        description: "a".to_string(),
        cql: "x".to_string(),
        checksum: vec![5, 5],
    };
    assert_eq!(reconcile::decide(&stale, &newest_last), Action::Reapply);
    assert_eq!(reconcile::decide(&stale, &newest_first), Action::Reapply);
}

#[test]
fn equal_applied_times_go_to_the_later_row() {
    let m = Migration {
        version: 1,
        description: "a".to_string(),
        cql: "x".to_string(),
        checksum: vec![7, 7],
    };
    let tied = Ledger::from_rows(vec![(1, vec![5, 5], 10), (1, vec![7, 7], 10)]);
    assert_eq!(reconcile::decide(&m, &tied), Action::Skip);
}
