//! Reconciliation: deciding, per migration and in ascending version order,
//! whether to apply it for the first time, skip it, or re-apply it because
//! its content changed since it was last applied.

use vstd::prelude::*;

use crate::ledger::Ledger;
use crate::migration::Migration;
use crate::source::versions_unique;

verus! {

/// What to do with one migration, given the applied-state snapshot.
#[derive(Clone, Copy, Debug, PartialEq, Eq, Structural)]
pub enum Action {
    Apply,
    Skip,
    Reapply,
}

/// The decision rule: a version never applied is applied; one applied with
/// the same checksum is skipped; one applied with a different checksum is
/// re-applied.
pub open spec fn decide_spec(version: int, checksum: Seq<u8>, applied: Map<int, Seq<u8>>) -> Action {
    if !applied.contains_key(version) {
        Action::Apply
    } else if applied[version] == checksum {
        Action::Skip
    } else {
        Action::Reapply
    }
}

/// Decides whether a checksum recorded in the ledger matches a freshly
/// computed one.
pub fn checksums_match(recorded: &Vec<u8>, current: &Vec<u8>) -> (r: bool)
    ensures
        r == (recorded@ == current@),
{
    if recorded.len() != current.len() {
        assert(recorded@ != current@);
        return false;
    }
    let mut i: usize = 0;
    while i < recorded.len()
        invariant
            i <= recorded.len(),
            recorded@.len() == current@.len(),
            forall|j: int| 0 <= j < i ==> recorded@[j] == current@[j],
        decreases recorded@.len() - i,
    {
        if recorded[i] != current[i] {
            return false;
        }
        i = i + 1;
    }
    proof {
        assert(recorded@ =~= current@);
    }
    true
}

/// Decides the action for one migration against the snapshot.
pub fn decide(m: &Migration, ledger: &Ledger) -> (a: Action)
    requires
        ledger.wf(),
    ensures
        a == decide_spec(m@.version, m@.checksum, ledger@),
{
    match ledger.get(m.version) {
        None => Action::Apply,
        Some(recorded) => {
            if checksums_match(recorded, &m.checksum) {
                Action::Skip
            } else {
                Action::Reapply
            }
        },
    }
}

/// Decides the action for every migration, in order.
#[verifier::loop_isolation(false)]
pub fn plan(migrations: &Vec<Migration>, ledger: &Ledger) -> (actions: Vec<Action>)
    requires
        ledger.wf(),
    ensures
        actions@.len() == migrations@.len(),
        forall|i: int|
            0 <= i < migrations@.len() ==> actions@[i] == decide_spec(
                (#[trigger] migrations@[i])@.version,
                migrations@[i]@.checksum,
                ledger@,
            ),
{
    let mut actions: Vec<Action> = Vec::new();
    let mut i: usize = 0;
    while i < migrations.len()
        invariant
            i <= migrations@.len(),
            actions@.len() == i,
            forall|j: int|
                0 <= j < i ==> actions@[j] == decide_spec(
                    (#[trigger] migrations@[j])@.version,
                    migrations@[j]@.checksum,
                    ledger@,
                ),
        decreases migrations@.len() - i,
    {
        let a = decide(&migrations[i], ledger);
        actions.push(a);
        i = i + 1;
    }
    actions
}

/// The ledger after a run that walks `ms` in order against `applied`:
/// a skipped migration leaves the ledger alone, any other is executed and
/// then recorded under its version with its current checksum.
pub open spec fn run_ledger(ms: Seq<Migration>, applied: Map<int, Seq<u8>>) -> Map<int, Seq<u8>>
    decreases ms.len(),
{
    if ms.len() == 0 {
        applied
    } else {
        let next = if decide_spec(ms[0]@.version, ms[0]@.checksum, applied) is Skip {
            applied
        } else {
            applied.insert(ms[0]@.version, ms[0]@.checksum)
        };
        run_ledger(ms.drop_first(), next)
    }
}

/// A run never touches a version that none of its migrations holds.
pub proof fn lemma_run_ledger_untouched(ms: Seq<Migration>, applied: Map<int, Seq<u8>>, v: int)
    requires
        forall|i: int| 0 <= i < ms.len() ==> (#[trigger] ms[i])@.version != v,
    ensures
        run_ledger(ms, applied).contains_key(v) == applied.contains_key(v),
        applied.contains_key(v) ==> run_ledger(ms, applied)[v] == applied[v],
    decreases ms.len(),
{
    if ms.len() > 0 {
        let next = if decide_spec(ms[0]@.version, ms[0]@.checksum, applied) is Skip {
            applied
        } else {
            applied.insert(ms[0]@.version, ms[0]@.checksum)
        };
        assert(ms[0]@.version != v);
        assert(forall|i: int|
            0 <= i < ms.drop_first().len() ==> (#[trigger] ms.drop_first()[i])@.version != v);
        lemma_run_ledger_untouched(ms.drop_first(), next, v);
    }
}

/// After a run, the ledger holds every migration's version with its current
/// checksum.
pub proof fn lemma_run_ledger_records(ms: Seq<Migration>, applied: Map<int, Seq<u8>>)
    requires
        versions_unique(ms),
    ensures
        forall|i: int|
            0 <= i < ms.len() ==> run_ledger(ms, applied).contains_key(
                (#[trigger] ms[i])@.version,
            ) && run_ledger(ms, applied)[ms[i]@.version] == ms[i]@.checksum,
    decreases ms.len(),
{
    if ms.len() > 0 {
        let next = if decide_spec(ms[0]@.version, ms[0]@.checksum, applied) is Skip {
            applied
        } else {
            applied.insert(ms[0]@.version, ms[0]@.checksum)
        };
        let rest = ms.drop_first();
        assert(versions_unique(rest)) by {
            assert(forall|i: int| 0 <= i < rest.len() ==> (#[trigger] rest[i]) == ms[i + 1]);
        }
        lemma_run_ledger_records(rest, next);
        assert(next.contains_key(ms[0]@.version) && next[ms[0]@.version] == ms[0]@.checksum);
        assert(forall|i: int| 0 <= i < rest.len() ==> (#[trigger] rest[i])@.version != ms[0]@.version)
            by {
            assert(forall|i: int| 0 <= i < rest.len() ==> (#[trigger] rest[i]) == ms[i + 1]);
        }
        lemma_run_ledger_untouched(rest, next, ms[0]@.version);
        assert forall|i: int|
            0 <= i < ms.len() implies run_ledger(ms, applied).contains_key(
            (#[trigger] ms[i])@.version,
        ) && run_ledger(ms, applied)[ms[i]@.version] == ms[i]@.checksum by {
            if i > 0 {
                assert(rest[i - 1] == ms[i]);
            }
        }
    }
}

/// Idempotence, first half: against the ledger a run leaves behind, every
/// one of the same migrations is decided `Skip`, so a second run executes
/// nothing.
pub proof fn lemma_second_run_all_skip(ms: Seq<Migration>, applied: Map<int, Seq<u8>>)
    requires
        versions_unique(ms),
    ensures
        forall|i: int|
            0 <= i < ms.len() ==> decide_spec(
                (#[trigger] ms[i])@.version,
                ms[i]@.checksum,
                run_ledger(ms, applied),
            ) is Skip,
{
    lemma_run_ledger_records(ms, applied);
}

/// A run in which every migration is decided `Skip` leaves the ledger
/// exactly as it was.
pub proof fn lemma_all_skip_identity(ms: Seq<Migration>, applied: Map<int, Seq<u8>>)
    requires
        forall|i: int|
            0 <= i < ms.len() ==> decide_spec(
                (#[trigger] ms[i])@.version,
                ms[i]@.checksum,
                applied,
            ) is Skip,
    ensures
        run_ledger(ms, applied) == applied,
    decreases ms.len(),
{
    if ms.len() > 0 {
        let rest = ms.drop_first();
        assert(decide_spec(ms[0]@.version, ms[0]@.checksum, applied) is Skip);
        assert(forall|i: int|
            0 <= i < rest.len() ==> decide_spec(
                (#[trigger] rest[i])@.version,
                rest[i]@.checksum,
                applied,
            ) is Skip) by {
            assert(forall|i: int| 0 <= i < rest.len() ==> (#[trigger] rest[i]) == ms[i + 1]);
        }
        lemma_all_skip_identity(rest, applied);
    }
}

/// Idempotence: running the same migrations again, against the ledger the
/// first run left behind, changes nothing.
pub proof fn lemma_run_idempotent(ms: Seq<Migration>, applied: Map<int, Seq<u8>>)
    requires
        versions_unique(ms),
    ensures
        run_ledger(ms, run_ledger(ms, applied)) == run_ledger(ms, applied),
{
    lemma_second_run_all_skip(ms, applied);
    lemma_all_skip_identity(ms, run_ledger(ms, applied));
}

/// Change detection: when every migration but one stands in the ledger with
/// its current checksum, and that one stands there with a different
/// checksum, a run re-applies exactly that one — it alone is decided
/// `Reapply`, the ledger entry for its version is replaced, and every other
/// version is untouched.
pub proof fn lemma_change_detection(ms: Seq<Migration>, applied: Map<int, Seq<u8>>, k: int)
    requires
        versions_unique(ms),
        0 <= k < ms.len(),
        forall|i: int|
            0 <= i < ms.len() && i != k ==> applied.contains_key((#[trigger] ms[i])@.version)
                && applied[ms[i]@.version] == ms[i]@.checksum,
        applied.contains_key(ms[k]@.version),
        applied[ms[k]@.version] != ms[k]@.checksum,
    ensures
        decide_spec(ms[k]@.version, ms[k]@.checksum, applied) is Reapply,
        forall|i: int|
            0 <= i < ms.len() && i != k ==> decide_spec(
                (#[trigger] ms[i])@.version,
                ms[i]@.checksum,
                applied,
            ) is Skip,
        run_ledger(ms, applied) == applied.insert(ms[k]@.version, ms[k]@.checksum),
        forall|i: int|
            0 <= i < ms.len() && i != k ==> run_ledger(ms, applied)[(#[trigger] ms[i])@.version]
                == applied[ms[i]@.version],
    decreases ms.len(),
{
    let rest = ms.drop_first();
    assert(forall|i: int| 0 <= i < rest.len() ==> (#[trigger] rest[i]) == ms[i + 1]);
    assert(versions_unique(rest));
    if k == 0 {
        let next = applied.insert(ms[0]@.version, ms[0]@.checksum);
        assert(decide_spec(ms[0]@.version, ms[0]@.checksum, applied) is Reapply);
        assert forall|i: int|
            0 <= i < rest.len() implies decide_spec(
            (#[trigger] rest[i])@.version,
            rest[i]@.checksum,
            next,
        ) is Skip by {
            assert(rest[i] == ms[i + 1]);
            assert(ms[i + 1]@.version != ms[0]@.version);
        }
        lemma_all_skip_identity(rest, next);
        assert(run_ledger(ms, applied) == next);
    } else {
        assert(decide_spec(ms[0]@.version, ms[0]@.checksum, applied) is Skip);
        assert(rest[k - 1] == ms[k]);
        lemma_change_detection(rest, applied, k - 1);
        assert(run_ledger(ms, applied) == run_ledger(rest, applied));
    }
    assert forall|i: int|
        0 <= i < ms.len() && i != k implies run_ledger(ms, applied)[(#[trigger] ms[i])@.version]
        == applied[ms[i]@.version] by {
        assert(ms[i]@.version != ms[k]@.version);
    }
}

/// Retry after failure: a version that is not in the ledger, or stands
/// there with another checksum, is never skipped — an unrecorded migration
/// is attempted again, from its first statement, on the next run.
pub proof fn lemma_unrecorded_retried(version: int, checksum: Seq<u8>, applied: Map<int, Seq<u8>>)
    requires
        !applied.contains_key(version) || applied[version] != checksum,
    ensures
        !(decide_spec(version, checksum, applied) is Skip),
{
}

/// A run over no migrations leaves the ledger untouched.
pub proof fn lemma_empty_run(applied: Map<int, Seq<u8>>)
    ensures
        run_ledger(Seq::empty(), applied) == applied,
{
}

} // verus!
