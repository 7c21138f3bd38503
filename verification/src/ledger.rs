//! The applied-state snapshot: one consistent read of the ledger, mapping
//! each version to the checksum of the content most recently applied under
//! it.
//!
//! The persisted table retains history — one row per version and checksum,
//! each stamped with its application time — and hands its rows back in no
//! useful order. The snapshot therefore keeps, per version, the row with
//! the greatest `applied_at`, so that reconciliation compares against the
//! last-applied checksum and not against whichever historical row the read
//! happened to hand over last.

use vstd::prelude::*;

use crate::migration::AppliedMigration;

verus! {

/// The timestamped fold of the rows `(version, checksum, applied_at)` of
/// one read: each version maps to the applied time and checksum of its most
/// recently applied row. Among rows with equal applied times, the one
/// handed later wins.
pub open spec fn ledger_fold(rows: Seq<(i64, Vec<u8>, i64)>) -> Map<int, (int, Seq<u8>)>
    decreases rows.len(),
{
    if rows.len() == 0 {
        Map::empty()
    } else {
        let m = ledger_fold(rows.drop_last());
        let v = rows.last().0 as int;
        let ts = rows.last().2 as int;
        if !m.contains_key(v) || m[v].0 <= ts {
            m.insert(v, (ts, rows.last().1@))
        } else {
            m
        }
    }
}

/// The map a read of the ledger denotes: each version maps to the checksum
/// of its most recently applied row.
pub open spec fn ledger_of_rows(rows: Seq<(i64, Vec<u8>, i64)>) -> Map<int, Seq<u8>> {
    Map::new(|v: int| ledger_fold(rows).contains_key(v), |v: int| ledger_fold(rows)[v].1)
}

spec fn entries_map(s: Seq<(i64, AppliedMigration)>) -> Map<int, (int, Seq<u8>)>
    decreases s.len(),
{
    if s.len() == 0 {
        Map::empty()
    } else {
        entries_map(s.drop_last()).insert(
            s.last().0 as int,
            (s.last().1.applied_at as int, s.last().1.checksum@),
        )
    }
}

spec fn entry_versions_unique(s: Seq<(i64, AppliedMigration)>) -> bool {
    forall|i: int, j: int| 0 <= i < j < s.len() ==> (#[trigger] s[i]).0 != (#[trigger] s[j]).0
}

proof fn lemma_entries_map_dom(s: Seq<(i64, AppliedMigration)>, v: int)
    ensures
        entries_map(s).contains_key(v) <==> exists|i: int|
            0 <= i < s.len() && (#[trigger] s[i]).0 as int == v,
    decreases s.len(),
{
    if s.len() == 0 {
    } else {
        lemma_entries_map_dom(s.drop_last(), v);
        if s.last().0 as int == v {
            assert((s[s.len() - 1]).0 as int == v);
        } else {
            if entries_map(s).contains_key(v) {
                let i = choose|i: int|
                    0 <= i < s.drop_last().len() && (#[trigger] s.drop_last()[i]).0 as int == v;
                assert((s[i]).0 as int == v);
            }
            if exists|i: int| 0 <= i < s.len() && (#[trigger] s[i]).0 as int == v {
                let i = choose|i: int| 0 <= i < s.len() && (#[trigger] s[i]).0 as int == v;
                assert(i < s.len() - 1);
                assert((s.drop_last()[i]).0 as int == v);
            }
        }
    }
}

proof fn lemma_entries_map_value(s: Seq<(i64, AppliedMigration)>, i: int)
    requires
        entry_versions_unique(s),
        0 <= i < s.len(),
    ensures
        entries_map(s).contains_key(s[i].0 as int),
        entries_map(s)[s[i].0 as int] == (s[i].1.applied_at as int, s[i].1.checksum@),
    decreases s.len(),
{
    if i == s.len() - 1 {
    } else {
        assert(entry_versions_unique(s.drop_last())) by {
            assert(forall|a: int, b: int|
                0 <= a < b < s.len() - 1 ==> (#[trigger] s.drop_last()[a]).0 == s[a].0 && (
                #[trigger] s.drop_last()[b]).0 == s[b].0);
        }
        assert(s.drop_last()[i] == s[i]);
        lemma_entries_map_value(s.drop_last(), i);
        assert(s[s.len() - 1].0 != s[i].0);
    }
}

proof fn lemma_entries_map_remove(s: Seq<(i64, AppliedMigration)>, k: int)
    requires
        entry_versions_unique(s),
        0 <= k < s.len(),
    ensures
        entries_map(s.remove(k)) == entries_map(s).remove(s[k].0 as int),
    decreases s.len(),
{
    s.remove_ensures(k);
    if k == s.len() - 1 {
        assert(s.remove(k) =~= s.drop_last());
        lemma_entries_map_dom(s.drop_last(), s[k].0 as int);
        if entries_map(s.drop_last()).contains_key(s[k].0 as int) {
            let i = choose|i: int|
                0 <= i < s.drop_last().len() && (#[trigger] s.drop_last()[i]).0 as int == (
                s[k].0 as int);
            assert((s[i]).0 == s[k].0);
            assert(false);
        }
        assert(entries_map(s.drop_last()).remove(s[k].0 as int) =~= entries_map(s.drop_last()));
        assert(entries_map(s).remove(s[k].0 as int) =~= entries_map(s.drop_last()));
    } else {
        assert(entry_versions_unique(s.drop_last())) by {
            assert(forall|a: int, b: int|
                0 <= a < b < s.len() - 1 ==> (#[trigger] s.drop_last()[a]).0 == s[a].0 && (
                #[trigger] s.drop_last()[b]).0 == s[b].0);
        }
        assert(s.drop_last()[k] == s[k]);
        lemma_entries_map_remove(s.drop_last(), k);
        s.drop_last().remove_ensures(k);
        assert(s.remove(k).drop_last() =~= s.drop_last().remove(k));
        assert(s.remove(k).last() == s.last());
        assert(s.last().0 != s[k].0);
        assert(entries_map(s.remove(k)) =~= entries_map(s).remove(s[k].0 as int));
    }
}

/// What the fold holds for a version: the timestamp and checksum of one of
/// that version's rows, whose timestamp no other row of the version
/// exceeds.
proof fn lemma_ledger_fold_char(rows: Seq<(i64, Vec<u8>, i64)>, v: int)
    ensures
        ledger_fold(rows).contains_key(v) <==> exists|j: int|
            0 <= j < rows.len() && (#[trigger] rows[j]).0 as int == v,
        ledger_fold(rows).contains_key(v) ==> exists|j: int|
            0 <= j < rows.len() && (#[trigger] rows[j]).0 as int == v && ledger_fold(rows)[v] == (
            rows[j].2 as int,
            rows[j].1@,
        ),
        forall|j: int|
            0 <= j < rows.len() && (#[trigger] rows[j]).0 as int == v && ledger_fold(
                rows,
            ).contains_key(v) ==> rows[j].2 as int <= ledger_fold(rows)[v].0,
    decreases rows.len(),
{
    if rows.len() == 0 {
    } else {
        let pre = rows.drop_last();
        lemma_ledger_fold_char(pre, v);
        assert(forall|j: int| 0 <= j < pre.len() ==> (#[trigger] pre[j]) == rows[j]);
        let last = rows[rows.len() - 1];
        let m = ledger_fold(pre);
        if last.0 as int == v {
            assert((rows[rows.len() - 1]).0 as int == v);
            if !m.contains_key(v) || m[v].0 <= last.2 as int {
                assert(ledger_fold(rows)[v] == (last.2 as int, last.1@));
            } else {
                let j = choose|j: int|
                    0 <= j < pre.len() && (#[trigger] pre[j]).0 as int == v && m[v] == (
                    pre[j].2 as int,
                    pre[j].1@,
                );
                assert((rows[j]).0 as int == v && ledger_fold(rows)[v] == (
                    rows[j].2 as int,
                    rows[j].1@,
                ));
            }
        } else {
            if ledger_fold(rows).contains_key(v) {
                let j = choose|j: int|
                    0 <= j < pre.len() && (#[trigger] pre[j]).0 as int == v && m[v] == (
                    pre[j].2 as int,
                    pre[j].1@,
                );
                assert((rows[j]).0 as int == v && ledger_fold(rows)[v] == (
                    rows[j].2 as int,
                    rows[j].1@,
                ));
            }
            if exists|j: int| 0 <= j < rows.len() && (#[trigger] rows[j]).0 as int == v {
                let j = choose|j: int| 0 <= j < rows.len() && (#[trigger] rows[j]).0 as int == v;
                assert(j < rows.len() - 1);
                assert((pre[j]).0 as int == v);
            }
        }
        if ledger_fold(rows).contains_key(v) {
            assert forall|j: int|
                0 <= j < rows.len() && (#[trigger] rows[j]).0 as int == v implies rows[j].2 as int
                <= ledger_fold(rows)[v].0 by {
                if j < rows.len() - 1 {
                    assert((pre[j]).0 as int == v);
                    assert(m.contains_key(v));
                    assert(pre[j].2 as int <= m[v].0);
                    if last.0 as int == v && (!m.contains_key(v) || m[v].0 <= last.2 as int) {
                        assert(ledger_fold(rows)[v].0 == last.2 as int);
                    } else {
                        assert(ledger_fold(rows)[v] == m[v]);
                    }
                } else {
                    if last.0 as int == v && (!m.contains_key(v) || m[v].0 <= last.2 as int) {
                        assert(ledger_fold(rows)[v].0 == last.2 as int);
                    } else {
                        assert(m.contains_key(v) && m[v].0 > last.2 as int);
                        assert(ledger_fold(rows)[v] == m[v]);
                    }
                }
            }
        }
    }
}

/// The snapshot holds the latest-applied checksum: a row whose applied time
/// is strictly greater than every other row's for its version decides that
/// version's entry, wherever in the read it stood. In particular, once the
/// runner records a migration with a fresh applied time, every later
/// snapshot maps that version to the just-recorded checksum, whatever order
/// the read hands the version's historical rows in.
pub proof fn lemma_ledger_of_rows_latest(rows: Seq<(i64, Vec<u8>, i64)>, i: int)
    requires
        0 <= i < rows.len(),
        forall|j: int|
            0 <= j < rows.len() && j != i && (#[trigger] rows[j]).0 == rows[i].0 ==> rows[j].2
                < rows[i].2,
    ensures
        ledger_of_rows(rows).contains_key(rows[i].0 as int),
        ledger_of_rows(rows)[rows[i].0 as int] == rows[i].1@,
{
    let v = rows[i].0 as int;
    lemma_ledger_fold_char(rows, v);
    assert((rows[i]).0 as int == v);
    let j = choose|j: int|
        0 <= j < rows.len() && (#[trigger] rows[j]).0 as int == v && ledger_fold(rows)[v] == (
        rows[j].2 as int,
        rows[j].1@,
    );
    if j != i {
        assert(rows[j].0 == rows[i].0);
        assert(rows[j].2 < rows[i].2);
        assert(rows[i].2 as int <= ledger_fold(rows)[v].0);
        assert(false);
    }
}

/// The applied-state snapshot, keyed by version.
///
/// Abstractly a map from version to the live checksum for that version; see
/// [`ledger_of_rows`] for how a read of the persisted table builds it.
pub struct Ledger {
    entries: Vec<(i64, AppliedMigration)>,
}

impl View for Ledger {
    type V = Map<int, Seq<u8>>;

    closed spec fn view(&self) -> Map<int, Seq<u8>> {
        Map::new(
            |v: int| entries_map(self.entries@).contains_key(v),
            |v: int| entries_map(self.entries@)[v].1,
        )
    }
}

impl Ledger {
    /// The snapshot keeps one entry per version.
    pub closed spec fn wf(&self) -> bool {
        entry_versions_unique(self.entries@)
    }

    /// Builds the snapshot from the `(version, checksum, applied_at)` rows
    /// of one consistent read of the persisted ledger: per version, the row
    /// with the greatest applied time wins, whatever order the read handed
    /// the rows in (a tie goes to the row handed later).
    pub fn from_rows(rows: Vec<(i64, Vec<u8>, i64)>) -> (l: Ledger)
        ensures
            l.wf(),
            l@ == ledger_of_rows(rows@),
    {
        let ghost rows0 = rows@;
        let mut remaining = rows;
        let mut entries: Vec<(i64, AppliedMigration)> = Vec::new();
        proof {
            assert(rows0.subrange(rows0.len() - remaining@.len(), rows0.len() as int)
                =~= remaining@);
        }
        while remaining.len() > 0
            invariant
                remaining@.len() <= rows0.len(),
                remaining@ == rows0.subrange(rows0.len() - remaining@.len(), rows0.len() as int),
                entry_versions_unique(entries@),
                entries_map(entries@) == ledger_fold(
                    rows0.subrange(0, rows0.len() - remaining@.len()),
                ),
            decreases remaining@.len(),
        {
            let ghost i = rows0.len() - remaining@.len();
            let ghost old_rem = remaining@;
            let row = remaining.remove(0);
            proof {
                old_rem.remove_ensures(0);
                assert(old_rem.remove(0) =~= remaining@);
                assert(row == rows0[i as int]);
                assert(remaining@ =~= rows0.subrange(
                    rows0.len() - remaining@.len(),
                    rows0.len() as int,
                ));
                assert(rows0.subrange(0, i as int + 1).drop_last() =~= rows0.subrange(0, i as int));
                assert(rows0.subrange(0, i as int + 1).last() == rows0[i as int]);
            }
            let (v, c, ts) = row;
            let ghost cv = c@;
            let n = entries.len();
            let mut k: usize = 0;
            while k < n && entries[k].0 != v
                invariant
                    k <= n,
                    n == entries@.len(),
                    forall|l: int| 0 <= l < k ==> (#[trigger] entries@[l]).0 != v,
                decreases n - k,
            {
                k = k + 1;
            }
            let ghost old_entries = entries@;
            if k < n {
                proof {
                    lemma_entries_map_value(old_entries, k as int);
                }
                if entries[k].1.applied_at <= ts {
                    let _replaced = entries.remove(k);
                    entries.push((v, AppliedMigration { checksum: c, applied_at: ts }));
                    proof {
                        lemma_entries_map_remove(old_entries, k as int);
                        old_entries.remove_ensures(k as int);
                        let removed = old_entries.remove(k as int);
                        assert(entries@.drop_last() =~= removed);
                        assert(entries_map(entries@) =~= entries_map(old_entries).insert(
                            v as int,
                            (ts as int, cv),
                        ));
                        assert forall|l: int|
                            0 <= l < removed.len() implies (#[trigger] removed[l]).0 != v by {
                            if l < k {
                                assert(removed[l] == old_entries[l]);
                            } else {
                                assert(removed[l] == old_entries[l + 1]);
                                assert(old_entries[k as int].0 == v);
                            }
                        }
                        assert(entry_versions_unique(entries@));
                    }
                } else {
                    proof {
                        assert(entries_map(old_entries)[v as int].0 > ts as int);
                        assert(ledger_fold(rows0.subrange(0, i as int + 1)) == ledger_fold(
                            rows0.subrange(0, i as int),
                        ));
                    }
                }
            } else {
                entries.push((v, AppliedMigration { checksum: c, applied_at: ts }));
                proof {
                    lemma_entries_map_dom(old_entries, v as int);
                    if entries_map(old_entries).contains_key(v as int) {
                        let l = choose|l: int|
                            0 <= l < old_entries.len() && (#[trigger] old_entries[l]).0 as int == (
                            v as int);
                        assert(old_entries[l].0 == v);
                        assert(false);
                    }
                    assert(entries@.drop_last() =~= old_entries);
                    assert(entries_map(entries@) =~= entries_map(old_entries).insert(
                        v as int,
                        (ts as int, cv),
                    ));
                    assert(entry_versions_unique(entries@));
                }
            }
        }
        proof {
            assert(rows0.subrange(0, rows0.len() as int) =~= rows0);
        }
        let l = Ledger { entries };
        proof {
            assert(l@ =~= ledger_of_rows(rows0));
        }
        l
    }

    /// Looks up the live checksum recorded for a version, if any.
    pub fn get(&self, version: i64) -> (r: Option<&Vec<u8>>)
        requires
            self.wf(),
        ensures
            match r {
                Some(c) => self@.contains_key(version as int) && c@ == self@[version as int],
                None => !self@.contains_key(version as int),
            },
    {
        let n = self.entries.len();
        let mut k: usize = 0;
        while k < n && self.entries[k].0 != version
            invariant
                k <= n,
                n == self.entries@.len(),
                forall|l: int| 0 <= l < k ==> (#[trigger] self.entries@[l]).0 != version,
            decreases n - k,
        {
            k = k + 1;
        }
        if k < n {
            proof {
                lemma_entries_map_value(self.entries@, k as int);
            }
            Some(&self.entries[k].1.checksum)
        } else {
            proof {
                lemma_entries_map_dom(self.entries@, version as int);
                if entries_map(self.entries@).contains_key(version as int) {
                    let i = choose|i: int|
                        0 <= i < self.entries@.len() && (#[trigger] self.entries@[i]).0 as int
                            == version as int;
                    assert(self.entries@[i].0 == version);
                    assert(false);
                }
            }
            None
        }
    }
}

} // verus!
