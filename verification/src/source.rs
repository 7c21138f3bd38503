//! Loading migration scripts: filename recognition, version parsing, and
//! assembly of the version-sorted migration sequence.
//!
//! A script file is named `<version>_<description>.cql`. The version token is
//! everything before the first underscore and must parse as an `i64`; a file
//! whose token does not parse aborts the whole load, and so does a version
//! that two files share.

use vstd::prelude::*;

use crate::error::MigrateError;
use crate::migration::{Migration, MigrationView, sha384_of};

verus! {

/// One script file handed to the loader: its filename and its raw content.
#[derive(Clone)]
pub struct SourceFile {
    pub name: String,
    pub content: String,
}

/// A recognized script filename: more than four characters, ending in
/// `.cql`.
pub open spec fn is_cql_name(name: Seq<char>) -> bool {
    &&& name.len() > 4
    &&& name[name.len() - 4] == '.'
    &&& name[name.len() - 3] == 'c'
    &&& name[name.len() - 2] == 'q'
    &&& name[name.len() - 1] == 'l'
}

pub open spec fn is_digit(c: char) -> bool {
    48 <= c as u32 <= 57
}

pub open spec fn digit_val(c: char) -> int {
    c as u32 - 48
}

/// The value of a run of decimal digits, most significant first.
pub open spec fn digits_val(s: Seq<char>) -> int
    decreases s.len(),
{
    if s.len() == 0 {
        0
    } else {
        digits_val(s.drop_last()) * 10 + digit_val(s.last())
    }
}

pub open spec fn all_digits(s: Seq<char>) -> bool {
    forall|i: int| 0 <= i < s.len() ==> is_digit(s[i])
}

/// The position of the first underscore in `s`, or `s.len()` if there is
/// none.
pub open spec fn first_underscore(s: Seq<char>) -> int
    decreases s.len(),
{
    if s.len() == 0 {
        0
    } else if s[0] == '_' {
        0
    } else {
        1 + first_underscore(s.drop_first())
    }
}

/// The version token of a filename: everything before the first underscore
/// (the whole name if there is none).
pub open spec fn version_token(name: Seq<char>) -> Seq<char> {
    name.subrange(0, first_underscore(name))
}

/// The token without its optional sign character.
pub open spec fn token_digits(t: Seq<char>) -> Seq<char> {
    if t.len() > 0 && (t[0] == '+' || t[0] == '-') {
        t.drop_first()
    } else {
        t
    }
}

pub open spec fn token_negative(t: Seq<char>) -> bool {
    t.len() > 0 && t[0] == '-'
}

/// The integer a token denotes: an optional sign followed by decimal digits.
pub open spec fn token_value(t: Seq<char>) -> int {
    if token_negative(t) {
        -digits_val(token_digits(t))
    } else {
        digits_val(token_digits(t))
    }
}

/// A token parses as an `i64`: at least one digit after the optional sign,
/// digits only, and a value in range.
pub open spec fn valid_version_token(t: Seq<char>) -> bool {
    &&& token_digits(t).len() > 0
    &&& all_digits(token_digits(t))
    &&& i64::MIN <= token_value(t) <= i64::MAX
}

pub proof fn lemma_first_underscore(s: Seq<char>)
    ensures
        0 <= first_underscore(s) <= s.len(),
        forall|j: int| 0 <= j < first_underscore(s) ==> s[j] != '_',
        first_underscore(s) < s.len() ==> s[first_underscore(s)] == '_',
    decreases s.len(),
{
    if s.len() == 0 {
    } else if s[0] == '_' {
    } else {
        lemma_first_underscore(s.drop_first());
        let f = first_underscore(s);
        assert forall|j: int| 0 <= j < f implies s[j] != '_' by {
            if j > 0 {
                assert(s.drop_first()[j - 1] == s[j]);
            }
        }
        if f < s.len() {
            assert(s.drop_first()[f - 1] == s[f]);
        }
    }
}

proof fn lemma_digits_val_nonneg(s: Seq<char>)
    requires
        all_digits(s),
    ensures
        digits_val(s) >= 0,
    decreases s.len(),
{
    if s.len() > 0 {
        assert(all_digits(s.drop_last())) by {
            assert(forall|i: int| 0 <= i < s.len() - 1 ==> s.drop_last()[i] == s[i]);
        }
        lemma_digits_val_nonneg(s.drop_last());
    }
}

/// Reading more digits never shrinks the value.
proof fn lemma_digits_val_grows(d: Seq<char>, i: int)
    requires
        all_digits(d),
        0 <= i <= d.len(),
    ensures
        digits_val(d) >= digits_val(d.subrange(0, i)),
    decreases d.len() - i,
{
    if i == d.len() {
        assert(d.subrange(0, i) =~= d);
    } else {
        assert(d.subrange(0, i + 1).drop_last() =~= d.subrange(0, i));
        assert(all_digits(d.subrange(0, i))) by {
            assert(forall|j: int| 0 <= j < i ==> d.subrange(0, i)[j] == d[j]);
        }
        lemma_digits_val_nonneg(d.subrange(0, i));
        assert(digits_val(d.subrange(0, i + 1)) >= digits_val(d.subrange(0, i)));
        lemma_digits_val_grows(d, i + 1);
    }
}

/// Recognizes a migration script filename (a name ending in `.cql` with a
/// non-empty stem).
pub fn is_migration_file(name: &str) -> (r: bool)
    ensures
        r == is_cql_name(name@),
{
    let n = name.unicode_len();
    if n <= 4 {
        return false;
    }
    name.get_char(n - 4) == '.' && name.get_char(n - 3) == 'c' && name.get_char(n - 2) == 'q'
        && name.get_char(n - 1) == 'l'
}

/// Finds the first underscore in a name, or its length if there is none.
#[verifier::loop_isolation(false)]
fn find_underscore(name: &str) -> (u: usize)
    ensures
        u as int == first_underscore(name@),
        u <= name@.len(),
{
    let ghost s = name@;
    let n = name.unicode_len();
    let mut u: usize = 0;
    while u < n && name.get_char(u) != '_'
        invariant
            u <= n,
            forall|j: int| 0 <= j < u ==> s[j] != '_',
        decreases n - u,
    {
        u = u + 1;
    }
    proof {
        lemma_first_underscore(s);
        let f = first_underscore(s);
        if f < u {
            assert(s[f] == '_');
            assert(false);
        }
        if f > u {
            assert(u < n);
            assert(s[u as int] != '_');
            assert(false);
        }
    }
    u
}

/// Parses the version from a script filename: the characters before the
/// first underscore, read as a decimal `i64`. A name whose token is empty,
/// holds a non-digit, or denotes a value out of range is malformed.
#[verifier::loop_isolation(false)]
pub fn parse_version(name: &str) -> (r: Result<i64, MigrateError>)
    ensures
        match r {
            Ok(v) => valid_version_token(version_token(name@)) && v as int == token_value(
                version_token(name@),
            ),
            Err(e) => !valid_version_token(version_token(name@)) && (e matches
                MigrateError::MalformedSource { filename } && filename@ == name@),
        },
{
    let ghost s = name@;
    let n = name.unicode_len();
    let u = find_underscore(name);
    let ghost t = version_token(s);
    proof {
        assert(t =~= s.subrange(0, u as int));
    }
    let mut start: usize = 0;
    let mut neg = false;
    if u > 0 {
        let c0 = name.get_char(0);
        if c0 == '-' {
            neg = true;
            start = 1;
        } else if c0 == '+' {
            start = 1;
        }
    }
    let ghost d = s.subrange(start as int, u as int);
    proof {
        if u > 0 {
            assert(t[0] == s[0]);
        }
        if start == 1 {
            assert(t.drop_first() =~= d);
        } else {
            assert(t =~= d);
        }
        assert(token_digits(t) == d);
        assert(token_negative(t) == neg);
    }
    if start == u {
        return Err(MigrateError::MalformedSource { filename: name.to_owned() });
    }
    let limit: u64 = if neg {
        9223372036854775808
    } else {
        9223372036854775807
    };
    let mut m: u64 = 0;
    let mut i: usize = start;
    while i < u
        invariant
            start <= i <= u,
            all_digits(d.subrange(0, i - start)),
            m as int == digits_val(d.subrange(0, i - start)),
            m <= limit,
        decreases u - i,
    {
        let c = name.get_char(i);
        let cu = c as u32;
        proof {
            assert(d[i - start] == s[i as int]);
        }
        if !(48 <= cu && cu <= 57) {
            proof {
                assert(!is_digit(d[i - start]));
            }
            return Err(MigrateError::MalformedSource { filename: name.to_owned() });
        }
        let dv: u64 = (cu - 48) as u64;
        if m > (limit - dv) / 10 {
            proof {
                assert(m as int * 10 + dv as int > limit as int) by {
                    if m as int * 10 + dv as int <= limit as int {
                        assert(m as int <= (limit as int - dv as int) / 10);
                    }
                }
                let pref = d.subrange(0, i - start + 1);
                assert(pref.drop_last() =~= d.subrange(0, i - start));
                assert(all_digits(pref)) by {
                    assert(forall|j: int| 0 <= j < pref.len() ==> pref[j] == d[j]);
                }
                assert(digits_val(pref) == m as int * 10 + dv as int);
                if all_digits(d) {
                    lemma_digits_val_grows(d, i - start + 1);
                    assert(digits_val(d) > limit as int);
                }
            }
            return Err(MigrateError::MalformedSource { filename: name.to_owned() });
        }
        m = m * 10 + dv;
        proof {
            let pref = d.subrange(0, i - start + 1);
            assert(pref.drop_last() =~= d.subrange(0, i - start));
            assert(pref.last() == d[i - start]);
        }
        i = i + 1;
    }
    proof {
        assert(d.subrange(0, u - start) =~= d);
        assert(all_digits(d));
        assert(m as int == digits_val(d));
    }
    if neg {
        if m == 9223372036854775808 {
            Ok(i64::MIN)
        } else {
            Ok(-(m as i64))
        }
    } else {
        Ok(m as i64)
    }
}

/// The description of a script filename: the characters between the first
/// underscore and the `.cql` extension.
pub open spec fn description_of(name: Seq<char>) -> Seq<char> {
    name.subrange(first_underscore(name) + 1, name.len() - 4)
}

/// The files the loader recognizes as migration scripts, in listing order.
pub open spec fn migration_files(files: Seq<SourceFile>) -> Seq<SourceFile>
    decreases files.len(),
{
    if files.len() == 0 {
        Seq::empty()
    } else {
        let rest = migration_files(files.drop_last());
        if is_cql_name(files.last().name@) {
            rest.push(files.last())
        } else {
            rest
        }
    }
}

/// `m` is the migration record the loader builds from script file `f`.
pub open spec fn is_migration_for(m: MigrationView, f: SourceFile) -> bool {
    &&& valid_version_token(version_token(f.name@))
    &&& m.version == token_value(version_token(f.name@))
    &&& m.description == description_of(f.name@)
    &&& m.cql == f.content@
    &&& m.checksum == sha384_of(f.content@)
}

/// `g[k]` is the first recognized script whose name does not parse.
pub open spec fn first_invalid_at(g: Seq<SourceFile>, k: int) -> bool {
    &&& 0 <= k < g.len()
    &&& !valid_version_token(version_token(g[k].name@))
    &&& forall|j: int|
        0 <= j < k ==> valid_version_token(version_token(#[trigger] g[j].name@))
}

/// Every recognized script's name parses.
pub open spec fn sources_valid(g: Seq<SourceFile>) -> bool {
    forall|j: int| 0 <= j < g.len() ==> valid_version_token(version_token(#[trigger] g[j].name@))
}

/// No two recognized scripts share a version.
pub open spec fn versions_distinct(g: Seq<SourceFile>) -> bool {
    forall|i: int, j: int|
        0 <= i < j < g.len() ==> token_value(version_token(#[trigger] g[i].name@)) != token_value(
            version_token(#[trigger] g[j].name@),
        )
}

/// The load failed naming `filename`: the first recognized script whose
/// name does not parse.
pub open spec fn load_fails_naming(g: Seq<SourceFile>, filename: Seq<char>) -> bool {
    exists|k: int| #[trigger] first_invalid_at(g, k) && filename == g[k].name@
}

/// Some record in `s` has exactly the content `mv`.
pub open spec fn contains_view(s: Seq<Migration>, mv: MigrationView) -> bool {
    exists|l: int| 0 <= l < s.len() && (#[trigger] s[l])@ == mv
}

/// The records of `ms` are strictly ascending by version.
pub open spec fn strictly_sorted_by_version(ms: Seq<Migration>) -> bool {
    forall|i: int, j: int|
        0 <= i < j < ms.len() ==> (#[trigger] ms[i])@.version < (#[trigger] ms[j])@.version
}

/// No two records of `ms` share a version.
pub open spec fn versions_unique(ms: Seq<Migration>) -> bool {
    forall|i: int, j: int|
        0 <= i < j < ms.len() ==> (#[trigger] ms[i])@.version != (#[trigger] ms[j])@.version
}

/// Two records of `ms` share the version `version`.
pub open spec fn duplicate_version_in(ms: Seq<Migration>, version: int) -> bool {
    exists|i: int, j: int|
        0 <= i < j < ms.len() && (#[trigger] ms[i])@.version == (#[trigger] ms[j])@.version
            && ms[i]@.version == version
}

/// Two recognized scripts of `g` denote the version `version`.
pub open spec fn duplicate_source_version(g: Seq<SourceFile>, version: int) -> bool {
    exists|i: int, j: int|
        0 <= i < j < g.len() && token_value(version_token((#[trigger] g[i]).name@)) == token_value(
            version_token((#[trigger] g[j]).name@),
        ) && token_value(version_token(g[i].name@)) == version
}

/// Some record of `ms` is the one the loader builds from script `f`.
pub open spec fn some_record_for(ms: Seq<Migration>, f: SourceFile) -> bool {
    exists|i: int| 0 <= i < ms.len() && is_migration_for((#[trigger] ms[i])@, f)
}

/// The content `mv` is the record of some script of `g`.
pub open spec fn record_from_some(g: Seq<SourceFile>, mv: MigrationView) -> bool {
    exists|j: int| 0 <= j < g.len() && is_migration_for(mv, #[trigger] g[j])
}

/// `ms` is the loader's result for the recognized scripts `g`: one record
/// per script, sorted strictly ascending by version.
pub open spec fn loaded_migrations(ms: Seq<Migration>, g: Seq<SourceFile>) -> bool {
    &&& ms.len() == g.len()
    &&& strictly_sorted_by_version(ms)
    &&& forall|i: int| 0 <= i < ms.len() ==> record_from_some(g, (#[trigger] ms[i])@)
    &&& forall|j: int| 0 <= j < g.len() ==> some_record_for(ms, #[trigger] g[j])
}

proof fn lemma_migration_files_add(a: Seq<SourceFile>, b: Seq<SourceFile>)
    ensures
        migration_files(a + b) == migration_files(a) + migration_files(b),
    decreases b.len(),
{
    if b.len() == 0 {
        assert(a + b =~= a);
        assert(migration_files(a) + migration_files(b) =~= migration_files(a));
    } else {
        assert((a + b).drop_last() =~= a + b.drop_last());
        assert((a + b).last() == b.last());
        lemma_migration_files_add(a, b.drop_last());
        if is_cql_name(b.last().name@) {
            assert(migration_files(a) + migration_files(b) =~= (migration_files(a)
                + migration_files(b.drop_last())).push(b.last()));
        }
    }
}

/// In a name that both ends in `.cql` and has a parseable version token,
/// the first underscore comes before the extension.
proof fn lemma_underscore_before_extension(name: Seq<char>)
    requires
        is_cql_name(name),
        valid_version_token(version_token(name)),
    ensures
        0 <= first_underscore(name),
        first_underscore(name) + 1 <= name.len() - 4,
{
    lemma_first_underscore(name);
    let f = first_underscore(name);
    let t = version_token(name);
    if f == name.len() {
        let td = token_digits(t);
        assert(t =~= name);
        if t.len() > 0 && (t[0] == '+' || t[0] == '-') {
            assert(td[name.len() - 5] == name[name.len() - 4]);
            assert(!is_digit(td[name.len() - 5]));
            assert(false);
        } else {
            assert(td[name.len() - 4] == '.');
            assert(!is_digit(td[name.len() - 4]));
            assert(false);
        }
    }
    if f >= name.len() - 4 {
        assert(name[f] == '_');
        assert(false);
    }
}

/// Extracts the description from a recognized, parseable script filename.
#[verifier::loop_isolation(false)]
fn extract_description(name: &str) -> (r: String)
    requires
        is_cql_name(name@),
        valid_version_token(version_token(name@)),
    ensures
        r@ == description_of(name@),
{
    proof {
        lemma_underscore_before_extension(name@);
    }
    let n = name.unicode_len();
    let u = find_underscore(name);
    name.substring_char(u + 1, n - 4).to_owned()
}

/// Builds one migration record per recognized script, in listing order,
/// failing on the first filename whose version does not parse.
#[verifier::loop_isolation(false)]
fn parse_migration_files(files: &Vec<SourceFile>) -> (r: Result<Vec<Migration>, MigrateError>)
    ensures
        match r {
            Ok(ms) => {
                let g = migration_files(files@);
                &&& ms@.len() == g.len()
                &&& forall|j: int|
                    0 <= j < g.len() ==> is_migration_for((#[trigger] ms@[j])@, g[j])
            },
            Err(e) => e matches MigrateError::MalformedSource { filename }
                && load_fails_naming(migration_files(files@), filename@),
        },
{
    let ghost fs = files@;
    let mut ms: Vec<Migration> = Vec::new();
    let mut i: usize = 0;
    proof {
        assert(fs.subrange(0, 0) =~= Seq::<SourceFile>::empty());
    }
    while i < files.len()
        invariant
            i <= fs.len(),
            ms@.len() == migration_files(fs.subrange(0, i as int)).len(),
            forall|j: int|
                0 <= j < ms@.len() ==> is_migration_for(
                    (#[trigger] ms@[j])@,
                    migration_files(fs.subrange(0, i as int))[j],
                ),
        decreases fs.len() - i,
    {
        let ghost pre = fs.subrange(0, i as int);
        let ghost pre1 = fs.subrange(0, i as int + 1);
        proof {
            assert(pre1.drop_last() =~= pre);
            assert(pre1.last() == fs[i as int]);
        }
        let f: &SourceFile = &files[i];
        let name = f.name.as_str();
        if is_migration_file(name) {
            match parse_version(name) {
                Ok(v) => {
                    let desc = extract_description(name);
                    let m = Migration::new(v, desc, f.content.clone());
                    ms.push(m);
                    proof {
                        assert(migration_files(pre1) == migration_files(pre).push(fs[i as int]));
                    }
                },
                Err(e) => {
                    proof {
                        let g = migration_files(fs);
                        let rest = fs.subrange(i as int + 1, fs.len() as int);
                        assert(fs =~= pre1 + rest);
                        lemma_migration_files_add(pre1, rest);
                        let k = ms@.len() as int;
                        assert(migration_files(pre1) == migration_files(pre).push(fs[i as int]));
                        assert(g == migration_files(pre1) + migration_files(rest));
                        assert(g[k] == fs[i as int]);
                        assert forall|j: int|
                            0 <= j < k implies valid_version_token(
                            version_token(#[trigger] g[j].name@),
                        ) by {
                            assert(g[j] == migration_files(pre)[j]);
                            assert(is_migration_for(ms@[j]@, migration_files(pre)[j]));
                        }
                        assert(first_invalid_at(g, k));
                        assert(load_fails_naming(g, fs[i as int].name@));
                    }
                    return Err(e);
                },
            }
        } else {
            proof {
                assert(migration_files(pre1) == migration_files(pre));
            }
        }
        i = i + 1;
    }
    proof {
        assert(fs.subrange(0, fs.len() as int) =~= fs);
    }
    Ok(ms)
}

/// Inserting a record at its ordered position keeps the result sorted and
/// in one-to-one correspondence with the records taken in so far.
#[verifier::rlimit(100)]
proof fn lemma_sorted_insert(
    old_s: Seq<Migration>,
    new_s: Seq<Migration>,
    m: Migration,
    pos: int,
    prefix: Seq<Migration>,
)
    requires
        0 <= pos <= old_s.len(),
        new_s == old_s.insert(pos, m),
        strictly_sorted_by_version(old_s),
        forall|l: int| 0 <= l < pos ==> (#[trigger] old_s[l])@.version < m@.version,
        pos < old_s.len() ==> old_s[pos]@.version > m@.version,
        forall|l: int| 0 <= l < old_s.len() ==> contains_view(prefix, (#[trigger] old_s[l])@),
        forall|j: int| 0 <= j < prefix.len() ==> contains_view(old_s, (#[trigger] prefix[j])@),
        versions_unique(prefix),
    ensures
        new_s.len() == old_s.len() + 1,
        strictly_sorted_by_version(new_s),
        forall|l: int|
            0 <= l < new_s.len() ==> contains_view(prefix.push(m), (#[trigger] new_s[l])@),
        forall|j: int|
            0 <= j < prefix.push(m).len() ==> contains_view(new_s, (#[trigger] prefix.push(m)[j])@),
        versions_unique(prefix.push(m)),
{
    old_s.insert_ensures(pos, m);
    let pp = prefix.push(m);
    assert forall|a: int, b: int|
        0 <= a < b < new_s.len() implies (#[trigger] new_s[a])@.version < (
    #[trigger] new_s[b])@.version by {
        if b < pos {
        } else if a == pos || b == pos {
            if pos < old_s.len() {
                assert(old_s[pos]@.version > m@.version);
            }
            if a < pos {
                assert(new_s[a] == old_s[a]);
            }
            if b > pos {
                assert(new_s[b] == old_s[b - 1]);
                if pos < b - 1 {
                    assert(old_s[pos]@.version < old_s[b - 1]@.version);
                }
            }
        } else if a > pos {
            assert(new_s[a] == old_s[a - 1]);
            assert(new_s[b] == old_s[b - 1]);
        } else {
            assert(new_s[a] == old_s[a]);
            assert(new_s[b] == old_s[b - 1]);
            if pos < b - 1 {
                assert(old_s[pos]@.version < old_s[b - 1]@.version);
            }
            if a < pos {
                assert(old_s[a]@.version < m@.version);
            }
        }
    }
    assert forall|a: int, b: int|
        0 <= a < b < pp.len() implies (#[trigger] pp[a])@.version != (
    #[trigger] pp[b])@.version by {
        if b == pp.len() - 1 {
            assert(pp[a] == prefix[a]);
            assert(pp[b] == m);
            if prefix[a]@.version == m@.version {
                let l = choose|l: int| 0 <= l < old_s.len() && (#[trigger] old_s[l])@ == prefix[a]@;
                if l < pos {
                    assert(old_s[l]@.version < m@.version);
                } else if l == pos {
                    assert(old_s[pos]@.version > m@.version);
                } else {
                    assert(old_s[pos]@.version < old_s[l]@.version);
                }
                assert(false);
            }
        } else {
            assert(pp[a] == prefix[a]);
            assert(pp[b] == prefix[b]);
        }
    }
    assert forall|l: int|
        0 <= l < new_s.len() implies contains_view(pp, (#[trigger] new_s[l])@) by {
        if l < pos {
            assert(new_s[l] == old_s[l]);
            let j = choose|j: int| 0 <= j < prefix.len() && (#[trigger] prefix[j])@ == old_s[l]@;
            assert(pp[j]@ == new_s[l]@);
        } else if l == pos {
            assert(pp[prefix.len() as int]@ == new_s[l]@);
        } else {
            assert(new_s[l] == old_s[l - 1]);
            let j = choose|j: int|
                0 <= j < prefix.len() && (#[trigger] prefix[j])@ == old_s[l - 1]@;
            assert(pp[j]@ == new_s[l]@);
        }
    }
    assert forall|j: int| 0 <= j < pp.len() implies contains_view(new_s, (#[trigger] pp[j])@) by {
        if j == pp.len() - 1 {
            assert(new_s[pos]@ == pp[j]@);
        } else {
            assert(pp[j] == prefix[j]);
            let l = choose|l: int| 0 <= l < old_s.len() && (#[trigger] old_s[l])@ == prefix[j]@;
            if l < pos {
                assert(new_s[l]@ == pp[j]@);
            } else {
                assert(new_s[l + 1]@ == pp[j]@);
            }
        }
    }
}

/// A record whose version is already held by an earlier record witnesses a
/// duplicated version.
proof fn lemma_duplicate_found(old_s: Seq<Migration>, pos: int, m: Migration, prefix: Seq<
    Migration,
>)
    requires
        0 <= pos < old_s.len(),
        old_s[pos]@.version == m@.version,
        forall|l: int| 0 <= l < old_s.len() ==> contains_view(prefix, (#[trigger] old_s[l])@),
    ensures
        duplicate_version_in(prefix.push(m), m@.version as int),
{
    let pp = prefix.push(m);
    let j = choose|j: int| 0 <= j < prefix.len() && (#[trigger] prefix[j])@ == old_s[pos]@;
    assert(pp[j]@.version == pp[pp.len() - 1]@.version && pp[j]@.version == m@.version as int);
    assert(duplicate_version_in(pp, m@.version as int));
}

/// A duplicate among the first records is a duplicate among all of them.
proof fn lemma_duplicate_widen(ms0: Seq<Migration>, i: int, version: int)
    requires
        0 <= i <= ms0.len(),
        duplicate_version_in(ms0.subrange(0, i), version),
    ensures
        duplicate_version_in(ms0, version),
{
    let p = ms0.subrange(0, i);
    let (a, b): (int, int) = choose|a: int, b: int|
        0 <= a < b < p.len() && (#[trigger] p[a])@.version == (#[trigger] p[b])@.version
            && p[a]@.version == version;
    assert(ms0[a] == p[a]);
    assert(ms0[b] == p[b]);
    assert(duplicate_version_in(ms0, version));
}

/// Sorts migration records ascending by version, failing if two records
/// share a version.
#[verifier::loop_isolation(false)]
fn sort_migrations(ms: Vec<Migration>) -> (r: Result<Vec<Migration>, MigrateError>)
    ensures
        match r {
            Ok(sorted) => {
                &&& sorted@.len() == ms@.len()
                &&& strictly_sorted_by_version(sorted@)
                &&& forall|i: int|
                    0 <= i < sorted@.len() ==> contains_view(ms@, (#[trigger] sorted@[i])@)
                &&& forall|j: int|
                    0 <= j < ms@.len() ==> contains_view(sorted@, (#[trigger] ms@[j])@)
                &&& versions_unique(ms@)
            },
            Err(e) => e matches MigrateError::DuplicateVersion { version }
                && duplicate_version_in(ms@, version as int),
        },
{
    let ghost ms0 = ms@;
    let mut remaining = ms;
    let mut sorted: Vec<Migration> = Vec::new();
    proof {
        assert(ms0.subrange(ms0.len() - remaining@.len(), ms0.len() as int) =~= remaining@);
    }
    while remaining.len() > 0
        invariant
            remaining@.len() <= ms0.len(),
            remaining@ == ms0.subrange(ms0.len() - remaining@.len(), ms0.len() as int),
            sorted@.len() == ms0.len() - remaining@.len(),
            strictly_sorted_by_version(sorted@),
            forall|l: int|
                0 <= l < sorted@.len() ==> contains_view(
                    ms0.subrange(0, ms0.len() - remaining@.len()),
                    (#[trigger] sorted@[l])@,
                ),
            forall|j: int|
                0 <= j < ms0.len() - remaining@.len() ==> contains_view(
                    sorted@,
                    (#[trigger] ms0[j])@,
                ),
            versions_unique(ms0.subrange(0, ms0.len() - remaining@.len())),
        decreases remaining@.len(),
    {
        let ghost i = ms0.len() - remaining@.len();
        let ghost old_rem = remaining@;
        let ghost prefix = ms0.subrange(0, i as int);
        let m = remaining.remove(0);
        proof {
            old_rem.remove_ensures(0);
            assert(old_rem.remove(0) =~= remaining@);
            assert(m == ms0[i as int]);
            assert(remaining@ =~= ms0.subrange(ms0.len() - remaining@.len(), ms0.len() as int));
            assert(prefix.push(m) =~= ms0.subrange(0, i as int + 1));
        }
        let mut pos: usize = 0;
        while pos < sorted.len() && sorted[pos].version < m.version
            invariant
                pos <= sorted@.len(),
                forall|l: int| 0 <= l < pos ==> (#[trigger] sorted@[l])@.version < m@.version,
            decreases sorted@.len() - pos,
        {
            pos = pos + 1;
        }
        if pos < sorted.len() && sorted[pos].version == m.version {
            proof {
                lemma_duplicate_found(sorted@, pos as int, m, prefix);
                lemma_duplicate_widen(ms0, i as int + 1, m@.version as int);
            }
            return Err(MigrateError::DuplicateVersion { version: m.version });
        }
        let ghost old_sorted = sorted@;
        sorted.insert(pos, m);
        proof {
            lemma_sorted_insert(old_sorted, sorted@, m, pos as int, prefix);
        }
    }
    proof {
        assert(ms0.subrange(0, ms0.len() as int) =~= ms0);
    }
    Ok(sorted)
}

/// The loader's result for sources whose records parsed and sorted cleanly.
proof fn lemma_loaded_ok(parsedv: Seq<Migration>, sortedv: Seq<Migration>, g: Seq<SourceFile>)
    requires
        parsedv.len() == g.len(),
        forall|j: int| 0 <= j < g.len() ==> is_migration_for((#[trigger] parsedv[j])@, g[j]),
        sortedv.len() == parsedv.len(),
        strictly_sorted_by_version(sortedv),
        forall|i: int| 0 <= i < sortedv.len() ==> contains_view(parsedv, (#[trigger] sortedv[i])@),
        forall|j: int| 0 <= j < parsedv.len() ==> contains_view(sortedv, (#[trigger] parsedv[j])@),
        versions_unique(parsedv),
    ensures
        sources_valid(g),
        versions_distinct(g),
        loaded_migrations(sortedv, g),
{
    assert forall|j: int|
        0 <= j < g.len() implies valid_version_token(version_token(#[trigger] g[j].name@)) by {
        assert(is_migration_for(parsedv[j]@, g[j]));
    }
    assert forall|i: int, j: int|
        0 <= i < j < g.len() implies token_value(version_token(#[trigger] g[i].name@))
        != token_value(version_token(#[trigger] g[j].name@)) by {
        assert(is_migration_for(parsedv[i]@, g[i]));
        assert(is_migration_for(parsedv[j]@, g[j]));
        assert(parsedv[i]@.version != parsedv[j]@.version);
    }
    assert forall|i: int|
        0 <= i < sortedv.len() implies record_from_some(g, (#[trigger] sortedv[i])@) by {
        let j = choose|j: int| 0 <= j < parsedv.len() && (#[trigger] parsedv[j])@ == sortedv[i]@;
        assert(is_migration_for(sortedv[i]@, g[j]));
        assert(record_from_some(g, sortedv[i]@));
    }
    assert forall|j: int| 0 <= j < g.len() implies some_record_for(sortedv, #[trigger] g[j]) by {
        assert(is_migration_for(parsedv[j]@, g[j]));
        let i = choose|i: int| 0 <= i < sortedv.len() && (#[trigger] sortedv[i])@ == parsedv[j]@;
        assert(is_migration_for(sortedv[i]@, g[j]));
        assert(some_record_for(sortedv, g[j]));
    }
}

/// A duplicated version among the parsed records is a duplicated version
/// among the scripts they came from.
proof fn lemma_loaded_duplicate(parsedv: Seq<Migration>, g: Seq<SourceFile>, version: i64)
    requires
        parsedv.len() == g.len(),
        forall|j: int| 0 <= j < g.len() ==> is_migration_for((#[trigger] parsedv[j])@, g[j]),
        duplicate_version_in(parsedv, version as int),
    ensures
        sources_valid(g),
        duplicate_source_version(g, version as int),
{
    assert forall|j: int|
        0 <= j < g.len() implies valid_version_token(version_token(#[trigger] g[j].name@)) by {
        assert(is_migration_for(parsedv[j]@, g[j]));
    }
    let (i, j): (int, int) = choose|i: int, j: int|
        0 <= i < j < parsedv.len() && (#[trigger] parsedv[i])@.version == (
        #[trigger] parsedv[j])@.version && parsedv[i]@.version == version as int;
    assert(is_migration_for(parsedv[i]@, g[i]));
    assert(is_migration_for(parsedv[j]@, g[j]));
    assert(token_value(version_token((g[i]).name@)) == token_value(version_token((g[j]).name@))
        && token_value(version_token(g[i].name@)) == version as int);
    assert(duplicate_source_version(g, version as int));
}

/// Loads the migration records for a directory listing: one record per
/// recognized `.cql` file, sorted strictly ascending by version.
///
/// Fails fast: a recognized file whose name has no parseable version aborts
/// the whole load naming that file, before anything else is decided, and two
/// files sharing a version abort it as well.
pub fn load_migrations(files: &Vec<SourceFile>) -> (r: Result<Vec<Migration>, MigrateError>)
    ensures
        match r {
            Ok(ms) => {
                let g = migration_files(files@);
                &&& sources_valid(g)
                &&& versions_distinct(g)
                &&& loaded_migrations(ms@, g)
            },
            Err(e) => {
                let g = migration_files(files@);
                match e {
                    MigrateError::MalformedSource { filename } => load_fails_naming(g, filename@),
                    MigrateError::DuplicateVersion { version } => sources_valid(g)
                        && duplicate_source_version(g, version as int),
                }
            },
        },
{
    let ghost g = migration_files(files@);
    let parsed = match parse_migration_files(files) {
        Ok(p) => p,
        Err(e) => {
            return Err(e);
        },
    };
    let ghost parsedv = parsed@;
    match sort_migrations(parsed) {
        Ok(sorted) => {
            proof {
                lemma_loaded_ok(parsedv, sorted@, g);
            }
            Ok(sorted)
        },
        Err(e) => {
            proof {
                if let MigrateError::DuplicateVersion { version } = &e {
                    lemma_loaded_duplicate(parsedv, g, *version);
                }
            }
            Err(e)
        },
    }
}

} // verus!
