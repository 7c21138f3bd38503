//! Splitting a migration script's raw text into individual statements.
//!
//! The split is a naive lexical one on the `;` separator: it does not
//! understand quoted literals or comments, a known and accepted limit of the
//! script format. Each piece is trimmed and empty pieces are discarded.

use vstd::prelude::*;

verus! {

/// Whitespace, as trimmed from the ends of each statement: the characters
/// with the Unicode `White_Space` property, the class `str::trim` removes.
pub open spec fn is_space(c: char) -> bool {
    ||| c == ' ' || c == '\t' || c == '\n' || c == '\r' || c == '\u{b}' || c == '\u{c}'
    ||| c == '\u{85}' || c == '\u{a0}' || c == '\u{1680}'
    ||| 0x2000 <= c as u32 <= 0x200a
    ||| c == '\u{2028}' || c == '\u{2029}' || c == '\u{202f}' || c == '\u{205f}' || c
        == '\u{3000}'
}

/// The pieces of `s` between `;` separators, in order. A text without a
/// separator is one piece; each separator ends a piece, and the text after
/// the last separator is the final piece (possibly empty).
pub open spec fn split_semis(s: Seq<char>) -> Seq<Seq<char>>
    decreases s.len(),
{
    if s.len() == 0 {
        seq![Seq::<char>::empty()]
    } else if s[0] == ';' {
        seq![Seq::<char>::empty()] + split_semis(s.drop_first())
    } else {
        let rest = split_semis(s.drop_first());
        seq![seq![s[0]] + rest[0]] + rest.drop_first()
    }
}

/// `s` with leading and trailing whitespace removed.
pub open spec fn trim(s: Seq<char>) -> Seq<char>
    decreases s.len(),
{
    if s.len() == 0 {
        s
    } else if is_space(s[0]) {
        trim(s.drop_first())
    } else if is_space(s.last()) {
        trim(s.drop_last())
    } else {
        s
    }
}

/// The trimmed, non-empty pieces, in order.
pub open spec fn statements_of(pieces: Seq<Seq<char>>) -> Seq<Seq<char>>
    decreases pieces.len(),
{
    if pieces.len() == 0 {
        Seq::empty()
    } else {
        let rest = statements_of(pieces.drop_first());
        let t = trim(pieces[0]);
        if t.len() == 0 {
            rest
        } else {
            seq![t] + rest
        }
    }
}

/// The statements of a script text: split on `;`, trimmed, empties dropped.
pub open spec fn statements_spec(s: Seq<char>) -> Seq<Seq<char>> {
    statements_of(split_semis(s))
}

pub open spec fn no_semi(s: Seq<char>) -> bool {
    forall|i: int| 0 <= i < s.len() ==> s[i] != ';'
}

/// A text without a separator is a single piece.
proof fn lemma_split_no_semi(s: Seq<char>)
    requires
        no_semi(s),
    ensures
        split_semis(s) == seq![s],
    decreases s.len(),
{
    if s.len() == 0 {
        assert(Seq::<char>::empty() =~= s);
        assert(split_semis(s) =~~= seq![s]);
    } else {
        assert(s[0] != ';');
        lemma_split_no_semi(s.drop_first());
        let rest = split_semis(s.drop_first());
        assert(rest[0] == s.drop_first());
        assert(seq![s[0]] + s.drop_first() =~= s);
        assert(rest.drop_first() =~~= Seq::<Seq<char>>::empty());
        assert(split_semis(s) =~~= seq![s]);
    }
}

/// Splitting at the first separator: the part before it is one piece, and
/// the rest of the pieces are those of the part after it.
proof fn lemma_split_at_semi(a: Seq<char>, b: Seq<char>)
    requires
        no_semi(a),
    ensures
        split_semis(a + seq![';'] + b) == seq![a] + split_semis(b),
    decreases a.len(),
{
    let s = a + seq![';'] + b;
    if a.len() == 0 {
        assert(s[0] == ';');
        assert(s.drop_first() =~= b);
        assert(Seq::<char>::empty() =~= a);
        assert(split_semis(s) =~~= seq![a] + split_semis(b));
    } else {
        assert(s[0] == a[0]);
        assert(s[0] != ';');
        assert(s.drop_first() =~= a.drop_first() + seq![';'] + b);
        lemma_split_at_semi(a.drop_first(), b);
        let rest = split_semis(s.drop_first());
        assert(rest[0] == a.drop_first());
        assert(seq![s[0]] + rest[0] =~= a);
        assert(rest.drop_first() =~~= split_semis(b));
        assert(split_semis(s) =~~= seq![a] + split_semis(b));
    }
}

/// Trimming `s[p..q]` yields `s[a..b]` when everything outside `[a, b)` is
/// whitespace and the window's own ends are not.
proof fn lemma_trim_range(s: Seq<char>, p: int, a: int, b: int, q: int)
    requires
        0 <= p <= a <= b <= q <= s.len(),
        forall|j: int| p <= j < a ==> is_space(s[j]),
        forall|j: int| b <= j < q ==> is_space(s[j]),
        a < b ==> !is_space(s[a]) && !is_space(s[b - 1]),
    ensures
        trim(s.subrange(p, q)) == s.subrange(a, b),
    decreases q - p,
{
    let t = s.subrange(p, q);
    if q == p {
        assert(t.len() == 0);
        assert(t =~= s.subrange(a, b));
    } else if is_space(s[p]) {
        assert(t[0] == s[p]);
        assert(t.drop_first() =~= s.subrange(p + 1, q));
        if a == p {
            assert(a == b);
            lemma_trim_range(s, p + 1, q, q, q);
            assert(s.subrange(q, q) =~= s.subrange(a, b));
        } else {
            lemma_trim_range(s, p + 1, a, b, q);
        }
    } else if is_space(s[q - 1]) {
        assert(t.len() > 0);
        assert(t.last() == s[q - 1]);
        assert(t[0] == s[p]);
        assert(t.drop_last() =~= s.subrange(p, q - 1));
        if b == q {
            if a < b {
                assert(!is_space(s[b - 1]));
                assert(false);
            } else {
                assert(is_space(s[p]));
                assert(false);
            }
        }
        lemma_trim_range(s, p, a, b, q - 1);
    } else {
        assert(a == p) by {
            if a > p {
                assert(is_space(s[p]));
            }
        }
        assert(b == q) by {
            if b < q {
                assert(is_space(s[q - 1]));
            }
        }
        assert(t =~= s.subrange(a, b));
    }
}

pub fn is_space_char(c: char) -> (r: bool)
    ensures
        r == is_space(c),
{
    let u = c as u32;
    c == ' ' || c == '\t' || c == '\n' || c == '\r' || c == '\u{b}' || c == '\u{c}' || c == '\u{85}'
        || c == '\u{a0}' || c == '\u{1680}' || (0x2000 <= u && u <= 0x200a) || c == '\u{2028}'
        || c == '\u{2029}' || c == '\u{202f}' || c == '\u{205f}' || c == '\u{3000}'
}

/// Splits a script text into its statements: the pieces between `;`
/// separators, trimmed, with empty pieces discarded, in source order.
pub fn split_statements(cql: &str) -> (r: Vec<String>)
    ensures
        r@.map_values(|t: String| t@) == statements_spec(cql@),
{
    let ghost s = cql@;
    let n = cql.unicode_len();
    let mut r: Vec<String> = Vec::new();
    let mut p: usize = 0;
    proof {
        assert(s.subrange(0, n as int) =~= s);
        assert(r@.map_values(|t: String| t@) + statements_of(split_semis(s)) =~= statements_of(
            split_semis(s),
        ));
    }
    while p < n
        invariant
            p <= n,
            n == s.len(),
            s == cql@,
            statements_spec(s) == r@.map_values(|t: String| t@) + statements_of(
                split_semis(s.subrange(p as int, n as int)),
            ),
        decreases n - p,
    {
        let mut q: usize = p;
        while q < n && cql.get_char(q) != ';'
            invariant
                p <= q <= n,
                n == s.len(),
                s == cql@,
                forall|j: int| p <= j < q ==> s[j] != ';',
            decreases n - q,
        {
            q = q + 1;
        }
        let mut a: usize = p;
        let mut b: usize = q;
        while a < b && is_space_char(cql.get_char(a))
            invariant
                p <= a <= b <= q <= n,
                n == s.len(),
                s == cql@,
                forall|j: int| p <= j < a ==> is_space(s[j]),
            decreases b - a,
        {
            a = a + 1;
        }
        while b > a && is_space_char(cql.get_char(b - 1))
            invariant
                p <= a <= b <= q <= n,
                n == s.len(),
                s == cql@,
                forall|j: int| p <= j < a ==> is_space(s[j]),
                forall|j: int| b <= j < q ==> is_space(s[j]),
                a < b ==> !is_space(s[a as int]),
            decreases b - a,
        {
            b = b - 1;
        }
        proof {
            lemma_trim_range(s, p as int, a as int, b as int, q as int);
        }
        let ghost old_views = r@.map_values(|t: String| t@);
        if b > a {
            let piece = cql.substring_char(a, b);
            r.push(piece.to_owned());
        }
        proof {
            let piece = s.subrange(p as int, q as int);
            let tp = trim(piece);
            assert(tp == s.subrange(a as int, b as int));
            let new_views = r@.map_values(|t: String| t@);
            if b > a {
                assert(tp.len() == b - a);
                assert(new_views =~~= old_views.push(tp));
                assert(new_views =~~= old_views + seq![tp]);
            } else {
                assert(tp.len() == 0);
                assert(new_views =~~= old_views);
            }
            let tail = if q < n {
                s.subrange(q as int + 1, n as int)
            } else {
                Seq::<char>::empty()
            };
            if q < n {
                assert(s[q as int] == ';');
                assert(s.subrange(p as int, n as int) =~= piece + seq![';'] + tail);
                lemma_split_at_semi(piece, tail);
                let pieces = seq![piece] + split_semis(tail);
                assert(pieces[0] == piece);
                assert(pieces.drop_first() =~~= split_semis(tail));
                if tp.len() == 0 {
                    assert(statements_of(pieces) == statements_of(split_semis(tail)));
                } else {
                    assert(statements_of(pieces) == seq![tp] + statements_of(split_semis(tail)));
                }
            } else {
                lemma_split_no_semi(piece);
                assert(s.subrange(p as int, n as int) =~= piece);
                let pieces = seq![piece];
                assert(pieces.drop_first() =~~= Seq::<Seq<char>>::empty());
                assert(statements_of(Seq::<Seq<char>>::empty()) =~~= Seq::<Seq<char>>::empty());
                assert(s.subrange(n as int, n as int) =~= Seq::<char>::empty());
                assert(split_semis(Seq::<char>::empty()) =~~= seq![Seq::<char>::empty()]);
                assert(seq![Seq::<char>::empty()].drop_first() =~~= Seq::<Seq<char>>::empty());
                assert(trim(Seq::<char>::empty()).len() == 0);
                assert(statements_of(seq![Seq::<char>::empty()]) =~~= Seq::<Seq<char>>::empty());
                if tp.len() == 0 {
                    assert(statements_of(pieces) =~~= Seq::<Seq<char>>::empty());
                } else {
                    assert(statements_of(pieces) =~~= seq![tp]);
                }
            }
            let next_term = statements_of(split_semis(tail));
            assert(statements_of(split_semis(s.subrange(p as int, n as int))) == (if tp.len() == 0 {
                next_term
            } else {
                seq![tp] + next_term
            }));
            assert(old_views + (if tp.len() == 0 {
                next_term
            } else {
                seq![tp] + next_term
            }) =~~= new_views + next_term);
        }
        if q < n {
            p = q + 1;
        } else {
            p = n;
        }
    }
    proof {
        assert(s.subrange(p as int, n as int) =~= Seq::<char>::empty());
        assert(split_semis(Seq::<char>::empty()) =~~= seq![Seq::<char>::empty()]);
        assert(seq![Seq::<char>::empty()].drop_first() =~~= Seq::<Seq<char>>::empty());
        assert(statements_of(Seq::<Seq<char>>::empty()) =~~= Seq::<Seq<char>>::empty());
        assert(trim(Seq::<char>::empty()).len() == 0);
        assert(statements_of(seq![Seq::<char>::empty()]) =~~= Seq::<Seq<char>>::empty());
        assert(r@.map_values(|t: String| t@) + Seq::<Seq<char>>::empty() =~~= r@.map_values(
            |t: String| t@,
        ));
    }
    r
}

} // verus!
