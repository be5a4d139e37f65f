//! What stands between the groups of a string does not matter: laws on
//! exchanging it and on joining strings at it.

use vstd::prelude::*;
use crate::digits::is_digit;
use crate::groups::{
    closed_run, groups, groups_after, in_run, lemma_groups_sound, slice, written, Span,
};

verus! {

/// Whether `s` and `t` hold the same digits at the same places, and
/// differ at most in what stands between them.
pub open spec fn same_digits(s: Seq<char>, t: Seq<char>) -> bool {
    &&& s.len() == t.len()
    &&& forall|i: int| 0 <= i < s.len() && (is_digit(s[i]) || is_digit(t[i])) ==> s[i] == t[i]
}

/// Whether no run of `a + b` reaches across the place where the two are
/// joined: one of them is empty, or `a` does not end with a digit, or `b`
/// does not begin with one.
pub open spec fn apart(a: Seq<char>, b: Seq<char>) -> bool {
    a.len() == 0 || b.len() == 0 || !is_digit(a.last()) || !is_digit(b.first())
}

/// `spans`, each moved `by` positions to the right.
pub open spec fn shifted(spans: Seq<Span>, by: int) -> Seq<Span> {
    spans.map_values(|span: Span| Span { start: span.start + by, end: span.end + by })
}

/// A reader finds the same groups in `t` as in `s`, wherever it stands.
proof fn lemma_groups_after_same_digits(s: Seq<char>, t: Seq<char>, start: int, i: int)
    requires
        same_digits(s, t),
        0 <= i,
    ensures
        groups_after(s, start, i) == groups_after(t, start, i),
    decreases s.len() - i,
{
    if i >= s.len() {
    } else if is_digit(s[i]) {
        lemma_groups_after_same_digits(s, t, start, i + 1);
    } else {
        lemma_groups_after_same_digits(s, t, i + 1, i + 1);
    }
}

/// What is not a digit is passed over, whatever it is: strings that hold
/// the same digits at the same places have the same groups, written with
/// the same digits.
pub proof fn lemma_same_digits(s: Seq<char>, t: Seq<char>)
    requires
        same_digits(s, t),
    ensures
        groups(s) == groups(t),
        written(s) == written(t),
{
    lemma_groups_after_same_digits(s, t, 0, 0);
    assert forall|k: int| 0 <= k < groups(s).len() implies slice(s, groups(s)[k]) == slice(
        t,
        groups(s)[k],
    ) by {
        lemma_groups_sound(s, k);
        assert(slice(s, groups(s)[k]) =~= slice(t, groups(s)[k]));
    }
    assert(written(s) =~= written(t));
}

/// Behind `a`, a reader finds the groups that it finds in `b` alone, each
/// moved by the length of `a`.
proof fn lemma_groups_after_shift(a: Seq<char>, b: Seq<char>, start: int, i: int)
    requires
        0 <= i,
    ensures
        groups_after(a + b, a.len() + start, a.len() + i) == shifted(
            groups_after(b, start, i),
            a.len() as int,
        ),
    decreases b.len() - i,
{
    let n = a.len() as int;
    if i >= b.len() {
    } else if is_digit(b[i]) {
        lemma_groups_after_shift(a, b, start, i + 1);
    } else {
        lemma_groups_after_shift(a, b, i + 1, i + 1);
        let rest = groups_after(b, i + 1, i + 1);
        assert(closed_run(n + start, n + i) + shifted(rest, n) =~= shifted(
            closed_run(start, i) + rest,
            n,
        ));
    }
}

/// Within `a`, a reader of `a + b` finds what it finds in `a` alone, and
/// then the groups of `b`, moved by the length of `a`.
proof fn lemma_groups_after_joined(a: Seq<char>, b: Seq<char>, start: int, i: int)
    requires
        apart(a, b),
        in_run(a, start, i),
    ensures
        groups_after(a + b, start, i) == groups_after(a, start, i) + shifted(
            groups(b),
            a.len() as int,
        ),
    decreases a.len() - i,
{
    let n = a.len() as int;
    let moved = shifted(groups(b), n);
    if i < n {
        if is_digit(a[i]) {
            lemma_groups_after_joined(a, b, start, i + 1);
        } else {
            lemma_groups_after_joined(a, b, i + 1, i + 1);
            let first = closed_run(start, i);
            let rest = groups_after(a, i + 1, i + 1);
            assert(first + (rest + moved) =~= (first + rest) + moved);
        }
    } else if b.len() == 0 {
        // Nothing is joined on.
    } else if start == i {
        // The reader is in no run: it goes on as if `b` began a text.
        lemma_groups_after_shift(a, b, 0, 0);
    } else {
        // The run that `a` ends with is closed by what `b` begins with.
        lemma_groups_after_shift(a, b, 1, 1);
    }
}

/// Where no run reaches across the joint, the groups of `a + b` are those
/// of `a`, then those of `b` moved behind `a`, and they are written as
/// those of `a`, then those of `b`.
pub proof fn lemma_joined(a: Seq<char>, b: Seq<char>)
    requires
        apart(a, b),
    ensures
        groups(a + b) == groups(a) + shifted(groups(b), a.len() as int),
        written(a + b) == written(a) + written(b),
{
    let n = a.len() as int;
    let joined = groups(a + b);
    lemma_groups_after_joined(a, b, 0, 0);
    assert(joined.len() == groups(a).len() + groups(b).len());
    assert forall|k: int| 0 <= k < joined.len() implies #[trigger] written(a + b)[k] == (written(a)
        + written(b))[k] by {
        if k < groups(a).len() {
            let span = groups(a)[k];
            lemma_groups_sound(a, k);
            assert(joined[k] == span);
            assert(slice(a + b, span) =~= slice(a, span));
        } else {
            let span = groups(b)[k - groups(a).len()];
            let moved = Span { start: span.start + n, end: span.end + n };
            lemma_groups_sound(b, k - groups(a).len());
            assert(joined[k] == moved);
            assert(slice(a + b, moved) =~= slice(b, span));
        }
    }
    assert(written(a + b) =~= written(a) + written(b));
}

} // verus!
