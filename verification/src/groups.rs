//! Numeric groups: the maximal runs of two or more digits in a string.

use vstd::prelude::*;
use crate::digits::{all_digits, is_digit};

verus! {

/// The positions `start, start + 1, .., end - 1` of a string.
pub struct Span {
    pub start: int,
    pub end: int,
}

/// The shortest run of digits that counts as a group.
pub const MIN_GROUP_LEN: usize = 2;

/// Whether `span` is a run of `s`: a non-empty stretch of digits that has
/// no digit directly before it and none directly after it.
pub open spec fn is_run(s: Seq<char>, span: Span) -> bool {
    &&& 0 <= span.start < span.end <= s.len()
    &&& forall|i: int| span.start <= i < span.end ==> is_digit(#[trigger] s[i])
    &&& (span.start > 0 ==> !is_digit(s[span.start - 1]))
    &&& (span.end < s.len() ==> !is_digit(s[span.end]))
}

/// Whether `span` is a group of `s`: a run of at least two digits.
pub open spec fn is_group(s: Seq<char>, span: Span) -> bool {
    is_run(s, span) && span.end - span.start >= MIN_GROUP_LEN
}

/// The characters of `s` within `span`.
pub open spec fn slice(s: Seq<char>, span: Span) -> Seq<char> {
    s.subrange(span.start, span.end)
}

/// The group that a run from `start` up to `end` makes, if it is long
/// enough to make one.
pub open spec fn closed_run(start: int, end: int) -> Seq<Span> {
    if end - start >= MIN_GROUP_LEN {
        seq![Span { start, end }]
    } else {
        Seq::empty()
    }
}

/// The groups of `s` that a reader finds from position `i` on, left to
/// right, when the run that it is in began at `start`. Where it is in no
/// run, `start` is `i`.
pub open spec fn groups_after(s: Seq<char>, start: int, i: int) -> Seq<Span>
    decreases s.len() - i,
{
    if i >= s.len() {
        closed_run(start, i)
    } else if is_digit(s[i]) {
        groups_after(s, start, i + 1)
    } else {
        closed_run(start, i) + groups_after(s, i + 1, i + 1)
    }
}

/// The groups of `s`, left to right.
pub open spec fn groups(s: Seq<char>) -> Seq<Span> {
    groups_after(s, 0, 0)
}

/// The groups of `s` as they are written, left to right: for each group,
/// its digits.
pub open spec fn written(s: Seq<char>) -> Seq<Seq<char>> {
    groups(s).map_values(|span: Span| slice(s, span))
}

/// What a reader at `i` knows of the run it is in: it began at `start`,
/// with no digit before it, and has held only digits since.
pub open spec fn in_run(s: Seq<char>, start: int, i: int) -> bool {
    &&& 0 <= start <= i <= s.len()
    &&& forall|j: int| start <= j < i ==> is_digit(#[trigger] s[j])
    &&& (start > 0 ==> !is_digit(s[start - 1]))
}

/// Whether `found` holds groups of `s` only, none of which begins before
/// `start`, each ending before the next one begins.
spec fn listed_in_order(s: Seq<char>, found: Seq<Span>, start: int) -> bool {
    &&& forall|k: int|
        0 <= k < found.len() ==> is_group(s, #[trigger] found[k]) && found[k].start >= start
    &&& forall|j: int, k: int|
        0 <= j < k < found.len() ==> (#[trigger] found[j]).end < (#[trigger] found[k]).start
}

/// The groups that `groups_after` lists are groups of `s`, none begins
/// before `start`, and each ends before the next one begins.
proof fn lemma_groups_after_sound(s: Seq<char>, start: int, i: int)
    requires
        in_run(s, start, i),
    ensures
        listed_in_order(s, groups_after(s, start, i), start),
    decreases s.len() - i,
{
    if i >= s.len() {
    } else if is_digit(s[i]) {
        lemma_groups_after_sound(s, start, i + 1);
    } else {
        // The run that ends at `i`, if it is a group, comes before all
        // that begin after `i`.
        let first = closed_run(start, i);
        let rest = groups_after(s, i + 1, i + 1);
        let found = first + rest;
        lemma_groups_after_sound(s, i + 1, i + 1);
        assert forall|k: int| 0 <= k < found.len() implies is_group(s, #[trigger] found[k])
            && found[k].start >= start && (k >= first.len() ==> found[k].start > i)
            && (k < first.len() ==> found[k].end == i) by {}
    }
}

/// Every group of `s` that begins at `start` or later is among those that
/// `groups_after` lists.
proof fn lemma_groups_after_complete(s: Seq<char>, start: int, i: int, span: Span)
    requires
        in_run(s, start, i),
        is_group(s, span),
        span.start >= start,
    ensures
        groups_after(s, start, i).contains(span),
    decreases s.len() - i,
{
    // The span is the run that the reader is in, or begins after `i`: if
    // it began within the run, it would have a digit before it.
    if i >= s.len() {
        assert(closed_run(start, i)[0] == span);
    } else if is_digit(s[i]) {
        lemma_groups_after_complete(s, start, i + 1, span);
    } else {
        let first = closed_run(start, i);
        let rest = groups_after(s, i + 1, i + 1);
        if span.start == start {
            assert((first + rest)[0] == span);
        } else {
            lemma_groups_after_complete(s, i + 1, i + 1, span);
            let k = choose|k: int| 0 <= k < rest.len() && rest[k] == span;
            assert((first + rest)[first.len() + k] == span);
        }
    }
}

/// What `groups` lists are groups: each is a run of at least two digits
/// with no digit on either side of it.
pub proof fn lemma_groups_sound(s: Seq<char>, k: int)
    requires
        0 <= k < groups(s).len(),
    ensures
        is_group(s, groups(s)[k]),
{
    lemma_groups_after_sound(s, 0, 0);
}

/// Every group is written with digits only, and with at least two.
pub proof fn lemma_written_with_digits(s: Seq<char>, k: int)
    requires
        0 <= k < groups(s).len(),
    ensures
        all_digits(written(s)[k]),
        written(s)[k].len() >= MIN_GROUP_LEN,
{
    lemma_groups_sound(s, k);
    let span = groups(s)[k];
    assert forall|i: int| 0 <= i < slice(s, span).len() implies is_digit(
        #[trigger] slice(s, span)[i],
    ) by {
        assert(slice(s, span)[i] == s[span.start + i]);
    }
}

/// `groups` lists its groups from left to right: each ends before the next
/// one begins.
pub proof fn lemma_groups_ordered(s: Seq<char>, j: int, k: int)
    requires
        0 <= j < k < groups(s).len(),
    ensures
        groups(s)[j].end < groups(s)[k].start,
{
    lemma_groups_after_sound(s, 0, 0);
}

/// `groups` leaves no group out: every run of at least two digits with no
/// digit on either side of it is listed.
pub proof fn lemma_groups_complete(s: Seq<char>, span: Span)
    requires
        is_group(s, span),
    ensures
        groups(s).contains(span),
{
    lemma_groups_after_complete(s, 0, 0, span);
}

} // verus!
