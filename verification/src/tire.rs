//! Tires, and the size codes on their sidewalls.

use vstd::prelude::*;
use vstd::std_specs::iter::IteratorSpec;
use crate::digits::{is_digit, to_digit, Number};
use crate::groups::{
    groups, groups_after, lemma_groups_ordered, lemma_groups_sound, slice, written, Span,
    MIN_GROUP_LEN,
};
use crate::separators::{apart, lemma_joined};

verus! {

/// A tire, known by the three numbers of its size code.
#[derive(Debug, Clone, PartialEq, Eq)]
pub struct Tire {
    /// Width of the tire in millimeters.
    pub width: Number,
    /// Height of the sidewall in percent of the width.
    pub aspect_ratio: Number,
    /// Diameter of the wheel in inches.
    pub wheel_diameter: Number,
}

/// The one way in which decoding fails: the text is no tire size code.
#[derive(Debug, Clone, Copy, PartialEq, Eq)]
pub struct ParseError;

/// How many groups a tire size code is read from.
pub const GROUPS_IN_CODE: usize = 3;

impl Tire {
    /// Creates a tire from the size code on it, such as `275/55R20`: the
    /// first three groups of the code are, in this order, the width, the
    /// aspect ratio and the wheel diameter, each written as the code has
    /// it. Whatever stands between the groups, and whatever follows the
    /// third, is passed over.
    ///
    /// A group is a run of two or more of the digits `0` to `9` with no
    /// such digit before or after it. Every other character stands between
    /// groups, the decimal digits of other scripts too.
    ///
    /// Fails on a text with fewer than three groups, and on no other.
    pub fn new(value: &str) -> (r: Result<Tire, ParseError>)
        ensures
            r is Ok <==> groups(value@).len() >= GROUPS_IN_CODE,
            r matches Ok(tire) ==> {
                &&& tire.width@ == written(value@)[0]
                &&& tire.aspect_ratio@ == written(value@)[1]
                &&& tire.wheel_diameter@ == written(value@)[2]
            },
    {
        let mut chars = value.chars();
        let mut width = Number { digits: Vec::new() };
        let mut aspect_ratio = Number { digits: Vec::new() };
        let mut count: usize = 0;
        // The digits of the run that is being read.
        let mut run: Vec<char> = Vec::new();
        let ghost s = value@;
        let ghost mut found: Seq<Span> = Seq::empty();
        let ghost mut start: int = 0;
        let ghost mut i: int = 0;
        loop
            invariant
                s == value@,
                0 <= start <= i <= s.len(),
                chars.remaining() == s.skip(i),
                groups(s) == found + groups_after(s, start, i),
                found.len() == count < GROUPS_IN_CODE,
                count >= 1 ==> width@ == slice(s, found[0]),
                count >= 2 ==> aspect_ratio@ == slice(s, found[1]),
                run@ == s.subrange(start, i),
            decreases s.len() - i,
        {
            let next = chars.next();
            let digit = match next {
                Some(c) => if to_digit(c).is_some() {
                    Some(c)
                } else {
                    None
                },
                None => None,
            };
            match digit {
                Some(c) => {
                    run.push(c);
                    proof {
                        assert(s.subrange(start, i + 1) =~= s.subrange(start, i).push(s[i]));
                        i = i + 1;
                    }
                },
                None => {
                    // The run, if there was one, ends here.
                    if run.len() >= MIN_GROUP_LEN {
                        let number = Number { digits: run };
                        proof {
                            found = found.push(Span { start, end: i });
                            assert(groups(s)[count as int] == found[count as int]);
                            assert(written(s)[count as int] == number@);
                        }
                        if count == 0 {
                            width = number;
                        } else if count == 1 {
                            aspect_ratio = number;
                        } else {
                            assert(written(s)[0] == slice(s, groups(s)[0]));
                            assert(written(s)[1] == slice(s, groups(s)[1]));
                            return Ok(Tire { width, aspect_ratio, wheel_diameter: number });
                        }
                        count = count + 1;
                    }
                    if next.is_none() {
                        return Err(ParseError);
                    }
                    run = Vec::new();
                    proof {
                        i = i + 1;
                        start = i;
                    }
                },
            }
        }
    }
}

/// A text that goes on after `head`, and not with a digit, has the groups
/// of `head` first, written as in `head`.
proof fn lemma_written_after(head: Seq<char>, t: Seq<char>)
    requires
        t.len() >= head.len(),
        t.take(head.len() as int) == head,
        t.len() > head.len() ==> !is_digit(t[head.len() as int]),
    ensures
        written(t).len() >= written(head).len(),
        forall|k: int| 0 <= k < written(head).len() ==> written(t)[k] == written(head)[k],
{
    let tail = t.skip(head.len() as int);
    assert(t =~= head + tail);
    assert(apart(head, tail)) by {
        if tail.len() > 0 {
            assert(tail.first() == t[head.len() as int]);
        }
    }
    lemma_joined(head, tail);
    assert forall|k: int| 0 <= k < written(head).len() implies written(t)[k] == written(head)[k] by {
        assert((written(head) + written(tail))[k] == written(head)[k]);
    }
}

/// The first three groups of `s` are the first three groups of what `s`
/// holds up to the end of the third.
proof fn lemma_three_groups_in_head(s: Seq<char>)
    requires
        groups(s).len() >= GROUPS_IN_CODE,
    ensures
        0 <= groups(s)[2].end <= s.len(),
        groups(s)[2].end < s.len() ==> !is_digit(s[groups(s)[2].end]),
        groups(s.take(groups(s)[2].end)).len() >= GROUPS_IN_CODE,
{
    let end = groups(s)[2].end;
    let head = s.take(end);
    let tail = s.skip(end);
    lemma_groups_sound(s, 2);
    assert(s =~= head + tail);
    assert(apart(head, tail)) by {
        if tail.len() > 0 {
            assert(tail.first() == s[end]);
        }
    }
    lemma_joined(head, tail);
    let m = groups(head).len() as int;
    if m < GROUPS_IN_CODE {
        // Then the group of `s` at `m` is the first of `tail`, moved
        // behind `head`: it begins at `end` or later.
        let first = groups(tail)[0];
        assert(groups(tail).len() > 0);
        lemma_groups_sound(tail, 0);
        assert(first.start >= 0);
        assert(groups(s)[m] == Span { start: first.start + end, end: first.end + end });
        assert(groups(s)[m].start >= end);
        // But it begins before the third group ends.
        lemma_groups_sound(s, m);
        if m < 2 {
            lemma_groups_ordered(s, m, 2);
        }
        assert(groups(s)[m].start < end);
    }
}

/// Whatever follows the third group is passed over: a text `t` that
/// begins as `s` does, up to the end of the third group of `s`, and has
/// no digit right after that, has the same first three groups, written
/// alike.
pub proof fn lemma_rest_passed_over(s: Seq<char>, t: Seq<char>)
    requires
        groups(s).len() >= GROUPS_IN_CODE,
        t.len() >= groups(s)[2].end,
        t.take(groups(s)[2].end) == s.take(groups(s)[2].end),
        t.len() > groups(s)[2].end ==> !is_digit(t[groups(s)[2].end]),
    ensures
        groups(t).len() >= GROUPS_IN_CODE,
        forall|k: int| 0 <= k < GROUPS_IN_CODE ==> written(t)[k] == written(s)[k],
{
    let head = s.take(groups(s)[2].end);
    lemma_three_groups_in_head(s);
    assert(head.len() == groups(s)[2].end);
    lemma_written_after(head, s);
    lemma_written_after(head, t);
    assert forall|k: int| 0 <= k < GROUPS_IN_CODE implies written(t)[k] == written(s)[k] by {
        assert(written(t)[k] == written(head)[k]);
        assert(written(s)[k] == written(head)[k]);
    }
}

} // verus!
