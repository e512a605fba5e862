//! Camp cleanup: each line holds two inclusive section ranges. One part
//! counts the pairs where one range contains the other, the second the
//! pairs that overlap at all.

use vstd::prelude::*;
use crate::text::lines_of;
use crate::text::to_lines;
use crate::text::split_on;
use crate::text::split_chars;
use crate::text::is_digits;
use crate::text::digits_val;
use crate::text::parse_u64;

verus! {

/// An inclusive range of section numbers.
pub struct Span {
    pub lo: usize,
    pub hi: usize,
}

/// One line of the input: the two elves' ranges.
pub struct Assignment {
    pub one: Span,
    pub two: Span,
}

pub open spec fn includes(r: Span, r2: Span) -> bool {
    r.lo <= r2.lo && r.hi >= r2.hi
}

pub open spec fn overlaps(r: Span, r2: Span) -> bool {
    (r2.lo <= r.lo && r.lo <= r2.hi) || (r2.lo <= r.hi && r.hi <= r2.hi)
}

/// Whether `r` wholly contains `r2`.
pub fn range_includes(r: &Span, r2: &Span) -> (b: bool)
    ensures
        b == includes(*r, *r2),
{
    r.lo <= r2.lo && r.hi >= r2.hi
}

/// Whether an endpoint of `r` falls inside `r2`.
pub fn range_overlaps(r: &Span, r2: &Span) -> (b: bool)
    ensures
        b == overlaps(*r, *r2),
{
    (r2.lo <= r.lo && r.lo <= r2.hi) || (r2.lo <= r.hi && r.hi <= r2.hi)
}

/// A digits token that fits a `usize`.
pub open spec fn usize_token(t: Seq<char>) -> bool {
    is_digits(t) && t.len() <= 19 && digits_val(t) <= usize::MAX
}

/// What one line denotes: `a-b,c-d`, four numbers exactly.
pub open spec fn assignment_of(s: Seq<char>) -> Option<(int, int, int, int)> {
    let halves = split_on(s, ',');
    if halves.len() == 2 {
        let a = split_on(halves[0], '-');
        let b = split_on(halves[1], '-');
        if a.len() == 2 && b.len() == 2 && usize_token(a[0]) && usize_token(a[1]) && usize_token(
            b[0],
        ) && usize_token(b[1]) {
            Some((digits_val(a[0]), digits_val(a[1]), digits_val(b[0]), digits_val(b[1])))
        } else {
            None
        }
    } else {
        None
    }
}

fn parse_span_sides(half: &Vec<char>) -> (r: Option<Span>)
    ensures
        ({
            let a = split_on(half@, '-');
            match r {
                Some(sp) => a.len() == 2 && usize_token(a[0]) && usize_token(a[1]) && sp.lo
                    == digits_val(a[0]) && sp.hi == digits_val(a[1]),
                None => !(a.len() == 2 && usize_token(a[0]) && usize_token(a[1])),
            }
        }),
{
    let sides = split_chars(half, '-');
    if sides.len() != 2 {
        return None;
    }
    let lo = match parse_u64(&sides[0]) {
        Some(x) => x,
        None => {
            return None;
        },
    };
    let hi = match parse_u64(&sides[1]) {
        Some(x) => x,
        None => {
            return None;
        },
    };
    if lo > usize::MAX as u64 || hi > usize::MAX as u64 {
        return None;
    }
    Some(Span { lo: lo as usize, hi: hi as usize })
}

/// Parses the assignment list, one pair of ranges per line.
pub fn parse(input: &str) -> (r: Option<Vec<Assignment>>)
    ensures
        ({
            let ls = lines_of(input@);
            match r {
                Some(v) => v@.len() == ls.len() && forall|i: int|
                    0 <= i < ls.len() ==> ({
                        let a = assignment_of(#[trigger] ls[i]);
                        &&& a is Some
                        &&& v@[i].one.lo == a->Some_0.0
                        &&& v@[i].one.hi == a->Some_0.1
                        &&& v@[i].two.lo == a->Some_0.2
                        &&& v@[i].two.hi == a->Some_0.3
                    }),
                None => exists|i: int| 0 <= i < ls.len() && assignment_of(#[trigger] ls[i]) is None,
            }
        }),
{
    let ghost ls = lines_of(input@);
    let lines = to_lines(input);
    let mut out: Vec<Assignment> = Vec::new();
    let mut i: usize = 0;
    while i < lines.len()
        invariant
            ls == lines_of(input@),
            lines@.len() == ls.len(),
            forall|t: int| 0 <= t < ls.len() ==> #[trigger] lines@[t]@ == ls[t],
            i <= ls.len(),
            out@.len() == i,
            forall|t: int|
                0 <= t < i ==> ({
                    let a = assignment_of(#[trigger] ls[t]);
                    &&& a is Some
                    &&& out@[t].one.lo == a->Some_0.0
                    &&& out@[t].one.hi == a->Some_0.1
                    &&& out@[t].two.lo == a->Some_0.2
                    &&& out@[t].two.hi == a->Some_0.3
                }),
        decreases ls.len() - i,
    {
        let halves = split_chars(&lines[i], ',');
        if halves.len() != 2 {
            return None;
        }
        let one = match parse_span_sides(&halves[0]) {
            Some(sp) => sp,
            None => {
                return None;
            },
        };
        let two = match parse_span_sides(&halves[1]) {
            Some(sp) => sp,
            None => {
                return None;
            },
        };
        out.push(Assignment { one, two });
        i = i + 1;
    }
    Some(out)
}

/// Pairs where one range contains the other, among the first `k`.
pub open spec fn count_included(s: Seq<Assignment>, k: int) -> int
    decreases k,
{
    if k <= 0 {
        0
    } else {
        count_included(s, k - 1) + if includes(s[k - 1].one, s[k - 1].two) || includes(
            s[k - 1].two,
            s[k - 1].one,
        ) {
            1int
        } else {
            0int
        }
    }
}

/// Pairs whose ranges overlap at all, among the first `k`.
pub open spec fn count_overlapping(s: Seq<Assignment>, k: int) -> int
    decreases k,
{
    if k <= 0 {
        0
    } else {
        count_overlapping(s, k - 1) + if overlaps(s[k - 1].one, s[k - 1].two) || overlaps(
            s[k - 1].two,
            s[k - 1].one,
        ) {
            1int
        } else {
            0int
        }
    }
}

/// Counts the pairs where one range wholly contains the other.
pub fn part1(input: &Vec<Assignment>) -> (r: usize)
    ensures
        r == count_included(input@, input@.len() as int),
{
    let mut count: usize = 0;
    let mut i: usize = 0;
    while i < input.len()
        invariant
            i <= input@.len(),
            count == count_included(input@, i as int),
            count <= i,
        decreases input@.len() - i,
    {
        let a = &input[i];
        if range_includes(&a.one, &a.two) || range_includes(&a.two, &a.one) {
            count = count + 1;
        }
        i = i + 1;
    }
    count
}

/// Counts the pairs whose ranges overlap at all.
pub fn part2(input: &Vec<Assignment>) -> (r: usize)
    ensures
        r == count_overlapping(input@, input@.len() as int),
{
    let mut count: usize = 0;
    let mut i: usize = 0;
    while i < input.len()
        invariant
            i <= input@.len(),
            count == count_overlapping(input@, i as int),
            count <= i,
        decreases input@.len() - i,
    {
        let a = &input[i];
        if range_overlaps(&a.one, &a.two) || range_overlaps(&a.two, &a.one) {
            count = count + 1;
        }
        i = i + 1;
    }
    count
}

} // verus!
