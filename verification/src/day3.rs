//! Rucksack reorganization: each line splits into two halves; the item
//! common to both halves scores its priority. Groups of three lines score
//! the item common to all three sacks.

use vstd::prelude::*;
use crate::text::lines_of;
use crate::text::to_lines;

verus! {

/// One rucksack, split into its two compartments.
pub struct Rucksack {
    pub one: Vec<char>,
    pub two: Vec<char>,
}

/// Splits each line in half (the second compartment takes the odd middle
/// character). Never fails: every line splits.
pub fn parse(input: &str) -> (r: Vec<Rucksack>)
    ensures
        ({
            let ls = lines_of(input@);
            &&& r@.len() == ls.len()
            &&& forall|i: int|
                0 <= i < ls.len() ==> (#[trigger] r@[i].one)@ == ls[i].take(
                    ls[i].len() as int / 2,
                )
            &&& forall|i: int|
                0 <= i < ls.len() ==> (#[trigger] r@[i].two)@ == ls[i].skip(
                    ls[i].len() as int / 2,
                )
        }),
{
    let ghost ls = lines_of(input@);
    let lines = to_lines(input);
    let mut out: Vec<Rucksack> = Vec::new();
    let mut i: usize = 0;
    while i < lines.len()
        invariant
            ls == lines_of(input@),
            lines@.len() == ls.len(),
            forall|t: int| 0 <= t < ls.len() ==> #[trigger] lines@[t]@ == ls[t],
            i <= ls.len(),
            out@.len() == i,
            forall|t: int|
                0 <= t < i ==> (#[trigger] out@[t].one)@ == ls[t].take(ls[t].len() as int / 2),
            forall|t: int|
                0 <= t < i ==> (#[trigger] out@[t].two)@ == ls[t].skip(ls[t].len() as int / 2),
        decreases ls.len() - i,
    {
        let line = &lines[i];
        let half = line.len() / 2;
        let mut one: Vec<char> = Vec::new();
        let mut two: Vec<char> = Vec::new();
        let mut j: usize = 0;
        while j < half
            invariant
                line@ == ls[i as int],
                i < ls.len(),
                half == ls[i as int].len() as int / 2,
                half <= line@.len(),
                j <= half,
                one@ == ls[i as int].take(half as int).take(j as int),
            decreases half - j,
        {
            one.push(line[j]);
            j = j + 1;
            proof {
                assert(one@ =~= ls[i as int].take(half as int).take(j as int));
            }
        }
        while j < line.len()
            invariant
                line@ == ls[i as int],
                i < ls.len(),
                half == ls[i as int].len() as int / 2,
                half <= j <= line@.len(),
                two@ == ls[i as int].skip(half as int).take(j - half),
            decreases line@.len() - j,
        {
            two.push(line[j]);
            j = j + 1;
            proof {
                assert(two@ =~= ls[i as int].skip(half as int).take(j - half));
            }
        }
        proof {
            assert(one@ =~= ls[i as int].take(half as int));
            assert(two@ =~= ls[i as int].skip(half as int));
        }
        out.push(Rucksack { one, two });
        i = i + 1;
    }
    out
}

pub open spec fn is_letter(c: char) -> bool {
    (65 <= c as u32 && c as u32 <= 90) || (97 <= c as u32 && c as u32 <= 122)
}

/// The priority of an item: lowercase letters score 1 through 26,
/// uppercase 27 through 52.
pub open spec fn priority(c: char) -> int {
    if 65 <= c as u32 && c as u32 <= 90 {
        27 + c as u32 - 65
    } else {
        1 + c as u32 - 97
    }
}

/// The priority of an item character (a letter).
pub fn item_priority(c: char) -> (r: u32)
    requires
        is_letter(c),
    ensures
        r == priority(c),
{
    let u = c as u32;
    if u >= 65 && u <= 90 {
        27 + u - 65
    } else {
        1 + u - 97
    }
}

/// The least index in `a` of a character that `b` holds (or `a.len()`).
pub open spec fn first_common(a: Seq<char>, b: Seq<char>) -> int
    decreases a.len(),
{
    if a.len() == 0 {
        0
    } else if b.contains(a[0]) {
        0
    } else {
        1 + first_common(a.drop_first(), b)
    }
}

/// The least index in `a` of a character both `b` and `c` hold.
pub open spec fn first_common3(a: Seq<char>, b: Seq<char>, c: Seq<char>) -> int
    decreases a.len(),
{
    if a.len() == 0 {
        0
    } else if b.contains(a[0]) && c.contains(a[0]) {
        0
    } else {
        1 + first_common3(a.drop_first(), b, c)
    }
}

proof fn lemma_first_common_bounds(a: Seq<char>, b: Seq<char>)
    ensures
        0 <= first_common(a, b) <= a.len(),
    decreases a.len(),
{
    if a.len() > 0 && !b.contains(a[0]) {
        lemma_first_common_bounds(a.drop_first(), b);
    }
}

proof fn lemma_first_common3_bounds(a: Seq<char>, b: Seq<char>, c: Seq<char>)
    ensures
        0 <= first_common3(a, b, c) <= a.len(),
    decreases a.len(),
{
    if a.len() > 0 && !(b.contains(a[0]) && c.contains(a[0])) {
        lemma_first_common3_bounds(a.drop_first(), b, c);
    }
}

fn contains_char(v: &Vec<char>, c: char) -> (r: bool)
    ensures
        r == v@.contains(c),
{
    let mut t: usize = 0;
    while t < v.len()
        invariant
            t <= v@.len(),
            forall|u: int| 0 <= u < t ==> v@[u] != c,
        decreases v@.len() - t,
    {
        if v[t] == c {
            return true;
        }
        t = t + 1;
    }
    proof {
        if v@.contains(c) {
            let w = choose|u: int| 0 <= u < v@.len() && v@[u] == c;
        }
    }
    false
}

/// The first item of `a` that `b` also holds.
fn find_common(a: &Vec<char>, b: &Vec<char>) -> (r: Option<char>)
    ensures
        ({
            let fc = first_common(a@, b@);
            match r {
                Some(c) => fc < a@.len() && c == a@[fc],
                None => fc == a@.len(),
            }
        }),
{
    let mut i: usize = 0;
    proof {
        lemma_first_common_bounds(a@, b@);
        assert(a@.skip(0) =~= a@);
    }
    while i < a.len()
        invariant
            i <= a@.len(),
            first_common(a@, b@) == i + first_common(a@.skip(i as int), b@),
        decreases a@.len() - i,
    {
        proof {
            assert(a@.skip(i as int)[0] == a@[i as int]);
            assert(a@.skip(i as int).drop_first() =~= a@.skip(i + 1));
        }
        if contains_char(b, a[i]) {
            proof {
                assert(first_common(a@.skip(i as int), b@) == 0);
            }
            return Some(a[i]);
        }
        i = i + 1;
    }
    None
}

/// The first item of `a` that both `b` and `c` hold.
fn find_common3(a: &Vec<char>, b: &Vec<char>, c: &Vec<char>) -> (r: Option<char>)
    ensures
        ({
            let fc = first_common3(a@, b@, c@);
            match r {
                Some(x) => fc < a@.len() && x == a@[fc],
                None => fc == a@.len(),
            }
        }),
{
    let mut i: usize = 0;
    proof {
        lemma_first_common3_bounds(a@, b@, c@);
        assert(a@.skip(0) =~= a@);
    }
    while i < a.len()
        invariant
            i <= a@.len(),
            first_common3(a@, b@, c@) == i + first_common3(a@.skip(i as int), b@, c@),
        decreases a@.len() - i,
    {
        proof {
            assert(a@.skip(i as int)[0] == a@[i as int]);
            assert(a@.skip(i as int).drop_first() =~= a@.skip(i + 1));
        }
        if contains_char(b, a[i]) && contains_char(c, a[i]) {
            proof {
                assert(first_common3(a@.skip(i as int), b@, c@) == 0);
            }
            return Some(a[i]);
        }
        i = i + 1;
    }
    None
}

/// The badge priority of one sack: the first item of the first compartment
/// that the second also holds.
pub open spec fn sack_item(s: Rucksack) -> char {
    s.one@[first_common(s.one@, s.two@)]
}

/// Sum of the common-item priorities over the first `k` sacks.
pub open spec fn score1(s: Seq<Rucksack>, k: int) -> int
    decreases k,
{
    if k <= 0 {
        0
    } else {
        score1(s, k - 1) + priority(sack_item(s[k - 1]))
    }
}

/// Every sack has an item common to its compartments, and that item is a
/// letter.
pub open spec fn sacks_ok(s: Seq<Rucksack>) -> bool {
    forall|k: int|
        0 <= k < s.len() ==> first_common(#[trigger] s[k].one@, s[k].two@) < s[k].one@.len()
            && is_letter(sack_item(s[k]))
}

proof fn lemma_score1_range(s: Seq<Rucksack>, k: int)
    requires
        sacks_ok(s),
        0 <= k <= s.len(),
    ensures
        0 <= score1(s, k) <= 52 * k,
    decreases k,
{
    if k > 0 {
        lemma_score1_range(s, k - 1);
    }
}

/// Sums the priority of each sack's shared item.
pub fn part1(input: &Vec<Rucksack>) -> (r: u32)
    requires
        sacks_ok(input@),
        52 * input@.len() <= u32::MAX,
    ensures
        r == score1(input@, input@.len() as int),
{
    let mut acc: u32 = 0;
    let mut i: usize = 0;
    while i < input.len()
        invariant
            sacks_ok(input@),
            52 * input@.len() <= u32::MAX,
            i <= input@.len(),
            acc == score1(input@, i as int),
            acc <= 52 * i,
        decreases input@.len() - i,
    {
        let sack = &input[i];
        let c = match find_common(&sack.one, &sack.two) {
            Some(c) => c,
            None => {
                proof {
                    assert(first_common(input@[i as int].one@, input@[i as int].two@)
                        < input@[i as int].one@.len());
                }
                ' '
            },
        };
        proof {
            assert(c == sack_item(input@[i as int]));
            lemma_score1_range(input@, i as int);
        }
        acc = acc + item_priority(c);
        i = i + 1;
    }
    acc
}

/// The badge of the group starting at sack `k`: the first item of that
/// sack's full contents held by both other sacks of the group.
pub open spec fn group_badge(s: Seq<Rucksack>, k: int) -> char {
    let a = s[k].one@ + s[k].two@;
    let b = s[k + 1].one@ + s[k + 1].two@;
    let c = s[k + 2].one@ + s[k + 2].two@;
    a[first_common3(a, b, c)]
}

/// Sum of badge priorities over the first `g` groups of three.
pub open spec fn score2(s: Seq<Rucksack>, g: int) -> int
    decreases g,
{
    if g <= 0 {
        0
    } else {
        score2(s, g - 1) + priority(group_badge(s, 3 * (g - 1)))
    }
}

/// Every group of three has a badge, and it is a letter.
pub open spec fn groups_ok(s: Seq<Rucksack>) -> bool {
    forall|g: int|
        0 <= g < s.len() / 3 ==> ({
            let a = s[3 * g].one@ + s[#[trigger] (3 * g)].two@;
            let b = s[3 * g + 1].one@ + s[3 * g + 1].two@;
            let c = s[3 * g + 2].one@ + s[3 * g + 2].two@;
            first_common3(a, b, c) < a.len() && is_letter(group_badge(s, 3 * g))
        })
}

proof fn lemma_score2_range(s: Seq<Rucksack>, g: int)
    requires
        groups_ok(s),
        0 <= g <= s.len() / 3,
    ensures
        0 <= score2(s, g) <= 52 * g,
    decreases g,
{
    if g > 0 {
        lemma_score2_range(s, g - 1);
    }
}

/// Joins a sack's two compartments.
fn whole_sack(s: &Rucksack) -> (r: Vec<char>)
    ensures
        r@ == s.one@ + s.two@,
{
    let mut r: Vec<char> = Vec::new();
    let mut i: usize = 0;
    while i < s.one.len()
        invariant
            i <= s.one@.len(),
            r@ == s.one@.take(i as int),
        decreases s.one@.len() - i,
    {
        r.push(s.one[i]);
        i = i + 1;
        proof {
            assert(r@ =~= s.one@.take(i as int));
        }
    }
    let mut j: usize = 0;
    while j < s.two.len()
        invariant
            r@ == s.one@ + s.two@.take(j as int),
            j <= s.two@.len(),
        decreases s.two@.len() - j,
    {
        r.push(s.two[j]);
        j = j + 1;
        proof {
            assert(r@ =~= s.one@ + s.two@.take(j as int));
        }
    }
    proof {
        assert(r@ =~= s.one@ + s.two@);
    }
    r
}

/// Sums the badge priorities of the groups of three sacks.
pub fn part2(input: &Vec<Rucksack>) -> (r: u32)
    requires
        input@.len() % 3 == 0,
        groups_ok(input@),
        52 * (input@.len() / 3) <= u32::MAX,
    ensures
        r == score2(input@, input@.len() as int / 3),
{
    let mut acc: u32 = 0;
    let mut g: usize = 0;
    let total = input.len() / 3;
    while g < total
        invariant
            input@.len() % 3 == 0,
            groups_ok(input@),
            52 * (input@.len() / 3) <= u32::MAX,
            total == input@.len() / 3,
            g <= total,
            acc == score2(input@, g as int),
            acc <= 52 * g,
        decreases total - g,
    {
        let base = 3 * g;
        proof {
            assert(3 * (g as int) + 2 < input@.len());
        }
        let a = whole_sack(&input[base]);
        let b = whole_sack(&input[base + 1]);
        let c = whole_sack(&input[base + 2]);
        let x = match find_common3(&a, &b, &c) {
            Some(x) => x,
            None => ' ',
        };
        proof {
            assert(x == group_badge(input@, 3 * (g as int)));
            lemma_score2_range(input@, g as int);
        }
        acc = acc + item_priority(x);
        g = g + 1;
    }
    acc
}

} // verus!
