//! Start-of-message detection: the position just past the first window of
//! the given size whose characters are pairwise distinct.

use vstd::prelude::*;
use crate::text::str_to_chars;

verus! {

/// The characters `s[lo..lo+w]` are pairwise distinct.
pub open spec fn window_distinct(s: Seq<char>, lo: int, w: int) -> bool {
    forall|a: int, b: int| lo <= a < b < lo + w ==> s[a] != s[b]
}

/// What the search returns: the end of the first all-distinct window.
pub open spec fn marker_ok(s: Seq<char>, w: int, r: Option<usize>) -> bool {
    match r {
        Some(e) => {
            &&& w <= e <= s.len()
            &&& window_distinct(s, e - w, w)
            &&& forall|lo: int| 0 <= lo < e - w ==> !window_distinct(s, lo, w)
        },
        None => forall|lo: int| 0 <= lo <= s.len() - w ==> !window_distinct(s, lo, w),
    }
}

/// Finds the first window of `window_size` pairwise-distinct characters and
/// returns the index just past it, or `None` when no such window exists.
pub fn solve(input: &str, window_size: usize) -> (r: Option<usize>)
    requires
        window_size >= 1,
    ensures
        marker_ok(input@, window_size as int, r),
{
    let ghost s = input@;
    let chars = str_to_chars(input);
    let n = chars.len();
    if n < window_size {
        return None;
    }
    let mut lo: usize = 0;
    while lo <= n - window_size
        invariant
            s == input@,
            chars@ == s,
            n == s.len(),
            window_size >= 1,
            window_size <= n,
            lo <= n - window_size + 1,
            forall|l: int| 0 <= l < lo ==> !window_distinct(s, l, window_size as int),
        decreases n - window_size - lo + 1,
    {
        let mut a: usize = 0;
        let mut distinct = true;
        while a < window_size
            invariant
                s == input@,
                chars@ == s,
                n == s.len(),
                window_size >= 1,
                lo + window_size <= n,
                a <= window_size,
                distinct ==> forall|x: int, y: int|
                    lo <= x < y < lo + a ==> s[x] != s[y],
                !distinct ==> !window_distinct(s, lo as int, window_size as int),
            decreases window_size - a,
        {
            let mut b: usize = 0;
            while b < a
                invariant
                    s == input@,
                    chars@ == s,
                    n == s.len(),
                    lo + window_size <= n,
                    b <= a < window_size,
                    distinct ==> forall|x: int, y: int|
                        lo <= x < y < lo + a ==> s[x] != s[y],
                    distinct ==> forall|y: int| lo <= y < lo + b ==> #[trigger] s[y] != s[lo + a],
                    !distinct ==> !window_distinct(s, lo as int, window_size as int),
                decreases a - b,
            {
                if chars[lo + b] == chars[lo + a] {
                    proof {
                        if window_distinct(s, lo as int, window_size as int) {
                            assert(s[lo + b] != s[lo + a]);
                        }
                    }
                    distinct = false;
                }
                b = b + 1;
            }
            a = a + 1;
        }
        if distinct {
            return Some(lo + window_size);
        }
        lo = lo + 1;
    }
    proof {
        assert forall|l: int| 0 <= l <= s.len() - window_size implies !window_distinct(
            s,
            l,
            window_size as int,
        ) by {}
    }
    None
}

/// The first window of four distinct characters (the packet marker).
pub fn part1(input: &str) -> (r: Option<usize>)
    ensures
        marker_ok(input@, 4, r),
{
    solve(input, 4)
}

/// The first window of fourteen distinct characters (the message marker).
pub fn part2(input: &str) -> (r: Option<usize>)
    ensures
        marker_ok(input@, 14, r),
{
    solve(input, 14)
}

} // verus!
