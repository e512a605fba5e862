//! Tree visibility on a rectangular grid of digit heights: a tree is
//! visible when some straight ray to an edge only crosses strictly lower
//! trees, and a tree's scenic score multiplies its viewing distances in the
//! four directions.

use vstd::prelude::*;
use crate::text::lines_of;
use crate::text::to_lines;
use crate::text::is_digit;
use crate::text::digit_val;

verus! {

/// A rectangular grid of tree heights, row-major.
pub struct TreeMap {
    pub rows: Vec<Vec<u8>>,
    pub width: usize,
    pub height: usize,
}

impl TreeMap {
    pub open spec fn wf(&self) -> bool {
        &&& self.rows@.len() == self.height
        &&& forall|r: int| 0 <= r < self.height ==> (#[trigger] self.rows@[r])@.len() == self.width
        &&& forall|r: int, c: int|
            0 <= r < self.height && 0 <= c < self.width ==> #[trigger] self.rows@[r]@[c] <= 9
    }

    /// The height of the tree at row `r`, column `c`.
    pub open spec fn h(&self, r: int, c: int) -> int {
        self.rows@[r]@[c] as int
    }
}

/// A rectangular grid of digits: every line as long as the first, digits
/// only.
pub open spec fn valid_tree_grid(s: Seq<char>) -> bool {
    let ls = lines_of(s);
    &&& forall|i: int| 0 <= i < ls.len() ==> #[trigger] ls[i].len() == ls[0].len()
    &&& forall|i: int, j: int|
        0 <= i < ls.len() && 0 <= j < ls[0].len() ==> is_digit(#[trigger] ls[i][j])
}

/// Parses a digit grid; fails exactly on jagged lines or a non-digit.
pub fn parse(input: &str) -> (r: Option<TreeMap>)
    ensures
        r is Some <==> valid_tree_grid(input@),
        r matches Some(t) ==> ({
            let ls = lines_of(input@);
            &&& t.wf()
            &&& t.height == ls.len()
            &&& t.width == ls[0].len()
            &&& forall|i: int, j: int|
                0 <= i < ls.len() && 0 <= j < ls[0].len() ==> t.h(i, j) == digit_val(
                    #[trigger] ls[i][j],
                )
        }),
{
    let ghost ls = lines_of(input@);
    let lines = to_lines(input);
    let n = lines.len();
    proof {
        if input@.len() > 0 && input@[input@.len() - 1] == '\n' {
            crate::text::lemma_split_on_nonempty(input@.drop_last(), '\n');
        } else {
            crate::text::lemma_split_on_nonempty(input@, '\n');
        }
    }
    let w = lines[0].len();
    let mut rows: Vec<Vec<u8>> = Vec::new();
    let mut i: usize = 0;
    while i < n
        invariant
            ls == lines_of(input@),
            n == ls.len(),
            lines@.len() == n,
            forall|t: int| 0 <= t < n ==> #[trigger] lines@[t]@ == ls[t],
            w == ls[0].len(),
            i <= n,
            rows@.len() == i,
            forall|t: int| 0 <= t < i ==> #[trigger] ls[t].len() == w,
            forall|t: int| 0 <= t < i ==> (#[trigger] rows@[t])@.len() == w,
            forall|t: int, j: int| 0 <= t < i && 0 <= j < w ==> is_digit(#[trigger] ls[t][j]),
            forall|t: int, j: int|
                0 <= t < i && 0 <= j < w ==> #[trigger] rows@[t]@[j] <= 9,
            forall|t: int, j: int|
                0 <= t < i && 0 <= j < w ==> (#[trigger] rows@[t]@[j]) as int == digit_val(
                    ls[t][j],
                ),
        decreases n - i,
    {
        let line = &lines[i];
        if line.len() != w {
            proof {
                if valid_tree_grid(input@) {
                    assert(ls[i as int].len() == ls[0].len());
                }
            }
            return None;
        }
        let mut row: Vec<u8> = Vec::new();
        let mut j: usize = 0;
        while j < w
            invariant
                ls == lines_of(input@),
                n == ls.len(),
                lines@.len() == n,
                forall|t: int| 0 <= t < n ==> #[trigger] lines@[t]@ == ls[t],
                w == ls[0].len(),
                i < n,
                line@ == ls[i as int],
                ls[i as int].len() == w,
                j <= w,
                row@.len() == j,
                forall|x: int| 0 <= x < j ==> is_digit(#[trigger] ls[i as int][x]),
                forall|x: int| 0 <= x < j ==> #[trigger] row@[x] <= 9,
                forall|x: int|
                    0 <= x < j ==> (#[trigger] row@[x]) as int == digit_val(ls[i as int][x]),
            decreases w - j,
        {
            let c = line[j];
            let u = c as u32;
            if u < 48 || u > 57 {
                proof {
                    if valid_tree_grid(input@) {
                        assert(is_digit(ls[i as int][j as int]));
                    }
                }
                return None;
            }
            let ghost cch = ls[i as int][j as int];
            row.push((u - 48) as u8);
            j = j + 1;
            proof {
                assert(row@[j - 1] == (u - 48) as u8);
                assert(cch == c);
                assert(digit_val(cch) == u - 48);
                assert(is_digit(cch));
            }
        }
        let ghost rowv = row@;
        rows.push(row);
        i = i + 1;
        proof {
            assert(rows@[i - 1]@ == rowv);
            assert forall|t: int, j2: int| 0 <= t < i && 0 <= j2 < w implies is_digit(
                #[trigger] ls[t][j2],
            ) && (#[trigger] rows@[t]@[j2]) as int == digit_val(ls[t][j2]) && rows@[t]@[j2]
                <= 9 by {
                if t < i - 1 {
                    assert((rows@[t]@[j2]) as int == digit_val(ls[t][j2]));
                    assert(rows@[t]@[j2] <= 9);
                } else {
                    assert(rows@[t]@ == rowv);
                    assert((rowv[j2]) as int == digit_val(ls[t][j2]));
                    assert(rowv[j2] <= 9);
                }
            }
        }
    }
    let t = TreeMap { rows, width: w, height: n };
    proof {
        assert(valid_tree_grid(input@));
        assert(t.wf());
    }
    Some(t)
}

/// A tree is visible when it stands on an edge or some full ray to an edge
/// crosses only strictly lower trees.
pub open spec fn visible(t: &TreeMap, r: int, c: int) -> bool {
    ||| r == 0
    ||| c == 0
    ||| r == t.height - 1
    ||| c == t.width - 1
    ||| (forall|x: int| 0 <= x < c ==> t.h(r, x) < t.h(r, c))
    ||| (forall|x: int| c < x < t.width ==> t.h(r, x) < t.h(r, c))
    ||| (forall|y: int| 0 <= y < r ==> t.h(y, c) < t.h(r, c))
    ||| (forall|y: int| r < y < t.height ==> t.h(y, c) < t.h(r, c))
}

/// Visible trees in row `r` among the first `c` columns.
pub open spec fn count_vis_row(t: &TreeMap, r: int, c: int) -> int
    decreases c,
{
    if c <= 0 {
        0
    } else {
        count_vis_row(t, r, c - 1) + if visible(t, r, c - 1) {
            1int
        } else {
            0int
        }
    }
}

/// Visible trees in the first `r` rows.
pub open spec fn count_vis(t: &TreeMap, r: int) -> int
    decreases r,
{
    if r <= 0 {
        0
    } else {
        count_vis(t, r - 1) + count_vis_row(t, r - 1, t.width as int)
    }
}

/// Whether every tree in the row left of column `c` is lower than `(r, c)`.
fn clear_left(t: &TreeMap, r: usize, c: usize) -> (b: bool)
    requires
        t.wf(),
        r < t.height,
        c < t.width,
    ensures
        b == forall|x: int| 0 <= x < c ==> t.h(r as int, x) < t.h(r as int, c as int),
{
    let hh = t.rows[r][c];
    let mut x: usize = 0;
    while x < c
        invariant
            t.wf(),
            r < t.height,
            c < t.width,
            hh == t.rows@[r as int]@[c as int],
            x <= c,
            forall|y: int| 0 <= y < x ==> t.h(r as int, y) < t.h(r as int, c as int),
        decreases c - x,
    {
        if t.rows[r][x] >= hh {
            proof {
                assert(t.h(r as int, x as int) >= t.h(r as int, c as int));
            }
            return false;
        }
        x = x + 1;
    }
    true
}

fn clear_right(t: &TreeMap, r: usize, c: usize) -> (b: bool)
    requires
        t.wf(),
        r < t.height,
        c < t.width,
    ensures
        b == forall|x: int| c < x < t.width ==> t.h(r as int, x) < t.h(r as int, c as int),
{
    let hh = t.rows[r][c];
    let mut x: usize = c + 1;
    while x < t.width
        invariant
            t.wf(),
            r < t.height,
            c < x <= t.width,
            hh == t.rows@[r as int]@[c as int],
            forall|y: int| c < y < x ==> t.h(r as int, y) < t.h(r as int, c as int),
        decreases t.width - x,
    {
        if t.rows[r][x] >= hh {
            proof {
                assert(t.h(r as int, x as int) >= t.h(r as int, c as int));
            }
            return false;
        }
        x = x + 1;
    }
    true
}

fn clear_up(t: &TreeMap, r: usize, c: usize) -> (b: bool)
    requires
        t.wf(),
        r < t.height,
        c < t.width,
    ensures
        b == forall|y: int| 0 <= y < r ==> t.h(y, c as int) < t.h(r as int, c as int),
{
    let hh = t.rows[r][c];
    let mut y: usize = 0;
    while y < r
        invariant
            t.wf(),
            r < t.height,
            c < t.width,
            hh == t.rows@[r as int]@[c as int],
            y <= r,
            forall|z: int| 0 <= z < y ==> t.h(z, c as int) < t.h(r as int, c as int),
        decreases r - y,
    {
        if t.rows[y][c] >= hh {
            proof {
                assert(t.h(y as int, c as int) >= t.h(r as int, c as int));
            }
            return false;
        }
        y = y + 1;
    }
    true
}

fn clear_down(t: &TreeMap, r: usize, c: usize) -> (b: bool)
    requires
        t.wf(),
        r < t.height,
        c < t.width,
    ensures
        b == forall|y: int| r < y < t.height ==> t.h(y, c as int) < t.h(r as int, c as int),
{
    let hh = t.rows[r][c];
    let mut y: usize = r + 1;
    while y < t.height
        invariant
            t.wf(),
            r < y <= t.height,
            c < t.width,
            hh == t.rows@[r as int]@[c as int],
            forall|z: int| r < z < y ==> t.h(z, c as int) < t.h(r as int, c as int),
        decreases t.height - y,
    {
        if t.rows[y][c] >= hh {
            proof {
                assert(t.h(y as int, c as int) >= t.h(r as int, c as int));
            }
            return false;
        }
        y = y + 1;
    }
    true
}

fn is_visible(t: &TreeMap, r: usize, c: usize) -> (b: bool)
    requires
        t.wf(),
        r < t.height,
        c < t.width,
    ensures
        b == visible(t, r as int, c as int),
{
    if r == 0 || c == 0 || r == t.height - 1 || c == t.width - 1 {
        return true;
    }
    clear_left(t, r, c) || clear_right(t, r, c) || clear_up(t, r, c) || clear_down(t, r, c)
}

/// Counts the visible trees of the whole grid.
pub fn part1(input: &TreeMap) -> (r: usize)
    requires
        input.wf(),
        input.height * input.width <= usize::MAX,
    ensures
        r == count_vis(input, input.height as int),
{
    let mut count: usize = 0;
    let mut row: usize = 0;
    while row < input.height
        invariant
            input.wf(),
            input.height * input.width <= usize::MAX,
            row <= input.height,
            count == count_vis(input, row as int),
            count <= row * input.width,
        decreases input.height - row,
    {
        let mut col: usize = 0;
        while col < input.width
            invariant
                input.wf(),
                input.height * input.width <= usize::MAX,
                row < input.height,
                col <= input.width,
                count == count_vis(input, row as int) + count_vis_row(input, row as int, col as int),
                count <= row * input.width + col,
            decreases input.width - col,
        {
            if is_visible(input, row, col) {
                proof {
                    assert(row * input.width + col < input.height * input.width) by (nonlinear_arith)
                        requires
                            row < input.height,
                            col < input.width,
                            row >= 0,
                            col >= 0,
                    ;
                }
                count = count + 1;
            }
            col = col + 1;
        }
        proof {
            assert((row + 1) * input.width == row * input.width + input.width) by (nonlinear_arith);
        }
        row = row + 1;
    }
    count
}

/// Viewing distance from `(r, c0)` looking left, with the gaze at column
/// `c`: trees counted until one at least as tall as `(r, c0)`, or the edge.
pub open spec fn dist_left(t: &TreeMap, r: int, c0: int, c: int) -> int
    decreases c,
{
    if c <= 0 {
        0
    } else if t.h(r, c - 1) >= t.h(r, c0) {
        1
    } else {
        1 + dist_left(t, r, c0, c - 1)
    }
}

pub open spec fn dist_right(t: &TreeMap, r: int, c0: int, c: int) -> int
    decreases t.width - c,
{
    if c >= t.width - 1 {
        0
    } else if t.h(r, c + 1) >= t.h(r, c0) {
        1
    } else {
        1 + dist_right(t, r, c0, c + 1)
    }
}

pub open spec fn dist_up(t: &TreeMap, r0: int, c: int, r: int) -> int
    decreases r,
{
    if r <= 0 {
        0
    } else if t.h(r - 1, c) >= t.h(r0, c) {
        1
    } else {
        1 + dist_up(t, r0, c, r - 1)
    }
}

pub open spec fn dist_down(t: &TreeMap, r0: int, c: int, r: int) -> int
    decreases t.height - r,
{
    if r >= t.height - 1 {
        0
    } else if t.h(r + 1, c) >= t.h(r0, c) {
        1
    } else {
        1 + dist_down(t, r0, c, r + 1)
    }
}

/// The scenic score of a tree: the product of its four viewing distances.
pub open spec fn score(t: &TreeMap, r: int, c: int) -> int {
    dist_left(t, r, c, c) * dist_right(t, r, c, c) * dist_up(t, r, c, r) * dist_down(t, r, c, r)
}

pub open spec fn max2(a: int, b: int) -> int {
    if a >= b {
        a
    } else {
        b
    }
}

/// The best score in row `r` among the first `c` columns.
pub open spec fn max_score_row(t: &TreeMap, r: int, c: int) -> int
    decreases c,
{
    if c <= 0 {
        0
    } else {
        max2(max_score_row(t, r, c - 1), score(t, r, c - 1))
    }
}

/// The best score in the first `r` rows (scores are never negative, and the
/// corners score zero, so zero is a sound floor).
pub open spec fn max_score(t: &TreeMap, r: int) -> int
    decreases r,
{
    if r <= 0 {
        0
    } else {
        max2(max_score(t, r - 1), max_score_row(t, r - 1, t.width as int))
    }
}

proof fn lemma_dist_left_bound(t: &TreeMap, r: int, c0: int, c: int)
    requires
        c >= 0,
    ensures
        0 <= dist_left(t, r, c0, c) <= c,
    decreases c,
{
    if c > 0 && t.h(r, c - 1) < t.h(r, c0) {
        lemma_dist_left_bound(t, r, c0, c - 1);
    }
}

proof fn lemma_dist_right_bound(t: &TreeMap, r: int, c0: int, c: int)
    requires
        c >= 0,
    ensures
        0 <= dist_right(t, r, c0, c) <= (if t.width - 1 - c >= 0 {
            t.width - 1 - c
        } else {
            0
        }),
    decreases t.width - c,
{
    if c < t.width - 1 && t.h(r, c + 1) < t.h(r, c0) {
        lemma_dist_right_bound(t, r, c0, c + 1);
    }
}

proof fn lemma_dist_up_bound(t: &TreeMap, r0: int, c: int, r: int)
    requires
        r >= 0,
    ensures
        0 <= dist_up(t, r0, c, r) <= r,
    decreases r,
{
    if r > 0 && t.h(r - 1, c) < t.h(r0, c) {
        lemma_dist_up_bound(t, r0, c, r - 1);
    }
}

proof fn lemma_dist_down_bound(t: &TreeMap, r0: int, c: int, r: int)
    requires
        r >= 0,
    ensures
        0 <= dist_down(t, r0, c, r) <= (if t.height - 1 - r >= 0 {
            t.height - 1 - r
        } else {
            0
        }),
    decreases t.height - r,
{
    if r < t.height - 1 && t.h(r + 1, c) < t.h(r0, c) {
        lemma_dist_down_bound(t, r0, c, r + 1);
    }
}

fn view_left(t: &TreeMap, r: usize, c: usize) -> (d: usize)
    requires
        t.wf(),
        r < t.height,
        c < t.width,
    ensures
        d == dist_left(t, r as int, c as int, c as int),
        d <= c,
{
    let hh = t.rows[r][c];
    let mut x: usize = c;
    let mut d: usize = 0;
    while x > 0
        invariant
            t.wf(),
            r < t.height,
            c < t.width,
            hh == t.rows@[r as int]@[c as int],
            x <= c,
            d == c - x,
            dist_left(t, r as int, c as int, c as int) == d + dist_left(
                t,
                r as int,
                c as int,
                x as int,
            ),
        decreases x,
    {
        if t.rows[r][x - 1] >= hh {
            proof {
                assert(dist_left(t, r as int, c as int, x as int) == 1);
            }
            return d + 1;
        }
        x = x - 1;
        d = d + 1;
    }
    proof {
        assert(dist_left(t, r as int, c as int, 0) == 0);
    }
    d
}

fn view_right(t: &TreeMap, r: usize, c: usize) -> (d: usize)
    requires
        t.wf(),
        r < t.height,
        c < t.width,
    ensures
        d == dist_right(t, r as int, c as int, c as int),
        d <= t.width - 1 - c || c == t.width - 1,
{
    proof {
        lemma_dist_right_bound(t, r as int, c as int, c as int);
    }
    let hh = t.rows[r][c];
    let mut x: usize = c;
    let mut d: usize = 0;
    while x < t.width - 1
        invariant
            t.wf(),
            r < t.height,
            c <= x < t.width,
            hh == t.rows@[r as int]@[c as int],
            d == x - c,
            dist_right(t, r as int, c as int, c as int) == d + dist_right(
                t,
                r as int,
                c as int,
                x as int,
            ),
        decreases t.width - x,
    {
        if t.rows[r][x + 1] >= hh {
            proof {
                assert(dist_right(t, r as int, c as int, x as int) == 1);
            }
            return d + 1;
        }
        x = x + 1;
        d = d + 1;
    }
    proof {
        assert(dist_right(t, r as int, c as int, x as int) == 0);
    }
    d
}

fn view_up(t: &TreeMap, r: usize, c: usize) -> (d: usize)
    requires
        t.wf(),
        r < t.height,
        c < t.width,
    ensures
        d == dist_up(t, r as int, c as int, r as int),
        d <= r,
{
    let hh = t.rows[r][c];
    let mut y: usize = r;
    let mut d: usize = 0;
    while y > 0
        invariant
            t.wf(),
            r < t.height,
            c < t.width,
            hh == t.rows@[r as int]@[c as int],
            y <= r,
            d == r - y,
            dist_up(t, r as int, c as int, r as int) == d + dist_up(
                t,
                r as int,
                c as int,
                y as int,
            ),
        decreases y,
    {
        if t.rows[y - 1][c] >= hh {
            proof {
                assert(dist_up(t, r as int, c as int, y as int) == 1);
            }
            return d + 1;
        }
        y = y - 1;
        d = d + 1;
    }
    proof {
        assert(dist_up(t, r as int, c as int, 0) == 0);
    }
    d
}

fn view_down(t: &TreeMap, r: usize, c: usize) -> (d: usize)
    requires
        t.wf(),
        r < t.height,
        c < t.width,
    ensures
        d == dist_down(t, r as int, c as int, r as int),
        d <= t.height - 1 - r || r == t.height - 1,
{
    proof {
        lemma_dist_down_bound(t, r as int, c as int, r as int);
    }
    let hh = t.rows[r][c];
    let mut y: usize = r;
    let mut d: usize = 0;
    while y < t.height - 1
        invariant
            t.wf(),
            r <= y < t.height,
            c < t.width,
            hh == t.rows@[r as int]@[c as int],
            d == y - r,
            dist_down(t, r as int, c as int, r as int) == d + dist_down(
                t,
                r as int,
                c as int,
                y as int,
            ),
        decreases t.height - y,
    {
        if t.rows[y + 1][c] >= hh {
            proof {
                assert(dist_down(t, r as int, c as int, y as int) == 1);
            }
            return d + 1;
        }
        y = y + 1;
        d = d + 1;
    }
    proof {
        assert(dist_down(t, r as int, c as int, y as int) == 0);
    }
    d
}

/// The best scenic score of the grid. Dimensions are capped so that a
/// score, a product of four viewing distances, always fits in a `u64`.
pub fn part2(input: &TreeMap) -> (r: u64)
    requires
        input.wf(),
        1 <= input.height <= 0xFFFF,
        1 <= input.width <= 0xFFFF,
    ensures
        r == max_score(input, input.height as int),
{
    let mut best: u64 = 0;
    let mut row: usize = 0;
    while row < input.height
        invariant
            input.wf(),
            1 <= input.height <= 0xFFFF,
            1 <= input.width <= 0xFFFF,
            row <= input.height,
            best == max_score(input, row as int),
        decreases input.height - row,
    {
        let mut col: usize = 0;
        while col < input.width
            invariant
                input.wf(),
                1 <= input.height <= 0xFFFF,
                1 <= input.width <= 0xFFFF,
                row < input.height,
                col <= input.width,
                best == max2(max_score(input, row as int), max_score_row(
                    input,
                    row as int,
                    col as int,
                )),
            decreases input.width - col,
        {
            let dl = view_left(input, row, col) as u64;
            let dr = view_right(input, row, col) as u64;
            let du = view_up(input, row, col) as u64;
            let dd = view_down(input, row, col) as u64;
            proof {
                assert(dl < 0x10000 && dr < 0x10000 && du < 0x10000 && dd < 0x10000);
                assert(dl * dr < 0x100000000) by (nonlinear_arith)
                    requires
                        0 <= dl < 0x10000,
                        0 <= dr < 0x10000,
                ;
                assert(du * dd < 0x100000000) by (nonlinear_arith)
                    requires
                        0 <= du < 0x10000,
                        0 <= dd < 0x10000,
                ;
                assert((dl * dr) * (du * dd) < 0x10000000000000000) by (nonlinear_arith)
                    requires
                        0 <= dl * dr < 0x100000000,
                        0 <= du * dd < 0x100000000,
                ;
            }
            let sc = (dl * dr) * (du * dd);
            proof {
                assert(sc == score(input, row as int, col as int)) by (nonlinear_arith)
                    requires
                        sc == (dl * dr) * (du * dd),
                        dl == dist_left(input, row as int, col as int, col as int),
                        dr == dist_right(input, row as int, col as int, col as int),
                        du == dist_up(input, row as int, col as int, row as int),
                        dd == dist_down(input, row as int, col as int, row as int),
                        score(input, row as int, col as int) == dist_left(
                            input,
                            row as int,
                            col as int,
                            col as int,
                        ) * dist_right(input, row as int, col as int, col as int) * dist_up(
                            input,
                            row as int,
                            col as int,
                            row as int,
                        ) * dist_down(input, row as int, col as int, row as int),
                ;
            }
            if sc > best {
                best = sc;
            }
            col = col + 1;
        }
        row = row + 1;
    }
    best
}

} // verus!
