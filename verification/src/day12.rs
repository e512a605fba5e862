//! Elevation-map shortest paths. A `Heightmap` is an immutable rectangular
//! grid of elevations with a distinguished start and end cell, built from
//! text. `search` runs a breadth-first search over the grid's implicit
//! adjacency graph — forward (climb at most one) or reverse (descend at most
//! one) — and is proved to return the exact minimum number of steps to the
//! goal, or `None` when no path exists.

use vstd::prelude::*;
use crate::text::lines_of;
use crate::text::to_lines;

verus! {

/// A grid coordinate; valid for a map when `row < height` and `col < width`.
#[derive(Clone, Copy, Debug, Hash, PartialEq, Eq, Structural)]
pub struct Position {
    pub row: usize,
    pub col: usize,
}

/// Which adjacency rule a search uses: `Forward` may climb at most one unit
/// per step, `Reverse` is the mirrored rule for searching backward from a
/// goal.
#[derive(Clone, Copy, Debug, PartialEq, Eq, Structural)]
pub enum Direction {
    Forward,
    Reverse,
}

/// What a search is looking for: a specific cell, or any cell at the lowest
/// elevation of the domain.
#[derive(Clone, Copy, Debug, PartialEq, Eq, Structural)]
pub enum Goal {
    Reach(Position),
    LowestElevation,
}

/// Construction-time failure: jagged lines, an unrecognized character, or a
/// missing or duplicate marker.
#[derive(Clone, Copy, Debug, PartialEq, Eq, Structural)]
pub struct MalformedInput;

/// An immutable rectangular grid of elevations (row-major), with the two
/// marker cells recorded. Elevations run 0 through 25; the start cell sits at
/// 0 and the end cell at 25.
pub struct Heightmap {
    pub cells: Vec<u8>,
    pub width: usize,
    pub height: usize,
    pub start: Position,
    pub end: Position,
}

/// Two positions are adjacent when they differ by exactly one unit on
/// exactly one axis.
pub open spec fn adjacent(p: Position, q: Position) -> bool {
    ||| (p.row == q.row && p.col + 1 == q.col)
    ||| (p.row == q.row && q.col + 1 == p.col)
    ||| (p.col == q.col && p.row + 1 == q.row)
    ||| (p.col == q.col && q.row + 1 == p.row)
}

/// The opposite adjacency rule.
pub open spec fn flip(dir: Direction) -> Direction {
    match dir {
        Direction::Forward => Direction::Reverse,
        Direction::Reverse => Direction::Forward,
    }
}

impl Heightmap {
    /// The dimensions are consistent with the cell buffer. This is all a
    /// search needs of a map.
    pub open spec fn grid_wf(&self) -> bool {
        &&& self.width >= 1
        &&& self.height >= 1
        &&& self.cells@.len() == self.width * self.height
    }

    pub open spec fn pos_in(&self, p: Position) -> bool {
        p.row < self.height && p.col < self.width
    }

    /// Row-major index of a position.
    pub open spec fn cell(&self, p: Position) -> int {
        p.row * self.width + p.col
    }

    pub open spec fn elev(&self, p: Position) -> int {
        self.cells@[self.cell(p)] as int
    }

    /// Full well-formedness, as construction establishes it: consistent
    /// dimensions, elevations within the domain, and both markers in bounds
    /// at the extreme elevations.
    pub open spec fn wf(&self) -> bool {
        &&& self.grid_wf()
        &&& forall|i: int| 0 <= i < self.cells@.len() ==> self.cells@[i] <= 25
        &&& self.pos_in(self.start)
        &&& self.pos_in(self.end)
        &&& self.elev(self.start) == 0
        &&& self.elev(self.end) == 25
    }

    /// One legal step from `p` to `q` under `dir`: forward steps may climb
    /// at most one unit (descending freely), reverse steps are the mirror.
    pub open spec fn step_ok(&self, dir: Direction, p: Position, q: Position) -> bool {
        &&& self.pos_in(p)
        &&& self.pos_in(q)
        &&& adjacent(p, q)
        &&& match dir {
            Direction::Forward => self.elev(q) <= self.elev(p) + 1,
            Direction::Reverse => self.elev(p) <= self.elev(q) + 1,
        }
    }

    /// There is a path of exactly `n` legal steps from `a` to `b`.
    pub open spec fn reaches(&self, dir: Direction, a: Position, b: Position, n: nat) -> bool
        decreases n,
    {
        if n == 0 {
            a == b
        } else {
            exists|q: Position|
                self.reaches(dir, a, q, (n - 1) as nat) && self.step_ok(dir, q, b)
        }
    }

    pub open spec fn goal_met(&self, goal: Goal, p: Position) -> bool {
        match goal {
            Goal::Reach(t) => p == t,
            Goal::LowestElevation => self.elev(p) == 0,
        }
    }

    /// Some goal-satisfying position lies exactly `n` steps from `from`.
    pub open spec fn goal_within(&self, dir: Direction, from: Position, goal: Goal, n: nat) -> bool {
        exists|p: Position| self.goal_met(goal, p) && self.reaches(dir, from, p, n)
    }

    /// What a search returns: the least step count at which the goal is
    /// met, or `None` when no step count meets it.
    pub open spec fn search_ok(
        &self,
        dir: Direction,
        from: Position,
        goal: Goal,
        r: Option<usize>,
    ) -> bool {
        match r {
            Some(d) => self.goal_within(dir, from, goal, d as nat) && (forall|k: nat|
                k < d ==> !self.goal_within(dir, from, goal, k)),
            None => forall|k: nat| !self.goal_within(dir, from, goal, k),
        }
    }
}

proof fn lemma_cell_in_range(w: int, h: int, r: int, c: int)
    by (nonlinear_arith)
    requires
        0 <= r < h,
        0 <= c < w,
    ensures
        0 <= r * w + c < w * h,
{
}

proof fn lemma_cell_injective(w: int, r1: int, c1: int, r2: int, c2: int)
    by (nonlinear_arith)
    requires
        0 <= c1 < w,
        0 <= c2 < w,
        0 <= r1,
        0 <= r2,
        r1 * w + c1 == r2 * w + c2,
    ensures
        r1 == r2,
        c1 == c2,
{
}

impl Heightmap {
    /// Row-major index of an in-bounds position; always within the buffer.
    fn cell_index(&self, p: Position) -> (i: usize)
        requires
            self.grid_wf(),
            self.pos_in(p),
        ensures
            i == self.cell(p),
            i < self.cells@.len(),
    {
        let n = self.cells.len();
        proof {
            lemma_cell_in_range(self.width as int, self.height as int, p.row as int, p.col as int);
            assert(self.cell(p) < n);
        }
        p.row * self.width + p.col
    }

    fn elevation(&self, p: Position) -> (e: u8)
        requires
            self.grid_wf(),
            self.pos_in(p),
        ensures
            e as int == self.elev(p),
    {
        let i = self.cell_index(p);
        self.cells[i]
    }

    /// The elevation side of `step_ok` (adjacency is the caller's concern).
    fn climb_allowed(&self, dir: Direction, p: Position, q: Position) -> (b: bool)
        requires
            self.grid_wf(),
            self.pos_in(p),
            self.pos_in(q),
        ensures
            b == match dir {
                Direction::Forward => self.elev(q) <= self.elev(p) + 1,
                Direction::Reverse => self.elev(p) <= self.elev(q) + 1,
            },
    {
        let pe = self.elevation(p) as u32;
        let qe = self.elevation(q) as u32;
        match dir {
            Direction::Forward => qe <= pe + 1,
            Direction::Reverse => pe <= qe + 1,
        }
    }
}

/// How many distances have been assigned.
spec fn count_some(dist: Seq<Option<usize>>) -> int
    decreases dist.len(),
{
    if dist.len() == 0 {
        0
    } else {
        count_some(dist.drop_last()) + if dist.last() is Some {
            1int
        } else {
            0int
        }
    }
}

proof fn lemma_count_some_le(dist: Seq<Option<usize>>)
    ensures
        count_some(dist) <= dist.len(),
        count_some(dist) >= 0,
    decreases dist.len(),
{
    if dist.len() > 0 {
        lemma_count_some_le(dist.drop_last());
    }
}

proof fn lemma_count_some_update(dist: Seq<Option<usize>>, k: int, v: Option<usize>)
    requires
        0 <= k < dist.len(),
        dist[k] is None,
        v is Some,
    ensures
        count_some(dist.update(k, v)) == count_some(dist) + 1,
    decreases dist.len(),
{
    let upd = dist.update(k, v);
    if k == dist.len() - 1 {
        assert(upd.drop_last() =~= dist.drop_last());
    } else {
        assert(upd.drop_last() =~= dist.drop_last().update(k, v));
        lemma_count_some_update(dist.drop_last(), k, v);
        assert(upd.last() == dist.last());
    }
}

proof fn lemma_count_some_none(dist: Seq<Option<usize>>)
    requires
        forall|i: int| 0 <= i < dist.len() ==> dist[i] is None,
    ensures
        count_some(dist) == 0,
    decreases dist.len(),
{
    if dist.len() > 0 {
        lemma_count_some_none(dist.drop_last());
    }
}

/// Distance recorded for the queue entry at `j`.
spec fn qd(m: &Heightmap, dist: Seq<Option<usize>>, q: Seq<Position>, j: int) -> int {
    dist[m.cell(q[j])]->Some_0 as int
}

/// The breadth-first search invariant, over the distance table `dist`, the
/// discovery queue `q` (never popped; `i` entries processed), and the fixed
/// source `src`:
/// - a position has a distance exactly when it is in the queue, and queue
///   entries are distinct, in-bounds, and as many as the assigned distances;
/// - soundness: an assigned distance `d` is witnessed by a path of exactly
///   `d` steps from `src`;
/// - distances along the queue are bounded by their index, nondecreasing,
///   and the last is at most one above the entry now being processed;
/// - every successor of a processed entry has a distance at most one above
///   it.
spec fn bfs_inv(
    m: &Heightmap,
    dir: Direction,
    src: Position,
    dist: Seq<Option<usize>>,
    q: Seq<Position>,
    i: int,
) -> bool {
    &&& m.grid_wf()
    &&& dist.len() == m.cells@.len()
    &&& 0 <= i <= q.len()
    &&& q.len() >= 1
    &&& q[0] == src
    &&& m.pos_in(src)
    &&& dist[m.cell(src)] == Some(0usize)
    &&& forall|j: int| 0 <= j < q.len() ==> m.pos_in(#[trigger] q[j])
    &&& forall|j: int| 0 <= j < q.len() ==> dist[m.cell(#[trigger] q[j])] is Some
    &&& forall|j1: int, j2: int| 0 <= j1 < j2 < q.len() ==> q[j1] != q[j2]
    &&& forall|p: Position| m.pos_in(p) && #[trigger] dist[m.cell(p)] is Some ==> q.contains(p)
    &&& q.len() == count_some(dist)
    &&& forall|p: Position|
        m.pos_in(p) && #[trigger] dist[m.cell(p)] is Some ==> m.reaches(
            dir,
            src,
            p,
            dist[m.cell(p)]->Some_0 as nat,
        )
    &&& forall|j: int| 0 <= j < q.len() ==> #[trigger] qd(m, dist, q, j) <= j
    &&& forall|j1: int, j2: int|
        0 <= j1 <= j2 < q.len() ==> #[trigger] qd(m, dist, q, j1) <= #[trigger] qd(m, dist, q, j2)
    &&& (i < q.len() ==> qd(m, dist, q, q.len() - 1) <= qd(m, dist, q, i) + 1)
    &&& forall|j: int, s: Position|
        0 <= j < i && #[trigger] m.step_ok(dir, q[j], s) ==> dist[m.cell(s)] is Some
            && dist[m.cell(s)]->Some_0 <= qd(m, dist, q, j) + 1
}

/// Considers the edge from the queue entry at `i` to its neighbour `np`:
/// if the step is legal and `np` is undiscovered, assigns its distance and
/// enqueues it. Preserves the invariant and leaves every assigned distance
/// unchanged.
fn try_visit(
    m: &Heightmap,
    dir: Direction,
    Ghost(src): Ghost<Position>,
    dist: &mut Vec<Option<usize>>,
    queue: &mut Vec<Position>,
    i: usize,
    np: Position,
) -> (made_step: bool)
    requires
        bfs_inv(m, dir, src, old(dist)@, old(queue)@, i as int),
        i < old(queue)@.len(),
        m.pos_in(np),
        adjacent(old(queue)@[i as int], np),
    ensures
        bfs_inv(m, dir, src, final(dist)@, final(queue)@, i as int),
        old(queue)@.len() <= final(queue)@.len(),
        forall|j: int| 0 <= j < old(queue)@.len() ==> final(queue)@[j] == old(queue)@[j],
        forall|p: Position|
            m.pos_in(p) && #[trigger] old(dist)@[m.cell(p)] is Some ==> final(dist)@[m.cell(p)]
                == old(dist)@[m.cell(p)],
        made_step == m.step_ok(dir, old(queue)@[i as int], np),
        made_step ==> visited_le(m, final(dist)@, final(queue)@, i as int, np),
        forall|s: Position|
            m.pos_in(s) && #[trigger] visited_le(m, old(dist)@, old(queue)@, i as int, s)
                ==> visited_le(m, final(dist)@, final(queue)@, i as int, s),
{
    let p = queue[i];
    let allowed = m.climb_allowed(dir, p, np);
    if !allowed {
        return false;
    }
    let ci = m.cell_index(np);
    let pi = m.cell_index(p);
    assert(m.step_ok(dir, p, np));
    if dist[ci].is_none() {
        let pd = match dist[pi] {
            Some(d) => d,
            None => 0,
        };
        proof {
            assert(dist@[m.cell(p)] is Some);
            assert(pd <= i) by {
                assert(qd(m, dist@, queue@, i as int) <= i);
            }
            lemma_count_some_le(dist@);
        }
        let ghost old_dist = dist@;
        let ghost old_queue = queue@;
        let ql = queue.len();
        proof {
            assert(pd < ql);
        }
        dist[ci] = Some(pd + 1);
        queue.push(np);
        proof {
            lemma_count_some_update(old_dist, ci as int, Some((pd + 1) as usize));
            let newlen = queue@.len();
            assert(queue@[newlen - 1] == np);
            // np was undiscovered, so it is distinct from every old entry.
            assert forall|j: int| 0 <= j < newlen - 1 implies queue@[j] != np by {
                if queue@[j] == np {
                    assert(old_dist[m.cell(old_queue[j])] is Some);
                }
            }
            // Distances of old entries are unchanged; only the cell of np
            // gained a value.
            assert forall|p2: Position|
                m.pos_in(p2) && #[trigger] dist@[m.cell(p2)] is Some implies queue@.contains(
                p2,
            ) by {
                lemma_cell_in_range(m.width as int, m.height as int, p2.row as int, p2.col as int);
                if m.cell(p2) == ci as int {
                    lemma_cell_injective(
                        m.width as int,
                        p2.row as int,
                        p2.col as int,
                        np.row as int,
                        np.col as int,
                    );
                    assert(p2 == np);
                    assert(queue@[newlen - 1] == p2);
                } else {
                    assert(old_dist[m.cell(p2)] is Some);
                    assert(old_queue.contains(p2));
                    let j = choose|j: int| 0 <= j < old_queue.len() && old_queue[j] == p2;
                    assert(queue@[j] == p2);
                }
            }
            // Soundness for the new entry: extend the path to p by one step.
            assert forall|p2: Position|
                m.pos_in(p2) && #[trigger] dist@[m.cell(p2)] is Some implies m.reaches(
                dir,
                src,
                p2,
                dist@[m.cell(p2)]->Some_0 as nat,
            ) by {
                lemma_cell_in_range(m.width as int, m.height as int, p2.row as int, p2.col as int);
                if m.cell(p2) == ci as int {
                    lemma_cell_injective(
                        m.width as int,
                        p2.row as int,
                        p2.col as int,
                        np.row as int,
                        np.col as int,
                    );
                    assert(m.reaches(dir, src, p, pd as nat));
                    assert(m.step_ok(dir, p, p2));
                    assert(m.reaches(dir, src, p2, (pd + 1) as nat));
                } else {
                    assert(old_dist[m.cell(p2)] is Some);
                }
            }
            // Queue-order facts: the new last entry has distance pd + 1,
            // one above the entry being processed, at least every earlier
            // distance, and at most its own index.
            assert(qd(m, dist@, queue@, newlen - 1) == pd + 1);
            assert forall|j: int| 0 <= j < newlen - 1 implies #[trigger] qd(m, dist@, queue@, j) == qd(
                m,
                old_dist,
                old_queue,
                j,
            ) by {
                let pj = old_queue[j];
                lemma_cell_in_range(m.width as int, m.height as int, pj.row as int, pj.col as int);
                assert(old_dist[m.cell(pj)] is Some);
                assert(m.cell(pj) != ci as int);
            }
            assert(qd(m, old_dist, old_queue, old_queue.len() - 1) <= qd(
                m,
                old_dist,
                old_queue,
                i as int,
            ) + 1);
            assert forall|j: int| 0 <= j < newlen - 1 implies #[trigger] qd(m, dist@, queue@, j) <= qd(
                m,
                dist@,
                queue@,
                newlen - 1,
            ) by {
                assert(qd(m, dist@, queue@, j) == qd(m, old_dist, old_queue, j));
                assert(qd(m, old_dist, old_queue, j) <= qd(
                    m,
                    old_dist,
                    old_queue,
                    old_queue.len() - 1,
                ));
            }
            assert forall|p2: Position|
                m.pos_in(p2) && #[trigger] old_dist[m.cell(p2)] is Some implies dist@[m.cell(p2)]
                == old_dist[m.cell(p2)] by {
                lemma_cell_in_range(m.width as int, m.height as int, p2.row as int, p2.col as int);
                assert(m.cell(p2) != ci as int);
            }
            assert(qd(m, dist@, queue@, i as int) == qd(m, old_dist, old_queue, i as int)) by {
                let pi2 = old_queue[i as int];
                lemma_cell_in_range(
                    m.width as int,
                    m.height as int,
                    pi2.row as int,
                    pi2.col as int,
                );
                assert(old_dist[m.cell(pi2)] is Some);
                assert(m.cell(pi2) != ci as int);
            }
        }
        true
    } else {
        proof {
            // Already discovered: its distance is at most one above the
            // entry being processed, by the queue-order facts.
            assert(dist@[m.cell(np)] is Some);
            assert(queue@.contains(np));
            let j = choose|j: int| 0 <= j < queue@.len() && queue@[j] == np;
            assert(qd(m, dist@, queue@, j) <= qd(m, dist@, queue@, queue@.len() - 1));
            assert(qd(m, dist@, queue@, queue@.len() - 1) <= qd(m, dist@, queue@, i as int) + 1);
            assert(dist@[m.cell(np)]->Some_0 == qd(m, dist@, queue@, j));
        }
        true
    }
}

/// After the queue is exhausted, every path from the source is matched or
/// beaten by the recorded distance of its endpoint.
proof fn lemma_bfs_complete(
    m: &Heightmap,
    dir: Direction,
    src: Position,
    dist: Seq<Option<usize>>,
    q: Seq<Position>,
    p: Position,
    n: nat,
)
    requires
        bfs_inv(m, dir, src, dist, q, q.len() as int),
        m.reaches(dir, src, p, n),
    ensures
        m.pos_in(p),
        dist[m.cell(p)] is Some,
        dist[m.cell(p)]->Some_0 <= n,
    decreases n,
{
    if n == 0 {
        assert(p == src);
    } else {
        let mid = choose|mid: Position|
            m.reaches(dir, src, mid, (n - 1) as nat) && m.step_ok(dir, mid, p);
        lemma_bfs_complete(m, dir, src, dist, q, mid, (n - 1) as nat);
        assert(q.contains(mid));
        let j = choose|j: int| 0 <= j < q.len() && q[j] == mid;
        assert(m.step_ok(dir, q[j], p));
        assert(dist[m.cell(p)]->Some_0 <= qd(m, dist, q, j) + 1);
    }
}

/// `s` has been discovered at a distance at most one above the entry at `i`.
spec fn visited_le(
    m: &Heightmap,
    dist: Seq<Option<usize>>,
    q: Seq<Position>,
    i: int,
    s: Position,
) -> bool {
    &&& dist[m.cell(s)] is Some
    &&& dist[m.cell(s)]->Some_0 <= qd(m, dist, q, i) + 1
}

/// The region already examined by the goal scan: rows before `r`, plus the
/// first `c` columns of row `r`.
spec fn scanned(p: Position, r: int, c: int) -> bool {
    p.row < r || (p.row == r && p.col < c)
}

impl Heightmap {
    /// Breadth-first shortest path over the map under the given adjacency
    /// rule: the least number of legal steps from `from` to a position
    /// meeting `goal`, or `None` when no number of steps does.
    pub fn search(&self, from: Position, dir: Direction, goal: Goal) -> (r: Option<usize>)
        requires
            self.grid_wf(),
            self.pos_in(from),
        ensures
            self.search_ok(dir, from, goal, r),
    {
        let m = self;
        let n = m.cells.len();
        let mut dist: Vec<Option<usize>> = Vec::new();
        let mut k: usize = 0;
        while k < n
            invariant
                k <= n,
                dist@.len() == k,
                forall|t: int| 0 <= t < k ==> dist@[t] is None,
            decreases n - k,
        {
            dist.push(None);
            k = k + 1;
        }
        let si = m.cell_index(from);
        proof {
            lemma_count_some_none(dist@);
        }
        let ghost pre_dist = dist@;
        dist[si] = Some(0);
        let mut queue: Vec<Position> = Vec::new();
        queue.push(from);
        proof {
            lemma_count_some_update(pre_dist, si as int, Some(0usize));
            assert forall|p2: Position|
                m.pos_in(p2) && #[trigger] dist@[m.cell(p2)] is Some implies p2 == from by {
                lemma_cell_in_range(m.width as int, m.height as int, p2.row as int, p2.col as int);
                if m.cell(p2) == si as int {
                    lemma_cell_injective(
                        m.width as int,
                        p2.row as int,
                        p2.col as int,
                        from.row as int,
                        from.col as int,
                    );
                } else {
                    assert(pre_dist[m.cell(p2)] is None);
                }
            }
            assert(queue@[0] == from);
            assert(m.reaches(dir, from, from, 0));
            assert(bfs_inv(m, dir, from, dist@, queue@, 0));
        }
        let mut i: usize = 0;
        while i < queue.len()
            invariant
                bfs_inv(m, dir, from, dist@, queue@, i as int),
                i <= queue@.len(),
                n == m.cells@.len(),
            decreases n - i,
        {
            proof {
                lemma_count_some_le(dist@);
            }
            process_entry(m, dir, Ghost(from), &mut dist, &mut queue, i);
            i = i + 1;
        }
        // The queue is exhausted: scan the grid for the nearest position
        // meeting the goal.
        let mut best: Option<usize> = None;
        let mut row: usize = 0;
        while row < m.height
            invariant
                bfs_inv(m, dir, from, dist@, queue@, queue@.len() as int),
                row <= m.height,
                match best {
                    Some(b) => exists|p: Position|
                        m.pos_in(p) && m.goal_met(goal, p) && dist@[m.cell(p)] == Some(b),
                    None => true,
                },
                forall|p: Position|
                    m.pos_in(p) && scanned(p, row as int, 0) && m.goal_met(goal, p)
                        && #[trigger] dist@[m.cell(p)] is Some ==> best is Some
                        && dist@[m.cell(p)]->Some_0 >= best->Some_0,
            decreases m.height - row,
        {
            let mut col: usize = 0;
            while col < m.width
                invariant
                    bfs_inv(m, dir, from, dist@, queue@, queue@.len() as int),
                    row < m.height,
                    col <= m.width,
                    match best {
                        Some(b) => exists|p: Position|
                            m.pos_in(p) && m.goal_met(goal, p) && dist@[m.cell(p)] == Some(b),
                        None => true,
                    },
                    forall|p: Position|
                        m.pos_in(p) && scanned(p, row as int, col as int) && m.goal_met(goal, p)
                            && #[trigger] dist@[m.cell(p)] is Some ==> best is Some
                            && dist@[m.cell(p)]->Some_0 >= best->Some_0,
                decreases m.width - col,
            {
                let p = Position { row, col };
                let met = match goal {
                    Goal::Reach(t) => p == t,
                    Goal::LowestElevation => m.elevation(p) == 0,
                };
                if met {
                    let ci = m.cell_index(p);
                    match dist[ci] {
                        Some(d) => {
                            best = match best {
                                None => Some(d),
                                Some(b) => if d < b {
                                    Some(d)
                                } else {
                                    Some(b)
                                },
                            };
                        },
                        None => {},
                    }
                }
                col = col + 1;
                proof {
                    assert forall|p2: Position|
                        m.pos_in(p2) && scanned(p2, row as int, col as int) && m.goal_met(
                            goal,
                            p2,
                        ) && #[trigger] dist@[m.cell(p2)] is Some implies best is Some
                        && dist@[m.cell(p2)]->Some_0 >= best->Some_0 by {
                        if !scanned(p2, row as int, col - 1) {
                            assert(p2.row == row && p2.col == col - 1);
                            assert(p2 == p);
                        }
                    }
                }
            }
            row = row + 1;
            proof {
                assert forall|p2: Position|
                    m.pos_in(p2) && scanned(p2, row as int, 0) && m.goal_met(goal, p2)
                        && #[trigger] dist@[m.cell(p2)] is Some implies best is Some
                    && dist@[m.cell(p2)]->Some_0 >= best->Some_0 by {
                    assert(scanned(p2, row - 1, m.width as int));
                }
            }
        }
        proof {
            match best {
                Some(b) => {
                    let wit = choose|p: Position|
                        m.pos_in(p) && m.goal_met(goal, p) && dist@[m.cell(p)] == Some(b);
                    assert(m.reaches(dir, from, wit, b as nat));
                    assert(m.goal_within(dir, from, goal, b as nat));
                    assert forall|kk: nat| kk < b implies !m.goal_within(
                        dir,
                        from,
                        goal,
                        kk,
                    ) by {
                        if m.goal_within(dir, from, goal, kk) {
                            let pw = choose|pw: Position|
                                m.goal_met(goal, pw) && m.reaches(dir, from, pw, kk);
                            lemma_bfs_complete(m, dir, from, dist@, queue@, pw, kk);
                            assert(scanned(pw, m.height as int, 0));
                        }
                    }
                },
                None => {
                    assert forall|kk: nat| !m.goal_within(dir, from, goal, kk) by {
                        if m.goal_within(dir, from, goal, kk) {
                            let pw = choose|pw: Position|
                                m.goal_met(goal, pw) && m.reaches(dir, from, pw, kk);
                            lemma_bfs_complete(m, dir, from, dist@, queue@, pw, kk);
                            assert(scanned(pw, m.height as int, 0));
                        }
                    }
                },
            }
        }
        best
    }
}

/// Processes the queue entry at `i`: considers each of its at most four
/// neighbours, discovering any that a legal step reaches for the first time.
#[verifier::rlimit(100)]
#[verifier::spinoff_prover]
fn process_entry(
    m: &Heightmap,
    dir: Direction,
    Ghost(src): Ghost<Position>,
    dist: &mut Vec<Option<usize>>,
    queue: &mut Vec<Position>,
    i: usize,
)
    requires
        bfs_inv(m, dir, src, old(dist)@, old(queue)@, i as int),
        i < old(queue)@.len(),
    ensures
        bfs_inv(m, dir, src, final(dist)@, final(queue)@, i + 1),
{
    let p = queue[i];
    let ghost d0 = dist@;
    let ghost q0 = queue@;
    let mut up_step: bool = false;
    if p.row > 0 {
        up_step = try_visit(
            m,
            dir,
            Ghost(src),
            dist,
            queue,
            i,
            Position { row: p.row - 1, col: p.col },
        );
    }
    let ghost d1 = dist@;
    let ghost q1 = queue@;
    let mut down_step: bool = false;
    if p.row + 1 < m.height {
        down_step = try_visit(
            m,
            dir,
            Ghost(src),
            dist,
            queue,
            i,
            Position { row: p.row + 1, col: p.col },
        );
    }
    let ghost d2 = dist@;
    let ghost q2 = queue@;
    let mut left_step: bool = false;
    if p.col > 0 {
        left_step = try_visit(
            m,
            dir,
            Ghost(src),
            dist,
            queue,
            i,
            Position { row: p.row, col: p.col - 1 },
        );
    }
    let ghost d3 = dist@;
    let ghost q3 = queue@;
    let mut right_step: bool = false;
    if p.col + 1 < m.width {
        right_step = try_visit(
            m,
            dir,
            Ghost(src),
            dist,
            queue,
            i,
            Position { row: p.row, col: p.col + 1 },
        );
    }
    proof {
        // Every legal successor of p is one of the four candidates just
        // considered, so its discovered distance is at most one above p's.
        assert forall|s: Position| #[trigger] m.step_ok(dir, p, s) implies visited_le(
            m,
            dist@,
            queue@,
            i as int,
            s,
        ) by {
            if s.col == p.col && s.row + 1 == p.row {
                let cand = Position { row: (p.row - 1) as usize, col: p.col };
                assert(s == cand);
                assert(up_step == m.step_ok(dir, p, cand));
                assert(visited_le(m, d1, q1, i as int, s));
                assert(visited_le(m, d2, q2, i as int, s));
                assert(visited_le(m, d3, q3, i as int, s));
            } else if s.col == p.col && p.row + 1 == s.row {
                let cand = Position { row: (p.row + 1) as usize, col: p.col };
                assert(s == cand);
                assert(down_step == m.step_ok(dir, p, cand));
                assert(visited_le(m, d2, q2, i as int, s));
                assert(visited_le(m, d3, q3, i as int, s));
            } else if s.row == p.row && s.col + 1 == p.col {
                let cand = Position { row: p.row, col: (p.col - 1) as usize };
                assert(s == cand);
                assert(left_step == m.step_ok(dir, p, cand));
                assert(visited_le(m, d3, q3, i as int, s));
            } else {
                assert(s.row == p.row && p.col + 1 == s.col);
                let cand = Position { row: p.row, col: (p.col + 1) as usize };
                assert(s == cand);
                assert(right_step == m.step_ok(dir, p, cand));
            }
        }
        assert(queue@[i as int] == p);
        assert(bfs_inv(m, dir, src, dist@, queue@, i + 1));
    }
}

/// The absolute difference of two coordinates.
pub open spec fn axis_dist(a: int, b: int) -> int {
    if a >= b {
        a - b
    } else {
        b - a
    }
}

/// The Manhattan distance between two positions.
pub open spec fn manhattan(p: Position, q: Position) -> int {
    axis_dist(p.row as int, q.row as int) + axis_dist(p.col as int, q.col as int)
}

/// Any path of `n` steps covers at least the Manhattan distance between its
/// endpoints: each step moves one unit along one axis.
pub proof fn lemma_reaches_manhattan(
    m: &Heightmap,
    dir: Direction,
    a: Position,
    b: Position,
    n: nat,
)
    requires
        m.reaches(dir, a, b, n),
    ensures
        manhattan(a, b) <= n,
    decreases n,
{
    if n > 0 {
        let q = choose|q: Position|
            m.reaches(dir, a, q, (n - 1) as nat) && m.step_ok(dir, q, b);
        lemma_reaches_manhattan(m, dir, a, q, (n - 1) as nat);
        assert(manhattan(q, b) == 1);
    }
}

/// A successful forward search from `start` to `end` returns at least their
/// Manhattan distance.
pub proof fn lemma_forward_at_least_manhattan(m: &Heightmap, r: Option<usize>, d: usize)
    requires
        m.search_ok(Direction::Forward, m.start, Goal::Reach(m.end), r),
        r == Some(d),
    ensures
        d >= manhattan(m.start, m.end),
{
    let p = choose|p: Position|
        m.goal_met(Goal::Reach(m.end), p) && m.reaches(Direction::Forward, m.start, p, d as nat);
    lemma_reaches_manhattan(m, Direction::Forward, m.start, p, d as nat);
}

/// One legal step, read against the opposite rule, is the same step walked
/// backward.
proof fn lemma_step_flip(m: &Heightmap, dir: Direction, p: Position, q: Position)
    ensures
        m.step_ok(dir, p, q) == m.step_ok(flip(dir), q, p),
{
}

/// A path can equally be unfolded from its first step.
proof fn lemma_reaches_first_step(m: &Heightmap, dir: Direction, a: Position, b: Position, n: nat)
    requires
        n > 0,
    ensures
        m.reaches(dir, a, b, n) == exists|q: Position|
            m.step_ok(dir, a, q) && m.reaches(dir, q, b, (n - 1) as nat),
    decreases n,
{
    if n == 1 {
        assert forall|q: Position|
            m.step_ok(dir, a, q) && m.reaches(dir, q, b, 0) implies m.reaches(dir, a, b, 1) by {
            assert(m.reaches(dir, a, a, 0));
        }
        if m.reaches(dir, a, b, 1) {
            let q = choose|q: Position| m.reaches(dir, a, q, 0) && m.step_ok(dir, q, b);
            assert(m.step_ok(dir, a, b) && m.reaches(dir, b, b, 0));
        }
    } else {
        if m.reaches(dir, a, b, n) {
            let q = choose|q: Position|
                m.reaches(dir, a, q, (n - 1) as nat) && m.step_ok(dir, q, b);
            lemma_reaches_first_step(m, dir, a, q, (n - 1) as nat);
            let w = choose|w: Position|
                m.step_ok(dir, a, w) && m.reaches(dir, w, q, (n - 2) as nat);
            assert(m.reaches(dir, w, b, (n - 1) as nat));
        }
        if exists|q: Position| m.step_ok(dir, a, q) && m.reaches(dir, q, b, (n - 1) as nat) {
            let w = choose|w: Position|
                m.step_ok(dir, a, w) && m.reaches(dir, w, b, (n - 1) as nat);
            let q = choose|q: Position|
                m.reaches(dir, w, q, (n - 2) as nat) && m.step_ok(dir, q, b);
            lemma_reaches_first_step(m, dir, a, q, (n - 1) as nat);
            assert(m.step_ok(dir, a, w) && m.reaches(dir, w, q, (n - 2) as nat));
            assert(m.reaches(dir, a, q, (n - 1) as nat));
        }
    }
}

/// Reversing every edge: a path from `a` to `b` under one rule is a path
/// from `b` to `a` under the opposite rule, step for step. This is what
/// makes the single reverse search from the end cell equivalent to the
/// family of forward searches from every lowest cell.
pub proof fn lemma_reaches_flip(m: &Heightmap, dir: Direction, a: Position, b: Position, n: nat)
    ensures
        m.reaches(dir, a, b, n) == m.reaches(flip(dir), b, a, n),
    decreases n,
{
    if n > 0 {
        lemma_reaches_first_step(m, flip(dir), b, a, n);
        if m.reaches(dir, a, b, n) {
            let q = choose|q: Position|
                m.reaches(dir, a, q, (n - 1) as nat) && m.step_ok(dir, q, b);
            lemma_reaches_flip(m, dir, a, q, (n - 1) as nat);
            lemma_step_flip(m, dir, q, b);
            assert(m.step_ok(flip(dir), b, q) && m.reaches(flip(dir), q, a, (n - 1) as nat));
        }
        if m.reaches(flip(dir), b, a, n) {
            let q = choose|q: Position|
                m.step_ok(flip(dir), b, q) && m.reaches(flip(dir), q, a, (n - 1) as nat);
            lemma_reaches_flip(m, dir, a, q, (n - 1) as nat);
            lemma_step_flip(m, dir, q, b);
            assert(m.reaches(dir, a, q, (n - 1) as nat) && m.step_ok(dir, q, b));
        }
    }
}

/// The reverse multi-source equivalence: a reverse search from `end` for the
/// lowest elevation answers, at every step count, exactly the question "does
/// some lowest cell reach `end` forward in that many steps". Hence its
/// result is the minimum over all forward searches from lowest cells.
pub proof fn lemma_reverse_is_min_forward(m: &Heightmap, r: Option<usize>)
    requires
        m.search_ok(Direction::Reverse, m.end, Goal::LowestElevation, r),
    ensures
        forall|k: nat|
            m.goal_within(Direction::Reverse, m.end, Goal::LowestElevation, k) == exists|
                p: Position,
            | m.elev(p) == 0 && #[trigger] m.reaches(Direction::Forward, p, m.end, k),
        r matches Some(d) ==> (exists|p: Position|
            m.elev(p) == 0 && #[trigger] m.reaches(Direction::Forward, p, m.end, d as nat)),
        r matches Some(d) ==> (forall|p: Position, k: nat|
            k < d && m.elev(p) == 0 ==> !m.reaches(Direction::Forward, p, m.end, k)),
        r is None ==> (forall|p: Position, k: nat|
            m.elev(p) == 0 ==> !m.reaches(Direction::Forward, p, m.end, k)),
{
    assert forall|k: nat|
        m.goal_within(Direction::Reverse, m.end, Goal::LowestElevation, k) == exists|p: Position|
            m.elev(p) == 0 && #[trigger] m.reaches(Direction::Forward, p, m.end, k) by {
        if m.goal_within(Direction::Reverse, m.end, Goal::LowestElevation, k) {
            let p = choose|p: Position|
                m.goal_met(Goal::LowestElevation, p) && m.reaches(Direction::Reverse, m.end, p, k);
            lemma_reaches_flip(m, Direction::Reverse, m.end, p, k);
            assert(m.elev(p) == 0 && m.reaches(Direction::Forward, p, m.end, k));
        }
        if exists|p: Position| m.elev(p) == 0 && #[trigger] m.reaches(Direction::Forward, p, m.end, k) {
            let p = choose|p: Position|
                m.elev(p) == 0 && #[trigger] m.reaches(Direction::Forward, p, m.end, k);
            lemma_reaches_flip(m, Direction::Reverse, m.end, p, k);
            assert(m.goal_met(Goal::LowestElevation, p) && m.reaches(
                Direction::Reverse,
                m.end,
                p,
                k,
            ));
        }
    }
    match r {
        Some(d) => {
            assert forall|p: Position, k: nat|
                k < d && m.elev(p) == 0 implies !m.reaches(Direction::Forward, p, m.end, k) by {
                if m.reaches(Direction::Forward, p, m.end, k) {
                    assert(exists|p2: Position|
                        m.elev(p2) == 0 && #[trigger] m.reaches(Direction::Forward, p2, m.end, k));
                    assert(m.goal_within(Direction::Reverse, m.end, Goal::LowestElevation, k));
                }
            }
        },
        None => {
            assert forall|p: Position, k: nat|
                m.elev(p) == 0 implies !m.reaches(Direction::Forward, p, m.end, k) by {
                if m.reaches(Direction::Forward, p, m.end, k) {
                    assert(exists|p2: Position|
                        m.elev(p2) == 0 && #[trigger] m.reaches(Direction::Forward, p2, m.end, k));
                    assert(m.goal_within(Direction::Reverse, m.end, Goal::LowestElevation, k));
                }
            }
        },
    }
}

/// The search contract pins its result down: any two results that satisfy
/// it are equal. The returned distance therefore does not depend on the
/// order in which neighbours are expanded, and an unchanged map answers the
/// same query identically every time.
pub proof fn lemma_search_deterministic(
    m: &Heightmap,
    dir: Direction,
    from: Position,
    goal: Goal,
    r1: Option<usize>,
    r2: Option<usize>,
)
    requires
        m.search_ok(dir, from, goal, r1),
        m.search_ok(dir, from, goal, r2),
    ensures
        r1 == r2,
{
    match (r1, r2) {
        (Some(d1), Some(d2)) => {
            if d1 < d2 {
                assert(!m.goal_within(dir, from, goal, d1 as nat));
            } else if d2 < d1 {
                assert(!m.goal_within(dir, from, goal, d2 as nat));
            }
        },
        (Some(d1), None) => {
            assert(m.goal_within(dir, from, goal, d1 as nat));
        },
        (None, Some(d2)) => {
            assert(m.goal_within(dir, from, goal, d2 as nat));
        },
        (None, None) => {},
    }
}

impl Heightmap {
    /// The canonical forward query: fewest steps from the start marker to
    /// the end marker, or `None` when the end cannot be reached.
    pub fn part1(&self) -> (r: Option<usize>)
        requires
            self.grid_wf(),
            self.pos_in(self.start),
        ensures
            self.search_ok(Direction::Forward, self.start, Goal::Reach(self.end), r),
    {
        self.search(self.start, Direction::Forward, Goal::Reach(self.end))
    }

    /// The nearest-qualifying-source query, run as a single reverse search
    /// from the end marker: fewest steps from any lowest-elevation cell to
    /// the end, or `None` when no lowest cell reaches it.
    pub fn part2(&self) -> (r: Option<usize>)
        requires
            self.grid_wf(),
            self.pos_in(self.end),
        ensures
            self.search_ok(Direction::Reverse, self.end, Goal::LowestElevation, r),
    {
        self.search(self.end, Direction::Reverse, Goal::LowestElevation)
    }
}

/// The characters a grid cell may hold: the elevation alphabet plus the two
/// markers.
pub open spec fn valid_cell_char(c: char) -> bool {
    c == 'S' || c == 'E' || (97 <= c as u32 && c as u32 <= 122)
}

/// The elevation a character denotes: letters map onto 0 through 25, the
/// start marker onto the minimum, the end marker onto the maximum.
pub open spec fn char_elev(c: char) -> int {
    if c == 'S' {
        0
    } else if c == 'E' {
        25
    } else {
        c as u32 - 97
    }
}

/// Occurrences of `c` in `s`.
pub open spec fn count_in(s: Seq<char>, c: char) -> int
    decreases s.len(),
{
    if s.len() == 0 {
        0
    } else {
        count_in(s.drop_last(), c) + if s.last() == c {
            1int
        } else {
            0int
        }
    }
}

/// Occurrences of `c` over all lines.
pub open spec fn count_grid(ls: Seq<Seq<char>>, c: char) -> int
    decreases ls.len(),
{
    if ls.len() == 0 {
        0
    } else {
        count_grid(ls.drop_last(), c) + count_in(ls.last(), c)
    }
}

/// Well-formed input: non-empty lines of one common length, drawn from the
/// cell alphabet, with exactly one start marker and exactly one end marker.
pub open spec fn valid_input(s: Seq<char>) -> bool {
    let ls = lines_of(s);
    &&& ls[0].len() >= 1
    &&& forall|i: int| 0 <= i < ls.len() ==> #[trigger] ls[i].len() == ls[0].len()
    &&& forall|i: int, j: int|
        0 <= i < ls.len() && 0 <= j < ls[0].len() ==> valid_cell_char(#[trigger] ls[i][j])
    &&& count_grid(ls, 'S') == 1
    &&& count_grid(ls, 'E') == 1
}

proof fn lemma_invalid_char(s: Seq<char>, i: int, j: int)
    requires
        0 <= i < lines_of(s).len(),
        0 <= j < lines_of(s)[0].len(),
        !valid_cell_char(lines_of(s)[i][j]),
    ensures
        !valid_input(s),
{
    if valid_input(s) {
        assert(valid_cell_char(lines_of(s)[i][j]));
    }
}

proof fn lemma_jagged_line(s: Seq<char>, i: int)
    requires
        0 <= i < lines_of(s).len(),
        lines_of(s)[i].len() != lines_of(s)[0].len(),
    ensures
        !valid_input(s),
{
    if valid_input(s) {
        assert(lines_of(s)[i].len() == lines_of(s)[0].len());
    }
}

/// Builds a `Heightmap` from input text; fails with `MalformedInput` exactly
/// on inputs that `valid_input` rejects (jagged or empty lines, a character
/// outside the alphabet, a missing or duplicate marker). On success the grid
/// holds, cell for cell, the elevations the text denotes, and the markers'
/// positions are recorded.
#[verifier::rlimit(60)]
pub fn parse(input: &str) -> (r: Result<Heightmap, MalformedInput>)
    ensures
        r is Ok <==> valid_input(input@),
        r matches Ok(hm) ==> ({
            let ls = lines_of(input@);
            &&& hm.wf()
            &&& hm.height == ls.len()
            &&& hm.width == ls[0].len()
            &&& forall|p: Position|
                hm.pos_in(p) ==> hm.elev(p) == char_elev(ls[p.row as int][p.col as int])
            &&& ls[hm.start.row as int][hm.start.col as int] == 'S'
            &&& ls[hm.end.row as int][hm.end.col as int] == 'E'
        }),
{
    let ghost ls = lines_of(input@);
    proof {
        if input@.len() > 0 && input@[input@.len() - 1] == '\n' {
            crate::text::lemma_split_on_nonempty(input@.drop_last(), '\n');
        } else {
            crate::text::lemma_split_on_nonempty(input@, '\n');
        }
    }
    let lines = to_lines(input);
    let h = lines.len();
    let w = lines[0].len();
    if w == 0 {
        return Err(MalformedInput);
    }
    let mut cells: Vec<u8> = Vec::new();
    let mut scount: usize = 0;
    let mut ecount: usize = 0;
    let mut start = Position { row: 0, col: 0 };
    let mut end = Position { row: 0, col: 0 };
    let mut r: usize = 0;
    while r < h
        invariant
            ls == lines_of(input@),
            h == ls.len(),
            lines@.len() == h,
            forall|i: int| 0 <= i < h ==> #[trigger] lines@[i]@ == ls[i],
            1 <= w == ls[0].len(),
            r <= h,
            forall|i: int| 0 <= i < r ==> #[trigger] ls[i].len() == w,
            cells@.len() == r * w,
            forall|i: int, j: int|
                0 <= i < r && 0 <= j < w ==> #[trigger] cells@[i * w + j] == char_elev(ls[i][j]),
            forall|i: int, j: int|
                0 <= i < r && 0 <= j < w ==> valid_cell_char(#[trigger] ls[i][j]),
            forall|k: int| 0 <= k < cells@.len() ==> #[trigger] cells@[k] <= 25,
            scount == count_grid(ls.take(r as int), 'S'),
            ecount == count_grid(ls.take(r as int), 'E'),
            scount <= cells@.len(),
            ecount <= cells@.len(),
            scount >= 1 ==> start.row < h && start.col < w && ls[start.row as int][start.col as int]
                == 'S',
            ecount >= 1 ==> end.row < h && end.col < w && ls[end.row as int][end.col as int]
                == 'E',
        decreases h - r,
    {
        let line = &lines[r];
        if line.len() != w {
            proof {
                assert(ls[r as int].len() != ls[0].len());
                lemma_jagged_line(input@, r as int);
            }
            return Err(MalformedInput);
        }
        let mut c: usize = 0;
        while c < w
            invariant
                ls == lines_of(input@),
                h == ls.len(),
                lines@.len() == h,
                forall|i: int| 0 <= i < h ==> #[trigger] lines@[i]@ == ls[i],
                1 <= w == ls[0].len(),
                r < h,
                ls[r as int].len() == w,
                line@ == ls[r as int],
                c <= w,
                forall|i: int| 0 <= i < r ==> #[trigger] ls[i].len() == w,
                cells@.len() == r * w + c,
                forall|i: int, j: int|
                    0 <= i < r && 0 <= j < w ==> #[trigger] cells@[i * w + j] == char_elev(
                        ls[i][j],
                    ),
                forall|j: int|
                    0 <= j < c ==> #[trigger] cells@[r * w + j] == char_elev(ls[r as int][j]),
                forall|i: int, j: int|
                    0 <= i < r && 0 <= j < w ==> valid_cell_char(#[trigger] ls[i][j]),
                forall|j: int| 0 <= j < c ==> valid_cell_char(#[trigger] ls[r as int][j]),
                forall|k: int| 0 <= k < cells@.len() ==> #[trigger] cells@[k] <= 25,
                scount == count_grid(ls.take(r as int), 'S') + count_in(
                    ls[r as int].take(c as int),
                    'S',
                ),
                ecount == count_grid(ls.take(r as int), 'E') + count_in(
                    ls[r as int].take(c as int),
                    'E',
                ),
                scount <= cells@.len(),
                ecount <= cells@.len(),
                scount >= 1 ==> start.row < h && start.col < w && ls[start.row as int][start.col as int]
                    == 'S',
                ecount >= 1 ==> end.row < h && end.col < w && ls[end.row as int][end.col as int]
                    == 'E',
            decreases w - c,
        {
            let ch = line[c];
            let u = ch as u32;
            let ghost pre_cells = cells@;
            let ghost pre_row = ls[r as int].take(c as int);
            if ch == 'S' {
                cells.push(0);
                let l = cells.len();
                proof {
                    assert(scount < l);
                }
                scount = scount + 1;
                start = Position { row: r, col: c };
            } else if ch == 'E' {
                cells.push(25);
                let l = cells.len();
                proof {
                    assert(ecount < l);
                }
                ecount = ecount + 1;
                end = Position { row: r, col: c };
            } else if u >= 97 && u <= 122 {
                cells.push((u - 97) as u8);
            } else {
                proof {
                    assert(!valid_cell_char(ls[r as int][c as int]));
                    lemma_invalid_char(input@, r as int, c as int);
                }
                return Err(MalformedInput);
            }
            c = c + 1;
            proof {
                let row = ls[r as int];
                assert(row.take(c as int).drop_last() =~= pre_row);
                assert(row.take(c as int).last() == row[c - 1]);
                assert(cells@ =~= pre_cells.push(cells@.last()));
                assert(cells@[r * w + (c - 1)] == char_elev(ls[r as int][c - 1]));
                assert forall|i: int, j: int| 0 <= i < r && 0 <= j < w implies #[trigger] cells@[i
                    * w + j] == char_elev(ls[i][j]) by {
                    lemma_cell_in_range(w as int, r as int, i, j);
                    assert((w as int) * (r as int) == (r as int) * (w as int)) by (nonlinear_arith);
                    assert(i * w + j < pre_cells.len());
                    assert(pre_cells[i * w + j] == char_elev(ls[i][j]));
                }
            }
        }
        r = r + 1;
        proof {
            assert(ls[r - 1].take(w as int) =~= ls[r - 1]);
            assert(ls.take(r as int).drop_last() =~= ls.take(r - 1));
            assert(ls.take(r as int).last() == ls[r - 1]);
            assert(cells@.len() == (r - 1) * w + w == r * w) by (nonlinear_arith)
                requires
                    cells@.len() == (r - 1) * w + w,
            ;
            assert forall|i: int, j: int| 0 <= i < r && 0 <= j < w implies #[trigger] cells@[i * w
                + j] == char_elev(ls[i][j]) by {
                lemma_cell_in_range(w as int, r as int, i, j);
                assert((w as int) * (r as int) == (r as int) * (w as int)) by (nonlinear_arith);
                if i == r - 1 {
                    assert(cells@[(r - 1) * w + j] == char_elev(ls[r - 1][j]));
                }
            }
        }
    }
    proof {
        assert(ls.take(h as int) =~= ls);
    }
    if scount != 1 || ecount != 1 {
        return Err(MalformedInput);
    }
    let hm = Heightmap { cells, width: w, height: h, start, end };
    proof {
        assert(valid_input(input@));
        assert(hm.cells@.len() == hm.width * hm.height) by (nonlinear_arith)
            requires
                hm.cells@.len() == hm.height * hm.width,
        ;
        lemma_cell_in_range(w as int, h as int, start.row as int, start.col as int);
        lemma_cell_in_range(w as int, h as int, end.row as int, end.col as int);
        assert(hm.elev(hm.start) == char_elev('S'));
        assert(hm.elev(hm.end) == char_elev('E'));
        assert forall|p: Position| hm.pos_in(p) implies hm.elev(p) == char_elev(
            ls[p.row as int][p.col as int],
        ) by {
            lemma_cell_in_range(w as int, h as int, p.row as int, p.col as int);
            assert(cells@[p.row as int * w + p.col as int] == char_elev(
                ls[p.row as int][p.col as int],
            ));
        }
        assert(hm.wf());
    }
    Ok(hm)
}

} // verus!
