//! Rope physics: a head knot walks a list of moves one unit at a time, and
//! each following knot drags behind its predecessor, staying within one
//! unit of it. The puzzle counts the distinct positions the last knot
//! visits.

use vstd::prelude::*;
use crate::text::lines_of;
use crate::text::to_lines;
use crate::text::split_on;
use crate::text::split_chars;
use crate::text::is_digits;
use crate::text::digits_val;
use crate::text::parse_u64;

verus! {

/// One move order: a direction and a (non-negative) number of unit steps.
pub enum Instruction {
    Up(i32),
    Down(i32),
    Left(i32),
    Right(i32),
}

/// The head knot of the rope.
pub struct Head(pub (i32, i32));

/// A following knot of the rope.
pub struct Knot(pub (i32, i32));

/// A coordinate pair as mathematical integers.
pub open spec fn pv(p: (i32, i32)) -> (int, int) {
    (p.0 as int, p.1 as int)
}

pub open spec fn steps(i: Instruction) -> int {
    match i {
        Instruction::Up(s) => s as int,
        Instruction::Down(s) => s as int,
        Instruction::Left(s) => s as int,
        Instruction::Right(s) => s as int,
    }
}

/// The unit displacement of one step of the instruction.
pub open spec fn delta(i: Instruction) -> (int, int) {
    match i {
        Instruction::Up(_) => (0, 1),
        Instruction::Down(_) => (0, -1),
        Instruction::Left(_) => (-1, 0),
        Instruction::Right(_) => (1, 0),
    }
}

pub open spec fn sgn(x: int) -> int {
    if x > 0 {
        1
    } else if x < 0 {
        -1
    } else {
        0
    }
}

/// Where a knot at `t` ends up after its predecessor moved to `h`: it stays
/// put while touching (within one unit on both axes), otherwise it moves one
/// unit toward `h` on each axis that differs.
pub open spec fn follow_spec(t: (int, int), h: (int, int)) -> (int, int) {
    let dx = h.0 - t.0;
    let dy = h.1 - t.1;
    if -1 <= dx <= 1 && -1 <= dy <= 1 {
        t
    } else {
        (t.0 + sgn(dx), t.1 + sgn(dy))
    }
}

/// All knots after one unit step of the head: each follows the one before
/// it, in order, seeing its predecessor's already-updated position.
pub open spec fn follow_chain(prev: (int, int), knots: Seq<(int, int)>) -> Seq<(int, int)>
    decreases knots.len(),
{
    if knots.len() == 0 {
        Seq::empty()
    } else {
        let k0 = follow_spec(knots[0], prev);
        seq![k0] + follow_chain(k0, knots.drop_first())
    }
}

/// Rebuilds an instruction with a new step count.
pub open spec fn with_steps(i: Instruction, s: int) -> Instruction {
    match i {
        Instruction::Up(_) => Instruction::Up(s as i32),
        Instruction::Down(_) => Instruction::Down(s as i32),
        Instruction::Left(_) => Instruction::Left(s as i32),
        Instruction::Right(_) => Instruction::Right(s as i32),
    }
}

/// The positions of the last knot after each unit step of the whole walk.
pub open spec fn tail_trail(
    head: (int, int),
    knots: Seq<(int, int)>,
    instrs: Seq<Instruction>,
) -> Seq<(int, int)>
    decreases instrs.len(), (if instrs.len() > 0 && steps(instrs[0]) > 0 {
        steps(instrs[0])
    } else {
        0
    }),
{
    if instrs.len() == 0 {
        Seq::empty()
    } else if steps(instrs[0]) <= 0 {
        tail_trail(head, knots, instrs.drop_first())
    } else {
        let d = delta(instrs[0]);
        let h2 = (head.0 + d.0, head.1 + d.1);
        let knots2 = follow_chain(h2, knots);
        seq![knots2.last()] + tail_trail(
            h2,
            knots2,
            instrs.update(0, with_steps(instrs[0], steps(instrs[0]) - 1)),
        )
    }
}

/// How many distinct positions a sequence visits.
pub open spec fn distinct_count(s: Seq<(int, int)>) -> int
    decreases s.len(),
{
    if s.len() == 0 {
        0
    } else {
        distinct_count(s.drop_last()) + if s.drop_last().contains(s.last()) {
            0int
        } else {
            1int
        }
    }
}

impl Head {
    /// Walks the instruction one unit at a time, returning each position the
    /// head passes through, in order; the head ends at the last of them.
    pub fn apply_instruction(&mut self, instr: &Instruction) -> (trail: Vec<(i32, i32)>)
        requires
            steps(*instr) >= 0,
            i32::MIN <= old(self).0.0 + steps(*instr) * delta(*instr).0 <= i32::MAX,
            i32::MIN <= old(self).0.1 + steps(*instr) * delta(*instr).1 <= i32::MAX,
        ensures
            trail@.len() == steps(*instr),
            forall|k: int|
                0 <= k < trail@.len() ==> pv(#[trigger] trail@[k]) == (
                old(self).0.0 + (k + 1) * delta(*instr).0,
                old(self).0.1 + (k + 1) * delta(*instr).1,
                ),
            pv(final(self).0) == (
                old(self).0.0 + steps(*instr) * delta(*instr).0,
                old(self).0.1 + steps(*instr) * delta(*instr).1,
            ),
    {
        let ghost start = pv(self.0);
        let ghost d = delta(*instr);
        let ghost n = steps(*instr);
        let (dx, dy, s): (i32, i32, i32) = match *instr {
            Instruction::Up(s) => (0, 1, s),
            Instruction::Down(s) => (0, -1, s),
            Instruction::Left(s) => (-1, 0, s),
            Instruction::Right(s) => (1, 0, s),
        };
        let mut trail: Vec<(i32, i32)> = Vec::new();
        let mut k: i32 = 0;
        while k < s
            invariant
                start == pv(old(self).0),
                d == delta(*instr),
                n == steps(*instr),
                s == n,
                d.0 == dx as int && d.1 == dy as int,
                i32::MIN <= start.0 + n * d.0 <= i32::MAX,
                i32::MIN <= start.1 + n * d.1 <= i32::MAX,
                0 <= k <= s,
                trail@.len() == k,
                pv(self.0) == (start.0 + k * d.0, start.1 + k * d.1),
                forall|j: int|
                    0 <= j < k ==> pv(#[trigger] trail@[j]) == (
                    start.0 + (j + 1) * d.0,
                    start.1 + (j + 1) * d.1,
                    ),
            decreases s - k,
        {
            proof {
                // The next position lies between the start and the end of
                // the walk, so it stays within bounds.
                assert((k + 1) * d.0 == k * d.0 + d.0) by (nonlinear_arith);
                assert((k + 1) * d.1 == k * d.1 + d.1) by (nonlinear_arith);
                assert(0 <= k * d.0 <= n * d.0 || 0 >= k * d.0 >= n * d.0) by (nonlinear_arith)
                    requires
                        0 <= k < n,
                        -1 <= d.0 <= 1,
                ;
                assert(0 <= (k + 1) * d.0 <= n * d.0 || 0 >= (k + 1) * d.0 >= n * d.0)
                    by (nonlinear_arith)
                    requires
                        0 <= k < n,
                        -1 <= d.0 <= 1,
                ;
                assert(0 <= (k + 1) * d.1 <= n * d.1 || 0 >= (k + 1) * d.1 >= n * d.1)
                    by (nonlinear_arith)
                    requires
                        0 <= k < n,
                        -1 <= d.1 <= 1,
                ;
            }
            let nx = self.0.0 + dx;
            let ny = self.0.1 + dy;
            self.0 = (nx, ny);
            trail.push((nx, ny));
            k = k + 1;
        }
        trail
    }
}

impl Knot {
    /// One drag step: exactly `follow_spec` of the old position and the
    /// predecessor's position.
    pub fn follow(&mut self, head: (i32, i32))
        requires
            i32::MIN <= head.0 - old(self).0.0 <= i32::MAX,
            i32::MIN <= head.1 - old(self).0.1 <= i32::MAX,
        ensures
            pv(final(self).0) == follow_spec(pv(old(self).0), pv(head)),
    {
        let dx = head.0 - self.0.0;
        let dy = head.1 - self.0.1;
        if -1 <= dx && dx <= 1 && -1 <= dy && dy <= 1 {
            return ;
        }
        if dx >= 2 {
            self.0.0 = self.0.0 + 1;
            if dy >= 1 {
                self.0.1 = self.0.1 + 1;
            } else if dy <= -1 {
                self.0.1 = self.0.1 - 1;
            }
        } else if dx <= -2 {
            self.0.0 = self.0.0 - 1;
            if dy >= 1 {
                self.0.1 = self.0.1 + 1;
            } else if dy <= -1 {
                self.0.1 = self.0.1 - 1;
            }
        } else if dy >= 2 {
            self.0.1 = self.0.1 + 1;
            if dx >= 1 {
                self.0.0 = self.0.0 + 1;
            } else if dx <= -1 {
                self.0.0 = self.0.0 - 1;
            }
        } else if dy <= -2 {
            self.0.1 = self.0.1 - 1;
            if dx >= 1 {
                self.0.0 = self.0.0 + 1;
            } else if dx <= -1 {
                self.0.0 = self.0.0 - 1;
            }
        }
    }
}

/// What one input line denotes: a direction letter, a space, and a step
/// count of at most nine digits (such a count always fits in an `i32`).
pub open spec fn instr_of_line(s: Seq<char>) -> Option<Instruction> {
    let toks = split_on(s, ' ');
    if toks.len() >= 2 && toks[0].len() == 1 && is_digits(toks[1]) && toks[1].len() <= 9 && (
    toks[0][0] == 'U' || toks[0][0] == 'D' || toks[0][0] == 'L' || toks[0][0] == 'R') {
        let n = digits_val(toks[1]) as i32;
        if toks[0][0] == 'U' {
            Some(Instruction::Up(n))
        } else if toks[0][0] == 'D' {
            Some(Instruction::Down(n))
        } else if toks[0][0] == 'L' {
            Some(Instruction::Left(n))
        } else {
            Some(Instruction::Right(n))
        }
    } else {
        None
    }
}

/// Parses the move list, one instruction per line.
pub fn parse(input: &str) -> (r: Option<Vec<Instruction>>)
    ensures
        ({
            let ls = lines_of(input@);
            match r {
                Some(v) => v@.len() == ls.len() && forall|i: int|
                    0 <= i < ls.len() ==> instr_of_line(#[trigger] ls[i]) == Some(v@[i]),
                None => exists|i: int| 0 <= i < ls.len() && instr_of_line(#[trigger] ls[i]) is None,
            }
        }),
{
    let ghost ls = lines_of(input@);
    let lines = to_lines(input);
    let mut out: Vec<Instruction> = Vec::new();
    let mut i: usize = 0;
    while i < lines.len()
        invariant
            ls == lines_of(input@),
            lines@.len() == ls.len(),
            forall|j: int| 0 <= j < ls.len() ==> #[trigger] lines@[j]@ == ls[j],
            i <= ls.len(),
            out@.len() == i,
            forall|j: int| 0 <= j < i ==> instr_of_line(#[trigger] ls[j]) == Some(out@[j]),
        decreases ls.len() - i,
    {
        let toks = split_chars(&lines[i], ' ');
        if toks.len() < 2 {
            return None;
        }
        let dir = &toks[0];
        if dir.len() != 1 {
            return None;
        }
        let d = dir[0];
        if d != 'U' && d != 'D' && d != 'L' && d != 'R' {
            return None;
        }
        let num = &toks[1];
        if num.len() > 9 {
            return None;
        }
        let n64 = match parse_u64(num) {
            Some(x) => x,
            None => {
                return None;
            },
        };
        proof {
            crate::text::lemma_digits_val_bound(num@);
            crate::text::lemma_pow10_mono(num@.len(), 9);
            assert(crate::text::pow10(9) == 1_000_000_000) by {
                reveal_with_fuel(crate::text::pow10, 10);
            }
        }
        let n = n64 as i32;
        let inst = if d == 'U' {
            Instruction::Up(n)
        } else if d == 'D' {
            Instruction::Down(n)
        } else if d == 'L' {
            Instruction::Left(n)
        } else {
            Instruction::Right(n)
        };
        out.push(inst);
        i = i + 1;
    }
    Some(out)
}

/// Every step count is non-negative, as parsing guarantees.
pub open spec fn nonneg_steps(instrs: Seq<Instruction>) -> bool {
    forall|i: int| 0 <= i < instrs.len() ==> steps(#[trigger] instrs[i]) >= 0
}

pub open spec fn fits_i32(p: (int, int)) -> bool {
    &&& i32::MIN <= p.0 <= i32::MAX
    &&& i32::MIN <= p.1 <= i32::MAX
}

/// Every position the head passes through fits in `i32` coordinates.
pub open spec fn walk_fits(head: (int, int), instrs: Seq<Instruction>) -> bool
    decreases instrs.len(), (if instrs.len() > 0 && steps(instrs[0]) > 0 {
        steps(instrs[0])
    } else {
        0
    }),
{
    if instrs.len() == 0 {
        true
    } else if steps(instrs[0]) <= 0 {
        walk_fits(head, instrs.drop_first())
    } else {
        let d = delta(instrs[0]);
        let h2 = (head.0 + d.0, head.1 + d.1);
        &&& fits_i32(h2)
        &&& walk_fits(h2, instrs.update(0, with_steps(instrs[0], steps(instrs[0]) - 1)))
    }
}

/// The positions of a vector of coordinate pairs, as integers.
pub open spec fn views(s: Seq<(i32, i32)>) -> Seq<(int, int)> {
    Seq::new(s.len(), |j: int| pv(s[j]))
}

/// Chebyshev adjacency of the whole chain: each knot within one unit of its
/// predecessor, the first within one unit of `head`.
pub open spec fn chain_close(head: (int, int), ks: Seq<(int, int)>) -> bool {
    forall|j: int|
        0 <= j < ks.len() ==> ({
            let prev = if j == 0 {
                head
            } else {
                ks[j - 1]
            };
            -1 <= #[trigger] ks[j].0 - prev.0 <= 1 && -1 <= ks[j].1 - prev.1 <= 1
        })
}

/// Each element of `follow_chain` follows its predecessor's updated
/// position.
proof fn lemma_follow_chain_index(prev: (int, int), ks: Seq<(int, int)>, t: int)
    requires
        0 <= t < ks.len(),
    ensures
        follow_chain(prev, ks).len() == ks.len(),
        follow_chain(prev, ks)[t] == follow_spec(
            ks[t],
            if t == 0 {
                prev
            } else {
                follow_chain(prev, ks)[t - 1]
            },
        ),
    decreases t,
{
    lemma_follow_chain_len(prev, ks);
    let k0 = follow_spec(ks[0], prev);
    if t > 0 {
        lemma_follow_chain_index(k0, ks.drop_first(), t - 1);
        if t > 1 {
            lemma_follow_chain_index(k0, ks.drop_first(), t - 2);
        }
    }
}

proof fn lemma_follow_chain_len(prev: (int, int), ks: Seq<(int, int)>)
    ensures
        follow_chain(prev, ks).len() == ks.len(),
    decreases ks.len(),
{
    if ks.len() > 0 {
        lemma_follow_chain_len(follow_spec(ks[0], prev), ks.drop_first());
    }
}

/// One head step keeps the chain adjacent, and no knot moves more than one
/// unit on either axis.
proof fn lemma_chain_step(h1: (int, int), h2: (int, int), ks: Seq<(int, int)>)
    requires
        chain_close(h1, ks),
        -1 <= h2.0 - h1.0 <= 1,
        -1 <= h2.1 - h1.1 <= 1,
    ensures
        follow_chain(h2, ks).len() == ks.len(),
        chain_close(h2, follow_chain(h2, ks)),
        forall|t: int|
            0 <= t < ks.len() ==> -1 <= #[trigger] follow_chain(h2, ks)[t].0 - ks[t].0 <= 1 && -1
                <= follow_chain(h2, ks)[t].1 - ks[t].1 <= 1,
    decreases ks.len(),
{
    lemma_follow_chain_len(h2, ks);
    if ks.len() > 0 {
        let k0 = follow_spec(ks[0], h2);
        let rest = ks.drop_first();
        assert(chain_close(ks[0], rest)) by {
            assert forall|j: int| 0 <= j < rest.len() implies ({
                let prev = if j == 0 {
                    ks[0]
                } else {
                    rest[j - 1]
                };
                -1 <= #[trigger] rest[j].0 - prev.0 <= 1 && -1 <= rest[j].1 - prev.1 <= 1
            }) by {
                assert(rest[j] == ks[j + 1]);
                if j > 0 {
                    assert(rest[j - 1] == ks[j]);
                }
            }
        }
        lemma_chain_step(ks[0], k0, rest);
        let chain = follow_chain(h2, ks);
        assert(chain == seq![k0] + follow_chain(k0, rest));
        assert forall|j: int| 0 <= j < chain.len() implies ({
            let prev = if j == 0 {
                h2
            } else {
                chain[j - 1]
            };
            -1 <= #[trigger] chain[j].0 - prev.0 <= 1 && -1 <= chain[j].1 - prev.1 <= 1
        }) by {
            if j == 0 {
            } else {
                assert(chain[j] == follow_chain(k0, rest)[j - 1]);
                if j > 1 {
                    assert(chain[j - 1] == follow_chain(k0, rest)[j - 2]);
                }
            }
        }
        assert forall|t: int| 0 <= t < ks.len() implies -1 <= #[trigger] chain[t].0 - ks[t].0 <= 1
            && -1 <= chain[t].1 - ks[t].1 <= 1 by {
            if t == 0 {
            } else {
                assert(chain[t] == follow_chain(k0, rest)[t - 1]);
                assert(rest[t - 1] == ks[t]);
            }
        }
    }
}

/// Whether the position is already among those seen.
fn seen(v: &Vec<(i32, i32)>, p: (i32, i32)) -> (r: bool)
    ensures
        r == views(v@).contains(pv(p)),
{
    let mut t: usize = 0;
    while t < v.len()
        invariant
            t <= v@.len(),
            forall|u: int| 0 <= u < t ==> #[trigger] views(v@)[u] != pv(p),
        decreases v@.len() - t,
    {
        let q = v[t];
        if q.0 == p.0 && q.1 == p.1 {
            proof {
                assert(views(v@)[t as int] == pv(p));
            }
            return true;
        }
        t = t + 1;
    }
    proof {
        if views(v@).contains(pv(p)) {
            let w = choose|u: int| 0 <= u < views(v@).len() && views(v@)[u] == pv(p);
        }
    }
    false
}

/// Advances every knot one step behind the new head position `h2`; `h1` is
/// where the head was.
#[verifier::rlimit(100)]
#[verifier::spinoff_prover]
fn advance_chain(knots: Vec<(i32, i32)>, h2: (i32, i32), Ghost(h1): Ghost<(int, int)>) -> (r: Vec<
    (i32, i32),
>)
    requires
        chain_close(h1, views(knots@)),
        -1 <= pv(h2).0 - h1.0 <= 1,
        -1 <= pv(h2).1 - h1.1 <= 1,
    ensures
        r@.len() == knots@.len(),
        views(r@) == follow_chain(pv(h2), views(knots@)),
{
    let ghost old_kv = views(knots@);
    let ghost target = follow_chain(pv(h2), old_kv);
    proof {
        lemma_chain_step(h1, pv(h2), old_kv);
    }
    let nknots = knots.len();
    let mut out: Vec<(i32, i32)> = Vec::new();
    let mut prev: (i32, i32) = h2;
    let mut j2: usize = 0;
    while j2 < nknots
        invariant
            knots@.len() == nknots,
            j2 <= nknots,
            old_kv == views(knots@),
            target == follow_chain(pv(h2), old_kv),
            target.len() == nknots,
            chain_close(h1, old_kv),
            chain_close(pv(h2), target),
            -1 <= pv(h2).0 - h1.0 <= 1 && -1 <= pv(h2).1 - h1.1 <= 1,
            forall|t: int|
                0 <= t < nknots ==> -1 <= #[trigger] target[t].0 - old_kv[t].0 <= 1 && -1
                    <= target[t].1 - old_kv[t].1 <= 1,
            out@.len() == j2,
            forall|t: int| 0 <= t < j2 ==> pv(#[trigger] out@[t]) == target[t],
            pv(prev) == (if j2 == 0 {
                pv(h2)
            } else {
                target[j2 - 1]
            }),
        decreases nknots - j2,
    {
        proof {
            lemma_follow_chain_index(pv(h2), old_kv, j2 as int);
            assert(old_kv[j2 as int] == pv(knots@[j2 as int]));
            // The predecessor has moved at most one unit, so the gap to
            // this knot is at most two on each axis.
            if j2 == 0 {
                assert(-1 <= old_kv[0].0 - h1.0 <= 1 && -1 <= old_kv[0].1 - h1.1 <= 1);
            } else {
                assert(-1 <= old_kv[j2 as int].0 - old_kv[j2 - 1].0 <= 1 && -1 <= old_kv[j2 as int].1
                    - old_kv[j2 - 1].1 <= 1);
                assert(-1 <= target[j2 - 1].0 - old_kv[j2 - 1].0 <= 1 && -1 <= target[j2 - 1].1
                    - old_kv[j2 - 1].1 <= 1);
            }
        }
        let cur = knots[j2];
        let mut kn = Knot(cur);
        kn.follow(prev);
        let nv = kn.0;
        out.push(nv);
        prev = nv;
        j2 = j2 + 1;
        proof {
            assert(pv(nv) == target[j2 - 1]);
        }
    }
    proof {
        assert(views(out@) =~= target);
    }
    out
}

/// Adds a position to the record of visited positions, keeping one copy of
/// each.
fn record(visited: Vec<(i32, i32)>, tail: (i32, i32), Ghost(pre): Ghost<Seq<(int, int)>>) -> (r:
    Vec<(i32, i32)>)
    requires
        visited@.len() == distinct_count(pre),
        forall|p: (int, int)| views(visited@).contains(p) <==> pre.contains(p),
    ensures
        r@.len() == distinct_count(pre.push(pv(tail))),
        forall|p: (int, int)| views(r@).contains(p) <==> pre.push(pv(tail)).contains(p),
{
    let ghost done = pre.push(pv(tail));
    proof {
        assert(done.drop_last() =~= pre);
        assert(done.last() == pv(tail));
    }
    let mut visited = visited;
    let ghost pre_visited = visited@;
    let already = seen(&visited, tail);
    if !already {
        visited.push(tail);
    }
    proof {
        if already {
            assert(pre.contains(pv(tail)));
            assert(distinct_count(done) == distinct_count(pre));
            assert forall|p: (int, int)| views(visited@).contains(p) <==> done.contains(p) by {
                if views(visited@).contains(p) {
                    assert(pre.contains(p));
                    let w = choose|u: int| 0 <= u < pre.len() && pre[u] == p;
                    assert(done[w] == p);
                }
                if done.contains(p) {
                    let w = choose|u: int| 0 <= u < done.len() && done[u] == p;
                    if w == done.len() - 1 {
                        assert(pre.contains(p));
                    } else {
                        assert(pre[w] == p);
                        assert(pre.contains(p));
                    }
                    assert(views(visited@).contains(p));
                }
            }
        } else {
            assert(!pre.contains(pv(tail)));
            assert(distinct_count(done) == distinct_count(pre) + 1);
            assert(views(visited@) =~= views(pre_visited).push(pv(tail)));
            assert forall|p: (int, int)| views(visited@).contains(p) <==> done.contains(p) by {
                if views(visited@).contains(p) {
                    let w = choose|u: int|
                        0 <= u < views(visited@).len() && views(visited@)[u] == p;
                    if w == views(visited@).len() - 1 {
                        assert(done.last() == p);
                    } else {
                        assert(views(pre_visited)[w] == p);
                        assert(views(pre_visited).contains(p));
                        assert(pre.contains(p));
                        let w2 = choose|u: int| 0 <= u < pre.len() && pre[u] == p;
                        assert(done[w2] == p);
                    }
                }
                if done.contains(p) {
                    let w = choose|u: int| 0 <= u < done.len() && done[u] == p;
                    if w == done.len() - 1 {
                        assert(views(visited@).last() == p);
                    } else {
                        assert(pre[w] == p);
                        assert(pre.contains(p));
                        assert(views(pre_visited).contains(p));
                        let w2 = choose|u: int|
                            0 <= u < views(pre_visited).len() && views(pre_visited)[u] == p;
                        assert(views(visited@)[w2] == p);
                    }
                }
            }
        }
    }
    visited
}

/// Walks the rope and counts the distinct positions the last knot visits;
/// with `seed` set the origin counts as visited before the walk begins.
#[verifier::rlimit(100)]
fn sim_count(instrs: &Vec<Instruction>, nknots: usize, seed: bool) -> (r: usize)
    requires
        nknots >= 1,
        nonneg_steps(instrs@),
        walk_fits((0, 0), instrs@),
    ensures
        ({
            let origin: Seq<(int, int)> = Seq::new(nknots as nat, |j: int| (0int, 0int));
            let prefix: Seq<(int, int)> = if seed {
                seq![(0int, 0int)]
            } else {
                Seq::empty()
            };
            r == distinct_count(prefix + tail_trail((0, 0), origin, instrs@))
        }),
{
    let ghost origin: Seq<(int, int)> = Seq::new(nknots as nat, |j: int| (0int, 0int));
    let ghost full: Seq<(int, int)> = (if seed {
        seq![(0int, 0int)]
    } else {
        Seq::<(int, int)>::empty()
    }) + tail_trail((0, 0), origin, instrs@);
    let mut head: (i32, i32) = (0, 0);
    let mut knots: Vec<(i32, i32)> = Vec::new();
    let mut j: usize = 0;
    while j < nknots
        invariant
            j <= nknots,
            knots@.len() == j,
            forall|t: int| 0 <= t < j ==> #[trigger] knots@[t] == (0i32, 0i32),
        decreases nknots - j,
    {
        knots.push((0, 0));
        j = j + 1;
    }
    let mut visited: Vec<(i32, i32)> = Vec::new();
    let ghost mut done: Seq<(int, int)> = Seq::empty();
    if seed {
        visited.push((0, 0));
        proof {
            done = seq![(0int, 0int)];
            assert(distinct_count(done) == 1) by {
                reveal_with_fuel(distinct_count, 2);
            }
            assert(views(visited@) =~= seq![(0int, 0int)]);
        }
    }
    proof {
        assert(views(knots@) =~= origin);
        assert(instrs@.skip(0) =~= instrs@);
        assert(full =~= done + tail_trail(pv(head), views(knots@), instrs@.skip(0)));
    }
    let mut i: usize = 0;
    while i < instrs.len()
        invariant
            nknots >= 1,
            knots@.len() == nknots,
            i <= instrs@.len(),
            nonneg_steps(instrs@),
            fits_i32(pv(head)),
            chain_close(pv(head), views(knots@)),
            walk_fits(pv(head), instrs@.skip(i as int)),
            full == done + tail_trail(pv(head), views(knots@), instrs@.skip(i as int)),
            visited@.len() == distinct_count(done),
            forall|p: (int, int)| views(visited@).contains(p) <==> done.contains(p),
        decreases instrs@.len() - i,
    {
        let (dx, dy, total): (i32, i32, i32) = match instrs[i] {
            Instruction::Up(s) => (0, 1, s),
            Instruction::Down(s) => (0, -1, s),
            Instruction::Left(s) => (-1, 0, s),
            Instruction::Right(s) => (1, 0, s),
        };
        let mut srem: i32 = total;
        proof {
            assert(instrs@.skip(i as int)[0] == instrs@[i as int]);
            assert(steps(instrs@[i as int]) >= 0);
            assert(with_steps(instrs@[i as int], srem as int) == instrs@[i as int]);
            assert(seq![with_steps(instrs@[i as int], srem as int)] + instrs@.skip(i + 1)
                =~= instrs@.skip(i as int));
        }
        while srem > 0
            invariant
                nknots >= 1,
                knots@.len() == nknots,
                i < instrs@.len(),
                0 <= srem,
                dx as int == delta(instrs@[i as int]).0,
                dy as int == delta(instrs@[i as int]).1,
                fits_i32(pv(head)),
                chain_close(pv(head), views(knots@)),
                walk_fits(
                    pv(head),
                    seq![with_steps(instrs@[i as int], srem as int)] + instrs@.skip(i + 1),
                ),
                full == done + tail_trail(
                    pv(head),
                    views(knots@),
                    seq![with_steps(instrs@[i as int], srem as int)] + instrs@.skip(i + 1),
                ),
                visited@.len() == distinct_count(done),
                forall|p: (int, int)| views(visited@).contains(p) <==> done.contains(p),
            decreases srem,
        {
            let ghost rem = seq![with_steps(instrs@[i as int], srem as int)] + instrs@.skip(i + 1);
            let ghost h1 = pv(head);
            let ghost old_kv = views(knots@);
            proof {
                assert(rem[0] == with_steps(instrs@[i as int], srem as int));
                assert(steps(rem[0]) == srem as int);
                assert(delta(rem[0]) == delta(instrs@[i as int]));
                assert(rem.update(0, with_steps(rem[0], steps(rem[0]) - 1)) =~= seq![
                    with_steps(instrs@[i as int], (srem - 1) as int),
                ] + instrs@.skip(i + 1));
                assert(fits_i32((h1.0 + dx as int, h1.1 + dy as int)));
            }
            let h2 = (head.0 + dx, head.1 + dy);
            head = h2;
            let ghost target = follow_chain(pv(h2), old_kv);
            proof {
                lemma_chain_step(h1, pv(h2), old_kv);
            }
            knots = advance_chain(knots, h2, Ghost(h1));
            let tail = knots[knots.len() - 1];
            let ghost pre_done = done;
            visited = record(visited, tail, Ghost(done));
            proof {
                done = pre_done.push(pv(tail));
                assert(pv(tail) == target[nknots - 1]);
                assert(target.last() == target[nknots - 1]);
                assert(tail_trail(h1, old_kv, rem) == seq![target.last()] + tail_trail(
                    pv(head),
                    target,
                    rem.update(0, with_steps(rem[0], steps(rem[0]) - 1)),
                ));
                assert(pre_done + tail_trail(h1, old_kv, rem) =~= done + tail_trail(
                    pv(head),
                    views(knots@),
                    seq![with_steps(instrs@[i as int], (srem - 1) as int)] + instrs@.skip(i + 1),
                ));
            }
            srem = srem - 1;
        }
        proof {
            let rem = seq![with_steps(instrs@[i as int], 0)] + instrs@.skip(i + 1);
            assert(rem[0] == with_steps(instrs@[i as int], 0));
            assert(steps(rem[0]) == 0);
            assert(rem.drop_first() =~= instrs@.skip(i + 1));
        }
        i = i + 1;
    }
    proof {
        assert(instrs@.skip(instrs@.len() as int) =~= Seq::<Instruction>::empty());
        assert(full =~= done);
    }
    visited.len()
}

/// Counts the distinct positions a single follower knot visits while the
/// head walks the whole move list (the origin counts as visited).
pub fn part1(input: &Vec<Instruction>) -> (r: usize)
    requires
        nonneg_steps(input@),
        walk_fits((0, 0), input@),
    ensures
        r == distinct_count(
            seq![(0int, 0int)] + tail_trail((0, 0), Seq::new(1, |j: int| (0int, 0int)), input@),
        ),
{
    sim_count(input, 1, true)
}

/// Counts the distinct positions the ninth knot of a ten-knot rope visits.
pub fn part2(input: &Vec<Instruction>) -> (r: usize)
    requires
        nonneg_steps(input@),
        walk_fits((0, 0), input@),
    ensures
        r == distinct_count(tail_trail((0, 0), Seq::new(9, |j: int| (0int, 0int)), input@)),
{
    let r = sim_count(input, 9, false);
    proof {
        assert(Seq::<(int, int)>::empty() + tail_trail(
            (0, 0),
            Seq::new(9, |j: int| (0int, 0int)),
            input@,
        ) =~= tail_trail((0, 0), Seq::new(9, |j: int| (0int, 0int)), input@));
    }
    r
}

} // verus!
