//! Crate-stack rearrangement: a drawing of labelled stacks followed by move
//! instructions. One variant moves crates one at a time (reversing each
//! batch), the other moves each batch intact; `scan_top` reads the top crate
//! of every stack.

use vstd::prelude::*;
use crate::text::split_on;
use crate::text::split_chars;
use crate::text::str_to_chars;
use crate::text::to_lines;
use crate::text::lines_of;
use crate::text::is_digits;
use crate::text::digits_val;
use crate::text::parse_u64;
use crate::text::chars_to_string;

verus! {

/// One move order: take `size` crates off stack `from` and put them on
/// stack `to` (both one-based).
pub struct Instruction {
    pub size: usize,
    pub from: usize,
    pub to: usize,
}

/// The stacks of crates, bottom first within each stack.
pub struct Stacks(pub Vec<Vec<char>>);

/// A parsed puzzle: the initial stacks and the move orders.
pub struct Rearrangement {
    pub stacks: Stacks,
    pub instructions: Vec<Instruction>,
}

impl View for Stacks {
    type V = Seq<Seq<char>>;

    open spec fn view(&self) -> Seq<Seq<char>> {
        Seq::new(self.0@.len(), |i: int| self.0@[i]@)
    }
}

/// An instruction applies when both stacks exist and the source holds
/// enough crates.
pub open spec fn move_ok(st: Seq<Seq<char>>, size: int, from: int, to: int) -> bool {
    &&& 1 <= from <= st.len()
    &&& 1 <= to <= st.len()
    &&& size <= st[from - 1].len()
}

/// The stacks after one move: the batch leaves the top of `from` and lands
/// on `to`, reversed when moved one crate at a time.
pub open spec fn move_spec(
    st: Seq<Seq<char>>,
    size: int,
    from: int,
    to: int,
    reversed: bool,
) -> Seq<Seq<char>> {
    let f = from - 1;
    let t = to - 1;
    let src = st[f];
    let rem = src.take(src.len() - size);
    let taken = src.skip(src.len() - size);
    let moved = if reversed {
        taken.reverse()
    } else {
        taken
    };
    let lifted = st.update(f, rem);
    lifted.update(t, lifted[t] + moved)
}

/// The stacks after a whole list of moves, or `None` as soon as one of them
/// does not apply.
pub open spec fn apply_moves(
    st: Seq<Seq<char>>,
    instrs: Seq<Instruction>,
    reversed: bool,
) -> Option<Seq<Seq<char>>>
    decreases instrs.len(),
{
    if instrs.len() == 0 {
        Some(st)
    } else {
        let i0 = instrs[0];
        if move_ok(st, i0.size as int, i0.from as int, i0.to as int) {
            apply_moves(
                move_spec(st, i0.size as int, i0.from as int, i0.to as int, reversed),
                instrs.drop_first(),
                reversed,
            )
        } else {
            None
        }
    }
}

/// The stack holds some crate (a character other than a blank).
pub open spec fn has_crate(s: Seq<char>) -> bool {
    exists|i: int| 0 <= i < s.len() && s[i] != ' '
}

/// The topmost non-blank character of a stack.
pub open spec fn top_item(s: Seq<char>) -> char
    decreases s.len(),
{
    if s.len() == 0 {
        ' '
    } else if s.last() != ' ' {
        s.last()
    } else {
        top_item(s.drop_last())
    }
}

impl Stacks {
    /// Moves `size` crates one at a time, so the batch arrives reversed.
    pub fn handle_instruction(&mut self, inst: &Instruction)
        requires
            move_ok(old(self)@, inst.size as int, inst.from as int, inst.to as int),
        ensures
            final(self)@ == move_spec(
                old(self)@,
                inst.size as int,
                inst.from as int,
                inst.to as int,
                true,
            ),
    {
        let taken = self.lift(inst.from, inst.size);
        let t = inst.to - 1;
        self.drop_onto(t, &taken);
        proof {
            let src = old(self)@[inst.from - 1];
            assert(taken@ == src.skip(src.len() - inst.size).reverse());
        }
    }

    /// Moves the batch of `size` crates intact, keeping its order.
    pub fn handle_instruction_two(&mut self, inst: &Instruction)
        requires
            move_ok(old(self)@, inst.size as int, inst.from as int, inst.to as int),
        ensures
            final(self)@ == move_spec(
                old(self)@,
                inst.size as int,
                inst.from as int,
                inst.to as int,
                false,
            ),
    {
        let taken = self.lift(inst.from, inst.size);
        let mut batch: Vec<char> = Vec::new();
        let mut j: usize = taken.len();
        while j > 0
            invariant
                j <= taken@.len(),
                batch@ =~= taken@.skip(j as int).reverse(),
            decreases j,
        {
            j = j - 1;
            batch.push(taken[j]);
            proof {
                assert(batch@ =~= taken@.skip(j as int).reverse());
            }
        }
        let t = inst.to - 1;
        self.drop_onto(t, &batch);
        proof {
            let src = old(self)@[inst.from - 1];
            assert(taken@.skip(0) =~= taken@);
            assert(batch@ =~= src.skip(src.len() - inst.size));
        }
    }

    /// Pops the top `size` crates off stack `from` (one-based); they come
    /// back top first, that is, reversed.
    fn lift(&mut self, from: usize, size: usize) -> (taken: Vec<char>)
        requires
            1 <= from <= old(self)@.len(),
            size <= old(self)@[from - 1].len(),
        ensures
            ({
                let f = from - 1;
                let src = old(self)@[f];
                &&& taken@ == src.skip(src.len() - size).reverse()
                &&& final(self)@ == old(self)@.update(f, src.take(src.len() - size))
            }),
    {
        let ghost orig = self@;
        let f = from - 1;
        let ghost src = self@[f as int];
        let mut taken: Vec<char> = Vec::new();
        let mut k: usize = 0;
        proof {
            assert(src.take(src.len() - 0) =~= src);
            assert(orig.update(f as int, src) =~= orig);
            assert(taken@ =~= src.skip(src.len() as int).reverse());
        }
        while k < size
            invariant
                f < self@.len(),
                self@.len() == orig.len(),
                k <= size <= src.len(),
                self@ == orig.update(f as int, src.take(src.len() - k)),
                src == orig[f as int],
                taken@ == src.skip(src.len() - k).reverse(),
            decreases size - k,
        {
            let ghost pre0 = self.0@;
            let ghost prev = self@;
            proof {
                assert(prev[f as int] == src.take(src.len() - k));
                assert(prev[f as int] == pre0[f as int]@);
                assert(pre0[f as int]@.len() == src.len() - k);
            }
            let c = match self.0[f].pop() {
                Some(c) => c,
                None => ' ',
            };
            taken.push(c);
            k = k + 1;
            proof {
                assert(c == pre0[f as int]@[src.len() - k]);
                assert(c == src[src.len() - k]);
                assert(self.0@[f as int]@ == pre0[f as int]@.subrange(
                    0,
                    pre0[f as int]@.len() - 1,
                ));
                assert(self.0@[f as int]@ =~= src.take(src.len() - k));
                let target = orig.update(f as int, src.take(src.len() - k));
                assert forall|i: int| 0 <= i < self@.len() implies self@[i] == target[i] by {
                    assert(self@[i] == self.0@[i]@);
                    if i != f {
                        assert(self.0@[i] == pre0[i]);
                        assert(prev[i] == pre0[i]@);
                        assert(prev[i] == orig[i]);
                    }
                }
                assert(self@ =~= target);
                assert(taken@ =~= src.skip(src.len() - k).reverse());
            }
        }
        taken
    }

    /// Pushes the given crates, in order, onto stack `t` (zero-based).
    fn drop_onto(&mut self, t: usize, batch: &Vec<char>)
        requires
            t < old(self)@.len(),
        ensures
            final(self)@ == old(self)@.update(t as int, old(self)@[t as int] + batch@),
    {
        let ghost lifted = self@;
        let ghost moved = batch@;
        let mut k: usize = 0;
        proof {
            assert(lifted[t as int] + moved.take(0) =~= lifted[t as int]);
            assert(lifted.update(t as int, lifted[t as int]) =~= lifted);
        }
        while k < batch.len()
            invariant
                t < self@.len(),
                self@.len() == lifted.len(),
                k <= batch@.len(),
                moved == batch@,
                self@ == lifted.update(t as int, lifted[t as int] + moved.take(k as int)),
            decreases batch@.len() - k,
        {
            let ghost pre0 = self.0@;
            let ghost prev = self@;
            proof {
                assert(prev[t as int] == lifted[t as int] + moved.take(k as int));
                assert(prev[t as int] == pre0[t as int]@);
            }
            let c = batch[k];
            self.0[t].push(c);
            k = k + 1;
            proof {
                assert(pre0[t as int]@ == lifted[t as int] + moved.take(k - 1));
                assert(lifted[t as int] + moved.take(k as int) =~= (lifted[t as int]
                    + moved.take(k - 1)).push(moved[k - 1]));
                let target = lifted.update(t as int, lifted[t as int] + moved.take(k as int));
                assert forall|i: int| 0 <= i < self@.len() implies self@[i] == target[i] by {
                    assert(self@[i] == self.0@[i]@);
                    if i == t {
                        assert(self.0@[t as int]@ == pre0[t as int]@.push(moved[k - 1]));
                    } else {
                        assert(self.0@[i] == pre0[i]);
                        assert(prev[i] == pre0[i]@);
                        assert(prev[i] == lifted[i]);
                    }
                }
                assert(self@ =~= target);
            }
        }
        proof {
            assert(moved.take(moved.len() as int) =~= moved);
        }
    }

    /// The top crate of every stack, read left to right.
    pub fn scan_top(&self) -> (r: String)
        requires
            forall|k: int| 0 <= k < self@.len() ==> has_crate(#[trigger] self@[k]),
        ensures
            r@.len() == self@.len(),
            forall|k: int| 0 <= k < self@.len() ==> r@[k] == top_item(#[trigger] self@[k]),
    {
        let mut out: Vec<char> = Vec::new();
        let mut k: usize = 0;
        while k < self.0.len()
            invariant
                k <= self@.len(),
                self@.len() == self.0@.len(),
                forall|i: int| 0 <= i < self@.len() ==> has_crate(#[trigger] self@[i]),
                out@.len() == k,
                forall|i: int| 0 <= i < k ==> out@[i] == top_item(#[trigger] self@[i]),
            decreases self.0@.len() - k,
        {
            let stack = &self.0[k];
            let ghost sv = self@[k as int];
            let mut j: usize = stack.len();
            proof {
                assert(sv.take(j as int) =~= sv);
            }
            let mut found: char = ' ';
            let mut searching: bool = true;
            while searching && j > 0
                invariant
                    stack@ == sv,
                    j <= sv.len(),
                    searching ==> top_item(sv) == top_item(sv.take(j as int)),
                    searching ==> has_crate(sv) ==> has_crate(sv.take(j as int)),
                    has_crate(sv),
                    !searching ==> found == top_item(sv),
                decreases (if searching { j + 1 } else { 0int }),
            {
                let c = stack[j - 1];
                if c != ' ' {
                    found = c;
                    searching = false;
                    proof {
                        assert(sv.take(j as int).last() == c);
                    }
                } else {
                    j = j - 1;
                    proof {
                        assert(sv.take(j + 1).drop_last() =~= sv.take(j as int));
                        assert forall|i: int|
                            0 <= i < sv.take(j + 1).len() && #[trigger] sv.take(j + 1)[i]
                                != ' ' implies i < j by {}
                    }
                }
            }
            proof {
                if searching {
                    assert(j == 0);
                    assert(has_crate(sv.take(0)));
                    let w = choose|i: int| 0 <= i < sv.take(0).len() && sv.take(0)[i] != ' ';
                    assert(false);
                }
            }
            out.push(found);
            k = k + 1;
        }
        chars_to_string(&out)
    }
}

/// A token that parses as a `usize`: digits only, small enough to fit.
pub open spec fn is_usize_token(t: Seq<char>) -> bool {
    is_digits(t) && t.len() <= 19 && digits_val(t) <= usize::MAX
}

/// What `Instruction::parse` accepts: a line whose second, fourth and sixth
/// space-separated tokens are the three numbers. The words between them are
/// not examined.
pub open spec fn instr_spec(s: Seq<char>) -> Option<Instruction> {
    let toks = split_on(s, ' ');
    if toks.len() >= 6 && is_usize_token(toks[1]) && is_usize_token(toks[3]) && is_usize_token(
        toks[5],
    ) {
        Some(
            Instruction {
                size: digits_val(toks[1]) as usize,
                from: digits_val(toks[3]) as usize,
                to: digits_val(toks[5]) as usize,
            },
        )
    } else {
        None
    }
}

/// Parses one move order from a line of characters.
fn parse_instr_chars(v: &Vec<char>) -> (r: Option<Instruction>)
    ensures
        r == instr_spec(v@),
{
    let toks = split_chars(v, ' ');
    if toks.len() < 6 {
        return None;
    }
    let size = match parse_num(&toks[1]) {
        Some(x) => x,
        None => {
            return None;
        },
    };
    let from = match parse_num(&toks[3]) {
        Some(x) => x,
        None => {
            return None;
        },
    };
    let to = match parse_num(&toks[5]) {
        Some(x) => x,
        None => {
            return None;
        },
    };
    Some(Instruction { size, from, to })
}

/// Parses a token as a `usize`.
fn parse_num(v: &Vec<char>) -> (r: Option<usize>)
    ensures
        match r {
            Some(x) => is_usize_token(v@) && x == digits_val(v@),
            None => !is_usize_token(v@),
        },
{
    match parse_u64(v) {
        Some(x) => {
            if x <= usize::MAX as u64 {
                Some(x as usize)
            } else {
                None
            }
        },
        None => None,
    }
}

impl Instruction {
    /// Parses one move order, for example `move 3 from 1 to 2`.
    pub fn parse(input: &str) -> (r: Option<Instruction>)
        ensures
            r == instr_spec(input@),
    {
        let chars = str_to_chars(input);
        parse_instr_chars(&chars)
    }
}

/// The crates found in one column of the drawing, read bottom-up: blanks and
/// rows too short to reach the column are skipped.
pub open spec fn column_items(rows: Seq<Seq<char>>, col: int) -> Seq<char>
    decreases rows.len(),
{
    if rows.len() == 0 {
        Seq::empty()
    } else {
        let head: Seq<char> = if 0 <= col < rows[0].len() && rows[0][col] != ' ' {
            seq![rows[0][col]]
        } else {
            Seq::empty()
        };
        head + column_items(rows.drop_first(), col)
    }
}

/// The crate rows of the drawing, bottom-most first: everything above the
/// separator except the label line just below it.
pub open spec fn layout_rows(ls: Seq<Seq<char>>, b: int) -> Seq<Seq<char>> {
    Seq::new((b - 1) as nat, |j: int| ls[b - 2 - j])
}

/// How many stacks the label line announces.
pub open spec fn stack_count(ls: Seq<Seq<char>>, b: int) -> int {
    ls[b - 1].len() as int / 4 + 1
}

/// `b` is the single blank line that separates the drawing from the moves.
pub open spec fn is_sep(ls: Seq<Seq<char>>, b: int) -> bool {
    &&& 0 < b < ls.len()
    &&& ls[b].len() == 0
    &&& forall|i: int| 0 <= i < b ==> #[trigger] ls[i].len() != 0
}

/// The parsed puzzle matches the text: stacks read column by column from the
/// drawing, and one instruction per line after the separator.
pub open spec fn rearrangement_matches(ls: Seq<Seq<char>>, b: int, re: Rearrangement) -> bool {
    &&& re.stacks@.len() == stack_count(ls, b)
    &&& forall|s: int|
        0 <= s < re.stacks@.len() ==> #[trigger] re.stacks@[s] == column_items(
            layout_rows(ls, b),
            4 * s + 1,
        )
    &&& re.instructions@.len() == ls.len() - b - 1
    &&& forall|k: int|
        0 <= k < re.instructions@.len() ==> instr_spec(ls[b + 1 + k]) == Some(
            #[trigger] re.instructions@[k],
        )
}

/// Parses the whole puzzle text: the stack drawing, a blank line, then the
/// move orders. Fails when no blank separator follows a non-empty drawing,
/// or when a move line does not parse.
pub fn parse(input: &str) -> (r: Option<Rearrangement>)
    ensures
        ({
            let ls = lines_of(input@);
            match r {
                Some(re) => exists|b: int| #[trigger] is_sep(ls, b) && rearrangement_matches(
                    ls,
                    b,
                    re,
                ),
                None => forall|b: int|
                    #[trigger] is_sep(ls, b) ==> exists|k: int|
                        0 <= k < ls.len() - b - 1 && instr_spec(#[trigger] ls[b + 1 + k]) is None,
            }
        }),
{
    let ghost ls = lines_of(input@);
    let lines = to_lines(input);
    let n = lines.len();
    let mut b: usize = 0;
    let mut found = false;
    while !found && b < n
        invariant
            ls == lines_of(input@),
            n == ls.len(),
            lines@.len() == n,
            forall|i: int| 0 <= i < n ==> #[trigger] lines@[i]@ == ls[i],
            b <= n,
            forall|i: int| 0 <= i < b ==> #[trigger] ls[i].len() != 0,
            found ==> b < n && ls[b as int].len() == 0,
        decreases (if found { 0int } else { n - b + 1 }),
    {
        if lines[b].len() == 0 {
            found = true;
        } else {
            b = b + 1;
        }
    }
    if !found {
        proof {
            assert forall|bb: int| !is_sep(ls, bb) by {}
        }
        return None;
    }
    if b == 0 {
        proof {
            assert forall|bb: int| !is_sep(ls, bb) by {
                if is_sep(ls, bb) {
                    assert(ls[0].len() != 0);
                }
            }
        }
        return None;
    }
    proof {
        assert(is_sep(ls, b as int));
    }
    let ghost rows = layout_rows(ls, b as int);
    let label_len = lines[b - 1].len();
    let nstacks = label_len / 4 + 1;
    let mut stacks: Vec<Vec<char>> = Vec::new();
    let mut si: usize = 0;
    while si < nstacks
        invariant
            ls == lines_of(input@),
            n == ls.len(),
            lines@.len() == n,
            forall|i: int| 0 <= i < n ==> #[trigger] lines@[i]@ == ls[i],
            0 < b < n,
            rows == layout_rows(ls, b as int),
            label_len == ls[b - 1].len(),
            nstacks == stack_count(ls, b as int),
            si <= nstacks,
            stacks@.len() == si,
            forall|s: int|
                0 <= s < si ==> #[trigger] stacks@[s]@ == column_items(rows, 4 * s + 1),
        decreases nstacks - si,
    {
        let col = si * 4 + 1;
        let mut st: Vec<char> = Vec::new();
        let mut j: usize = 0;
        proof {
            assert(rows.skip(0) =~= rows);
        }
        while j < b - 1
            invariant
                ls == lines_of(input@),
                n == ls.len(),
                lines@.len() == n,
                forall|i: int| 0 <= i < n ==> #[trigger] lines@[i]@ == ls[i],
                0 < b < n,
                rows == layout_rows(ls, b as int),
                j <= b - 1,
                rows.len() == b - 1,
                column_items(rows, col as int) == st@ + column_items(
                    rows.skip(j as int),
                    col as int,
                ),
            decreases b - 1 - j,
        {
            let row = &lines[b - 2 - j];
            let ghost pre = st@;
            proof {
                assert(rows[j as int] == ls[b - 2 - j]);
                assert(rows.skip(j as int)[0] == rows[j as int]);
                assert(rows.skip(j as int).drop_first() =~= rows.skip(j + 1));
            }
            if col < row.len() {
                let ch = row[col];
                if ch != ' ' {
                    st.push(ch);
                    proof {
                        assert(st@ =~= pre + seq![rows[j as int][col as int]]);
                        assert(pre + seq![rows[j as int][col as int]] + column_items(
                            rows.skip(j + 1),
                            col as int,
                        ) =~= pre + (seq![rows[j as int][col as int]] + column_items(
                            rows.skip(j + 1),
                            col as int,
                        )));
                    }
                } else {
                    proof {
                        assert(pre + Seq::<char>::empty() =~= pre);
                    }
                }
            } else {
                proof {
                    assert(pre + Seq::<char>::empty() =~= pre);
                }
            }
            j = j + 1;
        }
        proof {
            assert(rows.skip(rows.len() as int) =~= Seq::<Seq<char>>::empty());
            assert(st@ + Seq::<char>::empty() =~= st@);
            assert(st@ == column_items(rows, col as int));
        }
        stacks.push(st);
        si = si + 1;
    }
    let mut instrs: Vec<Instruction> = Vec::new();
    let mut k: usize = 0;
    let total = n - b - 1;
    while k < total
        invariant
            ls == lines_of(input@),
            n == ls.len(),
            lines@.len() == n,
            forall|i: int| 0 <= i < n ==> #[trigger] lines@[i]@ == ls[i],
            0 < b < n,
            is_sep(ls, b as int),
            total == n - b - 1,
            k <= total,
            instrs@.len() == k,
            forall|i: int|
                0 <= i < k ==> instr_spec(ls[b + 1 + i]) == Some(#[trigger] instrs@[i]),
        decreases total - k,
    {
        let inst = match parse_instr_chars(&lines[b + 1 + k]) {
            Some(inst) => inst,
            None => {
                proof {
                    assert(instr_spec(ls[b + 1 + k]) is None);
                    assert forall|bb: int| #[trigger] is_sep(ls, bb) implies exists|kk: int|
                        0 <= kk < ls.len() - bb - 1 && instr_spec(
                            #[trigger] ls[bb + 1 + kk],
                        ) is None by {
                        assert(bb == b) by {
                            if bb < b {
                                assert(ls[bb as int].len() != 0);
                            }
                            if bb > b {
                                assert(ls[b as int].len() != 0);
                            }
                        }
                        assert(0 <= k < ls.len() - bb - 1 && instr_spec(ls[bb + 1 + k]) is None);
                    }
                }
                return None;
            },
        };
        instrs.push(inst);
        k = k + 1;
    }
    let re = Rearrangement { stacks: Stacks(stacks), instructions: instrs };
    proof {
        assert(re.stacks@.len() == stacks@.len());
        assert forall|s: int| 0 <= s < re.stacks@.len() implies #[trigger] re.stacks@[s]
            == column_items(rows, 4 * s + 1) by {
            assert(re.stacks@[s] == stacks@[s]@);
        }
        assert(rearrangement_matches(ls, b as int, re));
    }
    Some(re)
}

/// A deep copy of the stacks.
fn duplicate_stacks(s: &Stacks) -> (r: Stacks)
    ensures
        r@ == s@,
{
    let mut out: Vec<Vec<char>> = Vec::new();
    let mut k: usize = 0;
    while k < s.0.len()
        invariant
            k <= s.0@.len(),
            out@.len() == k,
            forall|i: int| 0 <= i < k ==> #[trigger] out@[i]@ == s@[i],
        decreases s.0@.len() - k,
    {
        let src = &s.0[k];
        let mut inner: Vec<char> = Vec::new();
        let mut j: usize = 0;
        while j < src.len()
            invariant
                j <= src@.len(),
                inner@ == src@.subrange(0, j as int),
            decreases src@.len() - j,
        {
            inner.push(src[j]);
            j = j + 1;
            proof {
                assert(inner@ =~= src@.subrange(0, j as int));
            }
        }
        proof {
            assert(inner@ =~= src@);
        }
        out.push(inner);
        k = k + 1;
    }
    let r = Stacks(out);
    proof {
        assert(r@ =~= s@);
    }
    r
}

/// Applies every move in order; reports failure as soon as one of them does
/// not fit the stacks.
fn run_moves(st: Stacks, instrs: &Vec<Instruction>, reversed: bool) -> (r: (Stacks, bool))
    ensures
        r.1 ==> apply_moves(st@, instrs@, reversed) == Some(r.0@),
        !r.1 ==> apply_moves(st@, instrs@, reversed) is None,
{
    let ghost orig = st@;
    let mut cur = st;
    let mut k: usize = 0;
    proof {
        assert(instrs@.skip(0) =~= instrs@);
    }
    while k < instrs.len()
        invariant
            orig == st@,
            k <= instrs@.len(),
            apply_moves(orig, instrs@, reversed) == apply_moves(
                cur@,
                instrs@.skip(k as int),
                reversed,
            ),
        decreases instrs@.len() - k,
    {
        let inst = &instrs[k];
        let nst = cur.0.len();
        proof {
            assert(instrs@.skip(k as int)[0] == instrs@[k as int]);
            assert(instrs@.skip(k as int).drop_first() =~= instrs@.skip(k + 1));
        }
        if inst.from < 1 || inst.from > nst || inst.to < 1 || inst.to > nst {
            proof {
                assert(!move_ok(cur@, inst.size as int, inst.from as int, inst.to as int));
                assert(apply_moves(cur@, instrs@.skip(k as int), reversed) is None);
                assert(apply_moves(orig, instrs@, reversed) is None);
            }
            return (cur, false);
        }
        let avail = cur.0[inst.from - 1].len();
        if inst.size > avail {
            proof {
                assert(cur@[inst.from - 1].len() == avail);
                assert(!move_ok(cur@, inst.size as int, inst.from as int, inst.to as int));
                assert(apply_moves(cur@, instrs@.skip(k as int), reversed) is None);
                assert(apply_moves(orig, instrs@, reversed) is None);
            }
            return (cur, false);
        }
        proof {
            assert(cur@[inst.from - 1].len() == avail);
            assert(move_ok(cur@, inst.size as int, inst.from as int, inst.to as int));
        }
        if reversed {
            cur.handle_instruction(inst);
        } else {
            cur.handle_instruction_two(inst);
        }
        k = k + 1;
    }
    proof {
        assert(instrs@.skip(instrs@.len() as int) =~= Seq::<Instruction>::empty());
    }
    proof {
        assert(apply_moves(orig, instrs@, reversed) == Some(cur@));
    }
    (cur, true)
}

/// Reads the top crate of every stack, or reports the first crateless stack.
fn tops(st: &Stacks) -> (r: Option<String>)
    ensures
        match r {
            Some(out) => (forall|k: int| 0 <= k < st@.len() ==> has_crate(#[trigger] st@[k]))
                && out@.len() == st@.len() && (forall|k: int|
                0 <= k < st@.len() ==> out@[k] == top_item(#[trigger] st@[k])),
            None => exists|k: int| 0 <= k < st@.len() && !has_crate(#[trigger] st@[k]),
        },
{
    let mut k: usize = 0;
    while k < st.0.len()
        invariant
            k <= st@.len(),
            st@.len() == st.0@.len(),
            forall|i: int| 0 <= i < k ==> has_crate(#[trigger] st@[i]),
        decreases st.0@.len() - k,
    {
        let stack = &st.0[k];
        let mut j: usize = 0;
        let mut any = false;
        while j < stack.len()
            invariant
                j <= stack@.len(),
                stack@ == st@[k as int],
                k < st@.len(),
                !any ==> forall|i: int| 0 <= i < j ==> #[trigger] stack@[i] == ' ',
                any ==> has_crate(stack@),
            decreases stack@.len() - j,
        {
            if stack[j] != ' ' {
                any = true;
            }
            j = j + 1;
        }
        if !any {
            proof {
                if has_crate(st@[k as int]) {
                    let w = choose|i: int| 0 <= i < stack@.len() && stack@[i] != ' ';
                    assert(stack@[w] == ' ');
                }
            }
            return None;
        }
        k = k + 1;
    }
    Some(st.scan_top())
}

/// Runs the crate-at-a-time variant of every move on a copy of the stacks
/// and reads the top crates; fails when a move does not fit the stacks or a
/// stack ends up with no crate to read.
pub fn part1(input: &Rearrangement) -> (r: Option<String>)
    ensures
        ({
            let ap = apply_moves(input.stacks@, input.instructions@, true);
            match r {
                Some(out) => ap is Some && out@.len() == ap->Some_0.len() && (forall|k: int|
                    0 <= k < ap->Some_0.len() ==> out@[k] == top_item(#[trigger] ap->Some_0[k])),
                None => ap is None || exists|k: int|
                    0 <= k < ap->Some_0.len() && !has_crate(#[trigger] ap->Some_0[k]),
            }
        }),
{
    let st0 = duplicate_stacks(&input.stacks);
    let (st, ok) = run_moves(st0, &input.instructions, true);
    if !ok {
        return None;
    }
    let r = tops(&st);
    proof {
        let ap = apply_moves(input.stacks@, input.instructions@, true);
        assert(ap == Some(st@));
        if r is None {
            let k0 = choose|k: int| 0 <= k < st@.len() && !has_crate(#[trigger] st@[k]);
            assert(!has_crate(ap->Some_0[k0]));
        }
    }
    r
}

/// The same, with the batch-at-once variant of every move.
pub fn part2(input: &Rearrangement) -> (r: Option<String>)
    ensures
        ({
            let ap = apply_moves(input.stacks@, input.instructions@, false);
            match r {
                Some(out) => ap is Some && out@.len() == ap->Some_0.len() && (forall|k: int|
                    0 <= k < ap->Some_0.len() ==> out@[k] == top_item(#[trigger] ap->Some_0[k])),
                None => ap is None || exists|k: int|
                    0 <= k < ap->Some_0.len() && !has_crate(#[trigger] ap->Some_0[k]),
            }
        }),
{
    let st0 = duplicate_stacks(&input.stacks);
    let (st, ok) = run_moves(st0, &input.instructions, false);
    if !ok {
        return None;
    }
    let r = tops(&st);
    proof {
        let ap = apply_moves(input.stacks@, input.instructions@, false);
        assert(ap == Some(st@));
        if r is None {
            let k0 = choose|k: int| 0 <= k < st@.len() && !has_crate(#[trigger] st@[k]);
            assert(!has_crate(ap->Some_0[k0]));
        }
    }
    r
}

} // verus!
