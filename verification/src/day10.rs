//! CPU cycle simulation: `noop` burns one cycle, `addx` burns two and then
//! adds to the register. The signal list records the register during every
//! cycle; the strength sums six sampled cycles, and the render draws the
//! CRT image line by line.

use vstd::prelude::*;
use crate::text::lines_of;
use crate::text::to_lines;
use crate::text::split_on;
use crate::text::split_chars;
use crate::text::is_int_token;
use crate::text::int_token_val;
use crate::text::parse_i64;
use crate::text::chars_to_string;
use crate::text::push_char;

verus! {

pub enum Instruction {
    Noop,
    Addx(i32),
}

/// The register value during each cycle, starting from register `x`.
pub open spec fn signals(instrs: Seq<Instruction>, x: int) -> Seq<int>
    decreases instrs.len(),
{
    if instrs.len() == 0 {
        Seq::empty()
    } else {
        match instrs[0] {
            Instruction::Noop => seq![x] + signals(instrs.drop_first(), x),
            Instruction::Addx(v) => seq![x, x] + signals(instrs.drop_first(), x + v),
        }
    }
}

/// The register never leaves `i32` while running.
pub open spec fn signals_ok(instrs: Seq<Instruction>, x: int) -> bool
    decreases instrs.len(),
{
    if instrs.len() == 0 {
        true
    } else {
        match instrs[0] {
            Instruction::Noop => signals_ok(instrs.drop_first(), x),
            Instruction::Addx(v) => i32::MIN <= x + v <= i32::MAX && signals_ok(
                instrs.drop_first(),
                x + v,
            ),
        }
    }
}

/// What one line denotes: a line starting with `addx` must carry a number
/// that fits in an `i32`; any other line is a `noop`.
pub open spec fn instr_of_line(s: Seq<char>) -> Option<Instruction> {
    if s.len() >= 4 && s.take(4) == seq!['a', 'd', 'd', 'x'] {
        let toks = split_on(s, ' ');
        if toks.len() >= 2 && is_int_token(toks[1]) && i32::MIN <= int_token_val(toks[1])
            <= i32::MAX {
            Some(Instruction::Addx(int_token_val(toks[1]) as i32))
        } else {
            None
        }
    } else {
        Some(Instruction::Noop)
    }
}

/// Parses the program, one instruction per line.
pub fn parse(input: &str) -> (r: Option<Vec<Instruction>>)
    ensures
        ({
            let ls = lines_of(input@);
            match r {
                Some(v) => v@.len() == ls.len() && forall|i: int|
                    0 <= i < ls.len() ==> instr_of_line(#[trigger] ls[i]) == Some(v@[i]),
                None => exists|i: int| 0 <= i < ls.len() && instr_of_line(#[trigger] ls[i]) is None,
            }
        }),
{
    let ghost ls = lines_of(input@);
    let lines = to_lines(input);
    let mut out: Vec<Instruction> = Vec::new();
    let mut i: usize = 0;
    while i < lines.len()
        invariant
            ls == lines_of(input@),
            lines@.len() == ls.len(),
            forall|t: int| 0 <= t < ls.len() ==> #[trigger] lines@[t]@ == ls[t],
            i <= ls.len(),
            out@.len() == i,
            forall|t: int| 0 <= t < i ==> instr_of_line(#[trigger] ls[t]) == Some(out@[t]),
        decreases ls.len() - i,
    {
        let line = &lines[i];
        let prefixed = line.len() >= 4 && line[0] == 'a' && line[1] == 'd' && line[2] == 'd'
            && line[3] == 'x';
        proof {
            if line@.len() >= 4 {
                if prefixed {
                    assert(line@.take(4) =~= seq!['a', 'd', 'd', 'x']);
                } else {
                    assert(line@.take(4) != seq!['a', 'd', 'd', 'x']) by {
                        if line@.take(4) == seq!['a', 'd', 'd', 'x'] {
                            assert(line@[0] == 'a' && line@[1] == 'd' && line@[2] == 'd'
                                && line@[3] == 'x');
                        }
                    }
                }
            }
        }
        if prefixed {
            let toks = split_chars(line, ' ');
            if toks.len() < 2 {
                return None;
            }
            let v = match parse_i64(&toks[1]) {
                Some(v) => v,
                None => {
                    return None;
                },
            };
            if v < (i32::MIN as i64) || v > (i32::MAX as i64) {
                return None;
            }
            out.push(Instruction::Addx(v as i32));
        } else {
            out.push(Instruction::Noop);
        }
        i = i + 1;
    }
    Some(out)
}

/// Runs the program to completion, returning the register's value during
/// every cycle.
pub fn run_instructions_to_completion(instructions: &Vec<Instruction>) -> (r: Vec<i32>)
    requires
        signals_ok(instructions@, 1),
    ensures
        r@.len() == signals(instructions@, 1).len(),
        forall|k: int|
            0 <= k < r@.len() ==> #[trigger] r@[k] as int == signals(instructions@, 1)[k],
{
    let ghost full = signals(instructions@, 1);
    let mut x: i32 = 1;
    let mut out: Vec<i32> = Vec::new();
    let mut i: usize = 0;
    proof {
        assert(instructions@.skip(0) =~= instructions@);
    }
    while i < instructions.len()
        invariant
            i <= instructions@.len(),
            full == signals(instructions@, 1),
            signals_ok(instructions@.skip(i as int), x as int),
            full =~= out@.map_values(|v: i32| v as int) + signals(
                instructions@.skip(i as int),
                x as int,
            ),
        decreases instructions@.len() - i,
    {
        proof {
            assert(instructions@.skip(i as int)[0] == instructions@[i as int]);
            assert(instructions@.skip(i as int).drop_first() =~= instructions@.skip(i + 1));
        }
        let ghost pre = out@;
        match instructions[i] {
            Instruction::Addx(value) => {
                out.push(x);
                out.push(x);
                x = x + value;
                proof {
                    assert(out@.map_values(|v: i32| v as int) =~= pre.map_values(|v: i32| v as int)
                        + seq![x as int - value as int, x as int - value as int]);
                }
            },
            Instruction::Noop => {
                out.push(x);
                proof {
                    assert(out@.map_values(|v: i32| v as int) =~= pre.map_values(|v: i32| v as int)
                        + seq![x as int]);
                }
            },
        }
        i = i + 1;
        proof {
            assert(full =~= out@.map_values(|v: i32| v as int) + signals(
                instructions@.skip(i as int),
                x as int,
            ));
        }
    }
    proof {
        assert(instructions@.skip(instructions@.len() as int) =~= Seq::<Instruction>::empty());
        assert(full =~= out@.map_values(|v: i32| v as int));
        assert forall|k: int| 0 <= k < out@.len() implies #[trigger] out@[k] as int == full[k] by {
            assert(out@.map_values(|v: i32| v as int)[k] == out@[k] as int);
        }
    }
    out
}

/// The summed signal strength at the six sampled cycles.
pub open spec fn strength(s: Seq<int>) -> int {
    s[19] * 20 + s[59] * 60 + s[99] * 100 + s[139] * 140 + s[179] * 180 + s[219] * 220
}

/// Every product and partial sum of the strength fits in an `i32`.
pub open spec fn strength_ok(s: Seq<int>) -> bool {
    let p1 = s[19] * 20;
    let p2 = s[59] * 60;
    let p3 = s[99] * 100;
    let p4 = s[139] * 140;
    let p5 = s[179] * 180;
    let p6 = s[219] * 220;
    &&& i32::MIN <= p1 <= i32::MAX
    &&& i32::MIN <= p2 <= i32::MAX
    &&& i32::MIN <= p3 <= i32::MAX
    &&& i32::MIN <= p4 <= i32::MAX
    &&& i32::MIN <= p5 <= i32::MAX
    &&& i32::MIN <= p6 <= i32::MAX
    &&& i32::MIN <= p1 + p2 <= i32::MAX
    &&& i32::MIN <= p1 + p2 + p3 <= i32::MAX
    &&& i32::MIN <= p1 + p2 + p3 + p4 <= i32::MAX
    &&& i32::MIN <= p1 + p2 + p3 + p4 + p5 <= i32::MAX
    &&& i32::MIN <= p1 + p2 + p3 + p4 + p5 + p6 <= i32::MAX
}

/// Sums the signal strengths at cycles 20, 60, 100, 140, 180 and 220.
pub fn part1(input: &Vec<Instruction>) -> (r: i32)
    requires
        signals_ok(input@, 1),
        signals(input@, 1).len() >= 220,
        strength_ok(signals(input@, 1)),
    ensures
        r == strength(signals(input@, 1)),
{
    let signals = run_instructions_to_completion(input);
    signals[19] * 20 + signals[59] * 60 + signals[99] * 100 + signals[139] * 140 + signals[179]
        * 180 + signals[219] * 220
}

/// The sprite covers the pixel: the register is within one of the column.
pub open spec fn lit(s: Seq<int>, line: int, col: int) -> bool {
    col - 1 <= s[line * 40 + col] <= col + 1
}

/// One rendered CRT line of forty pixels.
pub open spec fn render_line(s: Seq<int>, line: int) -> Seq<char> {
    Seq::new(40, |c: int| if lit(s, line, c) {
        '#'
    } else {
        '.'
    })
}

/// The first `lines` CRT lines, joined with newlines.
pub open spec fn render(s: Seq<int>, lines: int) -> Seq<char>
    decreases lines,
{
    if lines <= 0 {
        Seq::empty()
    } else if lines == 1 {
        render_line(s, 0)
    } else {
        render(s, lines - 1) + seq!['\n'] + render_line(s, lines - 1)
    }
}

fn render_chars(input: &Vec<Instruction>) -> (r: Vec<char>)
    requires
        signals_ok(input@, 1),
    ensures
        r@ == render(signals(input@, 1), signals(input@, 1).len() as int / 40),
{
    let ghost s = signals(input@, 1);
    let sigs = run_instructions_to_completion(input);
    let total = sigs.len() / 40;
    let mut out: Vec<char> = Vec::new();
    let mut l: usize = 0;
    proof {
        assert(out@ =~= render(s, 0));
    }
    while l < total
        invariant
            s == signals(input@, 1),
            sigs@.len() == s.len(),
            forall|k: int| 0 <= k < s.len() ==> #[trigger] sigs@[k] as int == s[k],
            total == s.len() as int / 40,
            l <= total,
            out@ == render(s, l as int),
        decreases total - l,
    {
        if l > 0 {
            out.push('\n');
        }
        let ghost base = out@;
        let mut c: usize = 0;
        while c < 40
            invariant
                s == signals(input@, 1),
                sigs@.len() == s.len(),
                forall|k: int| 0 <= k < s.len() ==> #[trigger] sigs@[k] as int == s[k],
                total == s.len() as int / 40,
                l < total,
                c <= 40,
                out@ == base + render_line(s, l as int).take(c as int),
            decreases 40 - c,
        {
            proof {
                assert((l + 1) * 40 <= total * 40) by (nonlinear_arith)
                    requires
                        l + 1 <= total,
                ;
                assert(total * 40 <= s.len()) by (nonlinear_arith)
                    requires
                        total == s.len() as int / 40,
                ;
                assert(l * 40 + c < (l + 1) * 40) by (nonlinear_arith)
                    requires
                        c < 40,
                ;
                assert(0 <= l * 40) by (nonlinear_arith)
                    requires
                        l >= 0,
                ;
            }
            let sl = sigs.len();
            proof {
                assert(l * 40 + c < sl);
            }
            let idx = l * 40 + c;
            let x = sigs[idx];
            let ci = c as i32;
            let ch = if ci - 1 <= x && x <= ci + 1 {
                '#'
            } else {
                '.'
            };
            out.push(ch);
            c = c + 1;
            proof {
                assert(ch == render_line(s, l as int)[c - 1]);
                assert(out@ =~= base + render_line(s, l as int).take(c as int));
            }
        }
        l = l + 1;
        proof {
            assert(render_line(s, l - 1).take(40) =~= render_line(s, l - 1));
            if l == 1 {
                assert(base =~= Seq::<char>::empty());
                assert(out@ =~= render(s, 1));
            } else {
                assert(out@ =~= render(s, l as int));
            }
        }
    }
    out
}

/// The CRT image: each line holds `#` where the sprite covered the pixel.
pub fn part2(input: &Vec<Instruction>) -> (r: String)
    requires
        signals_ok(input@, 1),
    ensures
        r@ == render(signals(input@, 1), signals(input@, 1).len() as int / 40),
{
    let chars = render_chars(input);
    chars_to_string(&chars)
}

/// How a pixel is widened for the terminal: lit pixels become a shaded
/// block, dark ones a space.
pub open spec fn shade(c: char) -> char {
    if c == '.' {
        ' '
    } else if c == '#' {
        '\u{2593}'
    } else {
        c
    }
}

/// The image reshaded for a terminal, behind a leading newline.
pub fn part2_formatted(input: &Vec<Instruction>) -> (r: String)
    requires
        signals_ok(input@, 1),
    ensures
        ({
            let rend = render(signals(input@, 1), signals(input@, 1).len() as int / 40);
            &&& r@.len() == 1 + rend.len()
            &&& r@[0] == '\n'
            &&& forall|k: int| 0 <= k < rend.len() ==> r@[k + 1] == shade(#[trigger] rend[k])
        }),
{
    let chars = render_chars(input);
    let mut out = String::new();
    push_char(&mut out, '\n');
    let mut i: usize = 0;
    while i < chars.len()
        invariant
            out@.len() == 1 + i,
            i <= chars@.len(),
            out@[0] == '\n',
            forall|k: int| 0 <= k < i ==> out@[k + 1] == shade(#[trigger] chars@[k]),
        decreases chars@.len() - i,
    {
        let c = chars[i];
        let sc = if c == '.' {
            ' '
        } else if c == '#' {
            '\u{2593}'
        } else {
            c
        };
        push_char(&mut out, sc);
        i = i + 1;
    }
    out
}

} // verus!
