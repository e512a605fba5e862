//! Rock-paper-scissors scoring: each line of the strategy guide names the
//! opponent's shape and a second letter read either as a shape to play or
//! as the outcome to arrange.

use vstd::prelude::*;
use crate::text::lines_of;
use crate::text::to_lines;
use crate::text::split_on;
use crate::text::split_chars;

verus! {

#[derive(Clone, Copy, Debug, PartialEq, Eq, Structural)]
pub enum Choice {
    Rock,
    Paper,
    Scissors,
}

#[derive(Clone, Copy, Debug, PartialEq, Eq, Structural)]
pub enum Outcome {
    Win,
    Lose,
    Draw,
}

/// A round of the guide: the opponent's shape, and the second letter under
/// both readings.
pub struct Round {
    pub opponent: Choice,
    pub mine: Choice,
    pub wanted_outcome: Outcome,
}

pub open spec fn choice_value(c: Choice) -> int {
    match c {
        Choice::Rock => 1,
        Choice::Paper => 2,
        Choice::Scissors => 3,
    }
}

pub open spec fn outcome_value(o: Outcome) -> int {
    match o {
        Outcome::Win => 6,
        Outcome::Draw => 3,
        Outcome::Lose => 0,
    }
}

/// How a round ends for `mine` against `opponent`.
pub open spec fn round_outcome(mine: Choice, opponent: Choice) -> Outcome {
    match (mine, opponent) {
        (Choice::Rock, Choice::Scissors) => Outcome::Win,
        (Choice::Paper, Choice::Rock) => Outcome::Win,
        (Choice::Scissors, Choice::Paper) => Outcome::Win,
        (Choice::Rock, Choice::Paper) => Outcome::Lose,
        (Choice::Paper, Choice::Scissors) => Outcome::Lose,
        (Choice::Scissors, Choice::Rock) => Outcome::Lose,
        _ => Outcome::Draw,
    }
}

/// The shape to play against `opponent` to reach `wanted`.
pub open spec fn choice_for(opponent: Choice, wanted: Outcome) -> Choice {
    match (opponent, wanted) {
        (Choice::Rock, Outcome::Win) => Choice::Paper,
        (Choice::Paper, Outcome::Draw) => Choice::Paper,
        (Choice::Scissors, Outcome::Lose) => Choice::Paper,
        (Choice::Paper, Outcome::Win) => Choice::Scissors,
        (Choice::Scissors, Outcome::Draw) => Choice::Scissors,
        (Choice::Rock, Outcome::Lose) => Choice::Scissors,
        _ => Choice::Rock,
    }
}

impl Choice {
    /// Reads a shape letter; `A`/`X` rock, `B`/`Y` paper, `C`/`Z` scissors.
    pub fn from_str(input: &str) -> (r: Option<Choice>)
        ensures
            r == choice_of(input@),
    {
        let chars = crate::text::str_to_chars(input);
        choice_of_chars(&chars)
    }

    pub fn value(&self) -> (r: u32)
        ensures
            r == choice_value(*self),
    {
        match self {
            Choice::Rock => 1,
            Choice::Paper => 2,
            Choice::Scissors => 3,
        }
    }

    pub fn for_outcome(&self, wanted_outcome: &Outcome) -> (r: Choice)
        ensures
            r == choice_for(*self, *wanted_outcome),
    {
        match (self, wanted_outcome) {
            (Choice::Rock, Outcome::Win) => Choice::Paper,
            (Choice::Paper, Outcome::Draw) => Choice::Paper,
            (Choice::Scissors, Outcome::Lose) => Choice::Paper,
            (Choice::Paper, Outcome::Win) => Choice::Scissors,
            (Choice::Scissors, Outcome::Draw) => Choice::Scissors,
            (Choice::Rock, Outcome::Lose) => Choice::Scissors,
            _ => Choice::Rock,
        }
    }
}

pub open spec fn choice_of(s: Seq<char>) -> Option<Choice> {
    if s == seq!['A'] || s == seq!['X'] {
        Some(Choice::Rock)
    } else if s == seq!['B'] || s == seq!['Y'] {
        Some(Choice::Paper)
    } else if s == seq!['C'] || s == seq!['Z'] {
        Some(Choice::Scissors)
    } else {
        None
    }
}

pub open spec fn outcome_of(s: Seq<char>) -> Option<Outcome> {
    if s == seq!['X'] {
        Some(Outcome::Lose)
    } else if s == seq!['Y'] {
        Some(Outcome::Draw)
    } else if s == seq!['Z'] {
        Some(Outcome::Win)
    } else {
        None
    }
}

fn choice_of_chars(v: &Vec<char>) -> (r: Option<Choice>)
    ensures
        r == choice_of(v@),
{
    if v.len() != 1 {
        proof {
            assert(v@ != seq!['A'] && v@ != seq!['X'] && v@ != seq!['B'] && v@ != seq!['Y'] && v@
                != seq!['C'] && v@ != seq!['Z']);
        }
        return None;
    }
    let c = v[0];
    proof {
        assert(v@ =~= seq![v@[0]]);
    }
    if c == 'A' || c == 'X' {
        Some(Choice::Rock)
    } else if c == 'B' || c == 'Y' {
        Some(Choice::Paper)
    } else if c == 'C' || c == 'Z' {
        Some(Choice::Scissors)
    } else {
        None
    }
}

fn outcome_of_chars(v: &Vec<char>) -> (r: Option<Outcome>)
    ensures
        r == outcome_of(v@),
{
    if v.len() != 1 {
        proof {
            assert(v@ != seq!['X'] && v@ != seq!['Y'] && v@ != seq!['Z']);
        }
        return None;
    }
    let c = v[0];
    proof {
        assert(v@ =~= seq![v@[0]]);
    }
    if c == 'X' {
        Some(Outcome::Lose)
    } else if c == 'Y' {
        Some(Outcome::Draw)
    } else if c == 'Z' {
        Some(Outcome::Win)
    } else {
        None
    }
}

impl Outcome {
    /// Reads an outcome letter: `X` lose, `Y` draw, `Z` win.
    pub fn from_str(input: &str) -> (r: Option<Outcome>)
        ensures
            r == outcome_of(input@),
    {
        let chars = crate::text::str_to_chars(input);
        outcome_of_chars(&chars)
    }

    pub fn value(&self) -> (r: u32)
        ensures
            r == outcome_value(*self),
    {
        match self {
            Outcome::Win => 6,
            Outcome::Draw => 3,
            Outcome::Lose => 0,
        }
    }
}

impl Round {
    pub fn outcome(&self) -> (r: Outcome)
        ensures
            r == round_outcome(self.mine, self.opponent),
    {
        match (&self.mine, &self.opponent) {
            (Choice::Rock, Choice::Scissors) => Outcome::Win,
            (Choice::Paper, Choice::Rock) => Outcome::Win,
            (Choice::Scissors, Choice::Paper) => Outcome::Win,
            (Choice::Rock, Choice::Paper) => Outcome::Lose,
            (Choice::Paper, Choice::Scissors) => Outcome::Lose,
            (Choice::Scissors, Choice::Rock) => Outcome::Lose,
            _ => Outcome::Draw,
        }
    }
}

/// What one guide line denotes: the first token a shape, the second both a
/// shape and an outcome. Further tokens are not examined.
pub open spec fn round_of(s: Seq<char>) -> Option<(Choice, Choice, Outcome)> {
    let toks = split_on(s, ' ');
    if toks.len() >= 2 && choice_of(toks[0]) is Some && choice_of(toks[1]) is Some && outcome_of(
        toks[1],
    ) is Some {
        Some(
            (
                choice_of(toks[0])->Some_0,
                choice_of(toks[1])->Some_0,
                outcome_of(toks[1])->Some_0,
            ),
        )
    } else {
        None
    }
}

/// Parses the guide, one round per line.
pub fn parse(input: &str) -> (r: Option<Vec<Round>>)
    ensures
        ({
            let ls = lines_of(input@);
            match r {
                Some(v) => v@.len() == ls.len() && forall|i: int|
                    0 <= i < ls.len() ==> ({
                        let ro = round_of(#[trigger] ls[i]);
                        &&& ro is Some
                        &&& v@[i].opponent == ro->Some_0.0
                        &&& v@[i].mine == ro->Some_0.1
                        &&& v@[i].wanted_outcome == ro->Some_0.2
                    }),
                None => exists|i: int| 0 <= i < ls.len() && round_of(#[trigger] ls[i]) is None,
            }
        }),
{
    let ghost ls = lines_of(input@);
    let lines = to_lines(input);
    let mut out: Vec<Round> = Vec::new();
    let mut i: usize = 0;
    while i < lines.len()
        invariant
            ls == lines_of(input@),
            lines@.len() == ls.len(),
            forall|t: int| 0 <= t < ls.len() ==> #[trigger] lines@[t]@ == ls[t],
            i <= ls.len(),
            out@.len() == i,
            forall|t: int|
                0 <= t < i ==> ({
                    let ro = round_of(#[trigger] ls[t]);
                    &&& ro is Some
                    &&& out@[t].opponent == ro->Some_0.0
                    &&& out@[t].mine == ro->Some_0.1
                    &&& out@[t].wanted_outcome == ro->Some_0.2
                }),
        decreases ls.len() - i,
    {
        let toks = split_chars(&lines[i], ' ');
        if toks.len() < 2 {
            return None;
        }
        let opponent = match choice_of_chars(&toks[0]) {
            Some(c) => c,
            None => {
                return None;
            },
        };
        let mine = match choice_of_chars(&toks[1]) {
            Some(c) => c,
            None => {
                return None;
            },
        };
        let wanted_outcome = match outcome_of_chars(&toks[1]) {
            Some(o) => o,
            None => {
                return None;
            },
        };
        out.push(Round { opponent, mine, wanted_outcome });
        i = i + 1;
    }
    Some(out)
}

/// The score of the guide read as shapes: outcome points plus shape points,
/// summed over the rounds.
pub open spec fn score1(s: Seq<Round>) -> int
    decreases s.len(),
{
    if s.len() == 0 {
        0
    } else {
        score1(s.drop_last()) + outcome_value(round_outcome(s.last().mine, s.last().opponent))
            + choice_value(s.last().mine)
    }
}

/// The score of the guide read as outcomes: the outcome's points plus the
/// points of the shape arranged to reach it.
pub open spec fn score2(s: Seq<Round>) -> int
    decreases s.len(),
{
    if s.len() == 0 {
        0
    } else {
        score2(s.drop_last()) + outcome_value(s.last().wanted_outcome) + choice_value(
            choice_for(s.last().opponent, s.last().wanted_outcome),
        )
    }
}

proof fn lemma_score1_prefix(s: Seq<Round>, i: int)
    requires
        0 <= i <= s.len(),
    ensures
        0 <= score1(s.take(i)) <= score1(s),
    decreases s.len() - i,
{
    if i == s.len() {
        assert(s.take(i) =~= s);
        lemma_score1_nonneg(s);
    } else {
        lemma_score1_prefix(s, i + 1);
        lemma_score1_nonneg(s.take(i));
        assert(s.take(i + 1).drop_last() =~= s.take(i));
        assert(s.take(i + 1).last() == s[i]);
    }
}

proof fn lemma_score1_nonneg(s: Seq<Round>)
    ensures
        score1(s) >= 0,
    decreases s.len(),
{
    if s.len() > 0 {
        lemma_score1_nonneg(s.drop_last());
    }
}

proof fn lemma_score2_prefix(s: Seq<Round>, i: int)
    requires
        0 <= i <= s.len(),
    ensures
        0 <= score2(s.take(i)) <= score2(s),
    decreases s.len() - i,
{
    if i == s.len() {
        assert(s.take(i) =~= s);
        lemma_score2_nonneg(s);
    } else {
        lemma_score2_prefix(s, i + 1);
        lemma_score2_nonneg(s.take(i));
        assert(s.take(i + 1).drop_last() =~= s.take(i));
        assert(s.take(i + 1).last() == s[i]);
    }
}

proof fn lemma_score2_nonneg(s: Seq<Round>)
    ensures
        score2(s) >= 0,
    decreases s.len(),
{
    if s.len() > 0 {
        lemma_score2_nonneg(s.drop_last());
    }
}

/// Total score with the second letter read as the shape to play.
pub fn part1(input: &Vec<Round>) -> (r: u32)
    requires
        score1(input@) <= u32::MAX,
    ensures
        r == score1(input@),
{
    let mut acc: u32 = 0;
    let mut i: usize = 0;
    proof {
        assert(input@.take(0) =~= Seq::<Round>::empty());
    }
    while i < input.len()
        invariant
            score1(input@) <= u32::MAX,
            i <= input@.len(),
            acc == score1(input@.take(i as int)),
        decreases input@.len() - i,
    {
        let round = &input[i];
        proof {
            lemma_score1_prefix(input@, i + 1);
            assert(input@.take(i + 1).drop_last() =~= input@.take(i as int));
            assert(input@.take(i + 1).last() == input@[i as int]);
        }
        acc = acc + round.outcome().value() + round.mine.value();
        i = i + 1;
    }
    proof {
        assert(input@.take(input@.len() as int) =~= input@);
    }
    acc
}

/// Total score with the second letter read as the outcome to arrange.
pub fn part2(input: &Vec<Round>) -> (r: u32)
    requires
        score2(input@) <= u32::MAX,
    ensures
        r == score2(input@),
{
    let mut acc: u32 = 0;
    let mut i: usize = 0;
    proof {
        assert(input@.take(0) =~= Seq::<Round>::empty());
    }
    while i < input.len()
        invariant
            score2(input@) <= u32::MAX,
            i <= input@.len(),
            acc == score2(input@.take(i as int)),
        decreases input@.len() - i,
    {
        let round = &input[i];
        proof {
            lemma_score2_prefix(input@, i + 1);
            assert(input@.take(i + 1).drop_last() =~= input@.take(i as int));
            assert(input@.take(i + 1).last() == input@[i as int]);
        }
        let mine = round.opponent.for_outcome(&round.wanted_outcome);
        acc = acc + round.wanted_outcome.value() + mine.value();
        i = i + 1;
    }
    proof {
        assert(input@.take(input@.len() as int) =~= input@);
    }
    acc
}

} // verus!
