use vstd::prelude::*;
use crate::transcript::{chars_of, line_bounds, lines, word_bounds, words};

verus! {

#[derive(PartialEq, Eq, Structural, Clone, Copy, Debug)]
pub enum Move {
    Rock,
    Paper,
    Scissors,
}

#[derive(PartialEq, Eq, Structural, Clone, Copy, Debug)]
pub enum Outcome {
    Win,
    Loss,
    Tie,
}

/// One round: the opponent's move, then ours.
#[derive(PartialEq, Eq, Structural, Clone, Copy, Debug)]
pub struct Game(pub Move, pub Move);

/// Why a strategy guide could not be read.
#[derive(PartialEq, Eq, Structural, Clone, Copy, Debug)]
pub enum RpsError {
    /// A line has fewer than two items.
    TooShort,
    /// An item is none of `A`, `B`, `C`, `X`, `Y`, `Z`.
    UnknownMove,
}

pub open spec fn move_score(m: Move) -> nat {
    match m {
        Move::Rock => 1,
        Move::Paper => 2,
        Move::Scissors => 3,
    }
}

pub open spec fn outcome_score(o: Outcome) -> nat {
    match o {
        Outcome::Win => 6,
        Outcome::Loss => 0,
        Outcome::Tie => 3,
    }
}

/// `b` beats `a`.
pub open spec fn beats(b: Move, a: Move) -> bool {
    (a == Move::Rock && b == Move::Paper) || (a == Move::Paper && b == Move::Scissors) || (a
        == Move::Scissors && b == Move::Rock)
}

/// The outcome of a round for the second player.
pub open spec fn outcome_of(g: Game) -> Outcome {
    if g.0 == g.1 {
        Outcome::Tie
    } else if beats(g.1, g.0) {
        Outcome::Win
    } else {
        Outcome::Loss
    }
}

pub open spec fn game_score(g: Game) -> nat {
    move_score(g.1) + outcome_score(outcome_of(g))
}

/// Outcome asked for by the second column: rock means lose, paper draw,
/// scissors win.
pub open spec fn wanted(m: Move) -> Outcome {
    match m {
        Move::Rock => Outcome::Loss,
        Move::Paper => Outcome::Tie,
        Move::Scissors => Outcome::Win,
    }
}

/// Score of a round played for the outcome the second column asks for.
pub open spec fn planned_score(g: Game) -> nat {
    move_score(reply(g.0, wanted(g.1))) + outcome_score(wanted(g.1))
}

/// The move that gives outcome `o` against `a`.
pub open spec fn reply(a: Move, o: Outcome) -> Move {
    if outcome_of(Game(a, Move::Rock)) == o {
        Move::Rock
    } else if outcome_of(Game(a, Move::Paper)) == o {
        Move::Paper
    } else {
        Move::Scissors
    }
}

pub open spec fn total(gs: Seq<Game>, score: spec_fn(Game) -> nat) -> nat
    decreases gs.len(),
{
    if gs.len() == 0 {
        0
    } else {
        total(gs.drop_last(), score) + score(gs.last())
    }
}

/// The move a one-letter item stands for.
pub open spec fn move_of(w: Seq<char>) -> Option<Move> {
    if w.len() != 1 {
        None
    } else if w[0] == 'A' || w[0] == 'X' {
        Some(Move::Rock)
    } else if w[0] == 'B' || w[0] == 'Y' {
        Some(Move::Paper)
    } else if w[0] == 'C' || w[0] == 'Z' {
        Some(Move::Scissors)
    } else {
        None
    }
}

/// The round a line stands for: its first two items.
pub open spec fn game_of(l: Seq<char>) -> Result<Game, RpsError> {
    let ws = words(l);
    if ws.len() < 2 {
        Err(RpsError::TooShort)
    } else {
        match (move_of(ws[0]), move_of(ws[1])) {
            (Some(a), Some(b)) => Ok(Game(a, b)),
            _ => Err(RpsError::UnknownMove),
        }
    }
}

/// The rounds of a guide, or the error of its first bad line.
pub open spec fn games_of(ls: Seq<Seq<char>>) -> Result<Seq<Game>, RpsError>
    decreases ls.len(),
{
    if ls.len() == 0 {
        Ok(Seq::empty())
    } else {
        match games_of(ls.drop_last()) {
            Err(e) => Err(e),
            Ok(gs) => match game_of(ls.last()) {
                Err(e) => Err(e),
                Ok(g) => Ok(gs.push(g)),
            },
        }
    }
}

impl Move {
    pub fn score(&self) -> (r: u32)
        ensures
            r == move_score(*self),
    {
        match self {
            Move::Rock => 1,
            Move::Paper => 2,
            Move::Scissors => 3,
        }
    }
}

impl Outcome {
    pub fn score(&self) -> (r: u32)
        ensures
            r == outcome_score(*self),
    {
        match self {
            Outcome::Win => 6,
            Outcome::Loss => 0,
            Outcome::Tie => 3,
        }
    }
}

impl Game {
    pub fn score(&self) -> (r: u32)
        ensures
            r == game_score(*self),
    {
        self.1.score() + self.outcome().score()
    }

    pub fn outcome(&self) -> (r: Outcome)
        ensures
            r == outcome_of(*self),
    {
        match (self.0, self.1) {
            (Move::Rock, Move::Rock) | (Move::Paper, Move::Paper) | (
                Move::Scissors,
                Move::Scissors,
            ) => Outcome::Tie,
            (Move::Rock, Move::Paper) | (Move::Paper, Move::Scissors) | (
                Move::Scissors,
                Move::Rock,
            ) => Outcome::Win,
            _ => Outcome::Loss,
        }
    }
}

/// The move that the one-letter item `cs[a..b]` stands for.
fn parse_move(cs: &Vec<char>, a: usize, b: usize) -> (r: Option<Move>)
    requires
        a <= b <= cs.len(),
    ensures
        r == move_of(cs@.subrange(a as int, b as int)),
{
    let ghost w = cs@.subrange(a as int, b as int);
    if b - a != 1 {
        return None;
    }
    let c = cs[a];
    assert(w[0] == c);
    if c == 'A' || c == 'X' {
        Some(Move::Rock)
    } else if c == 'B' || c == 'Y' {
        Some(Move::Paper)
    } else if c == 'C' || c == 'Z' {
        Some(Move::Scissors)
    } else {
        None
    }
}

/// The rounds of the strategy guide `input`, one per line.
pub fn parse_games(input: &str) -> (r: Result<Vec<Game>, RpsError>)
    ensures
        match games_of(lines(input@)) {
            Ok(gs) => r matches Ok(v) && v@ == gs,
            Err(e) => r == Err::<Vec<Game>, RpsError>(e),
        },
{
    let cs = chars_of(input);
    let bounds = line_bounds(&cs);
    let ghost ls = lines(input@);
    let mut out: Vec<Game> = Vec::new();
    let mut i: usize = 0;
    assert(ls.take(0) =~= Seq::<Seq<char>>::empty());
    while i < bounds.len()
        invariant
            cs@ == input@,
            ls == lines(input@),
            bounds.len() == ls.len(),
            forall|k: int|
                0 <= k < bounds.len() ==> (#[trigger] bounds[k]).0 <= bounds[k].1 <= cs.len()
                    && cs@.subrange(bounds[k].0 as int, bounds[k].1 as int) == ls[k],
            i <= bounds.len(),
            games_of(ls.take(i as int)) == Ok::<Seq<Game>, RpsError>(out@),
        decreases bounds.len() - i,
    {
        assert(ls.take(i + 1).drop_last() =~= ls.take(i as int));
        assert(ls.take(i + 1).last() == ls[i as int]);
        let (a, b) = bounds[i];
        let wb = word_bounds(&cs, a, b);
        let res = if wb.len() < 2 {
            Err(RpsError::TooShort)
        } else {
            let (a0, b0) = wb[0];
            let (a1, b1) = wb[1];
            match (parse_move(&cs, a0, b0), parse_move(&cs, a1, b1)) {
                (Some(x), Some(y)) => Ok(Game(x, y)),
                _ => Err(RpsError::UnknownMove),
            }
        };
        match res {
            Ok(g) => {
                out.push(g);
            },
            Err(e) => {
                proof {
                    lemma_games_fail(ls, i as int + 1);
                }
                return Err(e);
            },
        }
        i = i + 1;
    }
    assert(ls.take(i as int) =~= ls);
    Ok(out)
}

proof fn lemma_games_fail(ls: Seq<Seq<char>>, i: int)
    requires
        0 <= i <= ls.len(),
        games_of(ls.take(i)) is Err,
    ensures
        games_of(ls) == games_of(ls.take(i)),
    decreases ls.len() - i,
{
    if i < ls.len() {
        assert(ls.take(i + 1).drop_last() =~= ls.take(i));
        lemma_games_fail(ls, i + 1);
    } else {
        assert(ls.take(i) =~= ls);
    }
}

/// Total score when each round is played as written.
pub fn part1(parsed: &Vec<Game>) -> (r: u128)
    ensures
        r == total(parsed@, |g: Game| game_score(g)),
{
    let mut sum: u128 = 0;
    let mut i: usize = 0;
    assert(parsed@.take(0) =~= Seq::<Game>::empty());
    while i < parsed.len()
        invariant
            i <= parsed.len(),
            sum == total(parsed@.take(i as int), |g: Game| game_score(g)),
            sum <= 9 * i,
        decreases parsed.len() - i,
    {
        assert(parsed@.take(i + 1).drop_last() =~= parsed@.take(i as int));
        assert(parsed@.take(i + 1).last() == parsed[i as int]);
        let s = parsed[i].score();
        sum = sum + s as u128;
        i = i + 1;
    }
    assert(parsed@.take(i as int) =~= parsed@);
    sum
}

/// Total score when the second column names the outcome to reach.
pub fn part2(parsed: &Vec<Game>) -> (r: Result<u128, RpsError>)
    ensures
        r == Ok::<u128, RpsError>(total(parsed@, |g: Game| planned_score(g)) as u128),
        total(parsed@, |g: Game| planned_score(g)) <= u128::MAX,
{
    let mut sum: u128 = 0;
    let mut i: usize = 0;
    assert(parsed@.take(0) =~= Seq::<Game>::empty());
    while i < parsed.len()
        invariant
            i <= parsed.len(),
            sum == total(parsed@.take(i as int), |g: Game| planned_score(g)),
            sum <= 9 * i,
        decreases parsed.len() - i,
    {
        assert(parsed@.take(i + 1).drop_last() =~= parsed@.take(i as int));
        assert(parsed@.take(i + 1).last() == parsed[i as int]);
        let game = parsed[i];
        let target = match game.1 {
            Move::Rock => Outcome::Loss,
            Move::Paper => Outcome::Tie,
            Move::Scissors => Outcome::Win,
        };
        let chosen = if Game(game.0, Move::Rock).outcome() == target {
            Move::Rock
        } else if Game(game.0, Move::Paper).outcome() == target {
            Move::Paper
        } else {
            Move::Scissors
        };
        assert(chosen == reply(game.0, wanted(game.1)));
        let s = Game(game.0, chosen).score();
        sum = sum + s as u128;
        i = i + 1;
    }
    assert(parsed@.take(i as int) =~= parsed@);
    Ok(sum)
}

} // verus!
