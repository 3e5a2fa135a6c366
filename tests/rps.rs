use aoc22::rps::{parse_games, part1, part2, Game, Move, Outcome, RpsError};

const EXAMPLE_INPUT: &str = "\
A Y
B X
C Z
";

#[test]
fn rps_part1_example() {
    let parsed: Vec<Game> = parse_games(EXAMPLE_INPUT).unwrap();
    assert_eq!(part1(&parsed), 15);
}

#[test]
fn rps_part2_example() {
    let parsed: Vec<Game> = parse_games(EXAMPLE_INPUT).unwrap();
    assert_eq!(part2(&parsed).unwrap(), 12);
}

#[test]
fn rps_scores() {
    assert_eq!(Move::Rock.score(), 1);
    assert_eq!(Move::Paper.score(), 2);
    assert_eq!(Move::Scissors.score(), 3);
    assert_eq!(Outcome::Win.score(), 6);
    assert_eq!(Outcome::Loss.score(), 0);
    assert_eq!(Outcome::Tie.score(), 3);
    assert_eq!(Game(Move::Rock, Move::Paper).outcome(), Outcome::Win);
    assert_eq!(Game(Move::Paper, Move::Rock).outcome(), Outcome::Loss);
    assert_eq!(Game(Move::Scissors, Move::Scissors).outcome(), Outcome::Tie);
    assert_eq!(Game(Move::Scissors, Move::Rock).score(), 7);
}

#[test]
fn rps_bad_lines() {
    assert_eq!(parse_games("A\n"), Err(RpsError::TooShort));
    assert_eq!(parse_games("A Q\n"), Err(RpsError::UnknownMove));
    assert_eq!(parse_games("A Y extra\n").unwrap(), vec![Game(Move::Rock, Move::Paper)]);
}
