use aoc22::calories::{parse_input, part1, part2, CaloriesError};

const EXAMPLE_INPUT: &str = "\
1000
2000
3000

4000

5000
6000

7000
8000
9000

10000";

#[test]
fn test_parse() {
    let parsed = parse_input(EXAMPLE_INPUT).unwrap();

    assert_eq!(parsed[0], 6000);
    assert_eq!(parsed[1], 4000);
    assert_eq!(parsed[2], 11000);
    assert_eq!(parsed[3], 24000);
    assert_eq!(parsed[4], 10000);
}

#[test]
fn test_part1() {
    assert_eq!(part1(&parse_input(EXAMPLE_INPUT).unwrap()).unwrap(), 24000);
}

#[test]
fn test_part2() {
    assert_eq!(part2(&parse_input(EXAMPLE_INPUT).unwrap()), 45000);
}

#[test]
fn calories_bad_line_is_rejected() {
    assert_eq!(parse_input("1000\nabc\n\n2000"), Err(CaloriesError::Unreadable));
}

#[test]
fn calories_overflowing_total_is_rejected() {
    assert_eq!(parse_input("4294967295\n1"), Err(CaloriesError::Unreadable));
}

#[test]
fn calories_no_elves_has_no_maximum() {
    assert_eq!(part1(&vec![]), Err(CaloriesError::Empty));
    assert_eq!(part2(&vec![]), 0);
    assert_eq!(part2(&vec![5, 7]), 12);
}

#[test]
fn calories_trailing_blank_line_adds_empty_elf() {
    assert_eq!(parse_input("1\n2\n\n").unwrap(), vec![3, 0]);
}
