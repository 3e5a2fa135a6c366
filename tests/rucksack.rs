use std::collections::HashSet;

use aoc22::rucksack::{part1, part2, RuckError, RuckSack};

const EXAMPLE_INPUT: &str = "\
vJrwpWtwJgWrhcsFMMfFFhFp
jqHRNqRjqzjGDLGLrsFMfFZSrLrFZsSL
PmmdzqPrVvPwwTWBwg
wMqvLMZHhHMvwLHjbvcjnnSBnvTQFn
ttgJtRGJQctTZtZT
CrZsJsPPZsGzwwsLwLmpwMDw
";

fn set_of(v: &[char]) -> HashSet<char> {
    v.iter().copied().collect()
}

#[test]
fn test_make_rucksack() {
    let r: RuckSack = RuckSack::parse(EXAMPLE_INPUT.lines().next().unwrap()).unwrap();
    let expected_first: HashSet<char> = "vJrwpWtwJgWr".chars().collect();
    let expected_second: HashSet<char> = "hcsFMMfFFhFp".chars().collect();
    assert_eq!(set_of(&r.first), expected_first);
    assert_eq!(set_of(&r.second), expected_second);
}

#[test]
fn test_score_ruckscack() {
    let r = RuckSack {
        first: "vJrwpWtwJgWr".chars().collect(),
        second: "hcsFMMfFFhFp".chars().collect(),
    };
    let common: HashSet<char> = set_of(&r.in_common());
    assert_eq!(common, HashSet::from(['p']));
    assert_eq!(r.score().unwrap(), 16);
}

#[test]
fn rucksack_part1_example() {
    assert_eq!(part1(EXAMPLE_INPUT).unwrap(), 157);
}

#[test]
fn rucksack_part2_example() {
    assert_eq!(part2(EXAMPLE_INPUT).unwrap(), 70);
}

#[test]
fn rucksack_errors() {
    assert_eq!(part1("ab\n\ncd\n").unwrap_err(), RuckError::Empty);
    assert_eq!(part1("1x1y\n").unwrap_err(), RuckError::Unscorable);
    assert_eq!(part2("ab\ncd\nef\n").unwrap_err(), RuckError::BadgeCount);
    assert_eq!(part2("a1\nb1\nc1\n").unwrap_err(), RuckError::Unscorable);
    // lines after the last full group are ignored
    assert_eq!(part2("aX\naY\naZ\nqq\n").unwrap(), 1);
    let r = RuckSack::parse("abcab").unwrap();
    assert_eq!(r.first, vec!['a', 'b']);
    assert_eq!(r.second, vec!['c', 'a']);
    assert_eq!(r.in_common(), vec!['a']);
}
