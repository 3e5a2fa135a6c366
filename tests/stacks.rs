use aoc22::stacks::{parse_input, part1, part2, CraneError, Instruction, Ship, Stack};

const EXAMPLE_INPUT: &str = r#"
    [D]
[N] [C]
[Z] [M] [P]
 1   2   3

move 1 from 2 to 1
move 3 from 1 to 3
move 2 from 2 to 1
move 1 from 1 to 2
"#;

#[test]
fn test_parse_instruction() {
    let input = "move 1 from 2 to 1";
    let parsed: Instruction = Instruction::parse(input).unwrap();
    let expected = Instruction { mv: 1, from: 2, to: 1 };
    assert_eq!(parsed, expected);
}

#[test]
fn test_parse_ship() {
    let input = r#"
    [D]
[N] [C]
[Z] [M] [P]
 1   2   3
"#;

    let parsed: Ship = Ship::parse(input).unwrap();
    let expected = Ship(vec![
        Stack(vec!['Z', 'N']),
        Stack(vec!['M', 'C', 'D']),
        Stack(vec!['P']),
    ]);
    assert_eq!(parsed, expected);
}

#[test]
fn stacks_part1_example() {
    let (mut ship, instructions) = parse_input(EXAMPLE_INPUT).unwrap();
    let tops: String = part1(&mut ship, &instructions).unwrap().into_iter().collect();
    assert_eq!(tops, "CMZ");
}

#[test]
fn stacks_part2_example() {
    let (mut ship, instructions) = parse_input(EXAMPLE_INPUT).unwrap();
    let tops: String = part2(&mut ship, &instructions).unwrap().into_iter().collect();
    assert_eq!(tops, "MCD");
}

#[test]
fn stacks_errors() {
    assert_eq!(parse_input("[A]\n 1\n").unwrap_err(), CraneError::NoParts);
    assert_eq!(Ship::parse("\n  \n").unwrap_err(), CraneError::NoCount);
    assert_eq!(Ship::parse("[AB]\n 1\n").unwrap_err(), CraneError::BadSlot);
    assert_eq!(Ship::parse("[A] [B]\n 1\n").unwrap_err(), CraneError::NoSuchStack);
    assert_eq!(Instruction::parse("move 1 from 2").unwrap_err(), CraneError::BadInstruction);
    let mut ship = Ship::parse("[A]\n 1   2\n").unwrap();
    assert_eq!(ship, Ship(vec![Stack(vec!['A']), Stack(vec![])]));
    let mv = |mv, from, to| Instruction { mv, from, to };
    assert_eq!(part1(&mut ship.clone(), &vec![mv(2, 1, 2)]), Err(CraneError::EmptyStack));
    assert_eq!(part2(&mut ship.clone(), &vec![mv(2, 1, 2)]), Err(CraneError::EmptyStack));
    assert_eq!(part1(&mut ship.clone(), &vec![mv(1, 3, 1)]), Err(CraneError::NoSuchStack));
    // the first stack ends empty, so there is no top crate to report
    assert_eq!(part1(&mut ship, &vec![mv(1, 1, 2)]), Err(CraneError::EmptyStack));
    assert_eq!(ship, Ship(vec![Stack(vec![]), Stack(vec!['A'])]));
}

#[test]
fn stacks_letters_are_unicode_letters() {
    let ship = Ship::parse("[é] [1]\n 1   2\n").unwrap();
    assert_eq!(ship, Ship(vec![Stack(vec!['é']), Stack(vec![])]));
    assert_eq!(Ship::parse("[ab]\n 1\n").unwrap_err(), CraneError::BadSlot);
}
