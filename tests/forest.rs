use aoc22::forest::{part1, part2, Forest, ForestError};

const EXAMPLE_INPUT: &str = r#"
30373
25512
65332
33549
35390
"#;

#[test]
fn main_test_parse() {
    let parsed: Forest = Forest::parse(EXAMPLE_INPUT).unwrap();
    assert_eq!(parsed.0[0][0].height, 3);
    assert_eq!(parsed.0[1][0].height, 2);
    assert_eq!(parsed.0[1][1].height, 5);
    assert_eq!(parsed.0[4][4].height, 0);
}

#[test]
fn forest_part1_example() {
    assert_eq!(part1(&Forest::parse(EXAMPLE_INPUT).unwrap()).unwrap(), 21);
}

#[test]
fn test_get_tree_mut() {
    let mut parsed: Forest = Forest::parse(EXAMPLE_INPUT).unwrap();
    assert_eq!(parsed.get_tree_mut((0, 0)).unwrap().height, 3);
    assert_eq!(parsed.get_tree_mut((0, 1)).unwrap().height, 2);
    assert_eq!(parsed.get_tree_mut((1, 1)).unwrap().height, 5);
    assert_eq!(parsed.get_tree_mut((4, 4)).unwrap().height, 0);
}

#[test]
fn forest_part2_example() {
    let mut forest: Forest = Forest::parse(EXAMPLE_INPUT).unwrap();
    forest.get_distances().unwrap();

    let tree = &forest.0[3][2];
    assert_eq!(tree.height, 5);

    let views = &tree.views;
    assert_eq!(views.up.unwrap(), 2);
    assert_eq!(views.left.unwrap(), 2);
    assert_eq!(views.down.unwrap(), 1);
    assert_eq!(views.right.unwrap(), 2);

    forest = Forest::parse(EXAMPLE_INPUT).unwrap();
    assert_eq!(part2(&mut forest).unwrap(), 8);
}

#[test]
fn forest_errors_and_edges() {
    assert_eq!(Forest::parse("12\n3x\n").unwrap_err(), ForestError::BadHeight);
    let mut empty = Forest::parse("  \n ").unwrap();
    assert_eq!(empty.dims(), Err(ForestError::Empty));
    assert_eq!(part1(&empty), Err(ForestError::Empty));
    assert_eq!(part2(&mut empty), Err(ForestError::Empty));
    let mut ragged = Forest::parse("123\n45\n").unwrap();
    assert_eq!(part1(&ragged), Err(ForestError::Ragged));
    assert_eq!(ragged.get_distances(), Err(ForestError::Ragged));
    assert!(ragged.get_tree_mut((2, 1)).is_err());
    ragged.get_tree_mut((1, 1)).unwrap().height = 9;
    assert_eq!(ragged.0[1][1].height, 9);
    let mut one = Forest::parse("7").unwrap();
    assert_eq!(one.dims(), Ok((1, 1)));
    assert_eq!(part1(&one), Ok(1));
    assert_eq!(part2(&mut one), Ok(0));
}
