use aoc22::marker::{part1, part2, scan_buffer, MarkerError};

const EXAMPLE_INPUT: [(&str, (usize, usize)); 5] = [
    ("mjqjpqmgbljsphdztnvjfqwrcgsmlb", (7, 19)),
    ("bvwbjplbgvbhsrlpgdmjqwftvncz", (5, 23)),
    ("nppdvjthqldpwncqszvftbrmjlhg", (6, 23)),
    ("nznrnfrfntjfmvfwmzdfjlvtqnbhcprsg", (10, 29)),
    ("zcfzfwzzqfrljwzlrfnpqdbhtmscgvjw", (11, 26)),
];

#[test]
fn main_test_part1() {
    for (input, (expected, _)) in EXAMPLE_INPUT {
        assert_eq!(part1(input).unwrap(), expected);
    }
}

#[test]
fn main_test_part2() {
    for (input, (_, expected)) in EXAMPLE_INPUT {
        assert_eq!(part2(input).unwrap(), expected);
    }
}

#[test]
fn marker_absent_or_too_short() {
    assert_eq!(part1("aaaaaaa"), Err(MarkerError::NotFound));
    assert_eq!(part1("abc"), Err(MarkerError::NotFound));
    assert_eq!(scan_buffer("abcd", 4), Ok(4));
    assert_eq!(scan_buffer("x", 1), Ok(1));
}
