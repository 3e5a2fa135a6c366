use aoc22::numbers::parse_u32_lines;

const U32_TEST: &str = "123\n456";

#[test]
fn test_read_to_u32_from_str() {
    let result = parse_u32_lines(U32_TEST);
    let expected = vec![123_u32, 456];
    assert_eq!(expected, result.unwrap());
}

#[test]
fn numbers_bad_line_is_reported() {
    assert_eq!(parse_u32_lines("1\nx\n3"), Err(1));
    assert_eq!(parse_u32_lines("1\n\n3"), Err(1));
    assert_eq!(parse_u32_lines("4294967295\n"), Ok(vec![u32::MAX]));
    assert_eq!(parse_u32_lines("4294967296\n"), Err(0));
    assert_eq!(parse_u32_lines(""), Ok(vec![]));
}
