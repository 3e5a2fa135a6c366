use aoc22::sections::{parse_pairs, part1, part2, ElfPair, Section, SectionError};

const EXAMPLE_INPUT: &str = "\
2-4,6-8
2-3,4-5
5-7,7-9
2-8,3-7
6-6,4-6
2-6,4-8
";

#[test]
fn test_parse_section() {
    let section: Section = Section::parse("2-4").unwrap();
    assert_eq!(section.ids(), vec![2_usize, 3, 4]);
}

#[test]
fn test_parse_elfpair() {
    let elfpair: ElfPair = ElfPair::parse(EXAMPLE_INPUT.lines().next().unwrap()).unwrap();
    assert_eq!(elfpair.0.ids(), vec![2_usize, 3, 4]);
    assert_eq!(elfpair.1.ids(), vec![6_usize, 7, 8]);
    assert_eq!(elfpair, ElfPair(Section { start: 2, end: 4 }, Section { start: 6, end: 8 }));
}

#[test]
fn sections_part1_example() {
    let pairs = parse_pairs(EXAMPLE_INPUT).unwrap();
    assert_eq!(part1(&pairs), 2);
}

#[test]
fn sections_part2_example() {
    let pairs = parse_pairs(EXAMPLE_INPUT).unwrap();
    assert_eq!(part2(&pairs), 4);
}

#[test]
fn sections_edge_cases() {
    assert_eq!(Section::parse("7"), Err(SectionError::BadSection));
    assert_eq!(Section::parse("a-3"), Err(SectionError::BadSection));
    assert_eq!(parse_pairs("1-2\n"), Err(SectionError::BadPair));
    assert_eq!(Section::parse("5-3").unwrap().ids(), Vec::<usize>::new());
    let empty_inside = ElfPair(Section { start: 5, end: 3 }, Section { start: 1, end: 2 });
    assert!(empty_inside.duplicated_effort());
    assert!(!empty_inside.partial_overlaps());
    let touching = ElfPair(Section { start: 1, end: 3 }, Section { start: 3, end: 9 });
    assert!(touching.partial_overlaps());
    assert!(!touching.duplicated_effort());
}
