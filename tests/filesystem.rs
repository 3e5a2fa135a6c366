use std::path::PathBuf;

use aoc22::arena::{parse_input_arena, part1_arena, part2_arena, ArenaItem};
use aoc22::model::Fault;
use aoc22::queries::{
    needed_for, smallest_directory_at_least, sum_of_directories_at_most, QueryError,
};
use aoc22::transcript::BuildError;
use aoc22::tree::{
    parse_input, part1_internal_iter, part1_iter, part2_internal_iter, part2_iter, Dir, File, Item,
};

const EXAMPLE_INPUT: &str = "\
$ cd /
$ ls
dir a
14848514 b.txt
8504156 c.dat
dir d
$ cd a
$ ls
dir e
29116 f
2557 g
62596 h.lst
$ cd e
$ ls
584 i
$ cd ..
$ cd ..
$ cd d
$ ls
4060174 j
8033020 d.log
5626152 d.ext
7214296 k
";

const ITER_RESULT: [&str; 14] = [
    "/", "a", "e", "i", "f", "g", "h.lst", "b.txt", "c.dat", "d", "j", "d.log", "d.ext", "k",
];

fn path_of(components: Vec<String>) -> PathBuf {
    components.iter().collect()
}

#[test]
fn test_node_construction() {
    let mut root = Dir::new("/");
    root.add_child(Item::File(File::new("foo", 7)));
    root.add_child(Item::Dir(Dir::new("bar")));

    let mut expected = Dir::new("/");
    expected.add_child(Item::File(File::new("foo", 7)));
    expected.add_child(Item::Dir(Dir::new("bar")));

    assert_eq!(path_of(expected.abspath(&vec![0])), path_of(root.abspath(&vec![0])));
}

#[test]
fn test_abspath() {
    let mut root = Dir::new("/");
    let mut child_dir = Dir::new("bar");
    child_dir.add_child(Item::File(File::new("baz", 14)));
    root.add_child(Item::File(File::new("foo", 7)));
    root.add_child(Item::Dir(child_dir));

    assert_eq!(path_of(root.abspath(&vec![0])), PathBuf::from("/foo"));
    let Item::Dir(_) = &root.children[1] else {
        panic!("second child should be a dir")
    };
    assert_eq!(path_of(root.abspath(&vec![1])), PathBuf::from("/bar"));
}

#[test]
fn test_size() {
    let mut root = Dir::new("/");
    let mut child_dir = Dir::new("bar");
    child_dir.add_child(Item::File(File::new("baz", 14)));
    root.add_child(Item::File(File::new("foo", 7)));
    root.add_child(Item::Dir(child_dir));

    assert_eq!(root.size(), 21);
    assert_eq!(root.children[1].size(), 14);
    assert_eq!(root.children[0].size(), 7);

    let root = parse_input(EXAMPLE_INPUT).unwrap();
    let mut cwd: Vec<usize> = Vec::new();
    // root, a, d, e
    assert_eq!(root.size(), 48_381_165);
    root.cd(&mut cwd, "d").unwrap();
    assert_eq!(root.dir_at(&cwd, 0).size(), 24_933_642);
    root.cd(&mut cwd, "..").unwrap();
    root.cd(&mut cwd, "a").unwrap();
    assert_eq!(root.dir_at(&cwd, 0).size(), 94853);
    root.cd(&mut cwd, "e").unwrap();
    assert_eq!(root.dir_at(&cwd, 0).size(), 584);
}

#[test]
fn test_parse_input() {
    let parsed = parse_input(EXAMPLE_INPUT).unwrap();
    assert_eq!(parsed.name, "/");
    assert_eq!(parsed.children[0].name(), "a");
    assert_eq!(parsed.children.last().unwrap().name(), "d");
}

#[test]
fn test_add_child() {
    let mut root = Dir::new("/");
    let mut child_dir = Dir::new("bar");
    // A node on its own is the root of its own tree: its path is empty.
    assert!(Dir::parent_path(&vec![]).is_none());

    root.add_child(Item::File(File::new("foo", 7)));
    assert!(Dir::parent_path(&vec![0]).is_some());
    assert_eq!(path_of(root.abspath(&vec![0])), PathBuf::from("/foo"));

    child_dir.add_child(Item::File(File::new("baz", 14)));
    root.add_child(Item::Dir(child_dir));
    assert!(Dir::parent_path(&vec![1]).is_some());
    assert_eq!(path_of(root.abspath(&vec![1, 0])), PathBuf::from("/bar/baz"));
}

#[test]
fn test_cd() {
    let mut root = Dir::new("/");
    let mut child_dir = Dir::new("bar");
    root.add_child(Item::File(File::new("foo", 7)));
    child_dir.add_child(Item::File(File::new("baz", 14)));
    root.add_child(Item::Dir(child_dir));

    let mut cwd: Vec<usize> = Vec::new();
    assert_eq!(root.dir_at(&cwd, 0).name, "/");
    assert!(Dir::parent_path(&cwd).is_none());

    root.cd(&mut cwd, "bar").unwrap();
    assert_eq!(root.dir_at(&cwd, 0).name, "bar");
    assert!(Dir::parent_path(&cwd).is_some());
    assert_eq!(path_of(root.abspath(&cwd)).to_str().unwrap(), "/bar");

    assert!(root.cd(&mut cwd, "baz").is_err());
    assert_eq!(root.dir_at(&cwd, 0).name, "bar");

    root.cd(&mut cwd, "..").unwrap();
    assert_eq!(root.dir_at(&cwd, 0).name, "/");
}

#[test]
fn test_item_iter() {
    let parsed = Item::Dir(parse_input(EXAMPLE_INPUT).unwrap());
    let items = parsed.iter();
    let mut items = items.iter();

    assert_eq!(items.next().unwrap().name(), "/");
    assert_eq!(items.next().unwrap().name(), "a");
    assert_eq!(items.next().unwrap().name(), "e");
    assert_eq!(items.next().unwrap().name(), "i");
    assert_eq!(items.next().unwrap().name(), "f");
    assert_eq!(items.next().unwrap().name(), "g");
    assert_eq!(items.next().unwrap().name(), "h.lst");
    assert_eq!(items.next().unwrap().name(), "b.txt");
    assert_eq!(items.next().unwrap().name(), "c.dat");
    assert_eq!(items.next().unwrap().name(), "d");
    assert_eq!(items.next().unwrap().name(), "j");
    assert_eq!(items.next().unwrap().name(), "d.log");
    assert_eq!(items.next().unwrap().name(), "d.ext");
    assert_eq!(items.next().unwrap().name(), "k");
}

#[test]
fn test_visit_with_iter() {
    let parsed = parse_input(EXAMPLE_INPUT).unwrap();

    let items = std::cell::RefCell::new(<Vec<String>>::new());
    Item::Dir(parsed).find_map(&|i: &Item| {
        items.borrow_mut().push(i.name().to_string());
        None::<()>
    });

    assert_eq!(items.into_inner(), ITER_RESULT);
}

#[test]
fn visit_by_recursion_matches() {
    let parsed = Item::Dir(parse_input(EXAMPLE_INPUT).unwrap());
    let items: Vec<String> = parsed.collect().iter().map(|i| i.name().to_string()).collect();
    assert_eq!(items, ITER_RESULT);
}

#[test]
fn test_part1_iter() {
    let root = Item::Dir(parse_input(EXAMPLE_INPUT).unwrap());
    assert_eq!(part1_iter(&root, 100_000), 95437);
}

#[test]
fn test_part1_internal_iter() {
    let root = Item::Dir(parse_input(EXAMPLE_INPUT).unwrap());
    assert_eq!(part1_internal_iter(&root, 100_000), 95437);
}

#[test]
fn test_parse_arena() {
    let parsed = parse_input_arena(EXAMPLE_INPUT).unwrap();
    assert_eq!(parsed.at(0).name(), "/");
    assert_eq!(parsed.at(parsed.dir_at(0).unwrap().children[0]).name(), "a");
    assert_eq!(parsed.at(*parsed.dir_at(0).unwrap().children.last().unwrap()).name(), "d");
}

#[test]
fn test_arena_iter() {
    let parsed = parse_input_arena(EXAMPLE_INPUT).unwrap();
    let result: Vec<_> = parsed.iter().into_iter().map(ArenaItem::name).collect();
    assert_eq!(result, ITER_RESULT);
}

#[test]
fn test_part1_arena() {
    let parsed = parse_input_arena(EXAMPLE_INPUT).unwrap();
    assert_eq!(part1_arena(&parsed, 100_000), 95437);
}

#[test]
fn test_part2_iter() {
    let solution = 24_933_642;
    let parsed = Item::Dir(parse_input(EXAMPLE_INPUT).unwrap());
    assert_eq!(part2_iter(&parsed).unwrap(), solution);
}

#[test]
fn test_part2_internal_iter() {
    let solution = 24_933_642;
    let parsed = Item::Dir(parse_input(EXAMPLE_INPUT).unwrap());
    assert_eq!(part2_internal_iter(&parsed).unwrap(), solution);
}

#[test]
fn test_part2_arena() {
    let solution = 24_933_642;
    let arena = parse_input_arena(EXAMPLE_INPUT).unwrap();
    assert_eq!(part2_arena(&arena).unwrap(), solution);
}

fn names_and_sizes_tree(root: &Item) -> Vec<(String, u64)> {
    root.iter().iter().map(|i| (i.name().to_string(), i.size())).collect()
}

#[test]
fn stores_agree_on_example() {
    let tree = Item::Dir(parse_input(EXAMPLE_INPUT).unwrap());
    let arena = parse_input_arena(EXAMPLE_INPUT).unwrap();
    let from_arena: Vec<(String, u64)> = arena
        .iter_indices()
        .into_iter()
        .map(|i| (arena.at(i).name().to_string(), arena.size(i)))
        .collect();
    assert_eq!(names_and_sizes_tree(&tree), from_arena);
    assert_eq!(from_arena[0], ("/".to_string(), 48_381_165));
    assert_eq!(from_arena[1], ("a".to_string(), 94_853));
}

#[test]
fn root_size_is_sum_of_files() {
    let tree = Item::Dir(parse_input(EXAMPLE_INPUT).unwrap());
    let files: u64 = tree
        .iter()
        .iter()
        .filter(|i| matches!(i, Item::File(_)))
        .map(|i| i.size())
        .sum();
    assert_eq!(tree.size(), files);
    assert_eq!(files, 48_381_165);
}

#[test]
fn enter_then_leave_returns_to_start() {
    let root = parse_input(EXAMPLE_INPUT).unwrap();
    let mut cwd: Vec<usize> = Vec::new();
    root.cd(&mut cwd, "a").unwrap();
    let start = cwd.clone();
    root.cd(&mut cwd, "e").unwrap();
    assert_eq!(cwd.len(), start.len() + 1);
    root.cd(&mut cwd, "..").unwrap();
    assert_eq!(cwd, start);
}

#[test]
fn slash_reaches_root_and_is_idempotent() {
    let root = parse_input(EXAMPLE_INPUT).unwrap();
    let mut cwd: Vec<usize> = Vec::new();
    root.cd(&mut cwd, "a").unwrap();
    root.cd(&mut cwd, "e").unwrap();
    root.cd(&mut cwd, "/").unwrap();
    assert!(cwd.is_empty());
    root.cd(&mut cwd, "/").unwrap();
    assert!(cwd.is_empty());

    let arena = parse_input_arena(EXAMPLE_INPUT).unwrap();
    let a = arena.cd(0, "a").unwrap();
    let e = arena.cd(a, "e").unwrap();
    assert_eq!(arena.cd(e, "/"), Ok(0));
    assert_eq!(arena.cd(0, "/"), Ok(0));
    assert_eq!(arena.cd(e, ".."), Ok(a));
}

#[test]
fn traversal_is_repeatable() {
    let tree = Item::Dir(parse_input(EXAMPLE_INPUT).unwrap());
    let first: Vec<String> = tree.iter().iter().map(|i| i.name().to_string()).collect();
    let second: Vec<String> = tree.iter().iter().map(|i| i.name().to_string()).collect();
    let visited: Vec<String> = tree.collect().iter().map(|i| i.name().to_string()).collect();
    assert_eq!(first, second);
    assert_eq!(first, visited);
    assert_eq!(first, ITER_RESULT);
    let arena = parse_input_arena(EXAMPLE_INPUT).unwrap();
    assert_eq!(arena.iter_indices(), arena.iter_indices());
}

#[test]
fn early_exit_visitors() {
    let tree = Item::Dir(parse_input(EXAMPLE_INPUT).unwrap());
    let found = tree.find_map(&|i: &Item| if i.name() == "d.log" { Some(i.size()) } else { None });
    assert_eq!(found, Some(8_033_020));
    let missing = tree.find_map(&|i: &Item| if i.name() == "zzz" { Some(0u64) } else { None });
    assert_eq!(missing, None);
    let first_file = tree.try_for_each(&|i: &Item| match i {
        Item::File(f) => std::ops::ControlFlow::Break(f.name.clone()),
        Item::Dir(_) => std::ops::ControlFlow::Continue(()),
    });
    assert_eq!(first_file, std::ops::ControlFlow::Break("i".to_string()));
}

#[test]
fn transcript_errors() {
    assert!(matches!(parse_input("$ cd /\nfoo bar baz\n"), Err(BuildError::Parse(l)) if l == "foo bar baz"));
    assert!(matches!(parse_input("$ ls\n"), Err(BuildError::Nav(Fault::Uninitialized))));
    assert!(matches!(parse_input(""), Err(BuildError::Nav(Fault::Uninitialized))));
    assert!(matches!(parse_input("$ cd /\n$ cd ..\n"), Err(BuildError::Nav(Fault::NoParent))));
    assert!(matches!(parse_input("$ cd /\n$ cd x\n"), Err(BuildError::Nav(Fault::NoSuchDir))));
    assert!(matches!(parse_input("$ cd /\n4294967296 big\n"), Err(BuildError::Parse(_))));
    assert!(matches!(parse_input_arena("$ cd /\n\n"), Err(BuildError::Parse(l)) if l.is_empty()));
    assert!(matches!(parse_input_arena("dir a\n"), Err(BuildError::Nav(Fault::Uninitialized))));
    assert!(matches!(parse_input_arena("$ cd /\n$ cd ..\n"), Err(BuildError::Nav(Fault::NoParent))));
    assert!(matches!(parse_input_arena("$ cd /\n1 f\n$ cd f\n"), Err(BuildError::Nav(Fault::NoSuchDir))));
}

#[test]
fn transcript_forms() {
    let root = parse_input("$ cd /\r\n  dir   x \r\n+5 f\r\n$ cd x\r\n7 g").unwrap();
    assert_eq!(root.size(), 12);
    assert_eq!(root.children.len(), 2);
    assert_eq!(root.children[1].name(), "f");
    // cd to a name held twice goes to the first of them
    let root = parse_input("$ cd /\ndir x\ndir x\n$ cd x\n3 f\n").unwrap();
    assert_eq!(root.children[0].size(), 3);
    assert_eq!(root.children[1].size(), 0);
    // a second cd / does not start a new tree
    let arena = parse_input_arena("$ cd /\ndir a\n$ cd a\n$ cd /\n2 f\n").unwrap();
    assert_eq!(arena.dir_at(0).unwrap().children.len(), 2);
    assert_eq!(arena.size(0), 2);
}

#[test]
fn queries_on_sizes() {
    assert_eq!(sum_of_directories_at_most(&vec![5, 10, 15], 10), 15);
    assert_eq!(sum_of_directories_at_most(&vec![], 10), 0);
    assert_eq!(smallest_directory_at_least(&vec![30, 10, 20], 15), Ok(20));
    assert_eq!(smallest_directory_at_least(&vec![3, 4], 5), Err(QueryError::NotFound));
    assert_eq!(needed_for(48_381_165), 8_381_165);
    assert_eq!(needed_for(100), 0);
}

#[test]
fn small_tree_queries() {
    let tree = Item::Dir(parse_input("$ cd /\n100 f\n").unwrap());
    assert_eq!(part1_iter(&tree, 100_000), 100);
    assert_eq!(part1_iter(&tree, 99), 0);
    assert_eq!(part2_iter(&tree), Ok(100));
    let arena = parse_input_arena("$ cd /\n100 f\n").unwrap();
    assert_eq!(part2_arena(&arena), Ok(100));
}

#[test]
fn later_root_change_keeps_the_tree() {
    let text = "$ cd /\ndir a\n$ cd a\n1 x\n$ cd /\n2 y\n$ cd a\n3 z\n";
    let root = parse_input(text).unwrap();
    assert_eq!(root.children.len(), 2);
    assert_eq!(root.children[0].name(), "a");
    assert_eq!(root.children[1].name(), "y");
    assert_eq!(root.children[0].size(), 4);
    assert_eq!(root.size(), 6);
    let arena = parse_input_arena(text).unwrap();
    assert_eq!(arena.size(0), 6);
    assert_eq!(arena.parent_of(0), None);
    for i in 1..5 {
        assert!(arena.parent_of(i).is_some());
    }
    let names: Vec<&str> = arena.iter().into_iter().map(ArenaItem::name).collect();
    assert_eq!(names, vec!["/", "a", "x", "z", "y"]);
}

#[test]
fn arena_indices_repeat_with_twin_directories() {
    let arena = parse_input_arena("$ cd /\ndir s\ndir s\n").unwrap();
    assert_eq!(arena.iter_indices(), vec![0, 1, 2]);
    assert_eq!(arena.iter_indices(), arena.iter_indices());
    assert_eq!(arena.children_of(0), &[1, 2]);
}
