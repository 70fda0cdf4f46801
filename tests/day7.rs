use advent_of_rust_22::day7::Day7;
use advent_of_rust_22::AOCSolutions;

const SAMPLE_INPUT: &str = r"$ cd /
$ ls
dir a
14848514 b.txt
8504156 c.dat
dir d
$ cd a
$ ls
dir e
29116 f
2557 g
62596 h.lst
$ cd e
$ ls
584 i
$ cd ..
$ cd ..
$ cd d
$ ls
4060174 j
8033020 d.log
5626152 d.ext
7214296 k";

#[test]
fn day7_test_get_star_1() {
    assert_eq!(Day7::get_star_1(SAMPLE_INPUT).unwrap(), 95437);
}

#[test]
fn day7_test_get_star_2() {
    assert_eq!(Day7::get_star_2(SAMPLE_INPUT).unwrap(), 24933642);
}

#[test]
fn day7_directory_sizes() {
    let fs = Day7::parse(SAMPLE_INPUT.as_bytes());
    let size_of = |p: &str| fs.iter().find(|e| e.path == p.as_bytes()).map(|e| e.size);
    assert_eq!(size_of("/"), Some(48381165));
    assert_eq!(size_of("/a"), Some(94853));
    assert_eq!(size_of("/a/e"), Some(584));
    assert_eq!(size_of("/d"), Some(24933642));
    assert!(fs.iter().all(|e| e.evaluated || e.path.is_empty()));
}

#[test]
fn day7_enough_space_is_an_error() {
    assert_eq!(Day7::get_star_2("$ cd /\n$ ls\n100 a\n"), Err(()));
    assert_eq!(Day7::get_star_1("$ cd /\n$ ls\n100 a\n"), Ok(100));
}
