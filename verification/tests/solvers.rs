//! The solvers exercised on the sample puzzle inputs.

use aoc_solvers::day3;
use aoc_solvers::day4;
use aoc_solvers::day5;
use aoc_solvers::day6;
use aoc_solvers::day6::FlowCache;
use aoc_solvers::day7;
use aoc_solvers::day8;
use aoc_solvers::day9;

#[test]
fn day3_test() {
    let day3_test_input = r#"
vJrwpWtwJgWrhcsFMMfFFhFp
jqHRNqRjqzjGDLGLrsFMfFZSrLrFZsSL
PmmdzqPrVvPwwTWBwg
wMqvLMZHhHMvwLHjbvcjnnSBnvTQFn
ttgJtRGJQctTZtZT
CrZsJsPPZsGzwwsLwLmpwMDw
    "#
    .trim();
    assert_eq!(day3::solve(day3_test_input).unwrap(), 157);
}

#[test]
fn test_day4() {
    let day4_input = r#"
2-4,6-8
2-3,4-5
5-7,7-9
2-8,3-7
6-6,4-6
2-6,4-8
    "#
    .trim();
    assert_eq!(2, day4::solve(day4_input).unwrap());
}

#[test]
fn test_update_stacks() {
    let input = r#"
    [D]
[N] [C]
[Z] [M] [P]
"#
    .strip_prefix("\n")
    .unwrap()
    .strip_suffix("\n")
    .unwrap();
    let mut stacks: Vec<Vec<u8>> = Vec::new();
    for line in input.lines() {
        day5::update_stacks(&line.as_bytes().to_vec(), &mut stacks);
    }
    assert_eq!([b'Z', b'N'], stacks.get(0).unwrap().as_slice());
    assert_eq!([b'M', b'C', b'D'], stacks.get(1).unwrap().as_slice());
    assert_eq!([b'P'], stacks.get(2).unwrap().as_slice());
}

#[test]
fn test_item_on_stack() {
    let line = "[D]                     [N] [F]".as_bytes().to_vec();
    assert_eq!(Some(b'D'), day5::item_on_stack(0, &line));
    assert_eq!(None, day5::item_on_stack(1, &line));
    assert_eq!(None, day5::item_on_stack(2, &line));
    assert_eq!(None, day5::item_on_stack(3, &line));
    assert_eq!(None, day5::item_on_stack(4, &line));
    assert_eq!(None, day5::item_on_stack(5, &line));
    assert_eq!(Some(b'N'), day5::item_on_stack(6, &line));
    assert_eq!(Some(b'F'), day5::item_on_stack(7, &line));
    assert_eq!(None, day5::item_on_stack(8, &line));
}

#[test]
fn day5_test_solve() {
    let input = r#"
    [D]    
[N] [C]    
[Z] [M] [P]
 1   2   3 

move 1 from 2 to 1
move 3 from 1 to 3
move 2 from 2 to 1
move 1 from 1 to 2
"#
    .strip_prefix("\n")
    .unwrap()
    .strip_suffix("\n")
    .unwrap();
    let solution = day5::solve(input).unwrap();
    assert_eq!("CMZ", solution.as_str());
}

#[test]
fn day5_test_solve2() {
    let input = r#"
    [D]    
[N] [C]    
[Z] [M] [P]
 1   2   3 

move 1 from 2 to 1
move 3 from 1 to 3
move 2 from 2 to 1
move 1 from 1 to 2
"#
    .strip_prefix("\n")
    .unwrap()
    .strip_suffix("\n")
    .unwrap();
    let solution = day5::solve2(input).unwrap();
    assert_eq!("MCD", solution.as_str());
}

#[test]
fn test_flow_cache() {
    let mut fc = FlowCache::new(4);
    fc.push(b'a');
    fc.push(b'b');
    assert!(!fc.all_unique());
    fc.push(b'c');
    assert!(!fc.all_unique());
    fc.push(b'a');
    assert!(!fc.all_unique());
    fc.push(b'b');
    assert!(!fc.all_unique());
    fc.push(b'd');
    assert!(fc.all_unique());
    fc.push(b'a');
    assert!(!fc.all_unique());
}

#[test]
fn day6_test_solve() {
    assert_eq!(5, day6::solve("bvwbjplbgvbhsrlpgdmjqwftvncz").unwrap());
    assert_eq!(6, day6::solve("nppdvjthqldpwncqszvftbrmjlhg").unwrap());
    assert_eq!(10, day6::solve("nznrnfrfntjfmvfwmzdfjlvtqnbhcprsg").unwrap());
    assert_eq!(11, day6::solve("zcfzfwzzqfrljwzlrfnpqdbhtmscgvjw").unwrap());
}

#[test]
fn day6_test_solve2() {
    assert_eq!(19, day6::solve2("mjqjpqmgbljsphdztnvjfqwrcgsmlb").unwrap());
    assert_eq!(23, day6::solve2("bvwbjplbgvbhsrlpgdmjqwftvncz").unwrap());
    assert_eq!(23, day6::solve2("nppdvjthqldpwncqszvftbrmjlhg").unwrap());
    assert_eq!(29, day6::solve2("nznrnfrfntjfmvfwmzdfjlvtqnbhcprsg").unwrap());
    assert_eq!(26, day6::solve2("zcfzfwzzqfrljwzlrfnpqdbhtmscgvjw").unwrap());
}

#[test]
fn day7_test_solve() {
    let input = r#"
$ cd /
$ ls
dir a
14848514 b.txt
8504156 c.dat
dir d
$ cd a
$ ls
dir e
29116 f
2557 g
62596 h.lst
$ cd e
$ ls
584 i
$ cd ..
$ cd ..
$ cd d
$ ls
4060174 j
8033020 d.log
5626152 d.ext
7214296 k
"#
    .strip_prefix("\n")
    .unwrap()
    .strip_suffix("\n")
    .unwrap();
    assert_eq!(95437, day7::solve(input).unwrap());
    assert_eq!(24933642, day7::solve2(input).unwrap())
}

#[test]
fn day8_test_solve() {
    let input = r#"
30373
25512
65332
33549
35390
"#
    .trim();

    assert_eq!(21, day8::solve(input).unwrap());
}

#[test]
fn day8_test_solve2() {
    let input = r#"
30373
25512
65332
33549
35390
"#
    .trim();

    let map = day8::build_map(input).unwrap();
    assert_eq!(4, map.scenic_score(1, 2).unwrap());
    assert_eq!(8, map.scenic_score(3, 2).unwrap());

    assert_eq!(8, day8::solve2(input).unwrap());
}

#[test]
fn day9_test_solve() {
    let input = r#"
R 4
U 4
"#
    .trim();
    assert_eq!(7, day9::solve(input).unwrap());

    let input = r#"
R 4
U 4
L 3
D 1
R 4
D 1
L 5
R 2
"#
    .trim();
    assert_eq!(13, day9::solve(input).unwrap());
}

#[test]
fn day9_test_solve2() {
    let input = r#"
R 5
U 8
L 8
D 3
R 17
D 10
L 25
U 20
"#
    .trim();
    assert_eq!(36, day9::solve2(input).unwrap());
}
