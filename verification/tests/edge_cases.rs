//! Scenario and boundary tests: exact values for each formula, one
//! input per error case, and repeatability of every solver.

use aoc_solvers::day1;
use aoc_solvers::day2;
use aoc_solvers::day3;
use aoc_solvers::day4;
use aoc_solvers::day5;
use aoc_solvers::day6;
use aoc_solvers::day7;
use aoc_solvers::day8;
use aoc_solvers::day9;
use aoc_solvers::errors::SolveError;

#[test]
fn day1_max_group() {
    let input = "1000\n2000\n3000\n\n4000\n\n5000\n6000\n\n7000\n8000\n9000\n\n10000";
    assert_eq!(24000, day1::solve(input).unwrap());
}

#[test]
fn day1_counts_the_final_group() {
    // The open group at the end of the input is a group too.
    assert_eq!(300, day1::solve("100\n\n100\n200").unwrap());
}

#[test]
fn day1_top_three_groups() {
    let input = "1000\n2000\n3000\n\n4000\n\n5000\n6000\n\n7000\n8000\n9000\n\n10000";
    assert_eq!(45000, day1::solve2(input).unwrap());
}

#[test]
fn day1_too_few_groups() {
    assert_eq!(Err(SolveError::TooFewGroups), day1::solve2("1\n\n2"));
}

#[test]
fn day1_bad_number() {
    assert_eq!(Err(SolveError::Malformed), day1::solve("12x"));
}

#[test]
fn day2_round_scores() {
    let input = "A Y\nB X\nC Z";
    assert_eq!(15, day2::solve(input).unwrap());
    assert_eq!(12, day2::solve2(input).unwrap());
}

#[test]
fn day2_unknown_line() {
    assert_eq!(Err(SolveError::Malformed), day2::solve("A Q"));
    assert_eq!(Err(SolveError::Malformed), day2::solve2("AX"));
}

#[test]
fn day3_badge_groups() {
    let input = r#"
vJrwpWtwJgWrhcsFMMfFFhFp
jqHRNqRjqzjGDLGLrsFMfFZSrLrFZsSL
PmmdzqPrVvPwwTWBwg
wMqvLMZHhHMvwLHjbvcjnnSBnvTQFn
ttgJtRGJQctTZtZT
CrZsJsPPZsGzwwsLwLmpwMDw
    "#
    .trim();
    assert_eq!(70, day3::solve2(input).unwrap());
}

#[test]
fn day3_no_shared_item() {
    assert_eq!(Err(SolveError::Malformed), day3::solve("abcd"));
}

#[test]
fn day3_item_values() {
    assert_eq!(1, day3::value_for(b'a'));
    assert_eq!(26, day3::value_for(b'z'));
    assert_eq!(27, day3::value_for(b'A'));
    assert_eq!(52, day3::value_for(b'Z'));
}

#[test]
fn day4_overlaps() {
    let input = "2-4,6-8\n2-3,4-5\n5-7,7-9\n2-8,3-7\n6-6,4-6\n2-6,4-8";
    assert_eq!(4, day4::solve2(input).unwrap());
}

#[test]
fn day4_bad_range() {
    assert_eq!(Err(SolveError::Malformed), day4::solve("2-4"));
    assert_eq!(Err(SolveError::Malformed), day4::solve("2-4,6-8,1-2"));
    assert_eq!(Err(SolveError::Malformed), day4::solve("a-4,6-8"));
}

#[test]
fn day5_moving_too_many_crates() {
    let input = "[A] [B]\n 1   2 \n\nmove 3 from 1 to 2";
    assert_eq!(Err(SolveError::Malformed), day5::solve(input));
}

#[test]
fn day5_stack_out_of_range() {
    let input = "[A] [B]\n 1   2 \n\nmove 1 from 9 to 2";
    assert_eq!(Err(SolveError::Malformed), day5::solve(input));
}

#[test]
fn day5_unmatched_lines_are_skipped() {
    let input = "[A] [B]\n 1   2 \n\nnothing to see here\nmove 1 from 1 to 2";
    assert_eq!(" A", day5::solve(input).unwrap().as_str());
}

#[test]
fn day6_rejects_short_input() {
    assert_eq!(Err(SolveError::NoMarker), day6::solve("abc"));
    assert_eq!(Err(SolveError::NoMarker), day6::solve2("bvwbjplbgvb"));
}

#[test]
fn day6_rejects_stream_without_marker() {
    assert_eq!(Err(SolveError::NoMarker), day6::solve("aabbccddaabbccdd"));
}

#[test]
fn day7_cd_up_from_root() {
    assert_eq!(Err(SolveError::NoParent), day7::solve("$ cd .."));
}

#[test]
fn day7_descend_into_file() {
    let input = "$ cd /\n$ ls\n10 f\n$ cd f\n$ ls";
    assert_eq!(Err(SolveError::NotADir), day7::solve(input));
}

#[test]
fn day7_size_overflow() {
    let input = "$ cd /\n$ ls\n4000000000 a\n4000000000 b";
    assert_eq!(Err(SolveError::Overflow), day7::solve(input));
    assert_eq!(Err(SolveError::Overflow), day7::solve2(input));
}

#[test]
fn day7_capacity_exceeded() {
    let input = "$ cd /\n$ ls\n71000000 a";
    assert_eq!(Err(SolveError::CapacityExceeded), day7::solve2(input));
}

#[test]
fn day7_no_deficit() {
    let input = "$ cd /\n$ ls\n100 a";
    assert_eq!(Err(SolveError::NoDeficit), day7::solve2(input));
}

#[test]
fn day7_malformed_listing() {
    assert_eq!(Err(SolveError::Malformed), day7::solve("what is this"));
}

#[test]
fn day7_sizes_follow_the_tree() {
    // A nested directory of 99990 under a root of exactly 100000:
    // both totals stay within the threshold, and both count.
    let input = "$ cd /\n$ ls\ndir a\n10 big\n$ cd a\n$ ls\n99990 f";
    assert_eq!(199990, day7::solve(input).unwrap());
}

#[test]
fn day8_bad_cell() {
    assert_eq!(Err(SolveError::Malformed), day8::solve("12\n3x"));
}

#[test]
fn day8_ragged_rows() {
    assert_eq!(Err(SolveError::Malformed), day8::solve("123\n12"));
}

#[test]
fn day8_row_too_wide() {
    let wide = "1".repeat(65536);
    assert_eq!(Err(SolveError::TooLarge), day8::solve(&wide));
}

#[test]
fn day8_single_cell() {
    assert_eq!(1, day8::solve("5").unwrap());
    assert_eq!(0, day8::solve2("5").unwrap());
}

#[test]
fn day8_empty_grid() {
    assert_eq!(0, day8::solve("").unwrap());
    assert_eq!(0, day8::solve2("").unwrap());
}

#[test]
fn day9_bad_direction() {
    assert_eq!(Err(SolveError::Malformed), day9::solve("X 3"));
    assert_eq!(Err(SolveError::Malformed), day9::solve("R three"));
    assert_eq!(Err(SolveError::Malformed), day9::solve("R 3 4"));
}

#[test]
fn day9_too_many_moves() {
    assert_eq!(Err(SolveError::TooManyMoves), day9::solve("R 1073741824"));
}

#[test]
fn day9_stationary_tail() {
    // One step right: the tail never has to move.
    assert_eq!(1, day9::solve("R 1").unwrap());
}

#[test]
fn solvers_repeat_identically() {
    // Running any solver twice on the same input gives the same
    // answer: there is no hidden state.
    let in1 = "100\n200\n\n50";
    assert_eq!(day1::solve(in1), day1::solve(in1));
    assert_eq!(day1::solve2(in1), day1::solve2(in1));
    let in2 = "A Y\nB X";
    assert_eq!(day2::solve(in2), day2::solve(in2));
    assert_eq!(day2::solve2(in2), day2::solve2(in2));
    let in3 = "vJrwpWtwJgWrhcsFMMfFFhFp";
    assert_eq!(day3::solve(in3), day3::solve(in3));
    let in4 = "2-4,6-8\n2-8,3-7";
    assert_eq!(day4::solve(in4), day4::solve(in4));
    let in5 = "[A] [B]\n 1   2 \n\nmove 1 from 1 to 2";
    assert_eq!(day5::solve(in5), day5::solve(in5));
    let in6 = "bvwbjplbgvbhsrlpgdmjqwftvncz";
    assert_eq!(day6::solve(in6), day6::solve(in6));
    let in7 = "$ cd /\n$ ls\n584 i";
    assert_eq!(day7::solve(in7), day7::solve(in7));
    let in8 = "30373\n25512";
    assert_eq!(day8::solve(in8), day8::solve(in8));
    let in9 = "R 4\nU 4";
    assert_eq!(day9::solve(in9), day9::solve(in9));
}
