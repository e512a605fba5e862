use puzzles::day1;
use puzzles::day2;
use puzzles::day3;
use puzzles::day4;
use puzzles::day6;
use puzzles::day10;

const DAY1_INPUT: &'static str = "1000
2000
3000

4000

5000
6000

7000
8000
9000

10000";

#[test]
fn solve_day_1() {
    let input = day1::parse(DAY1_INPUT).unwrap();
    assert_eq!(day1::part1(&input), 24000);
    assert_eq!(day1::part2(&input), 45000);
}

#[test]
fn day_1_rejects_bad_numbers() {
    assert!(day1::parse("12\nx9\n34").is_none());
}

#[test]
fn solve_day_2() {
    let input = day2::parse("A Y\nB X\nC Z").unwrap();
    assert_eq!(day2::part1(&input), 15);
    assert_eq!(day2::part2(&input), 12);
}

#[test]
fn day_2_rejects_bad_letters() {
    assert!(day2::parse("A Y\nB Q").is_none());
    assert!(day2::parse("A").is_none());
}

const DAY3_INPUT: &'static str = "vJrwpWtwJgWrhcsFMMfFFhFp
jqHRNqRjqzjGDLGLrsFMfFZSrLrFZsSL
PmmdzqPrVvPwwTWBwg
wMqvLMZHhHMvwLHjbvcjnnSBnvTQFn
ttgJtRGJQctTZtZT
CrZsJsPPZsGzwwsLwLmpwMDw";

#[test]
fn solve_day_three() {
    let input = day3::parse(DAY3_INPUT);
    assert_eq!(day3::part1(&input), 157);
    assert_eq!(day3::part2(&input), 70);
}

const DAY4_INPUT: &'static str = "2-4,6-8
2-3,4-5
5-7,7-9
2-8,3-7
6-6,4-6
2-6,4-8";

#[test]
fn solve_day_4() {
    let input = day4::parse(DAY4_INPUT).unwrap();
    assert_eq!(day4::part1(&input), 2);
    assert_eq!(day4::part2(&input), 4);
}

#[test]
fn day_4_rejects_malformed_lines() {
    assert!(day4::parse("2-4,6-8\n5-7").is_none());
    assert!(day4::parse("a-4,6-8").is_none());
}

#[test]
fn solve_day_6() {
    // part 1
    assert_eq!(day6::part1("bvwbjplbgvbhsrlpgdmjqwftvncz"), Some(5));
    assert_eq!(day6::part1("nppdvjthqldpwncqszvftbrmjlhg"), Some(6));
    assert_eq!(day6::part1("nznrnfrfntjfmvfwmzdfjlvtqnbhcprsg"), Some(10));
    assert_eq!(day6::part1("zcfzfwzzqfrljwzlrfnpqdbhtmscgvjw"), Some(11));

    // part2
    assert_eq!(day6::part2("mjqjpqmgbljsphdztnvjfqwrcgsmlb"), Some(19));
    assert_eq!(day6::part2("bvwbjplbgvbhsrlpgdmjqwftvncz"), Some(23));
    assert_eq!(day6::part2("nppdvjthqldpwncqszvftbrmjlhg"), Some(23));
    assert_eq!(day6::part2("nznrnfrfntjfmvfwmzdfjlvtqnbhcprsg"), Some(29));
    assert_eq!(day6::part2("zcfzfwzzqfrljwzlrfnpqdbhtmscgvjw"), Some(26));
}

#[test]
fn day_6_without_marker() {
    assert_eq!(day6::part1("aaaaaaa"), None);
    assert_eq!(day6::part1("abc"), None);
}

const DAY10_INPUT: &'static str = "addx 15
addx -11
addx 6
addx -3
addx 5
addx -1
addx -8
addx 13
addx 4
noop
addx -1
addx 5
addx -1
addx 5
addx -1
addx 5
addx -1
addx 5
addx -1
addx -35
addx 1
addx 24
addx -19
addx 1
addx 16
addx -11
noop
noop
addx 21
addx -15
noop
noop
addx -3
addx 9
addx 1
addx -3
addx 8
addx 1
addx 5
noop
noop
noop
noop
noop
addx -36
noop
addx 1
addx 7
noop
noop
noop
addx 2
addx 6
noop
noop
noop
noop
noop
addx 1
noop
noop
addx 7
addx 1
noop
addx -13
addx 13
addx 7
noop
addx 1
addx -33
noop
noop
noop
addx 2
noop
noop
noop
addx 8
noop
addx -1
addx 2
addx 1
noop
addx 17
addx -9
addx 1
addx 1
addx -3
addx 11
noop
noop
addx 1
noop
addx 1
noop
noop
addx -13
addx -19
addx 1
addx 3
addx 26
addx -30
addx 12
addx -1
addx 3
addx 1
noop
noop
noop
addx -9
addx 18
addx 1
addx 2
noop
noop
addx 9
noop
noop
noop
addx -1
addx 2
addx -37
addx 1
addx 3
noop
addx 15
addx -21
addx 22
addx -6
addx 1
noop
addx 2
addx 1
noop
addx -10
noop
noop
addx 20
addx 1
addx 2
addx 2
addx -6
addx -11
noop
noop
noop";

const DAY10_IMAGE: &'static str = "##..##..##..##..##..##..##..##..##..##..
###...###...###...###...###...###...###.
####....####....####....####....####....
#####.....#####.....#####.....#####.....
######......######......######......####
#######.......#######.......#######.....";

#[test]
fn solve_day_10() {
    let input = day10::parse(DAY10_INPUT).unwrap();
    assert_eq!(day10::part1(&input), 13140);
    assert_eq!(day10::part2(&input), DAY10_IMAGE);
}
