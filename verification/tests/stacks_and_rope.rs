use puzzles::day5;
use puzzles::day5::Instruction;
use puzzles::day9;
use puzzles::day9::Knot;

const DAY5_INPUT: &'static str = "    [D]
[N] [C]
[Z] [M] [P]
 1   2   3

move 1 from 2 to 1
move 3 from 1 to 3
move 2 from 2 to 1
move 1 from 1 to 2";

#[test]
fn solve_day_five() {
    let input = day5::parse(DAY5_INPUT).unwrap();
    assert_eq!(day5::part1(&input), Some("CMZ".to_string()));
    assert_eq!(day5::part2(&input), Some("MCD".to_string()));
}

#[test]
fn scan_top() {
    let input = day5::parse(DAY5_INPUT).unwrap();
    assert_eq!(input.stacks.scan_top(), "NDP".to_string());
}

#[test]
fn day_5_instruction_parse() {
    let i = Instruction::parse("move 12 from 3 to 7").unwrap();
    assert_eq!(i.size, 12);
    assert_eq!(i.from, 3);
    assert_eq!(i.to, 7);
    assert!(Instruction::parse("move x from 3 to 7").is_none());
    assert!(Instruction::parse("").is_none());
}

#[test]
fn day_5_without_separator() {
    assert!(day5::parse("[A]\n 1\nmove 1 from 1 to 1").is_none());
}

#[test]
fn day_5_moves_one_at_a_time() {
    // Moving two crates one at a time reverses their order; moving the
    // batch at once keeps it.
    let mut input = day5::parse(DAY5_INPUT).unwrap();
    let order = Instruction { size: 2, from: 2, to: 1 };
    input.stacks.handle_instruction(&order);
    assert_eq!(input.stacks.scan_top(), "CMP".to_string());
    let mut input = day5::parse(DAY5_INPUT).unwrap();
    input.stacks.handle_instruction_two(&order);
    assert_eq!(input.stacks.scan_top(), "DMP".to_string());
}

const DAY9_INPUT: &'static str = "R 4
U 4
L 3
D 1
R 4
D 1
L 5
R 2";

const DAY9_INPUT_TWO: &'static str = "R 5
U 8
L 8
D 3
R 17
D 10
L 25
U 20";

#[test]
fn solve_day_9() {
    let input = day9::parse(DAY9_INPUT).unwrap();
    assert_eq!(day9::part1(&input), 13);
    assert_eq!(day9::part2(&input), 1);

    let input = day9::parse(DAY9_INPUT_TWO).unwrap();
    assert_eq!(day9::part2(&input), 36);
}

#[test]
fn day_9_follow() {
    // .....    .....    .....
    // .TH.. -> .T.H. -> ..TH.
    // .....    .....    .....
    let head = (3, 1);
    let mut tail = Knot((1, 1));
    tail.follow(head);
    assert_eq!(tail.0, (2, 1));

    // ...    ...    ...
    // .T.    .T.    ...
    // .H. -> ... -> .T.
    // ...    .H.    .H.
    // ...    ...    ...
    let head = (1, 1);
    let mut tail = Knot((1, 3));
    tail.follow(head);
    assert_eq!(tail.0, (1, 2));

    // .....    .....    .....
    // .....    ..H..    ..H..
    // ..H.. -> ..... -> ..T..
    // .T...    .T...    .....
    // .....    .....    .....
    let head = (2, 3);
    let mut tail = Knot((1, 1));
    tail.follow(head);
    assert_eq!(tail.0, (2, 2));

    // .....    .....    .....
    // .....    .....    .....
    // ..H.. -> ...H. -> ..TH.
    // .T...    .T...    .....
    // .....    .....    .....
    let head = (3, 2);
    let mut tail = Knot((1, 1));
    tail.follow(head);
    assert_eq!(tail.0, (2, 2));

    // .....    .....    .....
    // .T...    .T...    .....
    // ..H.. -> ..... -> ..T..
    // .....    ..H..    ..H..
    // .....    .....    .....
    let head = (2, 1);
    let mut tail = Knot((1, 3));
    tail.follow(head);
    assert_eq!(tail.0, (2, 2));

    // .....    .....    .....
    // .....    .....    .....
    // ..H.. -> .H... -> .HT..
    // ...T.    ...T.    .....
    // .....    .....    .....
    let head = (1, 2);
    let mut tail = Knot((3, 1));
    tail.follow(head);
    assert_eq!(tail.0, (2, 2));

    // .....    .....    .....
    // .....    ...H.    ...H.
    // ..H.. -> ..... -> ..T..
    // .T...    .T...    .....
    // .....    .....    .....
    let head = (3, 3);
    let mut tail = Knot((1, 1));
    tail.follow(head);
    assert_eq!(tail.0, (2, 2));
}

#[test]
fn day_9_head_trail() {
    let mut head = puzzles::day9::Head((0, 0));
    let trail = head.apply_instruction(&puzzles::day9::Instruction::Right(3));
    assert_eq!(trail, vec![(1, 0), (2, 0), (3, 0)]);
    assert_eq!(head.0, (3, 0));
    let trail = head.apply_instruction(&puzzles::day9::Instruction::Down(2));
    assert_eq!(trail, vec![(3, -1), (3, -2)]);
    assert_eq!(head.0, (3, -2));
}

#[test]
fn day_9_rejects_bad_lines() {
    assert!(day9::parse("R 4\nQ 2").is_none());
    assert!(day9::parse("R x").is_none());
}
