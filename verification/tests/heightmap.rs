use puzzles::day8;
use puzzles::day12;
use puzzles::day12::Direction;
use puzzles::day12::Goal;
use puzzles::day12::Heightmap;
use puzzles::day12::MalformedInput;
use puzzles::day12::Position;

const DAY8_INPUT: &'static str = "30373
25512
65332
33549
35390";

#[test]
fn solve_day_8() {
    let input = day8::parse(DAY8_INPUT).unwrap();
    assert_eq!(day8::part1(&input), 21);
    assert_eq!(day8::part2(&input), 8);
}

#[test]
fn day_8_rejects_bad_grids() {
    assert!(day8::parse("123\n45").is_none());
    assert!(day8::parse("12a").is_none());
}

const DAY12_INPUT: &'static str = "Sabqponm
abcryxxl
accszExk
acctuvwj
abdefghi";

#[test]
fn solve_day_12() {
    let input = day12::parse(DAY12_INPUT).unwrap();
    assert_eq!(input.part1(), Some(31));
    assert_eq!(input.part2(), Some(29));
}

// The same terrain mirrored left-to-right: the search expands neighbours in
// a completely different order, yet the distances are unchanged.
const DAY12_MIRRORED: &'static str = "mnopqbaS
lxxyrcba
kxEzscca
jwvutcca
ihgfedba";

#[test]
fn day_12_distance_ignores_expansion_order() {
    let input = day12::parse(DAY12_INPUT).unwrap();
    let mirrored = day12::parse(DAY12_MIRRORED).unwrap();
    assert_eq!(input.part1(), mirrored.part1());
    assert_eq!(input.part2(), mirrored.part2());
}

#[test]
fn day_12_repeating_a_query_changes_nothing() {
    let input = day12::parse(DAY12_INPUT).unwrap();
    let first = input.part1();
    let second = input.part1();
    assert_eq!(first, second);
    let first = input.part2();
    let second = input.part2();
    assert_eq!(first, second);
}

#[test]
fn day_12_forward_beats_manhattan() {
    let input = day12::parse(DAY12_INPUT).unwrap();
    let d = input.part1().unwrap();
    let manhattan = input.end.row.abs_diff(input.start.row) + input.end.col.abs_diff(
        input.start.col,
    );
    assert!(d >= manhattan);
}

#[test]
fn day_12_reverse_equals_min_over_forward() {
    let input = day12::parse(DAY12_INPUT).unwrap();
    let mut best: Option<usize> = None;
    for row in 0..input.height {
        for col in 0..input.width {
            if input.cells[row * input.width + col] == 0 {
                let from = Position { row, col };
                if let Some(d) = input.search(from, Direction::Forward, Goal::Reach(input.end)) {
                    best = Some(match best {
                        None => d,
                        Some(b) => b.min(d),
                    });
                }
            }
        }
    }
    assert_eq!(best, input.part2());
    assert_eq!(best, Some(29));
}

#[test]
fn day_12_single_cell_grid() {
    // A one-by-one map whose start and end coincide: zero steps.
    let origin = Position { row: 0, col: 0 };
    let map = Heightmap { cells: vec![0], width: 1, height: 1, start: origin, end: origin };
    assert_eq!(map.search(origin, Direction::Forward, Goal::Reach(origin)), Some(0));
    assert_eq!(map.part1(), Some(0));
}

#[test]
fn day_12_unreachable_goal() {
    // A full ramp climbs one letter per step; a wall of flat ground cannot
    // reach the summit.
    let ramp = day12::parse("SabcdefghijklmnopqrstuvwxyzE").unwrap();
    assert_eq!(ramp.part1(), Some(27));
    let walled = day12::parse("Sa\naE").unwrap();
    assert_eq!(walled.part1(), None);
    assert_eq!(walled.part2(), None);
}

#[test]
fn day_12_malformed_inputs() {
    // Jagged rows, a missing or duplicated marker, a character outside the
    // alphabet, and empty input are all construction failures.
    assert_eq!(day12::parse("Sabq\nabc").err(), Some(MalformedInput));
    assert_eq!(day12::parse("Sab\nabc").err(), Some(MalformedInput));
    assert_eq!(day12::parse("Sab\nabE\nS a").err(), Some(MalformedInput));
    assert_eq!(day12::parse("SSb\nabE").err(), Some(MalformedInput));
    assert_eq!(day12::parse("Sab\naEE").err(), Some(MalformedInput));
    assert_eq!(day12::parse("").err(), Some(MalformedInput));
    assert!(day12::parse("Sab\nabE").is_ok());
}

// A small deterministic generator, so the reverse/forward equivalence is
// exercised on many admissible grids, not just the worked example.
fn next_rand(state: &mut u64) -> u64 {
    *state = state.wrapping_mul(6364136223846793005).wrapping_add(1442695040888963407);
    *state >> 33
}

#[test]
fn day_12_reverse_equals_min_forward_on_generated_grids() {
    let mut state: u64 = 11;
    for _ in 0..40 {
        let height = 2 + (next_rand(&mut state) % 6) as usize;
        let width = 2 + (next_rand(&mut state) % 8) as usize;
        let mut cells: Vec<Vec<u8>> = Vec::new();
        for _ in 0..height {
            let mut row = Vec::new();
            for _ in 0..width {
                row.push(b'a' + (next_rand(&mut state) % 26) as u8);
            }
            cells.push(row);
        }
        let start = (next_rand(&mut state) as usize % height, next_rand(&mut state) as usize % width);
        let mut end = start;
        while end == start {
            end = (next_rand(&mut state) as usize % height, next_rand(&mut state) as usize % width);
        }
        cells[start.0][start.1] = b'S';
        cells[end.0][end.1] = b'E';
        let text = cells
            .iter()
            .map(|row| String::from_utf8(row.clone()).unwrap())
            .collect::<Vec<_>>()
            .join("\n");
        let map = day12::parse(&text).unwrap();

        let mut best: Option<usize> = None;
        for row in 0..map.height {
            for col in 0..map.width {
                if map.cells[row * map.width + col] == 0 {
                    let from = Position { row, col };
                    if let Some(d) = map.search(from, Direction::Forward, Goal::Reach(map.end)) {
                        best = Some(match best {
                            None => d,
                            Some(b) => b.min(d),
                        });
                    }
                }
            }
        }
        assert_eq!(map.part2(), best);
    }
}
