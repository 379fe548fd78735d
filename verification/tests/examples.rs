use range_remap::calibration;
use range_remap::camel_cards::{calculate_winnings, read_input};
use range_remap::cubes::{self, CubeSet, Game};
use range_remap::galaxies::{self, Universe};
use range_remap::histories::interpolate;
use range_remap::pipes;
use range_remap::races::{self, Race};
use range_remap::schematic;
use range_remap::scratchcards::{self, Card};
use range_remap::springs;

fn lines(rows: &[&str]) -> Vec<String> {
    rows.iter().map(|r| r.to_string()).collect()
}

fn cells(rows: &[&str]) -> Vec<Vec<char>> {
    rows.iter().map(|r| r.chars().collect()).collect()
}

fn cube_games() -> Vec<Game> {
    let set = |reds, greens, blues| CubeSet { blues, reds, greens };
    vec![
        Game { id: 1, sets: vec![set(4, 0, 3), set(1, 2, 6), set(0, 2, 0)] },
        Game { id: 2, sets: vec![set(0, 2, 1), set(1, 3, 4), set(0, 1, 1)] },
        Game { id: 3, sets: vec![set(20, 8, 6), set(4, 13, 5), set(1, 5, 0)] },
        Game { id: 4, sets: vec![set(3, 1, 6), set(6, 3, 0), set(14, 3, 15)] },
        Game { id: 5, sets: vec![set(6, 3, 1), set(1, 2, 2)] },
    ]
}

fn engine() -> Vec<String> {
    lines(&[
        "467..114..",
        "...*......",
        "..35..633.",
        "......#...",
        "617*......",
        ".....+.58.",
        "..592.....",
        "......755.",
        "...$.*....",
        ".664.598..",
    ])
}

fn scratch_cards() -> Vec<Card> {
    let card = |id, winning: &[i32], have: &[i32]| Card {
        id,
        winning: winning.to_vec(),
        have: have.to_vec(),
    };
    vec![
        card(1, &[41, 48, 83, 86, 17], &[83, 86, 6, 31, 17, 9, 48, 53]),
        card(2, &[13, 32, 20, 16, 61], &[61, 30, 68, 82, 17, 32, 24, 19]),
        card(3, &[1, 21, 53, 59, 44], &[69, 82, 63, 72, 16, 21, 14, 1]),
        card(4, &[41, 92, 73, 84, 69], &[59, 84, 76, 51, 58, 5, 54, 83]),
        card(5, &[87, 83, 26, 28, 32], &[88, 30, 70, 12, 93, 22, 82, 36]),
        card(6, &[31, 18, 13, 56, 72], &[74, 77, 10, 23, 35, 67, 36, 11]),
    ]
}

#[test]
fn day1_test_example() {
    let input = lines(&["1abc2", "pqr3stu8vwx", "a1b2c3d4e5f", "treb7uchet"]);
    assert_eq!(142, calibration::part1(&input));
}

#[test]
fn day1_test_example2() {
    let input = lines(&[
        "two1nine",
        "eightwothree",
        "abcone2threexyz",
        "xtwone3four",
        "4nineeightseven2",
        "zoneight234",
        "7pqrstsixteen",
    ]);
    assert_eq!(281, calibration::part2(&input));
}

#[test]
fn day2_test_example_1() {
    assert_eq!(8, cubes::part1(&cube_games()));
}

#[test]
fn day2_test_example_2() {
    assert_eq!(2286, cubes::part2(&cube_games()));
}

#[test]
fn day3_test_example_1() {
    assert_eq!(4361, schematic::part1(&engine()));
}

#[test]
fn day3_test_example_2() {
    assert_eq!(467835, schematic::part2(&engine()));
}

#[test]
fn day4_test_example_1() {
    assert_eq!(13, scratchcards::part1(&scratch_cards()));
}

#[test]
fn day4_test_example_2() {
    assert_eq!(30, scratchcards::part2(&scratch_cards()));
}

#[test]
fn day6_test_example() {
    let input = vec![
        Race { distance: 7, record: 9 },
        Race { distance: 15, record: 40 },
        Race { distance: 30, record: 200 },
    ];
    assert_eq!(288, races::part1(&input));
    assert_eq!(71503, races::part2(&input));
}

#[test]
fn day7_test_example() {
    let input = lines(&["32T3K 765", "T55J5 684", "KK677 28", "KTJJT 220", "QQQJA 483"]);
    let players = read_input(&input, false);
    assert_eq!(6440, calculate_winnings(&players));
    let players = read_input(&input, true);
    assert_eq!(5905, calculate_winnings(&players));
}

#[test]
fn day9_test_example() {
    let input = vec![
        vec![0, 3, 6, 9, 12, 15],
        vec![1, 3, 6, 10, 15, 21],
        vec![10, 13, 16, 21, 30, 45],
    ];
    let (part2, part1) = interpolate(&input);
    assert_eq!(114, part1);
    assert_eq!(2, part2);
}

#[test]
fn day10_test_example() {
    let input = cells(&["..F7.", ".FJ|.", "SJ.L7", "|F--J", "LJ..."]);
    let (part1, _) = pipes::solve(&input);
    assert_eq!(8, part1);
}

#[test]
fn day11_test_example() {
    let input = Universe(cells(&[
        "...#......",
        ".......#..",
        "#.........",
        "..........",
        "......#...",
        ".#........",
        ".........#",
        "..........",
        ".......#..",
        "#...#.....",
    ]));
    assert_eq!(374, galaxies::solve(&input, 2));
    assert_eq!(1030, galaxies::solve(&input, 10));
    assert_eq!(8410, galaxies::solve(&input, 100));
}

#[test]
fn day12_test_example() {
    let input = lines(&[
        "???.### 1,1,3",
        ".??..??...?##. 1,1,3",
        "?#?#?#?#?#?#?#? 1,3,1,6",
        "????.#...#... 4,1,1",
        "????.######..#####. 1,6,5",
        "?###???????? 3,2,1",
    ]);
    assert_eq!(21, springs::part1(&input));
}
