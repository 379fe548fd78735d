use range_remap::calibration;
use range_remap::camel_cards::{calculate_winnings, hand_of, player_beats, Card, HandResult, Player};
use range_remap::cubes::{self, CubeSet, Game};
use range_remap::galaxies::{transpose2, Universe};
use range_remap::histories;
use range_remap::network::{gcd, lcm};
use range_remap::races::{self, count_ways, Race};
use range_remap::scratchcards;
use std::cmp::Ordering;

fn hand(labels: &str, jokers: bool) -> [Card; 5] {
    let cards: Vec<Card> = labels
        .chars()
        .map(|c| if jokers && c == 'J' { Card(1) } else { Card::from(c) })
        .collect();
    [cards[0], cards[1], cards[2], cards[3], cards[4]]
}

fn player(labels: &str, bid: i32, jokers: bool) -> Player {
    let cards = hand(labels, jokers);
    Player { hand: HandResult::from(cards), cards, bid }
}

fn camel_example(jokers: bool) -> Vec<Player> {
    vec![
        player("32T3K", 765, jokers),
        player("T55J5", 684, jokers),
        player("KK677", 28, jokers),
        player("KTJJT", 220, jokers),
        player("QQQJA", 483, jokers),
    ]
}

fn grid(rows: &[&str]) -> Vec<Vec<char>> {
    rows.iter().map(|r| r.chars().collect()).collect()
}

#[test]
fn gcd_of_small_numbers() {
    assert_eq!(gcd(12, 18), 6);
    assert_eq!(gcd(18, 12), 6);
    assert_eq!(gcd(17, 5), 1);
    assert_eq!(gcd(0, 9), 9);
    assert_eq!(gcd(9, 0), 9);
    assert_eq!(gcd(0, 0), 0);
    assert_eq!(gcd(i64::MAX, i64::MAX), i64::MAX);
}

#[test]
fn lcm_folds_over_the_numbers() {
    assert_eq!(lcm(&[]), 1);
    assert_eq!(lcm(&[7]), 7);
    assert_eq!(lcm(&[4, 6]), 12);
    assert_eq!(lcm(&[2, 3, 4, 5, 6]), 60);
    assert_eq!(lcm(&[20513, 18827, 17141, 22199]), 20513 / 281 * 18827 / 281 * 17141 / 281 * 22199);
}

#[test]
fn transpose_swaps_rows_and_columns() {
    let t = transpose2(vec![vec![1, 2, 3], vec![4, 5, 6]]);
    assert_eq!(t, vec![vec![1, 4], vec![2, 5], vec![3, 6]]);
    let empty_rows = transpose2(vec![Vec::<u8>::new(), Vec::new()]);
    assert!(empty_rows.is_empty());
    let cut = transpose2(vec![vec![1], vec![2, 3]]);
    assert_eq!(cut, vec![vec![1, 2]]);
}

#[test]
fn galaxies_are_listed_row_by_row() {
    let u = Universe(grid(&["..#", "#..", "...", ".##"]));
    assert_eq!(u.get_galaxies(), vec![(0, 2), (1, 0), (3, 1), (3, 2)]);
    assert!(Universe(Vec::new()).get_galaxies().is_empty());
}

#[test]
fn empty_rows_and_columns_are_listed_in_order() {
    let u = Universe(grid(&[
        "...#......",
        ".......#..",
        "#.........",
        "..........",
        "......#...",
        ".#........",
        ".........#",
        "..........",
        ".......#..",
        "#...#.....",
    ]));
    assert_eq!(u.expanded_places(), (vec![3, 7], vec![2, 5, 8]));
    let blank = Universe(grid(&["..", ".."]));
    assert_eq!(blank.expanded_places(), (vec![0, 1], vec![0, 1]));
}

#[test]
fn histories_extend_at_both_ends() {
    let rows = vec![
        vec![0, 3, 6, 9, 12, 15],
        vec![1, 3, 6, 10, 15, 21],
        vec![10, 13, 16, 21, 30, 45],
    ];
    assert_eq!(histories::interpolate(&rows), (2, 114));
    assert_eq!(histories::interpolate(&[vec![10, 13, 16, 21, 30, 45]]), (5, 68));
    assert_eq!(histories::interpolate(&[vec![0, 0]]), (0, 0));
    assert_eq!(histories::interpolate(&[vec![4, 4]]), (4, 4));
    assert_eq!(histories::interpolate(&[vec![0]]), (0, 0));
    assert_eq!(histories::interpolate(&[]), (0, 0));
    assert_eq!(histories::interpolate(&[vec![5, 3, 1]]), (7, -1));
}

#[test]
fn card_labels_have_their_strengths() {
    let strengths: Vec<i32> = "AKQJjT98765432".chars().map(|c| Card::from(c).0).collect();
    assert_eq!(strengths, vec![14, 13, 12, 11, 1, 10, 9, 8, 7, 6, 5, 4, 3, 2]);
}

#[test]
fn hands_have_their_types() {
    assert_eq!(hand_of(hand("AAAAA", false)), HandResult::Five);
    assert_eq!(hand_of(hand("AA8AA", false)), HandResult::Four);
    assert_eq!(hand_of(hand("23332", false)), HandResult::FullHouse);
    assert_eq!(hand_of(hand("TTT98", false)), HandResult::Three);
    assert_eq!(hand_of(hand("23432", false)), HandResult::TwoPairs);
    assert_eq!(hand_of(hand("A23A4", false)), HandResult::Pair);
    assert_eq!(hand_of(hand("23456", false)), HandResult::HighCard);
}

#[test]
fn jokers_join_the_largest_group() {
    assert_eq!(hand_of(hand("JJJJJ", true)), HandResult::Five);
    assert_eq!(hand_of(hand("QJJQ2", true)), HandResult::Four);
    assert_eq!(hand_of(hand("T55J5", true)), HandResult::Four);
    assert_eq!(hand_of(hand("KTJJT", true)), HandResult::Four);
    assert_eq!(hand_of(hand("2233J", true)), HandResult::FullHouse);
    assert_eq!(hand_of(hand("234JJ", true)), HandResult::Three);
    assert_eq!(hand_of(hand("2345J", true)), HandResult::Pair);
    assert_eq!(hand_of(hand("JJJJ2", true)), HandResult::Five);
    assert_eq!(HandResult::from(hand("T55J5", false)), HandResult::Three);
}

#[test]
fn stronger_players_sort_first() {
    let a = player("KK677", 1, false);
    let b = player("KTJJT", 1, false);
    let c = player("QQQJA", 1, false);
    assert_eq!(a.cmp(&b), Ordering::Less);
    assert_eq!(b.cmp(&a), Ordering::Greater);
    assert_eq!(c.cmp(&a), Ordering::Less);
    assert!(player_beats(&a, &b));
    assert!(!player_beats(&b, &a));
    assert!(!player_beats(&a, &a));
    let low = player("2AAAA", 1, false);
    let high = player("33332", 1, false);
    assert_eq!(high.cmp(&low), Ordering::Less);
}

#[test]
fn winnings_are_bids_times_ranks() {
    assert_eq!(calculate_winnings(&camel_example(false)), 6440);
    assert_eq!(calculate_winnings(&camel_example(true)), 5905);
    assert_eq!(calculate_winnings(&[]), 0);
    assert_eq!(calculate_winnings(&[player("23456", 9, false)]), 9);
}

#[test]
fn races_count_the_ways_to_win() {
    assert_eq!(count_ways(&Race { distance: 7, record: 9 }), 4);
    assert_eq!(count_ways(&Race { distance: 15, record: 40 }), 8);
    assert_eq!(count_ways(&Race { distance: 30, record: 200 }), 9);
    assert_eq!(count_ways(&Race { distance: 0, record: 0 }), 0);
    assert_eq!(count_ways(&Race { distance: -3, record: -100 }), 0);
    let example = [
        Race { distance: 7, record: 9 },
        Race { distance: 15, record: 40 },
        Race { distance: 30, record: 200 },
    ];
    assert_eq!(races::part1(&example), 288);
    assert_eq!(races::part2(&example), 71503);
    assert_eq!(races::part1(&[]), 1);
    assert_eq!(races::part2(&[Race { distance: 0, record: 0 }, Race { distance: 7, record: 9 }]), 4);
}

#[test]
fn cube_games_have_their_powers() {
    let set = |reds, greens, blues| CubeSet { blues, reds, greens };
    let games = vec![
        Game { id: 1, sets: vec![set(4, 0, 3), set(1, 2, 6), set(0, 2, 0)] },
        Game { id: 2, sets: vec![set(0, 2, 1), set(1, 3, 4), set(0, 1, 1)] },
        Game { id: 3, sets: vec![set(20, 8, 6), set(4, 13, 5), set(1, 5, 0)] },
        Game { id: 4, sets: vec![set(3, 1, 6), set(6, 3, 0), set(14, 3, 15)] },
        Game { id: 5, sets: vec![set(6, 3, 1), set(1, 2, 2)] },
    ];
    assert_eq!(cubes::part2(&games), 2286);
    assert_eq!(cubes::part2(&[Game { id: 1, sets: Vec::new() }]), 0);
    assert_eq!(cubes::part2(&[Game { id: 1, sets: vec![set(-4, 5, 6)] }]), 0);
}

#[test]
fn scratchcards_double_their_points() {
    let card = |id, winning: &[i32], have: &[i32]| scratchcards::Card {
        id,
        winning: winning.to_vec(),
        have: have.to_vec(),
    };
    let cards = vec![
        card(1, &[41, 48, 83, 86, 17], &[83, 86, 6, 31, 17, 9, 48, 53]),
        card(2, &[13, 32, 20, 16, 61], &[61, 30, 68, 82, 17, 32, 24, 19]),
        card(3, &[1, 21, 53, 59, 44], &[69, 82, 63, 72, 16, 21, 14, 1]),
        card(4, &[41, 92, 73, 84, 69], &[59, 84, 76, 51, 58, 5, 54, 83]),
        card(5, &[87, 83, 26, 28, 32], &[88, 30, 70, 12, 93, 22, 82, 36]),
        card(6, &[31, 18, 13, 56, 72], &[74, 77, 10, 23, 35, 67, 36, 11]),
    ];
    assert_eq!(scratchcards::part1(&cards), 13);
    assert_eq!(scratchcards::count_matches(&cards[0]), 4);
    assert_eq!(scratchcards::points_for(0), 0);
    assert_eq!(scratchcards::points_for(1), 1);
    assert_eq!(scratchcards::points_for(31), 1 << 30);
    assert_eq!(scratchcards::part1(&[card(1, &[5], &[5, 5, 5])]), 4);
}

#[test]
fn calibration_takes_first_and_last_digit() {
    let lines: Vec<String> =
        ["1abc2", "pqr3stu8vwx", "a1b2c3d4e5f", "treb7uchet"].iter().map(|s| s.to_string()).collect();
    assert_eq!(calibration::part1(&lines), 142);
    assert_eq!(calibration::calibration_value(&"x0y".chars().collect()), 0);
    assert_eq!(calibration::calibration_value(&"9".chars().collect()), 99);
}
