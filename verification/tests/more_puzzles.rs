use range_remap::calibration::{self, replace, spell_out};
use range_remap::camel_cards::{calculate_winnings, read_input, read_player, Card, HandResult};
use range_remap::pipes::{next_of, solve, Point};
use range_remap::scratchcards::{self, Card as Scratchcard};

fn lines(rows: &[&str]) -> Vec<String> {
    rows.iter().map(|r| r.to_string()).collect()
}

fn chars(s: &str) -> Vec<char> {
    s.chars().collect()
}

fn cells(rows: &[&str]) -> Vec<Vec<char>> {
    rows.iter().map(|r| r.chars().collect()).collect()
}

fn text(rows: &[Vec<char>]) -> Vec<String> {
    rows.iter().map(|r| r.iter().collect()).collect()
}

#[test]
fn replace_goes_from_left_to_right() {
    assert_eq!(replace(&chars("aaa"), &chars("aa"), &chars("b")), chars("ba"));
    assert_eq!(replace(&chars("oneone"), &chars("one"), &chars("o1e")), chars("o1eo1e"));
    assert_eq!(replace(&chars("on"), &chars("one"), &chars("o1e")), chars("on"));
    assert_eq!(replace(&chars(""), &chars("x"), &chars("y")), chars(""));
    assert_eq!(replace(&chars("xyx"), &chars("x"), &chars("")), chars("y"));
    for (s, w, r) in [("twone", "one", "o1e"), ("eighthree", "eight", "e8t"), ("abab", "ab", "ba")] {
        assert_eq!(replace(&chars(s), &chars(w), &chars(r)), chars(&s.replace(w, r)));
    }
}

#[test]
fn spelled_digits_are_marked_in_order() {
    assert_eq!(spell_out(&chars("two1nine")), chars("t2o1n9e"));
    assert_eq!(spell_out(&chars("eightwothree")), chars("e8t2ot3e"));
    assert_eq!(spell_out(&chars("xtwone3four")), chars("xt2o1e3f4r"));
    assert_eq!(spell_out(&chars("zoneight234")), chars("zo1e8t234"));
}

#[test]
fn calibration_counts_spelled_digits() {
    let example = lines(&[
        "two1nine",
        "eightwothree",
        "abcone2threexyz",
        "xtwone3four",
        "4nineeightseven2",
        "zoneight234",
        "7pqrstsixteen",
    ]);
    assert_eq!(calibration::part2(&example), 281);
    assert_eq!(calibration::part2(&lines(&["oneight"])), 18);
    assert_eq!(calibration::part2(&[]), 0);
}

#[test]
fn scratchcards_win_copies_of_the_following_cards() {
    let card = |id, winning: &[i32], have: &[i32]| Scratchcard {
        id,
        winning: winning.to_vec(),
        have: have.to_vec(),
    };
    let cards = vec![
        card(1, &[41, 48, 83, 86, 17], &[83, 86, 6, 31, 17, 9, 48, 53]),
        card(2, &[13, 32, 20, 16, 61], &[61, 30, 68, 82, 17, 32, 24, 19]),
        card(3, &[1, 21, 53, 59, 44], &[69, 82, 63, 72, 16, 21, 14, 1]),
        card(4, &[41, 92, 73, 84, 69], &[59, 84, 76, 51, 58, 5, 54, 83]),
        card(5, &[87, 83, 26, 28, 32], &[88, 30, 70, 12, 93, 22, 82, 36]),
        card(6, &[31, 18, 13, 56, 72], &[74, 77, 10, 23, 35, 67, 36, 11]),
    ];
    assert_eq!(scratchcards::part2(&cards), 30);
    assert_eq!(scratchcards::part2(&[]), 0);
    assert_eq!(scratchcards::part2(&[card(7, &[], &[])]), 1);
    assert_eq!(scratchcards::part2(&[card(7, &[1], &[1])]), 2);
    assert_eq!(scratchcards::part2(&[card(7, &[1], &[1]), card(7, &[1], &[1])]), 3);
    assert_eq!(scratchcards::part2(&[card(1, &[1], &[1, 1]), card(3, &[], &[])]), 4);
    assert_eq!(scratchcards::part2(&[card(2, &[1], &[1]), card(1, &[1], &[1])]), 4);
}

#[test]
fn players_are_read_from_their_lines() {
    let input = lines(&["32T3K 765", "T55J5 684", "KK677 28", "KTJJT 220", "QQQJA 483"]);
    let plain = read_input(&input, false);
    assert_eq!(plain.len(), 5);
    assert_eq!(plain[1].cards, [Card(10), Card(5), Card(5), Card(11), Card(5)]);
    assert_eq!(plain[1].hand, HandResult::Three);
    assert_eq!(plain[1].bid, 684);
    assert_eq!(calculate_winnings(&plain), 6440);
    let wild = read_input(&input, true);
    assert_eq!(wild[1].cards, [Card(10), Card(5), Card(5), Card(1), Card(5)]);
    assert_eq!(wild[1].hand, HandResult::Four);
    assert_eq!(calculate_winnings(&wild), 5905);
    assert!(read_input(&[], true).is_empty());
    let p = read_player(&chars("AKQjT -12"), false);
    assert_eq!(p.cards, [Card(14), Card(13), Card(12), Card(1), Card(10)]);
    assert_eq!(p.hand, HandResult::Pair);
    assert_eq!(p.bid, -12);
    assert_eq!(read_player(&chars("23456 +2147483647"), true).bid, i32::MAX);
}

#[test]
fn loop_of_pipes_is_followed_from_the_start() {
    let square = cells(&[".....", ".S-7.", ".|.|.", ".L-J.", "....."]);
    let (half, pipes) = solve(&square);
    assert_eq!(half, 4);
    assert_eq!(text(&pipes), vec!["     ", " F-7 ", "   | ", " L-J ", "     "]);
    let bent = cells(&["..F7.", ".FJ|.", "SJ.L7", "|F--J", "LJ..."]);
    let (half, pipes) = solve(&bent);
    assert_eq!(half, 8);
    assert_eq!(text(&pipes), vec!["  F7 ", " FJ| ", "FJ L7", " F--J", "LJ   "]);
}

#[test]
fn walk_prefers_the_first_way_of_a_pipe() {
    let field = cells(&["F7", "LJ"]);
    let none = Vec::new();
    assert_eq!(next_of(&field, &none, &Point { x: 0, y: 0 }), Some(Point { x: 1, y: 0 }));
    assert_eq!(next_of(&field, &none, &Point { x: 1, y: 0 }), Some(Point { x: 0, y: 0 }));
    assert_eq!(next_of(&field, &none, &Point { x: 1, y: 1 }), Some(Point { x: 1, y: 0 }));
    assert_eq!(next_of(&field, &none, &Point { x: 0, y: 1 }), Some(Point { x: 1, y: 1 }));
    let seen = vec![Point { x: 1, y: 0 }];
    assert_eq!(next_of(&field, &seen, &Point { x: 0, y: 0 }), Some(Point { x: 0, y: 1 }));
    assert_eq!(next_of(&field, &seen, &Point { x: 1, y: 1 }), Some(Point { x: 0, y: 1 }));
    let dots = cells(&["..", ".."]);
    assert_eq!(next_of(&dots, &none, &Point { x: 0, y: 0 }), None);
}
