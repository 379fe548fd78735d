use range_remap::cubes::{self, is_possible, CubeSet, Game};
use range_remap::springs::{self, count_line, count_unknowns, fill_in, group_sizes, split_on};
use range_remap::text::parse_i32_chars;

fn chars(s: &str) -> Vec<char> {
    s.chars().collect()
}

fn lines(rows: &[&str]) -> Vec<String> {
    rows.iter().map(|r| r.to_string()).collect()
}

#[test]
fn spring_rows_are_filled_bit_by_bit() {
    assert_eq!(fill_in(&chars("?.?#?"), 0), chars("...#."));
    assert_eq!(fill_in(&chars("?.?#?"), 1), chars("#..#."));
    assert_eq!(fill_in(&chars("?.?#?"), 2), chars("..##."));
    assert_eq!(fill_in(&chars("?.?#?"), 4), chars("...##"));
    assert_eq!(fill_in(&chars("?.?#?"), 7), chars("#.###"));
    assert_eq!(fill_in(&chars("ab"), 3), chars("ab"));
    assert_eq!(count_unknowns(&chars("?.?#?")), 3);
    assert_eq!(count_unknowns(&chars("")), 0);
}

#[test]
fn groups_are_runs_between_dots() {
    assert_eq!(group_sizes(&chars("#.#.###")), vec![1, 1, 3]);
    assert_eq!(group_sizes(&chars("..##..")), vec![2]);
    assert_eq!(group_sizes(&chars("....")), Vec::<usize>::new());
    assert_eq!(group_sizes(&chars("")), Vec::<usize>::new());
    assert_eq!(group_sizes(&chars("#x#")), vec![3]);
}

#[test]
fn text_is_cut_at_every_separator() {
    let cut = |s: &str, from: usize| -> Vec<String> {
        split_on(&chars(s), from, ',').into_iter().map(|p| p.into_iter().collect()).collect()
    };
    assert_eq!(cut("1,1,3", 0), vec!["1", "1", "3"]);
    assert_eq!(cut("x 1,,3,", 2), vec!["1", "", "3", ""]);
    assert_eq!(cut("", 0), vec![""]);
}

#[test]
fn decimal_characters_are_read_as_i32() {
    assert_eq!(parse_i32_chars(&chars("17")), Some(17));
    assert_eq!(parse_i32_chars(&chars("-2147483648")), Some(i32::MIN));
    assert_eq!(parse_i32_chars(&chars("2147483648")), None);
    assert_eq!(parse_i32_chars(&chars("")), None);
    assert_eq!(parse_i32_chars(&chars("1é")), None);
    assert_eq!(parse_i32_chars(&chars("١")), None);
}

#[test]
fn spring_lines_have_their_ways() {
    assert_eq!(count_line(&chars("???.### 1,1,3")), 1);
    assert_eq!(count_line(&chars(".??..??...?##. 1,1,3")), 4);
    assert_eq!(count_line(&chars("?#?#?#?#?#?#?#? 1,3,1,6")), 1);
    assert_eq!(count_line(&chars("????.#...#... 4,1,1")), 1);
    assert_eq!(count_line(&chars("????.######..#####. 1,6,5")), 4);
    assert_eq!(count_line(&chars("?###???????? 3,2,1")), 10);
    assert_eq!(count_line(&chars("?? 1")), 2);
    assert_eq!(count_line(&chars("?? 3")), 0);
    assert_eq!(count_line(&chars("?? -1")), 0);
}

#[test]
fn spring_ways_are_summed_over_the_lines() {
    let example = lines(&[
        "???.### 1,1,3",
        ".??..??...?##. 1,1,3",
        "?#?#?#?#?#?#?#? 1,3,1,6",
        "????.#...#... 4,1,1",
        "????.######..#####. 1,6,5",
        "?###???????? 3,2,1",
    ]);
    assert_eq!(springs::part1(&example), 21);
}

#[test]
fn possible_games_are_summed_by_number() {
    let set = |reds, greens, blues| CubeSet { blues, reds, greens };
    let games = vec![
        Game { id: 1, sets: vec![set(4, 0, 3), set(1, 2, 6), set(0, 2, 0)] },
        Game { id: 2, sets: vec![set(0, 2, 1), set(1, 3, 4), set(0, 1, 1)] },
        Game { id: 3, sets: vec![set(20, 8, 6), set(4, 13, 5), set(1, 5, 0)] },
        Game { id: 4, sets: vec![set(3, 1, 6), set(6, 3, 0), set(14, 3, 15)] },
        Game { id: 5, sets: vec![set(6, 3, 1), set(1, 2, 2)] },
    ];
    assert_eq!(cubes::part1(&games), 8);
    assert!(is_possible(&vec![set(12, 13, 14)]));
    assert!(!is_possible(&vec![set(13, 0, 0)]));
    assert!(!is_possible(&vec![set(0, 14, 0)]));
    assert!(!is_possible(&vec![set(0, 0, 15)]));
    assert!(is_possible(&Vec::new()));
    assert_eq!(cubes::part1(&[]), 0);
}
