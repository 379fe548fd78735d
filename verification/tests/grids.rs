use range_remap::galaxies::{solve, Universe};
use range_remap::pipes::{get_neighbours_not_visited, interpolate, Point};
use range_remap::schematic::{self, get_neighbour_numbers, get_neighbours};

fn lines(rows: &[&str]) -> Vec<String> {
    rows.iter().map(|r| r.to_string()).collect()
}

fn cells(rows: &[&str]) -> Vec<Vec<char>> {
    rows.iter().map(|r| r.chars().collect()).collect()
}

fn engine() -> Vec<String> {
    lines(&[
        "467..114..",
        "...*......",
        "..35..633.",
        "......#...",
        "617*......",
        ".....+.58.",
        "..592.....",
        "......755.",
        "...$.*....",
        ".664.598..",
    ])
}

fn sky() -> Universe {
    Universe(cells(&[
        "...#......",
        ".......#..",
        "#.........",
        "..........",
        "......#...",
        ".#........",
        ".........#",
        "..........",
        ".......#..",
        "#...#.....",
    ]))
}

#[test]
fn galaxy_distances_grow_with_the_coefficient() {
    assert_eq!(solve(&sky(), 2), 374);
    assert_eq!(solve(&sky(), 10), 1030);
    assert_eq!(solve(&sky(), 100), 8410);
    assert_eq!(solve(&sky(), 1), 292);
}

#[test]
fn galaxy_distances_of_small_skies() {
    assert_eq!(solve(&Universe(cells(&["..."])), 5), 0);
    assert_eq!(solve(&Universe(cells(&["#"])), 5), 0);
    assert_eq!(solve(&Universe(cells(&["#.#"])), 5), 6);
    assert_eq!(solve(&Universe(cells(&["#", ".", "#"])), 0), 1);
    assert_eq!(solve(&Universe(cells(&["#.", ".#"])), 7), 2);
}

#[test]
fn cells_around_a_cell_come_in_a_fixed_order() {
    let grid = lines(&["abc", "def", "ghi"]);
    assert_eq!(get_neighbours(1, 1, &grid), vec!['d', 'f', 'b', 'h', 'a', 'c', 'g', 'i']);
    assert_eq!(get_neighbours(0, 0, &grid), vec!['b', 'd', 'e']);
    assert_eq!(get_neighbours(2, 2, &grid), vec!['h', 'f', 'e']);
    assert_eq!(get_neighbours(2, 0, &grid), vec!['b', 'f', 'e']);
    assert_eq!(get_neighbours(0, 1, &grid), vec!['e', 'a', 'g', 'b', 'h']);
    assert_eq!(get_neighbours(0, 0, &lines(&["x"])), Vec::<char>::new());
}

#[test]
fn numbers_around_a_cell_are_read_whole() {
    let grid = engine();
    assert_eq!(get_neighbour_numbers(3, 1, &grid), vec![467, 35]);
    assert_eq!(get_neighbour_numbers(3, 4, &grid), vec![617]);
    assert_eq!(get_neighbour_numbers(5, 8, &grid), vec![755, 598]);
    assert_eq!(get_neighbour_numbers(5, 5, &grid), vec![592]);
    assert_eq!(get_neighbour_numbers(0, 7, &grid), Vec::<i32>::new());
    let tight = lines(&["12.34", "..*..", "5.6.7"]);
    assert_eq!(get_neighbour_numbers(2, 1, &tight), vec![12, 34, 6]);
    let over = lines(&["123", "4*5", "678"]);
    assert_eq!(get_neighbour_numbers(1, 1, &over), vec![4, 5, 123, 678]);
    let huge = lines(&["99999999999*7"]);
    assert_eq!(get_neighbour_numbers(11, 0, &huge), vec![7]);
    let most = lines(&["2147483647*2147483648"]);
    assert_eq!(get_neighbour_numbers(10, 0, &most), vec![2147483647]);
}

#[test]
fn engine_part_numbers_and_gear_ratios() {
    assert_eq!(schematic::part1(&engine()), 4361);
    assert_eq!(schematic::part2(&engine()), 467835);
    assert_eq!(schematic::part1(&[]), 0);
    assert_eq!(schematic::part2(&[]), 0);
    assert_eq!(schematic::part1(&lines(&["12*34", ".....", "56.78"])), 46);
    assert_eq!(schematic::part1(&lines(&["1.2", ".#.", "3.4"])), 10);
    assert_eq!(schematic::part1(&lines(&["123"])), 0);
    assert_eq!(schematic::part2(&lines(&["2*3*4"])), 18);
}

#[test]
fn cells_beside_a_pipe_are_hidden_once_visited() {
    let field = cells(&[".F7", ".S|", ".LJ"]);
    let p = Point { x: 1, y: 1 };
    assert_eq!(
        get_neighbours_not_visited(&p, &field, &Vec::new()),
        (Some('.'), Some('|'), Some('F'), Some('L'))
    );
    let seen = vec![Point { x: 2, y: 1 }, Point { x: 1, y: 0 }];
    assert_eq!(get_neighbours_not_visited(&p, &field, &seen), (Some('.'), None, None, Some('L')));
    let corner = Point { x: 0, y: 0 };
    assert_eq!(get_neighbours_not_visited(&corner, &field, &seen), (None, None, None, Some('.')));
    let last = Point { x: 2, y: 2 };
    assert_eq!(
        get_neighbours_not_visited(&last, &field, &Vec::new()),
        (Some('L'), None, Some('|'), None)
    );
}

#[test]
fn start_cell_becomes_the_pipe_that_joins_its_neighbours() {
    let field = cells(&["-S-"]);
    assert_eq!(interpolate(&Point { x: 1, y: 0 }, &field), cells(&["---"]));
    let upright = cells(&["|", "S", "|"]);
    assert_eq!(interpolate(&Point { x: 0, y: 1 }, &upright), cells(&["|", "|", "|"]));
    let bend = cells(&["S-", "|."]);
    assert_eq!(interpolate(&Point { x: 0, y: 0 }, &bend), cells(&["F-", "|."]));
    let back = cells(&["-S", ".|"]);
    assert_eq!(interpolate(&Point { x: 1, y: 0 }, &back), cells(&["-J", ".|"]));
    let up = cells(&["F.", "S7"]);
    assert_eq!(interpolate(&Point { x: 0, y: 1 }, &up), cells(&["F.", "L7"]));
    let other = cells(&["SJ", "|."]);
    assert_eq!(interpolate(&Point { x: 0, y: 0 }, &other), cells(&["FJ", "|."]));
}
