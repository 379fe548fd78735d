use range_remap::minimizer::{minimize, minimize_range, point_min};
use range_remap::seeds::{expand_ranges, SeedRange};
use range_remap::{part1, part2, read_input};
use range_remap::{IntervalMapping, IntervalTable, Pipeline};

const EXAMPLE: &str = "seeds: 79 14 55 13

seed-to-soil map:
50 98 2
52 50 48

soil-to-fertilizer map:
0 15 37
37 52 2
39 0 15

fertilizer-to-water map:
49 53 8
0 11 42
42 0 7
57 7 4

water-to-light map:
88 18 7
18 25 70

light-to-temperature map:
45 77 23
81 45 19
68 64 13

temperature-to-humidity map:
0 69 1
1 0 69

humidity-to-location map:
60 56 37
56 93 4
";

fn example() -> (Vec<i64>, Pipeline) {
    read_input(EXAMPLE.as_bytes()).unwrap()
}

#[test]
fn day5_test_example() {
    let (seeds, maps) = example();
    assert_eq!(35, part1(&seeds, &maps));
    assert_eq!(46, part2(&seeds, &maps).unwrap());
}

#[test]
fn example_has_four_seeds_and_seven_stages() {
    let (seeds, maps) = example();
    assert_eq!(seeds, vec![79, 14, 55, 13]);
    assert_eq!(maps.stage_count(), 7);
}

#[test]
fn example_seeds_resolve_to_documented_locations() {
    let (_, maps) = example();
    assert_eq!(maps.resolve(79), 82);
    assert_eq!(maps.resolve(14), 43);
    assert_eq!(maps.resolve(55), 86);
    assert_eq!(maps.resolve(13), 35);
}

#[test]
fn first_stage_maps_seed_79_to_81() {
    let mut table = IntervalTable::new();
    table.insert(IntervalMapping::from_parts(50, 98, 2).unwrap()).unwrap();
    table.insert(IntervalMapping::from_parts(52, 50, 48).unwrap()).unwrap();
    assert_eq!(table.lookup(79), 81);
    assert_eq!(table.lookup(14), 14);
    assert_eq!(table.lookup(55), 57);
    assert_eq!(table.lookup(13), 13);
    assert_eq!(table.lookup(98), 50);
    assert_eq!(table.lookup(99), 51);
    assert_eq!(table.lookup(100), 100);
    assert_eq!(table.lookup(49), 49);
    assert_eq!(table.lookup(50), 52);
    assert_eq!(table.lookup(97), 99);
}

#[test]
fn point_mode_minimum_is_35() {
    let (seeds, maps) = example();
    assert_eq!(point_min(&maps, &seeds), Some(35));
}

#[test]
fn range_mode_minimum_is_46() {
    let (seeds, maps) = example();
    let ranges = expand_ranges(&seeds).unwrap();
    assert_eq!(ranges.len(), 2);
    assert_eq!((ranges[0].start(), ranges[0].end()), (79, 93));
    assert_eq!((ranges[1].start(), ranges[1].end()), (55, 68));
    assert_eq!(minimize(&maps, &ranges), Some(46));
}

#[test]
fn each_example_range_has_its_own_minimum() {
    let (_, maps) = example();
    let first = SeedRange::new(79, 14).unwrap();
    let second = SeedRange::new(55, 13).unwrap();
    assert_eq!(minimize_range(&maps, &first), 46);
    assert_eq!(minimize_range(&maps, &second), 56);
}

#[test]
fn example_without_final_newline_reads_the_same() {
    let trimmed = EXAMPLE.trim_end();
    let (seeds, maps) = read_input(trimmed.as_bytes()).unwrap();
    assert_eq!(35, part1(&seeds, &maps));
    assert_eq!(maps.stage_count(), 7);
}

#[test]
fn example_with_carriage_returns_reads_the_same() {
    let dos = EXAMPLE.replace('\n', "\r\n");
    let (seeds, maps) = read_input(dos.as_bytes()).unwrap();
    assert_eq!(seeds, vec![79, 14, 55, 13]);
    assert_eq!(35, part1(&seeds, &maps));
    assert_eq!(46, part2(&seeds, &maps).unwrap());
}
