use range_remap::chunks::split_chunks;
use range_remap::mapping::IntervalMapping;
use range_remap::minimizer::{
    minimize, minimize_range, minimize_range_with, point_min, scan_chunk, sequential_min,
};
use range_remap::pipeline::Pipeline;
use range_remap::range::Range;
use range_remap::seeds::{expand_ranges, InvalidInputError, SeedRange};
use range_remap::table::IntervalTable;
use range_remap::{part1, part2};

struct Lcg(u64);

impl Lcg {
    fn next(&mut self) -> u64 {
        self.0 = self.0.wrapping_mul(6364136223846793005).wrapping_add(1442695040888963407);
        self.0 >> 33
    }

    fn below(&mut self, n: u64) -> i64 {
        (self.next() % n) as i64
    }
}

fn random_pipeline(rng: &mut Lcg) -> Pipeline {
    let stages = 1 + rng.below(4);
    let mut tables = Vec::new();
    for _ in 0..stages {
        let mut table = IntervalTable::new();
        for _ in 0..1 + rng.below(5) {
            let m = IntervalMapping::from_parts(rng.below(400) - 100, rng.below(300), rng.below(60))
                .unwrap();
            let _ = table.insert(m);
        }
        tables.push(table);
    }
    Pipeline::new(tables)
}

fn brute_force(p: &Pipeline, start: i64, len: i64) -> i64 {
    (start..start + len).map(|v| p.resolve(v)).min().unwrap()
}

fn bounds(chunks: &[Range]) -> Vec<(i64, i64)> {
    chunks.iter().map(|c| (c.start(), c.end())).collect()
}

#[test]
fn split_gives_the_longer_chunks_first() {
    let r = Range::new(0, 10).unwrap();
    assert_eq!(bounds(&split_chunks(&r, 3)), vec![(0, 4), (4, 7), (7, 10)]);
    assert_eq!(bounds(&split_chunks(&r, 4)), vec![(0, 3), (3, 6), (6, 8), (8, 10)]);
    assert_eq!(bounds(&split_chunks(&r, 5)), vec![(0, 2), (2, 4), (4, 6), (6, 8), (8, 10)]);
    assert_eq!(bounds(&split_chunks(&r, 1)), vec![(0, 10)]);
}

#[test]
fn split_with_no_parts_counts_as_one_part() {
    let r = Range::new(-5, 5).unwrap();
    assert_eq!(bounds(&split_chunks(&r, 0)), vec![(-5, 5)]);
}

#[test]
fn split_never_makes_an_empty_chunk() {
    let r = Range::new(7, 10).unwrap();
    assert_eq!(bounds(&split_chunks(&r, 8)), vec![(7, 8), (8, 9), (9, 10)]);
    let empty = Range::new(3, 3).unwrap();
    assert!(split_chunks(&empty, 4).is_empty());
}

#[test]
fn split_of_the_whole_domain() {
    let r = Range::new(i64::MIN, i64::MAX).unwrap();
    let chunks = split_chunks(&r, 2);
    assert_eq!(bounds(&chunks), vec![(i64::MIN, 0), (0, i64::MAX)]);
    let three = split_chunks(&r, 3);
    assert_eq!(three.len(), 3);
    assert_eq!(three[0].start(), i64::MIN);
    assert_eq!(three[2].end(), i64::MAX);
    assert_eq!(three[0].end(), three[1].start());
    assert_eq!(three[1].end(), three[2].start());
    assert_eq!(three[0].len(), 6148914691236517205);
    assert_eq!(three[1].len(), 6148914691236517205);
    assert_eq!(three[2].len(), 6148914691236517205);
}

#[test]
fn split_chunks_are_contiguous_and_cover_the_range() {
    for len in 0..40i64 {
        for parts in 0..12usize {
            let r = Range::new(-7, -7 + len).unwrap();
            let chunks = split_chunks(&r, parts);
            let expected = std::cmp::min(len as usize, std::cmp::max(parts, 1));
            assert_eq!(chunks.len(), expected);
            let mut at = -7;
            for c in &chunks {
                assert_eq!(c.start(), at);
                assert!(c.end() > c.start());
                at = c.end();
            }
            assert_eq!(at, -7 + len);
            if let (Some(longest), Some(shortest)) =
                (chunks.iter().map(|c| c.len()).max(), chunks.iter().map(|c| c.len()).min())
            {
                assert!(longest - shortest <= 1);
            }
        }
    }
}

#[test]
fn scan_chunk_finds_the_least_output() {
    let mut table = IntervalTable::new();
    table.insert(IntervalMapping::from_parts(1000, 0, 5).unwrap()).unwrap();
    table.insert(IntervalMapping::from_parts(-3, 7, 2).unwrap()).unwrap();
    let p = Pipeline::new(vec![table]);
    assert_eq!(scan_chunk(&p, &Range::new(0, 5).unwrap()), 1000);
    assert_eq!(scan_chunk(&p, &Range::new(0, 6).unwrap()), 5);
    assert_eq!(scan_chunk(&p, &Range::new(0, 10).unwrap()), -3);
    assert_eq!(scan_chunk(&p, &Range::new(8, 9).unwrap()), -2);
}

#[test]
fn sequential_min_of_an_empty_range_is_none() {
    let p = Pipeline::new(Vec::new());
    assert_eq!(sequential_min(&p, &Range::new(4, 4).unwrap()), None);
    assert_eq!(sequential_min(&p, &Range::new(4, 9).unwrap()), Some(4));
}

#[test]
fn parallel_minimum_equals_sequential_minimum() {
    let mut rng = Lcg(2023);
    for _ in 0..200 {
        let p = random_pipeline(&mut rng);
        let start = rng.below(300) - 20;
        let len = 1 + rng.below(120);
        let range = SeedRange::new(start, len).unwrap();
        let expected = brute_force(&p, start, len);
        assert_eq!(sequential_min(&p, &range.to_range()), Some(expected));
        assert_eq!(minimize_range(&p, &range), expected);
    }
}

#[test]
fn worker_count_does_not_change_the_minimum() {
    let mut rng = Lcg(5);
    for _ in 0..40 {
        let p = random_pipeline(&mut rng);
        let start = rng.below(300);
        let len = 1 + rng.below(90);
        let range = SeedRange::new(start, len).unwrap();
        let expected = brute_force(&p, start, len);
        for workers in [0usize, 1, 2, 3, 7, 64, 1000] {
            assert_eq!(minimize_range_with(&p, &range, workers), expected);
        }
    }
}

#[test]
fn minimum_over_several_ranges_is_the_least_of_their_minima() {
    let mut rng = Lcg(77);
    for _ in 0..60 {
        let p = random_pipeline(&mut rng);
        let mut ranges = Vec::new();
        let mut expected = i64::MAX;
        for _ in 0..1 + rng.below(4) {
            let start = rng.below(300);
            let len = 1 + rng.below(50);
            ranges.push(SeedRange::new(start, len).unwrap());
            expected = expected.min(brute_force(&p, start, len));
        }
        assert_eq!(minimize(&p, &ranges), Some(expected));
    }
}

#[test]
fn overlapping_seed_ranges_are_allowed() {
    let p = Pipeline::new(Vec::new());
    let ranges = expand_ranges(&vec![10, 5, 12, 5, 10, 5]).unwrap();
    assert_eq!(ranges.len(), 3);
    assert_eq!(minimize(&p, &ranges), Some(10));
}

#[test]
fn minimum_of_no_ranges_is_none() {
    let p = Pipeline::new(Vec::new());
    assert_eq!(minimize(&p, &Vec::new()), None);
    assert_eq!(point_min(&p, &Vec::new()), None);
}

#[test]
fn point_min_is_the_least_resolved_seed() {
    let mut table = IntervalTable::new();
    table.insert(IntervalMapping::from_parts(-50, 10, 10).unwrap()).unwrap();
    let p = Pipeline::new(vec![table]);
    assert_eq!(point_min(&p, &vec![5, 30, 19, 7]), Some(-41));
    assert_eq!(point_min(&p, &vec![5, 30, 7]), Some(5));
    assert_eq!(part1(&vec![5, 30, 19, 7], &p), -41);
}

#[test]
fn minimum_at_the_edges_of_the_domain() {
    let p = Pipeline::new(Vec::new());
    let low = SeedRange::new(i64::MIN, 3).unwrap();
    assert_eq!(minimize_range(&p, &low), i64::MIN);
    let high = SeedRange::new(i64::MAX - 3, 3).unwrap();
    assert_eq!(high.end(), i64::MAX);
    assert_eq!(minimize_range(&p, &high), i64::MAX - 3);
}

#[test]
fn seed_range_reports_start_length_and_end() {
    let r = SeedRange::new(79, 14).unwrap();
    assert_eq!((r.start(), r.length(), r.end()), (79, 14, 93));
    assert_eq!(r.to_range(), Range::new(79, 93).unwrap());
}

#[test]
fn seed_range_needs_a_positive_length_and_an_end_in_range() {
    assert_eq!(SeedRange::new(5, 0), Err(InvalidInputError::NonPositiveLength));
    assert_eq!(SeedRange::new(5, -3), Err(InvalidInputError::NonPositiveLength));
    assert_eq!(SeedRange::new(i64::MAX, 1), Err(InvalidInputError::RangeOverflow));
    assert!(SeedRange::new(i64::MAX - 1, 1).is_ok());
}

#[test]
fn expand_pairs_starts_with_lengths_in_order() {
    let ranges = expand_ranges(&vec![79, 14, 55, 13]).unwrap();
    assert_eq!(ranges, vec![SeedRange::new(79, 14).unwrap(), SeedRange::new(55, 13).unwrap()]);
    assert_eq!(expand_ranges(&Vec::new()), Ok(Vec::new()));
}

#[test]
fn expand_rejects_an_odd_number_of_values() {
    assert_eq!(expand_ranges(&vec![79, 14, 55]), Err(InvalidInputError::OddLength));
    assert_eq!(expand_ranges(&vec![79]), Err(InvalidInputError::OddLength));
    assert_eq!(expand_ranges(&vec![79, 0, 55]), Err(InvalidInputError::OddLength));
}

#[test]
fn expand_rejects_the_first_bad_pair() {
    assert_eq!(expand_ranges(&vec![79, 14, 55, 0]), Err(InvalidInputError::NonPositiveLength));
    assert_eq!(expand_ranges(&vec![79, -1, 55, 13]), Err(InvalidInputError::NonPositiveLength));
    assert_eq!(expand_ranges(&vec![i64::MAX, 1, 55, 0]), Err(InvalidInputError::RangeOverflow));
    assert_eq!(expand_ranges(&vec![1, 0, i64::MAX, 1]), Err(InvalidInputError::NonPositiveLength));
}

#[test]
fn part2_reports_a_seed_list_that_is_not_pairs() {
    let p = Pipeline::new(Vec::new());
    assert_eq!(part2(&vec![79, 14, 55], &p), Err(InvalidInputError::OddLength));
    assert_eq!(part2(&vec![79, 0], &p), Err(InvalidInputError::NonPositiveLength));
    assert_eq!(part2(&vec![79, 14, 55, 13], &p), Ok(55));
}
