use range_remap::mapping::IntervalMapping;
use range_remap::pipeline::Pipeline;
use range_remap::range::Range;
use range_remap::table::{IntervalTable, OverlappingRangeError};

fn table_of(parts: &[(i64, i64, i64)]) -> IntervalTable {
    let mut table = IntervalTable::new();
    for &(dest, src, len) in parts {
        table.insert(IntervalMapping::from_parts(dest, src, len).unwrap()).unwrap();
    }
    table
}

#[test]
fn range_new_rejects_reversed_bounds() {
    assert!(Range::new(5, 3).is_none());
    let r = Range::new(3, 5).unwrap();
    assert_eq!((r.start(), r.end(), r.len()), (3, 5, 2));
    assert!(!r.is_empty());
    let e = Range::new(4, 4).unwrap();
    assert!(e.is_empty());
    assert_eq!(e.len(), 0);
}

#[test]
fn range_is_half_open() {
    let r = Range::new(10, 20).unwrap();
    assert!(!r.contains(9));
    assert!(r.contains(10));
    assert!(r.contains(19));
    assert!(!r.contains(20));
}

#[test]
fn range_len_of_whole_domain() {
    let r = Range::new(i64::MIN, i64::MAX).unwrap();
    assert_eq!(r.len(), u64::MAX);
}

#[test]
fn range_with_len_checks_sign_and_overflow() {
    assert!(Range::with_len(0, -1).is_none());
    assert!(Range::with_len(i64::MAX, 1).is_none());
    let r = Range::with_len(i64::MAX - 1, 1).unwrap();
    assert_eq!((r.start(), r.end()), (i64::MAX - 1, i64::MAX));
    let z = Range::with_len(7, 0).unwrap();
    assert!(z.is_empty());
}

#[test]
fn ranges_overlap_only_when_they_share_a_value() {
    let a = Range::new(0, 10).unwrap();
    let b = Range::new(10, 20).unwrap();
    let c = Range::new(9, 11).unwrap();
    let empty = Range::new(5, 5).unwrap();
    assert!(!a.overlaps(&b));
    assert!(!b.overlaps(&a));
    assert!(a.overlaps(&c));
    assert!(c.overlaps(&b));
    assert!(!a.overlaps(&empty));
    assert!(!empty.overlaps(&a));
    assert!(a.overlaps(&a));
}

#[test]
fn mapping_new_needs_equal_lengths() {
    let src = Range::new(0, 10).unwrap();
    let same = Range::new(100, 110).unwrap();
    let longer = Range::new(100, 111).unwrap();
    assert!(IntervalMapping::new(src, longer).is_none());
    let m = IntervalMapping::new(src, same).unwrap();
    assert_eq!(m.source(), src);
    assert_eq!(m.dest(), same);
}

#[test]
fn mapping_from_parts_rejects_negative_length_and_overflow() {
    assert!(IntervalMapping::from_parts(0, 0, -1).is_none());
    assert!(IntervalMapping::from_parts(i64::MAX, 0, 1).is_none());
    assert!(IntervalMapping::from_parts(0, i64::MAX, 1).is_none());
    assert!(IntervalMapping::from_parts(0, 0, 0).is_some());
    assert!(IntervalMapping::from_parts(i64::MAX - 5, i64::MIN, 5).is_some());
}

#[test]
fn mapping_translate_shifts_covered_values_only() {
    let m = IntervalMapping::from_parts(52, 50, 48).unwrap();
    assert!(m.covers(50));
    assert!(m.covers(97));
    assert!(!m.covers(98));
    assert_eq!(m.translate(79), Some(81));
    assert_eq!(m.translate(50), Some(52));
    assert_eq!(m.translate(97), Some(99));
    assert_eq!(m.translate(98), None);
    assert_eq!(m.translate(49), None);
}

#[test]
fn mapping_translate_across_the_whole_domain() {
    let m = IntervalMapping::from_parts(i64::MIN + 1, i64::MIN, i64::MAX).unwrap();
    assert_eq!(m.translate(i64::MIN), Some(i64::MIN + 1));
    assert_eq!(m.translate(-2), Some(-1));
    let wide = IntervalMapping::new(
        Range::new(i64::MIN, i64::MAX).unwrap(),
        Range::new(i64::MIN, i64::MAX).unwrap(),
    )
    .unwrap();
    assert_eq!(wide.translate(i64::MAX - 1), Some(i64::MAX - 1));
    assert_eq!(wide.translate(i64::MAX), None);
}

#[test]
fn lookup_is_identity_outside_every_source_range() {
    let table = table_of(&[(50, 98, 2), (52, 50, 48)]);
    for v in [i64::MIN, -1, 0, 1, 49, 100, 101, 1000, i64::MAX] {
        assert_eq!(table.lookup(v), v);
    }
}

#[test]
fn lookup_of_empty_table_is_identity() {
    let table = IntervalTable::new();
    assert_eq!(table.len(), 0);
    assert_eq!(table.lookup(0), 0);
    assert_eq!(table.lookup(i64::MIN), i64::MIN);
    assert_eq!(table.lookup(i64::MAX), i64::MAX);
}

#[test]
fn lookup_shifts_every_value_of_every_source_range() {
    let parts = [(50, 98, 2), (52, 50, 48), (-10, 200, 5)];
    let table = table_of(&parts);
    for &(dest, src, len) in &parts {
        for v in src..src + len {
            assert_eq!(table.lookup(v), dest + (v - src));
        }
    }
}

#[test]
fn lookup_does_not_depend_on_insertion_order() {
    let a = table_of(&[(50, 98, 2), (52, 50, 48)]);
    let b = table_of(&[(52, 50, 48), (50, 98, 2)]);
    for v in 40..110 {
        assert_eq!(a.lookup(v), b.lookup(v));
    }
}

#[test]
fn zero_length_mapping_covers_nothing() {
    let table = table_of(&[(100, 5, 0), (200, 5, 0), (300, 0, 10)]);
    assert_eq!(table.len(), 3);
    assert_eq!(table.lookup(5), 305);
    assert_eq!(table.lookup(10), 10);
}

#[test]
fn insert_rejects_overlapping_source_ranges() {
    let mut table = IntervalTable::new();
    table.insert(IntervalMapping::from_parts(100, 0, 10).unwrap()).unwrap();
    let clash = IntervalMapping::from_parts(500, 9, 10).unwrap();
    assert_eq!(table.insert(clash), Err(OverlappingRangeError));
    assert_eq!(table.len(), 1);
    assert_eq!(table.lookup(9), 109);
    assert_eq!(table.lookup(10), 10);
    let same = IntervalMapping::from_parts(700, 0, 10).unwrap();
    assert_eq!(table.insert(same), Err(OverlappingRangeError));
    let inside = IntervalMapping::from_parts(700, 3, 1).unwrap();
    assert_eq!(table.insert(inside), Err(OverlappingRangeError));
    assert_eq!(table.lookup(3), 103);
}

#[test]
fn insert_accepts_adjacent_source_ranges() {
    let mut table = IntervalTable::new();
    table.insert(IntervalMapping::from_parts(100, 0, 10).unwrap()).unwrap();
    assert_eq!(table.insert(IntervalMapping::from_parts(0, 10, 10).unwrap()), Ok(()));
    assert_eq!(table.insert(IntervalMapping::from_parts(0, -10, 10).unwrap()), Ok(()));
    assert_eq!(table.len(), 3);
    assert_eq!(table.get(1), Some(IntervalMapping::from_parts(0, 10, 10).unwrap()));
    assert_eq!(table.get(3), None);
}

#[test]
fn overlapping_destinations_are_allowed() {
    let table = table_of(&[(0, 10, 5), (0, 20, 5)]);
    assert_eq!(table.lookup(12), 2);
    assert_eq!(table.lookup(22), 2);
}

#[test]
fn from_mappings_fails_on_the_first_overlap() {
    let good = vec![
        IntervalMapping::from_parts(50, 98, 2).unwrap(),
        IntervalMapping::from_parts(52, 50, 48).unwrap(),
    ];
    let table = IntervalTable::from_mappings(&good).unwrap();
    assert_eq!(table.len(), 2);
    assert_eq!(table.lookup(79), 81);
    let bad = vec![
        IntervalMapping::from_parts(50, 98, 2).unwrap(),
        IntervalMapping::from_parts(52, 50, 49).unwrap(),
    ];
    assert!(matches!(IntervalTable::from_mappings(&bad), Err(OverlappingRangeError)));
}

#[test]
fn empty_pipeline_is_identity() {
    let p = Pipeline::new(Vec::new());
    assert_eq!(p.stage_count(), 0);
    assert_eq!(p.resolve(42), 42);
}

#[test]
fn resolve_feeds_each_stage_with_the_output_of_the_one_before() {
    let p = Pipeline::new(vec![table_of(&[(100, 0, 10)]), table_of(&[(200, 100, 10)])]);
    assert_eq!(p.resolve(5), 205);
    assert_eq!(p.resolve(105), 205);
    assert_eq!(p.resolve(50), 50);
}

#[test]
fn reversing_the_stages_changes_the_result() {
    let forward = Pipeline::new(vec![table_of(&[(100, 0, 10)]), table_of(&[(200, 100, 10)])]);
    let backward = Pipeline::new(vec![table_of(&[(200, 100, 10)]), table_of(&[(100, 0, 10)])]);
    assert_eq!(forward.resolve(5), 205);
    assert_eq!(backward.resolve(5), 105);
    assert_ne!(forward.resolve(5), backward.resolve(5));
}
