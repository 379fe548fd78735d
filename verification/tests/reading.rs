use range_remap::input::{classify, parse_mapping, parse_seed_ranges, LineKind};
use range_remap::mapping::IntervalMapping;
use range_remap::seeds::{InvalidInputError, SeedRange};
use range_remap::table::OverlappingRangeError;
use range_remap::text::{is_space_byte, parse_i64, parse_numbers, split_lines, split_tokens};
use range_remap::{read_input, InputError, ParseError};

fn words(line: &str) -> Vec<Vec<u8>> {
    split_tokens(line.as_bytes())
}

fn strings(rows: Vec<Vec<u8>>) -> Vec<String> {
    rows.into_iter().map(|r| String::from_utf8(r).unwrap()).collect()
}

fn failure(text: &str) -> InputError {
    read_input(text.as_bytes()).unwrap_err()
}

#[test]
fn lines_end_at_line_feeds() {
    assert_eq!(strings(split_lines(b"a\n\nb")), vec!["a", "", "b"]);
    assert_eq!(strings(split_lines(b"a\nb\n")), vec!["a", "b"]);
    assert_eq!(strings(split_lines(b"a\n\n")), vec!["a", ""]);
    assert_eq!(strings(split_lines(b"\n")), vec![""]);
    assert_eq!(strings(split_lines(b"\nx")), vec!["", "x"]);
    assert!(split_lines(b"").is_empty());
    assert_eq!(strings(split_lines(b"a\r\nb")), vec!["a\r", "b"]);
}

#[test]
fn words_are_runs_without_white_space() {
    assert_eq!(strings(words("  50 98\t2 ")), vec!["50", "98", "2"]);
    assert_eq!(strings(words("seed-to-soil map:\r")), vec!["seed-to-soil", "map:"]);
    assert_eq!(strings(words("x")), vec!["x"]);
    assert!(words("").is_empty());
    assert!(words(" \t\r\x0b\x0c").is_empty());
}

#[test]
fn white_space_is_the_six_ascii_bytes() {
    let spaces: Vec<u8> = (0..=255u8).filter(|b| is_space_byte(*b)).collect();
    assert_eq!(spaces, vec![9, 10, 11, 12, 13, 32]);
}

#[test]
fn numbers_are_signed_decimal() {
    assert_eq!(parse_i64(b"0"), Some(0));
    assert_eq!(parse_i64(b"79"), Some(79));
    assert_eq!(parse_i64(b"007"), Some(7));
    assert_eq!(parse_i64(b"-14"), Some(-14));
    assert_eq!(parse_i64(b"+14"), Some(14));
    assert_eq!(parse_i64(b"-0"), Some(0));
    assert_eq!(parse_i64(b"9223372036854775807"), Some(i64::MAX));
    assert_eq!(parse_i64(b"-9223372036854775808"), Some(i64::MIN));
}

#[test]
fn numbers_out_of_range_or_malformed_are_none() {
    assert_eq!(parse_i64(b"9223372036854775808"), None);
    assert_eq!(parse_i64(b"-9223372036854775809"), None);
    assert_eq!(parse_i64(b"99999999999999999999999999999999999999999999"), None);
    assert_eq!(parse_i64(b""), None);
    assert_eq!(parse_i64(b"-"), None);
    assert_eq!(parse_i64(b"+"), None);
    assert_eq!(parse_i64(b"--1"), None);
    assert_eq!(parse_i64(b"1-"), None);
    assert_eq!(parse_i64(b"12a"), None);
    assert_eq!(parse_i64(b"a12"), None);
    assert_eq!(parse_i64(b"1.5"), None);
    assert_eq!(parse_i64(b"99999999999999999999x"), None);
    assert_eq!(parse_i64(b"0x10"), None);
}

#[test]
fn numbers_agree_with_the_standard_parser() {
    for text in ["5", "-5", "+5", "", "-", "1 ", " 1", "1e3", "000", "-000123", "９"] {
        assert_eq!(parse_i64(text.as_bytes()), text.parse::<i64>().ok());
    }
}

#[test]
fn parse_numbers_reads_from_a_position_on() {
    let w = words("seeds: 79 14 -55");
    assert_eq!(parse_numbers(&w, 1), Some(vec![79, 14, -55]));
    assert_eq!(parse_numbers(&w, 0), None);
    assert_eq!(parse_numbers(&w, 4), Some(Vec::new()));
}

#[test]
fn lines_are_told_apart_by_their_words() {
    assert_eq!(classify(&words("")), LineKind::Blank);
    assert_eq!(classify(&words("   ")), LineKind::Blank);
    assert_eq!(classify(&words("seeds: 1 2")), LineKind::Seeds);
    assert_eq!(classify(&words("seeds:")), LineKind::Seeds);
    assert_eq!(classify(&words("seeds: map:")), LineKind::Seeds);
    assert_eq!(classify(&words("seed-to-soil map:")), LineKind::Header);
    assert_eq!(classify(&words("map:")), LineKind::Header);
    assert_eq!(classify(&words("roadmap:")), LineKind::Header);
    assert_eq!(classify(&words("50 98 2")), LineKind::Mapping);
    assert_eq!(classify(&words("seeds 1 2")), LineKind::Mapping);
    assert_eq!(classify(&words("map: 1")), LineKind::Mapping);
    assert_eq!(classify(&words("ap:")), LineKind::Mapping);
}

#[test]
fn mapping_line_is_destination_source_length() {
    let m = parse_mapping(&words("50 98 2")).unwrap();
    assert_eq!(m, IntervalMapping::from_parts(50, 98, 2).unwrap());
    assert_eq!((m.source().start(), m.source().end()), (98, 100));
    assert_eq!((m.dest().start(), m.dest().end()), (50, 52));
    assert_eq!(parse_mapping(&words("50 98")), Err(ParseError::MalformedLine));
    assert_eq!(parse_mapping(&words("50 98 2 1")), Err(ParseError::MalformedLine));
    assert_eq!(parse_mapping(&words("a b")), Err(ParseError::MalformedLine));
    assert_eq!(parse_mapping(&words("50 x 2")), Err(ParseError::MalformedNumber));
    assert_eq!(parse_mapping(&words("50 98 -2")), Err(ParseError::InvalidMapping));
    assert_eq!(
        parse_mapping(&words("9223372036854775807 0 1")),
        Err(ParseError::InvalidMapping)
    );
}

#[test]
fn odd_seed_list_is_a_parse_error() {
    assert_eq!(
        parse_seed_ranges(b"79 14 55"),
        Err(ParseError::InvalidInput(InvalidInputError::OddLength))
    );
}

#[test]
fn seed_list_text_expands_to_ranges() {
    assert_eq!(
        parse_seed_ranges(b"79 14 55 13"),
        Ok(vec![SeedRange::new(79, 14).unwrap(), SeedRange::new(55, 13).unwrap()])
    );
    assert_eq!(parse_seed_ranges(b""), Ok(Vec::new()));
    assert_eq!(parse_seed_ranges(b"79 x"), Err(ParseError::MalformedNumber));
    assert_eq!(
        parse_seed_ranges(b"79 0"),
        Err(ParseError::InvalidInput(InvalidInputError::NonPositiveLength))
    );
    assert_eq!(
        parse_seed_ranges(b"79 -4"),
        Err(ParseError::InvalidInput(InvalidInputError::NonPositiveLength))
    );
    assert_eq!(
        parse_seed_ranges(b"9223372036854775807 1"),
        Err(ParseError::InvalidInput(InvalidInputError::RangeOverflow))
    );
}

#[test]
fn input_needs_a_seed_line_first() {
    assert_eq!(failure(""), InputError::Parse(ParseError::MissingSeedHeader));
    assert_eq!(failure("\n\n"), InputError::Parse(ParseError::MissingSeedHeader));
    assert_eq!(failure("a-to-b map:\n1 2 3\n"), InputError::Parse(ParseError::MissingSeedHeader));
    assert_eq!(failure("1 2 3\nseeds: 1\n"), InputError::Parse(ParseError::MissingSeedHeader));
    assert_eq!(failure("seeds 1 2\n"), InputError::Parse(ParseError::MissingSeedHeader));
}

#[test]
fn input_has_one_seed_line_only() {
    assert_eq!(
        failure("seeds: 1 2\nseeds: 3 4\n"),
        InputError::Parse(ParseError::UnexpectedSeedHeader)
    );
}

#[test]
fn input_numbers_must_be_integers() {
    assert_eq!(failure("seeds: 1 two 3\n"), InputError::Parse(ParseError::MalformedNumber));
    assert_eq!(
        failure("seeds: 1\n\na map:\n1 2 x\n"),
        InputError::Parse(ParseError::MalformedNumber)
    );
    assert_eq!(
        failure("seeds: 9223372036854775808\n"),
        InputError::Parse(ParseError::MalformedNumber)
    );
}

#[test]
fn input_mapping_lines_have_three_numbers() {
    assert_eq!(failure("seeds: 1\n\na map:\n1 2\n"), InputError::Parse(ParseError::MalformedLine));
    assert_eq!(
        failure("seeds: 1\n\na map:\n1 2 3 4\n"),
        InputError::Parse(ParseError::MalformedLine)
    );
    assert_eq!(failure("seeds: 1\nhello\n"), InputError::Parse(ParseError::MalformedLine));
}

#[test]
fn input_mappings_must_be_ranges() {
    assert_eq!(
        failure("seeds: 1\n\na map:\n1 2 -3\n"),
        InputError::Parse(ParseError::InvalidMapping)
    );
    assert_eq!(
        failure("seeds: 1\n\na map:\n1 9223372036854775807 1\n"),
        InputError::Parse(ParseError::InvalidMapping)
    );
}

#[test]
fn input_rejects_overlapping_sources_within_a_block() {
    assert_eq!(
        failure("seeds: 1\n\na map:\n0 10 5\n100 14 5\n"),
        InputError::Overlap(OverlappingRangeError)
    );
    assert_eq!(
        failure("seeds: 1\n\na map:\n0 10 5\n100 10 5\n"),
        InputError::Overlap(OverlappingRangeError)
    );
}

#[test]
fn input_allows_the_same_source_in_different_blocks() {
    let (seeds, maps) = read_input(b"seeds: 12\n\na map:\n0 10 5\n\nb map:\n100 10 5\n").unwrap();
    assert_eq!(seeds, vec![12]);
    assert_eq!(maps.stage_count(), 2);
    assert_eq!(maps.resolve(12), 2);
    assert_eq!(maps.resolve(3), 3);
}

#[test]
fn input_reports_the_first_failure() {
    assert_eq!(
        failure("seeds: 1\n\na map:\n1 2\n0 10 5\n100 10 5\n"),
        InputError::Parse(ParseError::MalformedLine)
    );
    assert_eq!(
        failure("seeds: 1\n\na map:\n0 10 5\n100 10 5\n1 2\n"),
        InputError::Overlap(OverlappingRangeError)
    );
}

#[test]
fn input_with_seeds_only_has_one_empty_stage() {
    let (seeds, maps) = read_input(b"seeds: 3 -4 5").unwrap();
    assert_eq!(seeds, vec![3, -4, 5]);
    assert_eq!(maps.stage_count(), 1);
    assert_eq!(maps.resolve(3), 3);
    let (none, _) = read_input(b"seeds:\n").unwrap();
    assert!(none.is_empty());
}

#[test]
fn input_header_without_lines_leaves_no_stage_unless_it_is_last() {
    let (_, maps) = read_input(b"seeds: 1\n\na map:\n\nb map:\n5 1 1\n\nc map:\n").unwrap();
    assert_eq!(maps.stage_count(), 2);
    assert_eq!(maps.resolve(1), 5);
}

#[test]
fn input_mappings_before_any_header_form_the_first_stage() {
    let (_, maps) = read_input(b"seeds: 1\n5 1 1\n\na map:\n9 5 1\n").unwrap();
    assert_eq!(maps.stage_count(), 2);
    assert_eq!(maps.resolve(1), 9);
}

#[test]
fn input_accepts_negative_numbers_and_extra_blanks() {
    let text = "\n\n  seeds:   -5   7 \n\n\n x map:  \n -10   -5\t3 \n";
    let (seeds, maps) = read_input(text.as_bytes()).unwrap();
    assert_eq!(seeds, vec![-5, 7]);
    assert_eq!(maps.resolve(-5), -10);
    assert_eq!(maps.resolve(-3), -8);
    assert_eq!(maps.resolve(-2), -2);
}
