use aoc_days::day_2023_12_01::espeak::{
    agreement, checked_sum, strip_phonemes, Speaker, SpeakerError,
};
use aoc_days::day_2023_12_01::yara::{from_matches, Match, ScanError, Scanner};
use aoc_days::day_2023_12_01::{
    checked_sum_calibration_pure_rust, checked_sum_calibration_with_words_pure_rust,
    total_status, Day, INVALID_INPUT, OVERFLOW,
};

const PART1_EXAMPLE: &str = "1abc2
pqr3stu8vwx
a1b2c3d4e5f
treb7uchet";

const PART2_EXAMPLE: &str = "two1nine
eightwothree
abcone2threexyz
xtwone3four
4nineeightseven2
zoneight234
7pqrstsixteen";

/// A digit match `$dN`, the way the scanner reports it.
fn digit(n: u32, offset: u64) -> Match {
    Match { offset, string_index: n }
}

/// A word match `$wN`, the way the scanner reports it.
fn word(n: u32, offset: u64) -> Match {
    Match { offset, string_index: 9 + n }
}

/// A line's value from what the scanner reported for it.
fn scanned(scanner: &Scanner, line: &str, reported: &[Match]) -> Result<u32, ScanError> {
    match scanner.precheck(line) {
        Some(decided) => decided,
        None => scanner.finish(0, reported),
    }
}

#[test]
fn the_part1_example_sums_to_142() {
    assert_eq!(Day::from_str(PART1_EXAMPLE).part1(), 142);
}

#[test]
fn the_part2_example_sums_to_281() {
    assert_eq!(Day::from_str(PART2_EXAMPLE).part2(), 281);
}

#[test]
fn a_multibyte_line_is_read_by_character() {
    assert_eq!(Day::from_str("1é9").part1(), 19);
    assert_eq!(Day::from_str("fourété2").part2(), 42);
}

#[test]
fn calibration_values_of_single_lines() {
    assert_eq!(Day::calibration_value("treb7uchet", false), 77);
    assert_eq!(Day::calibration_value("two1nine", true), 29);
    assert_eq!(Day::calibration_value("two1nine", false), 11);
    assert_eq!(Day::calibration_value("oneight", true), 18);
    assert_eq!(Day::calibration_value("23seven", true), 27);
    assert_eq!(Day::calibration_value("eighth33twobfr", true), 82);
    assert_eq!(Day::calibration_value("djnrmpxjbsbpgzvtjkhq6pkkfshx", true), 66);
    assert_eq!(Day::calibration_value("one", false), 0);
    assert_eq!(Day::calibration_value("", true), 0);
}

#[test]
fn the_checked_sums_answer_the_examples() {
    let day = Day::from_str(PART2_EXAMPLE);
    assert_eq!(checked_sum_calibration_with_words_pure_rust(&day.0), Some(281));
    let day = Day::from_str(PART1_EXAMPLE);
    assert_eq!(checked_sum_calibration_pure_rust(&day.0), Some(142));
}

#[test]
fn the_calibration_examples_answer_through_the_c_surface() {
    assert_eq!(total_status(Some(PART1_EXAMPLE), false), Ok(142));
    assert_eq!(total_status(Some(PART2_EXAMPLE), true), Ok(281));
    assert_eq!(total_status(Some("1é9\nfourété2"), true), Ok(19 + 42));
}

#[test]
fn a_null_calibration_input_is_refused() {
    assert_eq!(total_status(None, false), Err(INVALID_INPUT));
    assert_eq!((INVALID_INPUT, OVERFLOW), (-1, -2));
}

#[test]
fn overlapping_words_are_two_matches() {
    let scanner = Scanner::new(true, 32);
    assert_eq!(scanned(&scanner, "oneight", &[word(1, 0), word(8, 2)]), Ok(18));
    assert_eq!(scanned(&scanner, "twone", &[word(2, 0), word(1, 2)]), Ok(21));
    assert_eq!(
        scanned(&scanner, "eightwothree", &[word(2, 4), word(3, 7), word(8, 0)]),
        Ok(83)
    );
}

#[test]
fn the_answer_comes_from_offsets_not_report_order() {
    let scanner = Scanner::new(true, 32);
    assert_eq!(
        scanned(&scanner, "eightwothree", &[word(2, 4), word(3, 7), word(8, 0)]),
        Ok(83)
    );
    assert_eq!(
        scanned(
            &scanner,
            "zoneight234",
            &[digit(2, 8), digit(3, 9), digit(4, 10), word(1, 1), word(8, 3)]
        ),
        Ok(14)
    );
}

#[test]
fn digits_only_ignores_spelled_out_words() {
    let scanner = Scanner::new(false, 32);
    assert!(!scanner.rule_source().contains("$w1"));
    assert_eq!(scanned(&scanner, "oneight", &[]), Ok(0));
    assert_eq!(scanned(&scanner, "two1nine", &[digit(1, 3)]), Ok(11));
}

#[test]
fn every_occurrence_is_reported() {
    let scanner = Scanner::new(false, 32);
    assert_eq!(scanned(&scanner, "999", &[digit(9, 0), digit(9, 1), digit(9, 2)]), Ok(99));
}

#[test]
fn a_line_longer_than_the_buffer_is_refused() {
    let scanner = Scanner::new(true, 4);
    let error = scanned(&scanner, "a much longer line than four bytes", &[])
        .unwrap_err()
        .message();
    assert!(error.contains("scratch buffer"), "unexpected error: {error}");
    assert_eq!(
        error,
        "line of 34 bytes exceeds the 4-byte scratch buffer this scanner was built for"
    );
}

#[test]
fn the_rule_text_declares_digits_then_words() {
    let source = Scanner::new(true, 8).rule_source();
    assert!(source.starts_with("rule calibration {\n  strings:\n"));
    assert!(source.contains("    $d0 = \"0\"\n"));
    assert!(source.contains("    $d9 = \"9\"\n"));
    assert!(source.contains("    $w1 = \"one\"\n"));
    assert!(source.contains("    $w9 = \"nine\"\n"));
    assert!(source.ends_with("  condition:\n    any of them\n}\n"));
    assert!(source.find("$d9").unwrap() < source.find("$w1").unwrap());
}

#[test]
fn string_indices_map_to_values() {
    assert_eq!(Scanner::value_of(0), Some(0));
    assert_eq!(Scanner::value_of(9), Some(9));
    assert_eq!(Scanner::value_of(10), Some(1));
    assert_eq!(Scanner::value_of(18), Some(9));
    assert_eq!(Scanner::value_of(19), None);
}

#[test]
fn each_scan_failure_has_its_error() {
    let scanner = Scanner::new(true, 8);
    assert_eq!(scanner.finish(-1, &[]), Err(ScanError::TooManyMatches));
    assert_eq!(scanner.finish(4, &[]), Err(ScanError::ScanFailed(4)));
    assert_eq!(from_matches(&[digit(20, 0)]), Err(ScanError::UnknownString));
    assert_eq!(scanner.precheck(""), Some(Ok(0)));
    assert_eq!(ScanError::ScanFailed(-7).message(), "yr_rules_scan_mem failed (-7)");
}

#[test]
fn the_same_matches_in_any_order_give_the_same_value() {
    let reported = [word(2, 4), word(3, 7), word(8, 0)];
    let reversed = [word(8, 0), word(3, 7), word(2, 4)];
    assert_eq!(from_matches(&reported), from_matches(&reversed));
}

#[test]
fn stress_marks_and_spaces_are_stripped() {
    assert_eq!(strip_phonemes("w\u{2c8}\u{252}n \u{2cc}a\n"), "w\u{252}na");
}

#[test]
fn the_speaker_hears_the_first_matching_reference() {
    let speaker = Speaker::from_references(vec![
        ("wVn".to_string(), 1),
        ("tu:".to_string(), 2),
        ("wVnz".to_string(), 9),
    ])
    .unwrap();
    assert_eq!(speaker.digit_for("wVnzo"), Some(1));
    assert_eq!(speaker.digit_for("tu:x"), Some(2));
    assert_eq!(speaker.digit_for("x"), None);
    assert_eq!(speaker.digit_for(""), None);
}

#[test]
fn an_empty_reference_is_refused() {
    let refused = Speaker::from_references(vec![("wVn".to_string(), 1), (String::new(), 2)]);
    assert_eq!(refused.err(), Some(SpeakerError::EmptyReference));
}

#[test]
fn heard_digits_make_a_calibration_value() {
    assert_eq!(Speaker::calibration_from(&[None, Some(2), None, Some(9), None]), 29);
    assert_eq!(Speaker::calibration_from(&[Some(7)]), 77);
    assert_eq!(Speaker::calibration_from(&[None, None]), 0);
}

#[test]
fn heard_values_are_summed_and_scored() {
    assert_eq!(checked_sum(&[29, 83, 13]), Some(125));
    assert_eq!(checked_sum(&[u32::MAX, 1]), None);
    assert_eq!(agreement(&[29, 37, 13], &[29, 27, 13]), (2, 3));
}

#[test]
fn a_complete_report_gives_the_plain_value() {
    // `eightwothree`: every occurrence of every string, grouped by string
    // as the scanner reports them; the plain scan reads 8, 2, 3.
    let line = "eightwothree";
    let reported = [word(2, 4), word(3, 7), word(8, 0)];
    assert_eq!(from_matches(&reported), Ok(Day::calibration_value(line, true)));
    assert_eq!(from_matches(&reported), Ok(83));
    // Digits only: `pqr3stu8vwx` reads 3 then 8.
    let reported = [digit(8, 7), digit(3, 3)];
    assert_eq!(from_matches(&reported), Ok(Day::calibration_value("pqr3stu8vwx", false)));
    // `fourété2`: offsets count bytes, and each `é` is two of them.
    let reported = [digit(2, 9), word(4, 0)];
    assert_eq!(from_matches(&reported), Ok(Day::calibration_value("fourété2", true)));
    assert_eq!(from_matches(&reported), Ok(42));
}
