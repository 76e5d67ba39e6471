use aoc_days::day_2015_12_05::hyperscan::{
    on_part1_match, on_part2_match, part1_patterns, part2_patterns, Part1Match, Part2Match,
};
use aoc_days::day_2015_12_05::{
    count_nice, is_nice_pure_rust, is_nice_under, is_nice_v2_pure_rust, Day, Rules,
    COUNT_OVERFLOW, INVALID_INPUT,
};

#[test]
fn old_rules_accept_the_nice_examples() {
    assert!(is_nice_pure_rust("ugknbfddgicrmopn"));
    assert!(is_nice_pure_rust("aaa"));
}

#[test]
fn old_rules_refuse_a_line_without_a_double_letter() {
    assert!(!is_nice_pure_rust("jchzalrnumimnmhp"));
}

#[test]
fn old_rules_refuse_a_forbidden_pair() {
    assert!(!is_nice_pure_rust("haegwjzuvuyypxyu"));
}

#[test]
fn old_rules_refuse_fewer_than_three_vowels() {
    assert!(!is_nice_pure_rust("dvszwmarrgswjxmb"));
}

#[test]
fn new_rules_accept_the_nice_examples() {
    assert!(is_nice_v2_pure_rust("qjhvhtzxzqqjkmpb"));
    assert!(is_nice_v2_pure_rust("xxyxx"));
}

#[test]
fn new_rules_refuse_a_line_without_a_sandwich() {
    assert!(!is_nice_v2_pure_rust("uurcxstgmygtbstg"));
}

#[test]
fn new_rules_refuse_a_line_without_a_repeated_pair() {
    assert!(!is_nice_v2_pure_rust("ieodomkazucvgmuy"));
}

#[test]
fn overlapping_pairs_do_not_count_twice() {
    // `aaa` holds `aa` twice, but the two share the middle letter.
    assert!(!is_nice_v2_pure_rust("aaa"));
    assert!(is_nice_v2_pure_rust("aaaa"));
}

#[test]
fn the_sandwich_is_a_letter_not_a_byte() {
    // `ab` repeats, but no letter repeats with one between. `éé` is the
    // bytes C3 A9 C3 A9, where a byte repeats with one between, yet no letter.
    assert!(!is_nice_v2_pure_rust("abcab"));
    assert!(!is_nice_v2_pure_rust("abcabéé"));
    assert!(!is_nice_v2_pure_rust("ééxyéé"));
    // A sandwich of `é` around `x` counts, as does the pair `éé` twice.
    assert!(is_nice_v2_pure_rust("abcabéxé"));
    assert!(is_nice_v2_pure_rust("ééxéé"));
}

#[test]
fn the_rules_are_chosen_by_name() {
    assert!(is_nice_under(Rules::Old, "aaa"));
    assert!(!is_nice_under(Rules::New, "aaa"));
}

#[test]
fn the_day_counts_nice_lines() {
    let day = Day::from_str("ugknbfddgicrmopn\naaa\njchzalrnumimnmhp\nhaegwjzuvuyypxyu\ndvszwmarrgswjxmb");
    assert_eq!(day.0.len(), 5);
    assert_eq!(day.part1(), 2);
    let day = Day::from_str("qjhvhtzxzqqjkmpb\nxxyxx\nuurcxstgmygtbstg\nieodomkazucvgmuy");
    assert_eq!(day.part2(), 2);
    assert_eq!(day.compute(Rules::New), 2);
}

#[test]
fn a_real_input_still_counts() {
    assert_eq!(count_nice(Some("ugknbfddgicrmopn\njchzalrnumimnmhp\n"), Rules::Old), Ok(1));
}

#[test]
fn a_null_input_is_refused() {
    assert_eq!(count_nice(None, Rules::New), Err(INVALID_INPUT));
    assert_eq!(INVALID_INPUT, -1);
    assert_eq!(COUNT_OVERFLOW, -3);
}

#[test]
fn the_old_patterns_are_pairs_doubles_and_vowels() {
    let patterns = part1_patterns();
    assert_eq!(patterns.len(), 31);
    assert_eq!(patterns[0..4], ["ab", "cd", "pq", "xy"]);
    assert_eq!(patterns[4], "aa");
    assert_eq!(patterns[29], "zz");
    assert_eq!(patterns[30], "[aeiou]");
}

#[test]
fn the_new_patterns_are_all_pairs_then_sandwiches() {
    let patterns = part2_patterns();
    assert_eq!(patterns.len(), 702);
    assert_eq!(patterns[0], "aa");
    assert_eq!(patterns[1], "ab");
    assert_eq!(patterns[26 * 2 + 3], "cd");
    assert_eq!(patterns[675], "zz");
    assert_eq!(patterns[676], "a.a");
    assert_eq!(patterns[701], "z.z");
}

#[test]
fn old_matches_fold_into_the_verdict() {
    // `ugknbfddgicrmopn`: the double `dd` (id 4 + 3) and the vowels u, i, o.
    let mut seen = Part1Match::default();
    for id in [30, 7, 30, 30] {
        assert_eq!(on_part1_match(id, &mut seen), 0);
    }
    assert!(seen.is_nice());
    assert_eq!(on_part1_match(0, &mut seen), 0);
    assert!(seen.forbidden);
    assert!(!seen.is_nice());
}

#[test]
fn unknown_old_ids_change_nothing() {
    let mut seen = Part1Match::default();
    on_part1_match(31, &mut seen);
    assert_eq!(seen, Part1Match::default());
}

#[test]
fn new_matches_need_pairs_two_apart_and_a_sandwich() {
    // `xxyxx`: `xx` ends at 2 and at 5, and the sandwich `x.x`.
    let xx = 23 * 26 + 23;
    let mut seen = Part2Match::default();
    on_part2_match(xx, 2, &mut seen);
    on_part2_match(676 + 23, 4, &mut seen);
    assert!(!seen.is_nice());
    on_part2_match(xx, 5, &mut seen);
    assert_eq!(seen.pair_min[xx as usize], 2);
    assert_eq!(seen.pair_max[xx as usize], 5);
    assert!(seen.is_nice());
}

#[test]
fn overlapping_new_matches_are_not_a_repeat() {
    // `aaa`: `aa` ends at 2 and at 3, which overlap.
    let mut seen = Part2Match::default();
    on_part2_match(0, 2, &mut seen);
    on_part2_match(0, 3, &mut seen);
    on_part2_match(676, 3, &mut seen);
    assert!(!seen.is_nice());
}

#[test]
fn a_full_old_report_decides_as_the_rules() {
    // `aaa`, every match by end offset and then by id: the vowel class
    // (id 30) at each letter, the double `aa` (id 4) from the second on.
    let report = [(30, 1), (4, 2), (30, 2), (4, 3), (30, 3)];
    let mut seen = Part1Match::default();
    for (id, _to) in report {
        on_part1_match(id, &mut seen);
    }
    assert_eq!(seen.is_nice(), is_nice_pure_rust("aaa"));
    assert!(seen.is_nice());
    // `jchzalrnumimnmhp` has no double letter; its report has no id 4 to 29.
    let mut seen = Part1Match::default();
    for (id, _to) in [(30, 5), (30, 9), (30, 11)] {
        on_part1_match(id, &mut seen);
    }
    assert_eq!(seen.is_nice(), is_nice_pure_rust("jchzalrnumimnmhp"));
}

#[test]
fn a_full_new_report_decides_as_the_rules() {
    // `xxyxx`: the pairs xx, xy, yx, xx end at 2, 3, 4, 5, and the
    // sandwich `x.x` ends at 4.
    let xx = 23 * 26 + 23;
    let xy = 23 * 26 + 24;
    let yx = 24 * 26 + 23;
    let report = [(xx, 2), (xy, 3), (yx, 4), (676 + 23, 4), (xx, 5)];
    let mut seen = Part2Match::default();
    for (id, to) in report {
        on_part2_match(id, to, &mut seen);
    }
    assert_eq!(seen.is_nice(), is_nice_v2_pure_rust("xxyxx"));
    assert!(seen.is_nice());
    // `aaa`: the pair `aa` ends at 2 and 3, and the sandwich `a.a` at 3.
    let mut seen = Part2Match::default();
    for (id, to) in [(0, 2), (0, 3), (676, 3)] {
        on_part2_match(id, to, &mut seen);
    }
    assert_eq!(seen.is_nice(), is_nice_v2_pure_rust("aaa"));
}
