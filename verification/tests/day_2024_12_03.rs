use aoc_days::day_2024_12_03::cursor::{
    checked_part1, checked_part2, parse_mul, parse_num, part1, part2, sum_status, INTERNAL,
    INVALID_INPUT,
};
use aoc_days::day_2024_12_03::{Day3, Part1, Part2, Product};

const SAMPLE_1: &str =
    "xmul(2,4)%&mul[3,7]!@^do_not_mul(5,5)+mul(32,64]then(mul(11,8)mul(8,5))";
const SAMPLE_2: &str =
    "xmul(2,4)&mul[3,7]!^don't()_mul(5,5)+mul(32,64](mul(11,8)undo()?mul(8,5))";

#[test]
fn cursor_test_part1() {
    assert_eq!(161, part1(SAMPLE_1));
}

#[test]
fn cursor_test_part2() {
    assert_eq!(48, part2(SAMPLE_2));
}

#[test]
fn test_corruption_is_skipped() {
    assert_eq!(8, part1("mul(x,4)mul(2,4)"));
    assert_eq!(8, part1("mul(mul(2,4)"));
    assert_eq!(8, part1("mul(2,4)mul(2,"));
}

#[test]
fn both_parts_over_both_samples() {
    // The first sample holds no don't(), so part 2 scores it like part 1.
    assert_eq!(part1(SAMPLE_1), 161);
    assert_eq!(part1(SAMPLE_2), 161);
    assert_eq!(part2(SAMPLE_1), 161);
    assert_eq!(part2(SAMPLE_2), 48);
    assert_eq!(Day3::<Part1>::from_str(SAMPLE_2).part1(), 161);
    assert_eq!(Day3::<Part2>::from_str(SAMPLE_1).part2(), 161);
}

#[test]
fn both_paths_agree_on_the_samples() {
    assert_eq!(part1(SAMPLE_1), Day3::<Part1>::from_str(SAMPLE_1).part1());
    assert_eq!(part2(SAMPLE_2), Day3::<Part2>::from_str(SAMPLE_2).part2());
    assert_eq!(part2(SAMPLE_1), Day3::<Part2>::from_str(SAMPLE_1).part2());
}

#[test]
fn the_grammar_path_reads_the_samples() {
    assert_eq!(Day3::<Part1>::from_str(SAMPLE_1).part1().to_string(), "161");
    assert_eq!(Day3::<Part2>::from_str(SAMPLE_2).part2().to_string(), "48");
}

#[test]
fn the_grammar_path_skips_corruption() {
    assert_eq!(Day3::<Part1>::from_str("mul(x,4)mul(2,4)").part1(), 8);
    assert_eq!(Day3::<Part1>::from_str("mul(mul(2,4)").part1(), 8);
    assert_eq!(Day3::<Part1>::from_str("mul(2,4)mul(2,").part1(), 8);
}

#[test]
fn products_are_read_and_multiplied() {
    let p = Product::new("11", "8");
    assert_eq!((p.0, p.1), (11, 8));
    assert_eq!(p.value(), 88);
    assert_eq!(Product(7, 6).value(), 42);
    let day = Day3::<Part1>::from_str("mul(2,4)mul(3,3)");
    assert_eq!(day.len(), 2);
    let operands: Vec<(usize, usize)> = day.0.iter().map(|p| (p.0, p.1)).collect();
    assert_eq!(operands, vec![(2, 4), (3, 3)]);
    assert_eq!(day.total(), 17);
}

#[test]
fn numbers_are_one_to_three_digits() {
    assert_eq!(parse_num(b"123,", 0), Some((123, 3)));
    assert_eq!(parse_num(b"1234", 0), Some((123, 3)));
    assert_eq!(parse_num(b"x1", 0), None);
    assert_eq!(parse_num(b"x1", 1), Some((1, 2)));
}

#[test]
fn a_mul_is_read_whole_or_not_at_all() {
    assert_eq!(parse_mul(b"mul(2,4)", 0), Some((8, 8)));
    assert_eq!(parse_mul(b"xmul(2,4)", 1), Some((8, 9)));
    assert_eq!(parse_mul(b"mul[3,7]", 0), None);
    assert_eq!(parse_mul(b"mul(2,4", 0), None);
    assert_eq!(parse_mul(b"mul(1234,5)", 0), None);
}

#[test]
fn dont_switches_off_and_do_switches_back_on() {
    assert_eq!(part2("mul(1,1)don't()mul(2,2)do()mul(3,3)"), 1 + 9);
    assert_eq!(part2("don't()do()don't()mul(5,5)"), 0);
    // Without any don't(), both parts agree.
    assert_eq!(part2("mul(2,3)do()mul(4,5)"), part1("mul(2,3)do()mul(4,5)"));
}

#[test]
fn the_checked_sums_agree_with_the_plain_ones() {
    assert_eq!(checked_part1(SAMPLE_1), Some(161));
    assert_eq!(checked_part2(SAMPLE_2), Some(48));
}

#[test]
fn a_real_input_still_scans() {
    assert_eq!(sum_status(Some("xmul(2,4)%&mul[3,7]!@^mul(5,5)"), false), Ok(33));
    assert_eq!(sum_status(Some(SAMPLE_2), true), Ok(48));
}

#[test]
fn a_null_memory_dump_is_refused() {
    assert_eq!(sum_status(None, true), Err(INVALID_INPUT));
    assert_eq!((INVALID_INPUT, INTERNAL), (-1, -4));
}
