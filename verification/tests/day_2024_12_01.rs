use aoc_days::day_2024_12_01::{
    answer_part1, answer_part2, checked_distance, checked_similarity, checked_similarity_i32,
    parse_columns,
    similarity_pure_rust, sort_pure_rust, Day, Day1, Day1Hashmap, ErrorKind, NativeSort, NomError,
    Sorter, INVALID_INPUT, OVERFLOW,
};

const EXAMPLE: &str = "3   4
    4   3
    2   5
    1   3
    3   9
    3   3";

#[test]
fn test_day1_part1() {
    assert_eq!(Day1::from_str(EXAMPLE).part1().to_string(), "11");
}

#[test]
fn test_day1_part1_native_sort() {
    assert_eq!(Day1::parse_with::<NativeSort>(EXAMPLE).part1().to_string(), "11");
}

#[test]
fn test_day1_part2() {
    assert_eq!(Day1::from_str(EXAMPLE).part2().to_string(), "31");
}

#[test]
fn test_day1_part2_hashmap() {
    assert_eq!(Day1Hashmap::from_str(EXAMPLE).part2().to_string(), "31");
}

#[test]
fn the_alias_names_the_same_day() {
    let day: Day = Day::from_str("1 2\n3 4");
    assert_eq!(day.part1(), 2);
}

#[test]
fn day1_nom_parser() {
    let input = "3   4";
    let result = Day1::nom_parser(input);
    assert_eq!(Ok(("", vec![(3, 4)])), result);
}

#[test]
fn the_grammar_reads_every_line_and_stops_before_what_does_not_match() {
    assert_eq!(Day1::nom_parser("1 2\r\n-3\t4\n"), Ok(("\n", vec![(1, 2), (-3, 4)])));
    assert_eq!(Day1::nom_parser("1 2\nx"), Ok(("\nx", vec![(1, 2)])));
    assert_eq!(Day1::nom_parser("+7  8 rest"), Ok((" rest", vec![(7, 8)])));
}

#[test]
fn the_grammar_reports_where_the_first_pair_fails() {
    assert_eq!(
        Day1::nom_parser("x 1"),
        Err(NomError { input: "x 1", code: ErrorKind::Digit })
    );
    assert_eq!(
        Day1::nom_parser("12,3"),
        Err(NomError { input: ",3", code: ErrorKind::Space })
    );
    assert_eq!(
        Day1::nom_parser("1 99999999999"),
        Err(NomError { input: "99999999999", code: ErrorKind::Digit })
    );
    assert_eq!(
        Day1::nom_parser("-2147483648 2147483647"),
        Ok(("", vec![(i32::MIN, i32::MAX)]))
    );
}

#[test]
fn sorting_orders_a_column() {
    let mut column = vec![3, 1, 4, 1, 5, 9, 2, 6, i32::MAX, i32::MIN];
    sort_pure_rust(&mut column);
    assert_eq!(column, vec![i32::MIN, 1, 1, 2, 3, 4, 5, 6, 9, i32::MAX]);
    let mut again = column.clone();
    NativeSort::sort(&mut again);
    assert_eq!(again, column);
}

#[test]
fn similarity_weights_each_id_by_its_count() {
    let left = [3, 4, 2, 1, 3, 3, -7];
    let right = [4, 3, 5, 3, 9, 3, -7];
    assert_eq!(similarity_pure_rust(&left, &right), 31 - 7);
    assert_eq!(similarity_pure_rust(&left, &[]), 0);
}

#[test]
fn sorting_does_not_change_the_similarity() {
    let left = vec![3, 4, 2, 1, 3, 3];
    let right = vec![4, 3, 5, 3, 9, 3];
    let mut sorted_left = left.clone();
    let mut sorted_right = right.clone();
    sort_pure_rust(&mut sorted_left);
    sort_pure_rust(&mut sorted_right);
    assert_eq!(
        similarity_pure_rust(&left, &right),
        similarity_pure_rust(&sorted_left, &sorted_right)
    );
}

#[test]
fn columns_are_read_defensively() {
    assert_eq!(parse_columns("3 4\n1 2"), Some((vec![3, 1], vec![4, 2])));
    assert_eq!(parse_columns("3 4 5"), None);
    assert_eq!(parse_columns("3"), None);
    assert_eq!(parse_columns("3 x"), None);
    assert_eq!(parse_columns(""), Some((vec![], vec![])));
}

#[test]
fn both_parts_answer_the_example() {
    let example = "3   4\n4   3\n2   5\n1   3\n3   9\n3   3\n";
    assert_eq!(answer_part1(Some(example)), Ok(11));
    assert_eq!(answer_part2(Some(example)), Ok(31));
}

#[test]
fn a_distance_past_int32_reports_minus_two() {
    let rows: String = std::iter::repeat_n(format!("{}   {}\n", i32::MIN, i32::MAX), 4).collect();
    assert_eq!(answer_part1(Some(&rows)), Err(OVERFLOW));
    assert_eq!(OVERFLOW, -2);
}

#[test]
fn a_null_or_malformed_input_is_refused() {
    assert_eq!(answer_part1(None), Err(INVALID_INPUT));
    assert_eq!(answer_part2(Some("1 2 3")), Err(INVALID_INPUT));
    assert_eq!(INVALID_INPUT, -1);
}

#[test]
fn the_checked_sums_widen_before_they_fail() {
    // A single distance past i32::MAX fits the i64 sum, but not the answer.
    assert_eq!(checked_distance(&[i32::MIN], &[i32::MAX]), None);
    assert_eq!(checked_distance(&[1, 2], &[3, 5]), Some(5));
    assert_eq!(checked_similarity(&[i32::MAX, i32::MAX], &[i32::MAX]), None);
    assert_eq!(checked_similarity(&[3, 4], &[3, 3]), Some(6));
}

#[test]
fn the_frequency_map_reads_extra_tokens_as_nothing() {
    let day = Day1Hashmap::from_str("3 4 extra\n4 3");
    assert_eq!(day.part2(), 3 + 4);
    let copy = day.clone();
    assert_eq!(copy.part2(), 7);
}

#[test]
fn checked_parts_answer_or_report_overflow() {
    let day = Day1::from_str(EXAMPLE);
    assert_eq!(day.checked_part1(), Some(11));
    assert_eq!(day.checked_part2(), Some(31));
    let wide = Day1::from_str("-2147483648 2147483647");
    assert_eq!(wide.checked_part1(), None);
    assert_eq!(checked_similarity_i32(&[i32::MAX], &[i32::MAX, i32::MAX]), None);
    assert_eq!(checked_similarity_i32(&[3, 4], &[3, 3]), Some(6));
}

#[test]
fn the_frequency_map_refuses_lines_without_two_ids() {
    assert!(Day1Hashmap::try_from_str("3").is_none());
    assert!(Day1Hashmap::try_from_str("3 x").is_none());
    assert!(Day1Hashmap::try_from_str("-3 4").is_none());
    assert_eq!(Day1Hashmap::try_from_str("3 4\n4 3").unwrap().checked_part2(), Some(7));
    let one = Day1Hashmap::try_from_str(&format!("{} {}", usize::MAX, usize::MAX)).unwrap();
    assert_eq!(one.checked_part2(), Some(usize::MAX));
    let two = Day1Hashmap::try_from_str(&format!("{m} {m}\n{m} {m}", m = usize::MAX)).unwrap();
    assert_eq!(two.checked_part2(), None);
}
