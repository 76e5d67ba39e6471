use aoc_days::day_2015_12_01::banner::banner_text;
use aoc_days::day_2015_12_01::godot::{parse, Aoc20151201, Status};
use aoc_days::day_2015_12_01::{
    basement_position_pure_rust, basement_status, checked_final_floor, floor_status,
    part2_answer, sum_pure_rust, Day, NeverInBasement, INTERNAL, INVALID_INPUT,
    NEVER_IN_BASEMENT,
};

fn floor(input: &str) -> i32 {
    sum_pure_rust(&Day::from_str(input))
}

fn basement(input: &str) -> Option<i32> {
    basement_position_pure_rust(&Day::from_str(input))
}

#[test]
fn balanced_pairs_end_on_the_ground_floor() {
    assert_eq!(floor("(())"), 0);
    assert_eq!(floor("()()"), 0);
}

#[test]
fn three_up_is_floor_three() {
    assert_eq!(floor("((("), 3);
    assert_eq!(floor("(()(()("), 3);
    assert_eq!(floor("))((((("), 3);
}

#[test]
fn one_below_is_floor_minus_one() {
    assert_eq!(floor("())"), -1);
    assert_eq!(floor("))("), -1);
}

#[test]
fn three_below_is_floor_minus_three() {
    assert_eq!(floor(")))"), -3);
    assert_eq!(floor(")())())"), -3);
}

#[test]
fn the_first_move_can_enter_the_basement() {
    assert_eq!(basement(")"), Some(1));
}

#[test]
fn the_fifth_move_enters_the_basement() {
    assert_eq!(basement("()())"), Some(5));
}

#[test]
fn staying_above_ground_has_no_basement_position() {
    assert_eq!(basement("((("), None);
    assert_eq!(basement(""), None);
}

#[test]
fn other_characters_are_no_move() {
    let day = Day::from_str("(x)\n(");
    assert_eq!(day.moves(), &vec![1, 0, -1, 0, 1]);
    assert_eq!(sum_pure_rust(&day), 1);
}

#[test]
fn the_basement_position_is_the_first_entry_not_a_later_one() {
    // Below ground after moves 1, 3 and 5: the first one counts.
    assert_eq!(basement(")()))"), Some(1));
    assert_eq!(basement("())()))"), Some(3));
}

#[test]
fn floors_render_as_a_c_array() {
    assert_eq!(Day::from_str("(()").floors_as_c_array(), "1, 1, -1");
    assert_eq!(Day::from_str("").floors_as_c_array(), "");
    assert_eq!(Day::from_str("a").floors_as_c_array(), "0");
}

#[test]
fn the_part1_source_sums_the_array() {
    let source = Day::from_str("()").part1_source();
    assert!(source.starts_with("int solve(void) {"));
    assert!(source.contains("static const int floors[] = { 1, -1 };"));
    assert!(source.contains("total += floors[i];"));
    assert!(source.ends_with("return total;\n            }"));
}

#[test]
fn the_part2_source_returns_the_first_basement_position() {
    let source = Day::from_str(")").part2_source();
    assert!(source.contains("static const int floors[] = { -1 };"));
    assert!(source.contains("if (total < 0) return (int) i + 1;"));
    assert!(source.ends_with("return -1;\n            }"));
}

#[test]
fn a_returned_minus_one_means_never_in_the_basement() {
    assert_eq!(part2_answer(-1), Err(NeverInBasement));
    assert_eq!(part2_answer(5), Ok(5));
}

#[test]
fn a_real_input_is_answered() {
    assert_eq!(floor_status(Some("(()(()(")), Ok(3));
}

#[test]
fn never_reaching_the_basement_is_minus_two() {
    assert_eq!(basement_status(Some("(((")), Err(NEVER_IN_BASEMENT));
    assert_eq!(NEVER_IN_BASEMENT, -2);
}

#[test]
fn the_first_basement_step_is_reported_one_based() {
    assert_eq!(basement_status(Some("()())")), Ok(5));
}

#[test]
fn a_null_input_is_refused_for_both_parts() {
    assert_eq!(floor_status(None), Err(INVALID_INPUT));
    assert_eq!(basement_status(None), Err(INVALID_INPUT));
    assert_eq!(INVALID_INPUT, -1);
    assert_eq!(INTERNAL, -3);
}

#[test]
fn the_checked_floor_agrees_with_the_plain_one() {
    let day = Day::from_str(")())())");
    assert_eq!(checked_final_floor(&day), Some(sum_pure_rust(&day)));
}

#[test]
fn the_engine_class_answers_both_parts() {
    let class = Aoc20151201;
    assert_eq!(class.part1("(()(()("), 3);
    assert_eq!(class.part2("()())"), Some(5));
    assert_eq!(class.part2("((("), None);
    assert_eq!(class.part2_unwrapped(")"), 1);
}

#[test]
fn the_engine_status_form_appends_or_reports_absence() {
    let class = Aoc20151201;
    let mut out: Vec<i64> = vec![7];
    assert_eq!(class.part2_status("()())", &mut out), Status::Answered);
    assert_eq!(out, vec![7, 5]);
    assert_eq!(class.part2_status("(((", &mut out), Status::DoesNotExist);
    assert_eq!(out, vec![7, 5]);
}

#[test]
fn the_engine_counts_utf8_bytes() {
    let class = Aoc20151201;
    assert_eq!(class.utf8_len("(()"), 3);
    assert_eq!(class.utf8_len("é("), 3);
    assert_eq!(parse("é(").moves(), &vec![0, 1]);
}

#[test]
fn a_canvas_becomes_one_line_per_row() {
    // Two rows of three cells: `_|` then an empty cell, a surrogate and `é`.
    let cells = [0x5F, 0x7C, 0x20, 0, 0xD800, 0xE9];
    assert_eq!(banner_text(3, 2, &cells), "_| \n  é\n");
    assert_eq!(banner_text(3, 0, &cells), "");
    assert_eq!(banner_text(0, 2, &cells), "\n\n");
    // Cells past the canvas are not shown.
    assert_eq!(banner_text(2, 1, &cells), "_|\n");
}
