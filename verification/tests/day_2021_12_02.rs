use aoc_days::day_2021_12_02::{
    checked_dead_reckon_pure_rust, checked_dead_reckon_with_aim_pure_rust, dead_reckon_pure_rust,
    dead_reckon_with_aim_pure_rust, narrow, product_status, Command, CommandError, Day,
    OutOfRange, INVALID_INPUT, OVERFLOW,
};

const EXAMPLE: &str = "forward 5
down 5
forward 8
up 3
down 8
forward 2";

#[test]
fn commands_parse_by_word() {
    assert_eq!(Command::from_str("forward 5"), Ok(Command::Forward(5)));
    assert_eq!(Command::from_str("down 5"), Ok(Command::Down(5)));
    assert_eq!(Command::from_str("up 3"), Ok(Command::Up(3)));
}

#[test]
fn each_malformed_command_has_its_error() {
    assert_eq!(Command::from_str("forward"), Err(CommandError::Malformed));
    assert_eq!(Command::from_str("forward x"), Err(CommandError::BadAmount));
    assert_eq!(Command::from_str("sideways 3"), Err(CommandError::UnknownCommand));
}

#[test]
fn the_example_course_answers_both_parts() {
    let day = Day::from_str(EXAMPLE).unwrap();
    assert_eq!(day.part1(), 150);
    assert_eq!(day.part2(), 900);
}

#[test]
fn test_pure_rust_backend() {
    let day = Day::from_str(EXAMPLE).unwrap();
    assert_eq!(dead_reckon_pure_rust(&day.0), 150);
    assert_eq!(dead_reckon_with_aim_pure_rust(&day.0), 900);
}

#[test]
fn an_empty_course_stays_at_the_surface() {
    let day = Day::from_str("").unwrap();
    assert_eq!(day.0.len(), 0);
    assert_eq!(dead_reckon_pure_rust(&day.0), 0);
    assert_eq!(dead_reckon_with_aim_pure_rust(&day.0), 0);
}

#[test]
fn the_first_bad_line_decides_the_course() {
    assert_eq!(Day::from_str("forward 5\nsideways 3\nforward x").unwrap_err(), CommandError::UnknownCommand);
}

#[test]
fn the_checked_answers_agree_where_they_fit() {
    let day = Day::from_str(EXAMPLE).unwrap();
    assert_eq!(checked_dead_reckon_pure_rust(&day.0), Some(150));
    assert_eq!(checked_dead_reckon_with_aim_pure_rust(&day.0), Some(900));
}

#[test]
fn the_aim_moves_like_the_first_depth() {
    // Part 2's aim follows part 1's depth: with no forward after the
    // turns, the depth under the aim rules stays 0.
    let day = Day::from_str("forward 3\ndown 4\nup 1").unwrap();
    assert_eq!(day.part1(), 3 * 3);
    assert_eq!(day.part2(), 0);
}

#[test]
fn an_overflowing_course_is_none_when_checked() {
    let quarter = 1 << 30;
    let mut course = Vec::new();
    for _ in 0..4 {
        course.push(Command::Forward(quarter));
    }
    assert_eq!(checked_dead_reckon_pure_rust(&course), None);
}

#[test]
fn an_overflowing_course_reports_minus_three() {
    let quarter = 1 << 30;
    let course: String = std::iter::repeat_n(format!("forward {quarter}\n"), 4)
        .chain(std::iter::repeat_n(format!("down {quarter}\n"), 4))
        .collect();
    assert_eq!(product_status(Some(&course), false), Err(OVERFLOW));
    assert_eq!(OVERFLOW, -3);
}

#[test]
fn a_course_that_fits_is_answered() {
    let course = "forward 5\ndown 5\nforward 8\nup 3\ndown 8\nforward 2\n";
    assert_eq!(product_status(Some(course), false), Ok(150));
    assert_eq!(product_status(Some(course), true), Ok(900));
}

#[test]
fn a_null_or_bad_course_is_refused() {
    assert_eq!(product_status(None, false), Err(INVALID_INPUT));
    assert_eq!(product_status(Some("forward"), true), Err(INVALID_INPUT));
}

#[test]
fn a_wide_answer_narrows_only_when_it_fits() {
    assert_eq!(narrow(150), Ok(150));
    assert_eq!(narrow(-5), Ok(-5));
    assert_eq!(narrow(10_000_000_000), Err(OutOfRange(10_000_000_000)));
}
