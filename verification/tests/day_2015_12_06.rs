use aoc_days::day_2015_12_06::{
    dim, read_day, solve_day, switch, Action, Day, Instruction, InstructionError, Rule,
    INVALID_INPUT, OVERFLOW, INTERNAL,
};

fn part1(input: &str) -> u32 {
    Day::from_str(input).unwrap().part1().unwrap()
}

fn part2(input: &str) -> u32 {
    Day::from_str(input).unwrap().part2().unwrap()
}

#[test]
fn turning_on_the_whole_grid_lights_a_million() {
    assert_eq!(part1("turn on 0,0 through 999,999"), 1_000_000);
}

#[test]
fn toggling_the_first_row_lights_a_thousand() {
    assert_eq!(part1("toggle 0,0 through 999,0"), 1000);
}

#[test]
fn turning_off_the_middle_four_on_a_dark_grid_leaves_none() {
    assert_eq!(part1("turn off 499,499 through 500,500"), 0);
}

#[test]
fn test_part1_sequence() {
    let input = "turn on 0,0 through 999,999
toggle 0,0 through 999,0
turn off 499,499 through 500,500";
    assert_eq!(part1(input), 998_996);
}

#[test]
fn one_light_turned_on_is_brightness_one() {
    assert_eq!(part2("turn on 0,0 through 0,0"), 1);
}

#[test]
fn toggling_the_grid_is_brightness_two_million() {
    assert_eq!(part2("toggle 0,0 through 999,999"), 2_000_000);
}

#[test]
fn brightness_floors_at_zero() {
    let input = "turn off 0,0 through 9,9
turn on 0,0 through 0,0";
    assert_eq!(part2(input), 1);
}

#[test]
fn the_verbs_as_switches() {
    assert_eq!(switch(Action::TurnOn, 0), 1);
    assert_eq!(switch(Action::TurnOn, 1), 1);
    assert_eq!(switch(Action::TurnOff, 1), 0);
    assert_eq!(switch(Action::Toggle, 0), 1);
    assert_eq!(switch(Action::Toggle, 1), 0);
}

#[test]
fn the_verbs_as_dimmers() {
    assert_eq!(dim(Action::TurnOn, 4), 5);
    assert_eq!(dim(Action::TurnOff, 4), 3);
    assert_eq!(dim(Action::TurnOff, 0), 0);
    assert_eq!(dim(Action::Toggle, 4), 6);
}

#[test]
fn an_instruction_reads_its_verb_and_corners() {
    assert_eq!(
        Instruction::from_str("turn off 499,499 through 500,500"),
        Ok(Instruction { action: Action::TurnOff, from: (499, 499), to: (500, 500) })
    );
    assert_eq!(
        Instruction::from_str("toggle 0,0 through 999,0"),
        Ok(Instruction { action: Action::Toggle, from: (0, 0), to: (999, 0) })
    );
}

#[test]
fn each_malformed_instruction_has_its_error() {
    assert_eq!(Instruction::from_str("flip 0,0 through 1,1"), Err(InstructionError::UnknownInstruction));
    assert_eq!(Instruction::from_str("turn on 0,0 to 1,1"), Err(InstructionError::NoThrough));
    assert_eq!(Instruction::from_str("turn on 00 through 1,1"), Err(InstructionError::BadCorner));
    assert_eq!(Instruction::from_str("turn on a,0 through 1,1"), Err(InstructionError::BadCoordinate));
    assert_eq!(Instruction::from_str("turn on 1000,0 through 1,1"), Err(InstructionError::OffGrid));
    assert_eq!(Instruction::from_str("toggle 5,5 through 4,4"), Err(InstructionError::OutOfOrder));
}

#[test]
fn blank_lines_are_skipped() {
    let day = Day::from_str("\nturn on 0,0 through 0,0\n\n").unwrap();
    assert_eq!(day.len(), 1);
    assert_eq!(day.instructions()[0].action, Action::TurnOn);
}

#[test]
fn the_first_bad_line_is_the_error() {
    let input = "turn on 0,0 through 0,0\nflip 0,0 through 1,1\nturn on 1000,0 through 1,1";
    assert_eq!(Day::from_str(input).unwrap_err(), InstructionError::UnknownInstruction);
}

#[test]
fn both_rules_run_over_the_same_day() {
    let day = Day::from_str("turn on 0,0 through 1,1\ntoggle 0,0 through 0,0").unwrap();
    assert_eq!(day.run(Rule::Switch), 3);
    assert_eq!(day.run(Rule::Dim), 6);
}

#[test]
fn the_examples_answer_through_the_c_surface() {
    let day = read_day(Some(
        "turn on 0,0 through 999,999\ntoggle 0,0 through 999,0\nturn off 499,499 through 500,500",
    ))
    .unwrap();
    assert_eq!(solve_day(&day, Rule::Switch), Ok(998_996));
    let day = read_day(Some("turn on 0,0 through 0,0\ntoggle 0,0 through 999,999")).unwrap();
    assert_eq!(solve_day(&day, Rule::Dim), Ok(2_000_001));
}

#[test]
fn a_null_or_bad_input_is_refused_by_the_c_surface() {
    assert_eq!(read_day(None).unwrap_err(), INVALID_INPUT);
    for bad in ["flip 0,0 through 1,1", "turn on 1000,0 through 1,1", "toggle 5,5 through 4,4"] {
        assert_eq!(read_day(Some(bad)).unwrap_err(), INVALID_INPUT, "{bad:?}");
    }
    assert_eq!(read_day(Some("allumer 0,0 through 1,1")).unwrap_err(), INVALID_INPUT);
    assert_eq!((INVALID_INPUT, OVERFLOW, INTERNAL), (-1, -3, -4));
}
