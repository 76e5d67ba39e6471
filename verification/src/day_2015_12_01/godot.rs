//! The day as a scripting engine's class sees it: string in, integer or
//! "no value" out, and a status-plus-out-array form for engines that report
//! absence by status code.

use vstd::prelude::*;

use crate::day_2015_12_01::{
    basement, basement_position_pure_rust, final_floor, floors_fit, law_basement_is_first_entry,
    spec_floors, sum_pure_rust, Day,
};
use crate::text::bytes_of;

verus! {

/// The status an engine method reports alongside its out-array.
#[derive(Debug, Clone, Copy, PartialEq, Eq, Structural)]
pub enum Status {
    /// The answer was appended to the out-array.
    Answered,
    /// There is no answer: Santa never enters the basement.
    DoesNotExist,
}

/// The class the engine instantiates; it holds no state.
#[derive(Debug, Clone, Copy, PartialEq, Eq, Structural)]
pub struct Aoc20151201;

/// The day read from the engine's string; reading cannot fail.
pub fn parse(input: &str) -> (d: Day)
    ensures
        d.floors() == spec_floors(input@),
{
    Day::from_str(input)
}

impl Aoc20151201 {
    /// Part 1: the floor Santa ends on.
    pub fn part1(&self, input: &str) -> (r: i64)
        requires
            floors_fit(spec_floors(input@)),
        ensures
            r == final_floor(spec_floors(input@)),
    {
        sum_pure_rust(&parse(input)) as i64
    }

    /// Part 2: the one-based position of the first move into the basement,
    /// or no value.
    pub fn part2(&self, input: &str) -> (r: Option<i64>)
        requires
            basement(spec_floors(input@)) matches Some(p) ==> p <= i32::MAX,
        ensures
            match basement(spec_floors(input@)) {
                Some(p) => r == Some(p as i64),
                None => r is None,
            },
    {
        self.basement_position(input)
    }

    /// Part 2 for engines that report absence by status: the position is
    /// appended to `out` and the status is `Answered`, or `out` is left alone and
    /// the status is `DoesNotExist`.
    pub fn part2_status(&self, input: &str, out: &mut Vec<i64>) -> (r: Status)
        requires
            basement(spec_floors(input@)) matches Some(p) ==> p <= i32::MAX,
        ensures
            match basement(spec_floors(input@)) {
                Some(p) => r == Status::Answered && final(out)@ == old(out)@.push(p as i64),
                None => r == Status::DoesNotExist && final(out)@ == old(out)@,
            },
    {
        match self.basement_position(input) {
            Some(position) => {
                out.push(position);
                Status::Answered
            },
            None => Status::DoesNotExist,
        }
    }

    /// Part 2 where Santa is known to enter the basement.
    pub fn part2_unwrapped(&self, input: &str) -> (r: i64)
        requires
            basement(spec_floors(input@)) matches Some(p) && p <= i32::MAX,
        ensures
            basement(spec_floors(input@)) == Some(r as int),
    {
        proof {
            law_basement_is_first_entry(spec_floors(input@));
        }
        self.basement_position(input).unwrap()
    }

    /// The length of `input` in UTF-8 bytes.
    pub fn utf8_len(&self, input: &str) -> (r: i64)
        ensures
            r == bytes_of(input).len() as i64,
    {
        input.as_bytes().len() as i64
    }

    /// The one-based position of the first move into the basement.
    fn basement_position(&self, input: &str) -> (r: Option<i64>)
        requires
            basement(spec_floors(input@)) matches Some(p) ==> p <= i32::MAX,
        ensures
            match basement(spec_floors(input@)) {
                Some(p) => r == Some(p as i64),
                None => r is None,
            },
    {
        proof {
            law_basement_is_first_entry(spec_floors(input@));
        }
        match basement_position_pure_rust(&parse(input)) {
            Some(p) => Some(p as i64),
            None => None,
        }
    }
}

} // verus!
