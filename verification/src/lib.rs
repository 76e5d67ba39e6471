//! Advent of Code puzzle solutions, each with its parsing, its rules and the
//! status codes of its C-facing surface stated and proved.

pub mod encoding;
pub mod labs;
pub mod text;
pub mod day_2015_12_01;
pub mod day_2015_12_05;
pub mod day_2015_12_06;
pub mod day_2021_12_02;
pub mod day_2023_12_01;
pub mod day_2024_12_01;
pub mod day_2024_12_03;
