pub mod text;
pub mod pattern;
pub mod day_minus_1;
pub mod day01;
pub mod day04;
pub mod day05;
pub mod day06;
pub mod day07;
pub mod day11;
pub mod day12;
pub mod day15;
pub mod day21;
