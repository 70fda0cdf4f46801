//! Solvers for a calendar of small programming puzzles: each day reads a text
//! and computes two numeric answers.
use vstd::prelude::*;
use vstd::string::StringSliceAdditionalSpecFns;

pub mod text;
pub mod day1;
pub mod day2;
pub mod day3;
pub mod day4;
pub mod day5;
pub mod day6;
pub mod day7;
pub mod day7_alt;
pub mod day8;
pub mod day9;
pub mod day10;
pub mod day11;
pub mod day12;
pub mod day13;
pub mod day14;
pub mod day15;

verus! {

/// The two answers of one day, each computed from the puzzle text alone.
///
/// `accepts_1` / `accepts_2` say which texts a day can read (a text outside
/// them is malformed), and `star_1` / `star_2` relate a text to its answer.
pub trait AOCSolutions {
    spec fn accepts_1(input: Seq<u8>) -> bool;

    spec fn accepts_2(input: Seq<u8>) -> bool;

    spec fn star_1(input: Seq<u8>, r: Result<i64, ()>) -> bool;

    spec fn star_2(input: Seq<u8>, r: Result<i64, ()>) -> bool;

    fn get_star_1(input: &str) -> (r: Result<i64, ()>)
        requires
            Self::accepts_1(input.spec_bytes()),
        ensures
            Self::star_1(input.spec_bytes(), r),
    ;

    fn get_star_2(input: &str) -> (r: Result<i64, ()>)
        requires
            Self::accepts_2(input.spec_bytes()),
        ensures
            Self::star_2(input.spec_bytes(), r),
    ;
}

} // verus!
