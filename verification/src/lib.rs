//! Solutions to a collection of small text-puzzle exercises, verified with
//! Verus. The centrepiece is `day12`: a heightmap with a breadth-first
//! shortest-path search proved to return the exact minimum step count.

pub mod text;

pub mod day1;

pub mod day2;

pub mod day3;

pub mod day4;

pub mod day5;

pub mod day6;

pub mod day8;

pub mod day9;

pub mod day10;

pub mod day12;
