//! Combinatorial coverage checking — does a collection of number-set
//! "tickets" cover every k-element subset of a target universe? — together
//! with a few small, independently verified exercises.

pub mod daily_temperature;
pub mod number_set;
pub mod rotating_list;
pub mod schedule;
pub mod sufficient_coverage_set;
