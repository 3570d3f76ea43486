//! Verified core of a loan-portfolio planner: the integer and decision
//! logic of the month-by-month customer simulation, the award-calendar
//! search, the rate and duration search and the budget allocation.

pub mod budget;
pub mod pacing;
pub mod plan;
pub mod schedule;
pub mod search;
pub mod skyline;
pub mod standing;
