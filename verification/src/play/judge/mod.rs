//! Judge windows, note selection and judge bookkeeping.

pub mod judge_algorithm;
pub mod judge_manager;
pub mod judge_property;
