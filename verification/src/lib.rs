//! Offline single-machine job scheduling.
//!
//! Given a finite list of jobs, each with a name, a positive processing time
//! `p`, and a due date `d`, the library orders the jobs under one of four
//! policies and reports the order's cost under that policy's own objective:
//!
//! * earliest-due-date ordering with a maximum-lateness objective,
//! * a Lawler-style greedy heuristic with a square-root lateness penalty,
//! * shortest due-date/processing-time ratio ordering with a summed
//!   weighted-completion cost, and
//! * a randomized baseline costed with the ratio policy's formula.
//!
//! All clocks and costs are kept in integers. The one quantity whose
//! objective is stated as a square root, the Lawler penalty, is reported as
//! its square, which preserves every comparison the policy makes; display
//! code may take the root at the very end.

pub mod edf;
pub mod job;
pub mod lawler;
pub mod parse;
pub mod rnd;
pub mod sorting;
pub mod strategy;
pub mod wsrt;
