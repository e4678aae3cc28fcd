//! The four scheduling policies as one capability, selected by a tagged
//! variant. Callers pick a variant; unrecognized policy names belong to the
//! surrounding program and are conventionally routed to [`Strategy::Random`].

use vstd::prelude::*;

use crate::edf::{due_key, edf_cost_of, edf_scheduler};
use crate::job::{jobs_ok, Job, Schedule};
use crate::lawler::{lawler_max_cost, lawler_order, lawler_scheduler};
use crate::rnd::rnd_scheduler;
use crate::sorting::sort_by_key;
use crate::wsrt::{ratio_key, wsrt_cost_of, wsrt_scheduler};

verus! {

/// Which scheduling policy to run.
#[derive(Clone, Copy, PartialEq, Eq, Structural)]
pub enum Strategy {
    Edf,
    Wsrt,
    Lawler,
    Random,
}

/// Run the selected policy on the jobs. Whatever the selection, the result
/// holds exactly the input jobs; order and cost are the selected policy's.
/// The three deterministic policies are contracted on non-empty lists; the
/// random baseline takes any list, the empty one included.
pub fn run_strategy(which: Strategy, jobs: Vec<Job>) -> (r: Schedule)
    requires
        which != Strategy::Random ==> jobs@.len() >= 1,
        jobs_ok(jobs@),
    ensures
        r.jobs@.to_multiset() == jobs@.to_multiset(),
        r.jobs@.len() == jobs@.len(),
        which == Strategy::Edf ==> r.jobs@ == sort_by_key(due_key(), jobs@) && r.cost
            == edf_cost_of(r.jobs@),
        which == Strategy::Wsrt ==> r.jobs@ == sort_by_key(ratio_key(), jobs@) && r.cost
            == wsrt_cost_of(r.jobs@),
        which == Strategy::Lawler ==> r.jobs@ == lawler_order(jobs@) && r.cost == lawler_max_cost(
            jobs@,
        ),
        which == Strategy::Random ==> r.cost == wsrt_cost_of(r.jobs@),
{
    match which {
        Strategy::Edf => edf_scheduler(jobs),
        Strategy::Wsrt => wsrt_scheduler(jobs),
        Strategy::Lawler => lawler_scheduler(jobs),
        Strategy::Random => rnd_scheduler(jobs),
    }
}

} // verus!
