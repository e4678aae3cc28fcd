//! The randomized baseline scheduler.
//!
//! A permutation is drawn by repeatedly taking a random remaining job; its
//! cost uses the ratio policy's formula, so the baseline is comparable with
//! that policy and with nothing else. Nothing is promised about which
//! permutation comes out, and nothing could be: the draw is fresh on every
//! invocation.

use vstd::prelude::*;

use rand::Rng;

use crate::job::{job_ok, jobs_ok, sum_p, Job, Schedule};
use crate::job::lemma_sum_p_remove;
use crate::wsrt::{wsrt_cost_of, wsrt_sequence_cost};

verus! {

/// Relies on rand's `Rng::gen_range` over `0..n` with `thread_rng` as the
/// generator: the range is non-empty, so the call returns an index below
/// `n` and does not panic. Nothing more is assumed of the draw.
#[verifier::external_body]
fn rand_below(n: usize) -> (r: usize)
    requires
        n >= 1,
    ensures
        r < n,
{
    rand::thread_rng().gen_range(0..n)
}

/// Schedule the jobs in a random order and report the cost of that order
/// under the ratio policy's summed `d * completion` objective. The output
/// holds exactly the input jobs; their order is whatever the draws gave.
/// Any job list will do, the empty one included: it yields the empty
/// schedule at cost zero.
pub fn rnd_scheduler(jobs: Vec<Job>) -> (r: Schedule)
    requires
        jobs_ok(jobs@),
    ensures
        r.jobs@.to_multiset() == jobs@.to_multiset(),
        r.jobs@.len() == jobs@.len(),
        r.cost == wsrt_cost_of(r.jobs@),
{
    broadcast use vstd::seq_lib::group_to_multiset_ensures;

    let ghost orig = jobs@;
    let mut pool = jobs;
    let mut out: Vec<Job> = Vec::new();
    while pool.len() > 0
        invariant
            out@.to_multiset().add(pool@.to_multiset()) == orig.to_multiset(),
            sum_p(out@) + sum_p(pool@) == sum_p(orig),
            forall|i: int| 0 <= i < out@.len() ==> job_ok(#[trigger] out@[i]),
            forall|i: int| 0 <= i < pool@.len() ==> job_ok(#[trigger] pool@[i]),
            jobs_ok(orig),
        decreases pool@.len(),
    {
        let k = rand_below(pool.len());
        let ghost oldpool = pool@;
        let ghost oldout = out@;
        let j = pool.remove(k);
        out.push(j);
        proof {
            broadcast use vstd::seq_lib::group_to_multiset_ensures;

            lemma_sum_p_remove(oldpool, k as int);
            assert(out@ == oldout.push(j));
            assert(out@.drop_last() =~= oldout);
            assert(out@.last() == j);
            assert(oldpool.contains(j));
            assert(oldpool.to_multiset().count(j) > 0);
            assert(out@.to_multiset() =~= oldout.to_multiset().insert(j));
            assert(pool@.to_multiset() =~= oldpool.to_multiset().remove(j));
            assert(out@.to_multiset().add(pool@.to_multiset()) =~= orig.to_multiset());
        }
    }
    proof {
        broadcast use vstd::seq_lib::group_to_multiset_ensures;

        assert(sum_p(pool@) == 0);
        assert(forall|x: Job| !pool@.contains(x));
        assert(forall|x: Job| pool@.to_multiset().count(x) == 0);
        assert(out@.to_multiset() =~= orig.to_multiset());
        assert(out@.len() == out@.to_multiset().len());
        assert(orig.len() == orig.to_multiset().len());
    }
    let cost = wsrt_sequence_cost(&out);
    Schedule { jobs: out, cost }
}

} // verus!
