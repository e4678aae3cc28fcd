//! Earliest-due-date scheduling with a maximum-lateness objective.

use vstd::prelude::*;

use crate::job::{jobs_ok, sum_p, Job, Schedule};
use crate::job::{lemma_sum_p_take_le, lemma_sum_p_take_step};
use crate::sorting::{insert_by_key, sort_by_key, sorted_by_key};
use crate::sorting::{
    lemma_insert_by_key_at, lemma_sort_by_key_fixed_point, lemma_sort_by_key_ok,
    lemma_sort_by_key_permutes,
};

verus! {

/// The key the due-date policy orders by: the due date itself.
pub open spec fn due_key() -> spec_fn(Job) -> int {
    |j: Job| j.d as int
}

/// The cost of running the jobs back to back in the order given: the largest
/// value of `d - completion` over the sequence, i.e. the worst lateness,
/// negated. It is positive exactly when every job finishes early, and then
/// reports the smallest slack.
pub open spec fn edf_cost_of(s: Seq<Job>) -> int
    recommends
        s.len() >= 1,
    decreases s.len(),
{
    if s.len() <= 1 {
        s[0].d - sum_p(s)
    } else {
        let rest = edf_cost_of(s.drop_last());
        let this = s.last().d - sum_p(s);
        if this > rest {
            this
        } else {
            rest
        }
    }
}

/// Place `j` into `out` after every job already there whose due date is not
/// later: one step of a stable insertion sort by due date.
fn insert_by_due(out: &mut Vec<Job>, j: Job)
    ensures
        final(out)@ == insert_by_key(due_key(), j, old(out)@),
{
    let mut k: usize = 0;
    while k < out.len() && out[k].d <= j.d
        invariant
            0 <= k <= out@.len(),
            forall|i: int| 0 <= i < k ==> (#[trigger] out@[i]).d <= j.d,
        decreases out@.len() - k,
    {
        k = k + 1;
    }
    proof {
        lemma_insert_by_key_at(due_key(), j, out@, k as int);
    }
    out.insert(k, j);
}

/// The cost of a job order under the due-date objective.
pub fn edf_sequence_cost(v: &Vec<Job>) -> (c: i128)
    requires
        v@.len() >= 1,
        jobs_ok(v@),
    ensures
        c == edf_cost_of(v@),
{
    let mut time: i32 = 0;
    let mut cost: i128 = i128::MIN;
    let mut i: usize = 0;
    while i < v.len()
        invariant
            0 <= i <= v@.len(),
            v@.len() >= 1,
            jobs_ok(v@),
            time == sum_p(v@.take(i as int)),
            0 <= time,
            i >= 1 ==> cost == edf_cost_of(v@.take(i as int)),
            i == 0 ==> cost == i128::MIN,
        decreases v@.len() - i,
    {
        proof {
            lemma_sum_p_take_step(v@, i as int);
            lemma_sum_p_take_le(v@, i as int + 1);
        }
        let p = v[i].p;
        let d = v[i].d;
        time = time + p;
        let cur: i128 = (d as i128) - (time as i128);
        proof {
            assert(v@.take(i as int + 1).drop_last() =~= v@.take(i as int));
            assert(v@.take(i as int + 1).last() == v@[i as int]);
        }
        if cur > cost {
            cost = cur;
        }
        i = i + 1;
    }
    proof {
        assert(v@.take(v@.len() as int) =~= v@);
    }
    cost
}

/// Order the jobs by due date, earliest first (ties keep their original
/// relative order), and report the worst `d - completion` value of a
/// back-to-back run in that order.
pub fn edf_scheduler(jobs: Vec<Job>) -> (r: Schedule)
    requires
        jobs@.len() >= 1,
        jobs_ok(jobs@),
    ensures
        r.jobs@ == sort_by_key(due_key(), jobs@),
        sorted_by_key(due_key(), r.jobs@),
        r.jobs@.to_multiset() == jobs@.to_multiset(),
        r.jobs@.len() == jobs@.len(),
        r.cost == edf_cost_of(r.jobs@),
{
    let ghost orig = jobs@;
    let mut pool = jobs;
    let mut out: Vec<Job> = Vec::new();
    let ghost mut done: int = 0;
    while pool.len() > 0
        invariant
            0 <= done <= orig.len(),
            pool@ == orig.skip(done),
            out@ == sort_by_key(due_key(), orig.take(done)),
        decreases pool@.len(),
    {
        let j = pool.remove(0);
        assert(j == orig[done]);
        insert_by_due(&mut out, j);
        proof {
            assert(orig.take(done + 1).drop_last() =~= orig.take(done));
            assert(orig.take(done + 1).last() == orig[done]);
            done = done + 1;
            assert(pool@ =~= orig.skip(done));
        }
    }
    proof {
        assert(orig.take(done) =~= orig);
        lemma_sort_by_key_permutes(due_key(), orig);
        lemma_sort_by_key_ok(due_key(), orig);
    }
    let cost = edf_sequence_cost(&out);
    Schedule { jobs: out, cost }
}

/// Idempotence of the due-date policy: a list already in earliest-due-date
/// order (with ties in their original relative order) is its own sorted
/// order, so scheduling it again returns the jobs unchanged.
pub proof fn lemma_edf_idempotent(s: Seq<Job>)
    requires
        sorted_by_key(due_key(), s),
    ensures
        sort_by_key(due_key(), s) == s,
{
    lemma_sort_by_key_fixed_point(due_key(), s);
}

} // verus!
