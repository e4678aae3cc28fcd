//! Shortest due-date/processing-time ratio scheduling with a summed
//! weighted-completion cost.

use vstd::prelude::*;

use crate::job::{div_trunc, job_ok, jobs_ok, sum_p, Job, Schedule};
use crate::job::{lemma_sum_p_bounds, lemma_sum_p_take_le, lemma_sum_p_take_step};
use crate::sorting::{insert_by_key, sort_by_key, sorted_by_key};
use crate::sorting::{
    lemma_insert_by_key_at, lemma_sort_by_key_fixed_point, lemma_sort_by_key_ok,
    lemma_sort_by_key_permutes,
};
use vstd::arithmetic::div_mod::{lemma_div_nonincreasing, lemma_div_pos_is_pos};

verus! {

/// The key the ratio policy orders by: the due date divided by the
/// processing time, truncated toward zero. Jobs whose truncated ratios are
/// equal count as ties and keep their original relative order.
pub open spec fn ratio_key() -> spec_fn(Job) -> int {
    |j: Job| div_trunc(j.d as int, j.p as int)
}

/// The cost of running the jobs back to back in the order given: the sum
/// over the sequence of `d * completion`, a weighted completion-time total.
/// It is not commensurable with the due-date policy's cost.
pub open spec fn wsrt_cost_of(s: Seq<Job>) -> int
    decreases s.len(),
{
    if s.len() == 0 {
        0
    } else {
        wsrt_cost_of(s.drop_last()) + s.last().d * sum_p(s)
    }
}

/// The ratio key of a job with due date `d` and processing time `p`.
pub fn ratio_parts(d: i32, p: i32) -> (r: i64)
    requires
        p >= 1,
    ensures
        r == div_trunc(d as int, p as int),
{
    if d >= 0 {
        let q = (d as u64) / (p as u64);
        proof {
            lemma_div_pos_is_pos(d as int, p as int);
            lemma_div_nonincreasing(d as int, p as int);
        }
        q as i64
    } else {
        let neg = (-(d as i64)) as u64;
        let q = neg / (p as u64);
        proof {
            lemma_div_pos_is_pos(neg as int, p as int);
            lemma_div_nonincreasing(neg as int, p as int);
        }
        -(q as i64)
    }
}

/// Each term of the cost is bounded by the square of the `i32` range, so the
/// whole sum stays within `len` times that bound.
proof fn lemma_wsrt_cost_bound(s: Seq<Job>)
    requires
        forall|i: int| 0 <= i < s.len() ==> job_ok(#[trigger] s[i]),
        sum_p(s) <= i32::MAX,
    ensures
        -((s.len() as int) * 0x4000_0000_0000_0000) <= wsrt_cost_of(s) <= (s.len() as int)
            * 0x4000_0000_0000_0000,
    decreases s.len(),
{
    if s.len() > 0 {
        lemma_sum_p_bounds(s.drop_last());
        assert(sum_p(s) == sum_p(s.drop_last()) + s.last().p);
        lemma_wsrt_cost_bound(s.drop_last());
        let d = s.last().d as int;
        let t = sum_p(s);
        lemma_sum_p_bounds(s);
        assert(-0x4000_0000_0000_0000 <= d * t <= 0x4000_0000_0000_0000) by (nonlinear_arith)
            requires
                -0x8000_0000 <= d <= 0x8000_0000,
                0 <= t <= 0x8000_0000,
        ;
    }
}

/// The cost of a job order under the ratio policy's objective. The random
/// baseline is costed with this same formula.
pub fn wsrt_sequence_cost(v: &Vec<Job>) -> (c: i128)
    requires
        jobs_ok(v@),
    ensures
        c == wsrt_cost_of(v@),
{
    let mut time: i32 = 0;
    let mut acc: i128 = 0;
    let mut i: usize = 0;
    while i < v.len()
        invariant
            0 <= i <= v@.len(),
            jobs_ok(v@),
            time == sum_p(v@.take(i as int)),
            0 <= time,
            acc == wsrt_cost_of(v@.take(i as int)),
        decreases v@.len() - i,
    {
        proof {
            lemma_sum_p_take_step(v@, i as int);
            lemma_sum_p_take_le(v@, i as int + 1);
            assert(v@.take(i as int + 1).drop_last() =~= v@.take(i as int));
            assert(v@.take(i as int + 1).last() == v@[i as int]);
            assert(forall|k: int|
                0 <= k < v@.take(i as int + 1).len() ==> job_ok(#[trigger] v@.take(i as int + 1)[k]));
            lemma_wsrt_cost_bound(v@.take(i as int + 1));
            lemma_sum_p_bounds(v@.take(i as int + 1));
            let d = v@[i as int].d as int;
            let t = sum_p(v@.take(i as int + 1));
            assert(-0x4000_0000_0000_0000 <= d * t <= 0x4000_0000_0000_0000) by (nonlinear_arith)
                requires
                    -0x8000_0000 <= d <= 0x8000_0000,
                    0 <= t <= 0x8000_0000,
            ;
        }
        let p = v[i].p;
        let d = v[i].d;
        time = time + p;
        let term: i128 = (d as i128) * (time as i128);
        acc = acc + term;
        i = i + 1;
    }
    proof {
        assert(v@.take(v@.len() as int) =~= v@);
    }
    acc
}

/// Place `j` into `out` after every job already there whose ratio key is
/// not larger: one step of a stable insertion sort by the ratio key.
fn insert_by_ratio(out: &mut Vec<Job>, j: Job)
    requires
        job_ok(j),
        forall|i: int| 0 <= i < old(out)@.len() ==> job_ok(#[trigger] old(out)@[i]),
    ensures
        final(out)@ == insert_by_key(ratio_key(), j, old(out)@),
{
    let rj = ratio_parts(j.d, j.p);
    let mut k: usize = 0;
    while k < out.len() && ratio_parts(out[k].d, out[k].p) <= rj
        invariant
            0 <= k <= out@.len(),
            out@ == old(out)@,
            forall|i: int| 0 <= i < out@.len() ==> job_ok(#[trigger] out@[i]),
            rj == div_trunc(j.d as int, j.p as int),
            forall|i: int|
                0 <= i < k ==> div_trunc((#[trigger] out@[i]).d as int, out@[i].p as int) <= rj,
        decreases out@.len() - k,
    {
        k = k + 1;
    }
    proof {
        lemma_insert_by_key_at(ratio_key(), j, out@, k as int);
    }
    out.insert(k, j);
}

/// Order the jobs by their truncated due-date/processing-time ratio,
/// smallest first (ties keep their original relative order), and report the
/// summed `d * completion` cost of a back-to-back run in that order.
pub fn wsrt_scheduler(jobs: Vec<Job>) -> (r: Schedule)
    requires
        jobs@.len() >= 1,
        jobs_ok(jobs@),
    ensures
        r.jobs@ == sort_by_key(ratio_key(), jobs@),
        sorted_by_key(ratio_key(), r.jobs@),
        r.jobs@.to_multiset() == jobs@.to_multiset(),
        r.jobs@.len() == jobs@.len(),
        r.cost == wsrt_cost_of(r.jobs@),
{
    let ghost orig = jobs@;
    let mut pool = jobs;
    let mut out: Vec<Job> = Vec::new();
    let ghost mut done: int = 0;
    while pool.len() > 0
        invariant
            0 <= done <= orig.len(),
            jobs_ok(orig),
            pool@ == orig.skip(done),
            out@ == sort_by_key(ratio_key(), orig.take(done)),
        decreases pool@.len(),
    {
        let j = pool.remove(0);
        assert(j == orig[done]);
        proof {
            assert(forall|k: int|
                0 <= k < orig.take(done).len() ==> job_ok(#[trigger] orig.take(done)[k]));
            lemma_sort_by_key_ok(ratio_key(), orig.take(done));
        }
        insert_by_ratio(&mut out, j);
        proof {
            assert(orig.take(done + 1).drop_last() =~= orig.take(done));
            assert(orig.take(done + 1).last() == orig[done]);
            done = done + 1;
            assert(pool@ =~= orig.skip(done));
        }
    }
    proof {
        assert(orig.take(done) =~= orig);
        lemma_sort_by_key_permutes(ratio_key(), orig);
        lemma_sort_by_key_ok(ratio_key(), orig);
    }
    let cost = wsrt_sequence_cost(&out);
    Schedule { jobs: out, cost }
}

/// Idempotence of the ratio policy: a list already in ratio order (with
/// ties in their original relative order) is its own sorted order, so
/// scheduling it again returns the jobs unchanged.
pub proof fn lemma_wsrt_idempotent(s: Seq<Job>)
    requires
        sorted_by_key(ratio_key(), s),
    ensures
        sort_by_key(ratio_key(), s) == s,
{
    lemma_sort_by_key_fixed_point(ratio_key(), s);
}

} // verus!
