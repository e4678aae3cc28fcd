//! The Lawler-style greedy scheduler.
//!
//! The policy works backward from the total remaining processing time: in
//! each round it scans the remaining jobs, picks the first one whose penalty
//! at the current remaining time is largest, appends it to the schedule and
//! shrinks the remaining time by its processing time. The policy's stated
//! penalty is `sqrt(time - d/2)` floored at zero; the
//! square root is strictly increasing, so every comparison the policy makes,
//! and the maximum it reports, are decided by the radicand alone. The code
//! therefore computes with the squared penalty `max(0, time - d/2)` and
//! reports that square as the cost; display code may take the root.

use vstd::prelude::*;

use crate::job::{clone_job, div_trunc, job_ok, jobs_ok, sum_p, Job, Schedule};
use crate::job::{lemma_sum_p_bounds, lemma_sum_p_concat, lemma_sum_p_remove, lemma_sum_p_take_le,
    lemma_sum_p_take_step};
use crate::sorting::lemma_seq_insert_to_multiset;
use vstd::arithmetic::div_mod::{lemma_div_nonincreasing, lemma_div_pos_is_pos};

verus! {

/// The squared penalty of a deadline at a given remaining time:
/// `time - deadline/2` when that is positive, else zero.
pub open spec fn lawler_base(time: int, deadline: int) -> int {
    let x = time - div_trunc(deadline, 2);
    if x > 0 {
        x
    } else {
        0
    }
}

/// The penalty of a deadline at a given remaining time, reported as its
/// square ([`lawler_base`]): the objective's `sqrt(time - deadline/2)`
/// floored at zero, squared, which preserves every comparison.
pub fn lawler_cost(time: &i32, deadline: &i32) -> (c: i64)
    ensures
        c == lawler_base(*time as int, *deadline as int),
        c >= 0,
{
    let d = *deadline;
    let half: i64 = if d >= 0 {
        let q = (d as u64) / 2;
        proof {
            lemma_div_pos_is_pos(d as int, 2);
            lemma_div_nonincreasing(d as int, 2);
        }
        q as i64
    } else {
        let neg = (-(d as i64)) as u64;
        let q = neg / 2;
        proof {
            lemma_div_pos_is_pos(neg as int, 2);
            lemma_div_nonincreasing(neg as int, 2);
        }
        -(q as i64)
    };
    let x: i64 = (*time as i64) - half;
    if x > 0 {
        x
    } else {
        0
    }
}

/// The index the greedy round selects: the first position whose penalty at
/// `time` is largest. A later job displaces the running best only with a
/// strictly larger penalty, so ties keep the earliest position.
pub open spec fn lawler_pick(s: Seq<Job>, time: int) -> int
    recommends
        s.len() >= 1,
    decreases s.len(),
{
    if s.len() <= 1 {
        0
    } else {
        let b = lawler_pick(s.drop_last(), time);
        if lawler_base(time, s.last().d as int) > lawler_base(time, s[b].d as int) {
            s.len() - 1
        } else {
            b
        }
    }
}

/// The selected index is a real position of the sequence.
pub proof fn lemma_lawler_pick_in_range(s: Seq<Job>, time: int)
    requires
        s.len() >= 1,
    ensures
        0 <= lawler_pick(s, time) < s.len(),
    decreases s.len(),
{
    if s.len() > 1 {
        lemma_lawler_pick_in_range(s.drop_last(), time);
    }
}

/// The greedy choice really is greedy and stable: no job beats the selected
/// penalty, and every earlier job falls strictly short of it.
pub proof fn lemma_lawler_pick_max(s: Seq<Job>, time: int)
    requires
        s.len() >= 1,
    ensures
        forall|i: int|
            0 <= i < s.len() ==> lawler_base(time, (#[trigger] s[i]).d as int) <= lawler_base(
                time,
                s[lawler_pick(s, time)].d as int,
            ),
        forall|i: int|
            0 <= i < lawler_pick(s, time) ==> lawler_base(time, (#[trigger] s[i]).d as int)
                < lawler_base(time, s[lawler_pick(s, time)].d as int),
    decreases s.len(),
{
    lemma_lawler_pick_in_range(s, time);
    if s.len() > 1 {
        let t = s.drop_last();
        lemma_lawler_pick_max(t, time);
        lemma_lawler_pick_in_range(t, time);
        let b = lawler_pick(t, time);
        let pk = lawler_pick(s, time);
        assert(forall|i: int| 0 <= i < s.len() - 1 ==> #[trigger] t[i] == s[i]);
        if lawler_base(time, s.last().d as int) > lawler_base(time, s[b].d as int) {
            assert(pk == s.len() - 1);
            assert forall|i: int| 0 <= i < pk implies lawler_base(time, (#[trigger] s[i]).d as int)
                < lawler_base(time, s[pk].d as int) by {
                assert(s[i] == t[i]);
                assert(lawler_base(time, t[i].d as int) <= lawler_base(time, t[b].d as int));
            }
        } else {
            assert(pk == b);
            assert(s[pk] == t[b]);
            assert forall|i: int| 0 <= i < s.len() implies lawler_base(
                time,
                (#[trigger] s[i]).d as int,
            ) <= lawler_base(time, s[pk].d as int) by {
                if i < s.len() - 1 {
                    assert(s[i] == t[i]);
                    assert(lawler_base(time, t[i].d as int) <= lawler_base(time, t[b].d as int));
                } else {
                    assert(s[i] == s.last());
                }
            }
            assert forall|i: int| 0 <= i < pk implies lawler_base(time, (#[trigger] s[i]).d as int)
                < lawler_base(time, s[pk].d as int) by {
                assert(s[i] == t[i]);
                assert(lawler_base(time, t[i].d as int) < lawler_base(time, t[b].d as int));
            }
        }
    }
}

/// The position the greedy round selects among the remaining jobs at the
/// given remaining time.
pub fn lawler_pick_index(jobs: &Vec<Job>, time: i32) -> (k: usize)
    requires
        jobs@.len() >= 1,
    ensures
        k == lawler_pick(jobs@, time as int),
        0 <= k < jobs@.len(),
{
    let mut best: usize = 0;
    let d0 = jobs[0].d;
    let mut bestc: i64 = lawler_cost(&time, &d0);
    let mut i: usize = 1;
    while i < jobs.len()
        invariant
            1 <= i <= jobs@.len(),
            jobs@.len() >= 1,
            0 <= best < i,
            best == lawler_pick(jobs@.take(i as int), time as int),
            bestc == lawler_base(time as int, jobs@[best as int].d as int),
        decreases jobs@.len() - i,
    {
        let di = jobs[i].d;
        let c = lawler_cost(&time, &di);
        proof {
            assert(jobs@.take(i as int + 1).drop_last() =~= jobs@.take(i as int));
            assert(jobs@.take(i as int + 1).last() == jobs@[i as int]);
            lemma_lawler_pick_in_range(jobs@.take(i as int), time as int);
        }
        if c > bestc {
            best = i;
            bestc = c;
        }
        i = i + 1;
    }
    proof {
        assert(jobs@.take(jobs@.len() as int) =~= jobs@);
    }
    best
}

/// A copy of the job the greedy round selects among `jobs` at remaining
/// time `time`.
pub fn lawler_get_next(jobs: &Vec<Job>, time: &i32) -> (r: Job)
    requires
        jobs@.len() >= 1,
    ensures
        r == jobs@[lawler_pick(jobs@, *time as int)],
{
    let k = lawler_pick_index(jobs, *time);
    clone_job(&jobs[k])
}

/// The order the greedy loop produces: each round selects at the remaining
/// total processing time, removes the selected job and goes on with the rest.
pub open spec fn lawler_order(s: Seq<Job>) -> Seq<Job>
    decreases s.len(),
    via lawler_order_decreases
{
    if s.len() == 0 {
        Seq::empty()
    } else {
        let k = lawler_pick(s, sum_p(s));
        seq![s[k]] + lawler_order(s.remove(k))
    }
}

#[via_fn]
proof fn lawler_order_decreases(s: Seq<Job>) {
    if s.len() > 0 {
        lemma_lawler_pick_in_range(s, sum_p(s));
    }
}

/// The cost the greedy loop reports: the largest squared penalty any round
/// observes, zero when there is no round.
pub open spec fn lawler_max_cost(s: Seq<Job>) -> int
    decreases s.len(),
    via lawler_max_cost_decreases
{
    if s.len() == 0 {
        0
    } else {
        let k = lawler_pick(s, sum_p(s));
        let c = lawler_base(sum_p(s), s[k].d as int);
        let rest = lawler_max_cost(s.remove(k));
        if c > rest {
            c
        } else {
            rest
        }
    }
}

#[via_fn]
proof fn lawler_max_cost_decreases(s: Seq<Job>) {
    if s.len() > 0 {
        lemma_lawler_pick_in_range(s, sum_p(s));
    }
}

/// The greedy loop runs exactly one round per job: its order holds every
/// input job exactly once, and in particular consumes the whole remaining
/// time, down to exactly zero.
pub proof fn lemma_lawler_rounds(s: Seq<Job>)
    ensures
        lawler_order(s).len() == s.len(),
        lawler_order(s).to_multiset() == s.to_multiset(),
        sum_p(lawler_order(s)) == sum_p(s),
    decreases s.len(),
{
    broadcast use vstd::seq_lib::group_to_multiset_ensures;

    if s.len() > 0 {
        let k = lawler_pick(s, sum_p(s));
        lemma_lawler_pick_in_range(s, sum_p(s));
        lemma_lawler_rounds(s.remove(k));
        let inner = lawler_order(s.remove(k));
        assert(seq![s[k]] + inner =~= inner.insert(0, s[k]));
        lemma_seq_insert_to_multiset(inner, 0, s[k]);
        assert(s.remove(k).to_multiset() =~= s.to_multiset().remove(s[k]));
        assert(s.contains(s[k]));
        assert(s.to_multiset().count(s[k]) > 0);
        assert(s.to_multiset().remove(s[k]).insert(s[k]) =~= s.to_multiset());
        lemma_sum_p_concat(seq![s[k]], inner);
        assert(seq![s[k]].drop_last() =~= Seq::<Job>::empty());
        assert(sum_p(Seq::<Job>::empty()) == 0);
        assert(sum_p(seq![s[k]]) == s[k].p);
        lemma_sum_p_remove(s, k);
    }
}

/// The reported cost is never negative: it floors at zero.
pub proof fn lemma_lawler_max_cost_nonneg(s: Seq<Job>)
    ensures
        lawler_max_cost(s) >= 0,
    decreases s.len(),
{
    if s.len() > 0 {
        lemma_lawler_pick_in_range(s, sum_p(s));
        lemma_lawler_max_cost_nonneg(s.remove(lawler_pick(s, sum_p(s))));
    }
}

/// Schedule the jobs greedily: while remaining time is positive, select the
/// first remaining job with the largest squared penalty at the remaining
/// time, append it and shrink the time by its processing. The cost is the
/// largest squared penalty observed over the rounds.
pub fn lawler_scheduler(jobs: Vec<Job>) -> (r: Schedule)
    requires
        jobs@.len() >= 1,
        jobs_ok(jobs@),
    ensures
        r.jobs@ == lawler_order(jobs@),
        r.jobs@.to_multiset() == jobs@.to_multiset(),
        r.jobs@.len() == jobs@.len(),
        r.cost == lawler_max_cost(jobs@),
        r.cost >= 0,
{
    let ghost orig = jobs@;
    let mut pool = jobs;
    let mut out: Vec<Job> = Vec::new();
    let mut maxc: i64 = 0;

    // Total processing time: the horizon the policy works backward from.
    let mut time: i32 = 0;
    let mut i: usize = 0;
    while i < pool.len()
        invariant
            0 <= i <= pool@.len(),
            pool@ == orig,
            jobs_ok(orig),
            time == sum_p(pool@.take(i as int)),
            0 <= time,
        decreases pool@.len() - i,
    {
        proof {
            lemma_sum_p_take_step(pool@, i as int);
            lemma_sum_p_take_le(pool@, i as int + 1);
        }
        time = time + pool[i].p;
        i = i + 1;
    }
    proof {
        assert(pool@.take(pool@.len() as int) =~= pool@);
    }

    while time > 0
        invariant
            forall|k: int| 0 <= k < pool@.len() ==> job_ok(#[trigger] pool@[k]),
            time as int == sum_p(pool@),
            0 <= time,
            maxc >= 0,
            out@ + lawler_order(pool@) == lawler_order(orig),
            lawler_max_cost(orig) == (if maxc as int > lawler_max_cost(pool@) {
                maxc as int
            } else {
                lawler_max_cost(pool@)
            }),
        decreases pool@.len(),
    {
        proof {
            if pool@.len() == 0 {
                assert(sum_p(pool@) == 0);
            }
        }
        let k = lawler_pick_index(&pool, time);
        let ghost oldpool = pool@;
        let ghost oldout = out@;
        let ghost oldmax = maxc as int;
        let j = pool.remove(k);
        let dj = j.d;
        let c = lawler_cost(&time, &dj);
        if c > maxc {
            maxc = c;
        }
        time = time - j.p;
        out.push(j);
        proof {
            lemma_sum_p_remove(oldpool, k as int);
            lemma_sum_p_bounds(pool@);
            assert(out@ + lawler_order(pool@) == lawler_order(orig)) by {
                assert(lawler_order(oldpool) == seq![oldpool[k as int]] + lawler_order(pool@));
                assert(oldout + (seq![j] + lawler_order(pool@)) =~= oldout.push(j) + lawler_order(
                    pool@,
                ));
            }
            assert(lawler_max_cost(oldpool) == (if c as int > lawler_max_cost(pool@) {
                c as int
            } else {
                lawler_max_cost(pool@)
            }));
            lemma_lawler_max_cost_nonneg(pool@);
        }
    }
    proof {
        assert(pool@.len() == 0) by {
            lemma_sum_p_bounds(pool@);
        }
        assert(pool@ =~= Seq::<Job>::empty());
        assert(lawler_order(pool@) =~= Seq::<Job>::empty());
        assert(out@ + lawler_order(pool@) =~= out@);
        assert(lawler_max_cost(pool@) == 0);
        lemma_lawler_rounds(orig);
    }
    Schedule { jobs: out, cost: maxc as i128 }
}

} // verus!
