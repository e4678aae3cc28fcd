//! The job model: one schedulable unit and the schedule a policy produces.

use vstd::prelude::*;

use vstd::string::StringExecFns;

verus! {

/// One schedulable unit: a name, a processing time `p`, and a due date `d`.
///
/// Jobs are immutable after construction; a scheduler may reorder or copy
/// them but never changes a field. Equality is structural: all three fields
/// equal. `p` is meant to be positive (see [`job_ok`]); `d` may be zero or
/// negative.
#[derive(PartialEq, Eq, Debug)]
pub struct Job {
    pub name: String,
    pub p: i32,
    pub d: i32,
}

/// A job is well formed when its processing time is positive.
pub open spec fn job_ok(j: Job) -> bool {
    j.p >= 1
}

/// Integer division rounded toward zero, the semantics both ratio and
/// penalty computations use on due dates.
pub open spec fn div_trunc(a: int, b: int) -> int
    recommends
        b >= 1,
{
    if a >= 0 {
        a / b
    } else {
        -((-a) / b)
    }
}

/// Sum of the processing times of a sequence of jobs.
pub open spec fn sum_p(s: Seq<Job>) -> int
    decreases s.len(),
{
    if s.len() == 0 {
        0
    } else {
        sum_p(s.drop_last()) + s.last().p
    }
}

/// Every job is well formed and the total processing time fits the `i32`
/// clock the schedulers accumulate.
pub open spec fn jobs_ok(s: Seq<Job>) -> bool {
    &&& forall|i: int| 0 <= i < s.len() ==> job_ok(#[trigger] s[i])
    &&& sum_p(s) <= i32::MAX
}

/// The result of one scheduler invocation: the chosen order and its cost.
///
/// `cost` is a scalar whose meaning is fixed by the scheduler that produced
/// the value; costs of different schedulers are not commensurable. The
/// due-date policy reports the largest `d - completion` value (a negated
/// worst-case lateness, possibly negative), the ratio and random policies a
/// summed weighted completion time, and the Lawler policy the square of its
/// largest square-root penalty.
pub struct Schedule {
    pub jobs: Vec<Job>,
    pub cost: i128,
}

/// The names of the jobs in order, each followed by a comma.
pub open spec fn names_joined(s: Seq<Job>) -> Seq<char>
    decreases s.len(),
{
    if s.len() == 0 {
        Seq::empty()
    } else {
        names_joined(s.drop_last()) + s.last().name@ + seq![',']
    }
}

impl Schedule {
    /// The scheduled job names in order, a comma after each: the form the
    /// result sink receives the order in.
    pub fn joined_names(&self) -> (r: String)
        ensures
            r@ == names_joined(self.jobs@),
    {
        let mut out = String::new();
        let mut i: usize = 0;
        while i < self.jobs.len()
            invariant
                0 <= i <= self.jobs@.len(),
                out@ == names_joined(self.jobs@.take(i as int)),
            decreases self.jobs@.len() - i,
        {
            out.append(self.jobs[i].name.as_str());
            out.append(",");
            proof {
                reveal_strlit(",");
                assert(","@ =~= seq![',']);
                assert(self.jobs@.take(i as int + 1).drop_last() =~= self.jobs@.take(i as int));
                assert(self.jobs@.take(i as int + 1).last() == self.jobs@[i as int]);
            }
            i = i + 1;
        }
        proof {
            assert(self.jobs@.take(self.jobs@.len() as int) =~= self.jobs@);
        }
        out
    }
}

/// An exact copy of a job.
pub fn clone_job(j: &Job) -> (r: Job)
    ensures
        r == *j,
{
    Job { name: j.name.clone(), p: j.p, d: j.d }
}

/// Splitting a sequence splits its total processing time.
pub proof fn lemma_sum_p_concat(a: Seq<Job>, b: Seq<Job>)
    ensures
        sum_p(a + b) == sum_p(a) + sum_p(b),
    decreases b.len(),
{
    if b.len() == 0 {
        assert(a + b =~= a);
    } else {
        lemma_sum_p_concat(a, b.drop_last());
        assert((a + b).drop_last() =~= a + b.drop_last());
    }
}

/// With every processing time positive, the total is at least the length
/// and never negative.
pub proof fn lemma_sum_p_bounds(s: Seq<Job>)
    requires
        forall|i: int| 0 <= i < s.len() ==> job_ok(#[trigger] s[i]),
    ensures
        s.len() <= sum_p(s),
        0 <= sum_p(s),
    decreases s.len(),
{
    if s.len() > 0 {
        lemma_sum_p_bounds(s.drop_last());
    }
}

/// Taking one job out of a sequence takes its processing time out of the sum.
pub proof fn lemma_sum_p_remove(s: Seq<Job>, k: int)
    requires
        0 <= k < s.len(),
    ensures
        sum_p(s.remove(k)) == sum_p(s) - s[k].p,
{
    assert(s =~= s.take(k) + seq![s[k]] + s.skip(k + 1));
    assert(s.remove(k) =~= s.take(k) + s.skip(k + 1));
    lemma_sum_p_concat(s.take(k) + seq![s[k]], s.skip(k + 1));
    lemma_sum_p_concat(s.take(k), seq![s[k]]);
    lemma_sum_p_concat(s.take(k), s.skip(k + 1));
    assert(sum_p(Seq::<Job>::empty()) == 0);
    assert(seq![s[k]].drop_last() =~= Seq::<Job>::empty());
    assert(seq![s[k]].last() == s[k]);
    assert(sum_p(seq![s[k]]) == s[k].p);
}

/// The prefix sums of the processing times grow by one job at a time.
pub proof fn lemma_sum_p_take_step(s: Seq<Job>, i: int)
    requires
        0 <= i < s.len(),
    ensures
        sum_p(s.take(i + 1)) == sum_p(s.take(i)) + s[i].p,
{
    assert(s.take(i + 1).drop_last() =~= s.take(i));
    assert(s.take(i + 1).last() == s[i]);
}

/// A prefix never has more total processing time than the whole, when the
/// remainder's jobs are well formed.
pub proof fn lemma_sum_p_take_le(s: Seq<Job>, i: int)
    requires
        0 <= i <= s.len(),
        forall|k: int| 0 <= k < s.len() ==> job_ok(#[trigger] s[k]),
    ensures
        sum_p(s.take(i)) <= sum_p(s),
        0 <= sum_p(s.take(i)),
{
    assert(s =~= s.take(i) + s.skip(i));
    lemma_sum_p_concat(s.take(i), s.skip(i));
    assert(forall|k: int| 0 <= k < s.skip(i).len() ==> job_ok(#[trigger] s.skip(i)[k]));
    lemma_sum_p_bounds(s.skip(i));
    assert(forall|k: int| 0 <= k < s.take(i).len() ==> job_ok(#[trigger] s.take(i)[k]));
    lemma_sum_p_bounds(s.take(i));
}

} // verus!
