//! Stable sorting of jobs by an integer key.
//!
//! The two sorting policies differ only in the key they order by, so the
//! order either one produces is pinned down once, by [`sort_by_key`]: the
//! sequence obtained by inserting each job, left to right, after every job
//! already placed whose key is not larger. That single equation fixes
//! sortedness, stability (ties keep their original relative order) and the
//! permutation property at the same time.

use vstd::prelude::*;

use crate::job::{job_ok, sum_p, Job};
use crate::job::{lemma_sum_p_concat, lemma_sum_p_bounds};

verus! {

/// The keys never decrease along the sequence.
pub open spec fn sorted_by_key(key: spec_fn(Job) -> int, s: Seq<Job>) -> bool {
    forall|i: int, j: int| 0 <= i < j < s.len() ==> key(s[i]) <= key(s[j])
}

/// `j` placed before the first job of `s` with a strictly larger key:
/// on a sorted `s` this keeps the order sorted, and puts `j` after every
/// job of equal key that was there first.
pub open spec fn insert_by_key(key: spec_fn(Job) -> int, j: Job, s: Seq<Job>) -> Seq<Job>
    decreases s.len(),
{
    if s.len() == 0 {
        seq![j]
    } else if key(j) < key(s[0]) {
        seq![j] + s
    } else {
        seq![s[0]] + insert_by_key(key, j, s.drop_first())
    }
}

/// The stable sort of `s` by `key`: each job inserted in turn into the
/// sorted order of the jobs before it.
pub open spec fn sort_by_key(key: spec_fn(Job) -> int, s: Seq<Job>) -> Seq<Job>
    decreases s.len(),
{
    if s.len() == 0 {
        Seq::empty()
    } else {
        insert_by_key(key, s.last(), sort_by_key(key, s.drop_last()))
    }
}

/// Inserting anywhere into a sequence adds exactly that job to its multiset.
pub proof fn lemma_seq_insert_to_multiset(s: Seq<Job>, k: int, j: Job)
    requires
        0 <= k <= s.len(),
    ensures
        s.insert(k, j).to_multiset() == s.to_multiset().insert(j),
{
    broadcast use vstd::seq_lib::group_to_multiset_ensures;

    let t = s.insert(k, j);
    assert(t.remove(k) =~= s);
    assert(t[k] == j);
    assert(t.contains(j));
    assert(t.remove(k).to_multiset() =~= t.to_multiset().remove(j));
    assert(t.to_multiset().count(j) > 0);
    assert(t.to_multiset().remove(j).insert(j) =~= t.to_multiset());
}

/// [`insert_by_key`] really is an insertion: one more of `j`, all else kept.
pub proof fn lemma_insert_by_key_multiset(key: spec_fn(Job) -> int, j: Job, s: Seq<Job>)
    ensures
        insert_by_key(key, j, s).to_multiset() == s.to_multiset().insert(j),
        insert_by_key(key, j, s).len() == s.len() + 1,
        sum_p(insert_by_key(key, j, s)) == sum_p(s) + j.p,
    decreases s.len(),
{
    broadcast use vstd::seq_lib::group_to_multiset_ensures;

    if s.len() == 0 {
        assert(seq![j] =~= s.insert(0, j));
        lemma_seq_insert_to_multiset(s, 0, j);
        assert(seq![j].drop_last() =~= Seq::<Job>::empty());
        assert(sum_p(Seq::<Job>::empty()) == 0);
        assert(sum_p(seq![j]) == j.p);
        assert(sum_p(s) == 0);
    } else if key(j) < key(s[0]) {
        assert(seq![j] + s =~= s.insert(0, j));
        lemma_seq_insert_to_multiset(s, 0, j);
        lemma_sum_p_concat(seq![j], s);
        assert(seq![j].drop_last() =~= Seq::<Job>::empty());
        assert(sum_p(Seq::<Job>::empty()) == 0);
        assert(sum_p(seq![j]) == j.p);
    } else {
        let rest = s.drop_first();
        lemma_insert_by_key_multiset(key, j, rest);
        let inner = insert_by_key(key, j, rest);
        // Multiset: s == rest.insert(0, s[0]) and the result == inner.insert(0, s[0]).
        assert(seq![s[0]] + inner =~= inner.insert(0, s[0]));
        lemma_seq_insert_to_multiset(inner, 0, s[0]);
        assert(s =~= rest.insert(0, s[0]));
        lemma_seq_insert_to_multiset(rest, 0, s[0]);
        assert(rest.to_multiset().insert(j).insert(s[0]) =~= rest.to_multiset().insert(
            s[0],
        ).insert(j));
        // Sums.
        lemma_sum_p_concat(seq![s[0]], inner);
        lemma_sum_p_concat(seq![s[0]], rest);
        assert(seq![s[0]].drop_last() =~= Seq::<Job>::empty());
        assert(sum_p(Seq::<Job>::empty()) == 0);
        assert(sum_p(seq![s[0]]) == s[0].p);
        assert(s =~= seq![s[0]] + rest);
    }
}

/// Whatever [`insert_by_key`] returns holds `j` and the jobs of `s`, nothing else.
pub proof fn lemma_insert_by_key_contains(key: spec_fn(Job) -> int, j: Job, s: Seq<Job>, x: Job)
    requires
        insert_by_key(key, j, s).contains(x),
    ensures
        x == j || s.contains(x),
{
    broadcast use vstd::seq_lib::group_to_multiset_ensures;

    lemma_insert_by_key_multiset(key, j, s);
    let t = insert_by_key(key, j, s);
    assert(t.to_multiset().count(x) > 0);
    if x != j {
        assert(s.to_multiset().insert(j).count(x) == s.to_multiset().count(x));
        assert(s.to_multiset().count(x) > 0);
    }
}

/// Insertion keeps a sorted sequence sorted.
pub proof fn lemma_insert_by_key_sorted(key: spec_fn(Job) -> int, j: Job, s: Seq<Job>)
    requires
        sorted_by_key(key, s),
    ensures
        sorted_by_key(key, insert_by_key(key, j, s)),
    decreases s.len(),
{
    let t = insert_by_key(key, j, s);
    if s.len() == 0 {
    } else if key(j) < key(s[0]) {
        assert(forall|b: int| 1 <= b < t.len() ==> key(t[b]) >= key(j));
    } else {
        let rest = s.drop_first();
        assert(sorted_by_key(key, rest));
        lemma_insert_by_key_sorted(key, j, rest);
        let inner = insert_by_key(key, j, rest);
        assert forall|b: int| 1 <= b < t.len() implies key(#[trigger] t[b]) >= key(t[0]) by {
            assert(t[b] == inner[b - 1]);
            assert(inner.contains(inner[b - 1]));
            lemma_insert_by_key_contains(key, j, rest, inner[b - 1]);
            if inner[b - 1] == j {
                assert(key(t[b]) >= key(s[0]));
            } else {
                let w = choose|w: int| 0 <= w < rest.len() && rest[w] == inner[b - 1];
                assert(key(rest[w]) >= key(s[0]));
            }
        }
        assert forall|a: int, b: int| 1 <= a < b < t.len() implies key(t[a]) <= key(t[b]) by {
            assert(t[a] == inner[a - 1]);
            assert(t[b] == inner[b - 1]);
        }
    }
}

/// The sort of any sequence is sorted, is a permutation of it, and keeps
/// its length and total processing time.
pub proof fn lemma_sort_by_key_permutes(key: spec_fn(Job) -> int, s: Seq<Job>)
    ensures
        sorted_by_key(key, sort_by_key(key, s)),
        sort_by_key(key, s).to_multiset() == s.to_multiset(),
        sort_by_key(key, s).len() == s.len(),
        sum_p(sort_by_key(key, s)) == sum_p(s),
    decreases s.len(),
{
    broadcast use vstd::seq_lib::group_to_multiset_ensures;

    if s.len() > 0 {
        lemma_sort_by_key_permutes(key, s.drop_last());
        lemma_insert_by_key_sorted(key, s.last(), sort_by_key(key, s.drop_last()));
        lemma_insert_by_key_multiset(key, s.last(), sort_by_key(key, s.drop_last()));
        assert(s =~= s.drop_last().push(s.last()));
        assert(s.drop_last().push(s.last()).to_multiset() =~= s.drop_last().to_multiset().insert(
            s.last(),
        ));
    }
}

/// Every job of the sorted order is well formed when the input's are.
pub proof fn lemma_sort_by_key_ok(key: spec_fn(Job) -> int, s: Seq<Job>)
    requires
        forall|i: int| 0 <= i < s.len() ==> job_ok(#[trigger] s[i]),
    ensures
        forall|i: int|
            0 <= i < sort_by_key(key, s).len() ==> job_ok(#[trigger] sort_by_key(key, s)[i]),
{
    broadcast use vstd::seq_lib::group_to_multiset_ensures;

    lemma_sort_by_key_permutes(key, s);
    let t = sort_by_key(key, s);
    assert forall|i: int| 0 <= i < t.len() implies job_ok(t[i]) by {
        assert(t.contains(t[i]));
        assert(t.to_multiset().count(t[i]) > 0);
        assert(s.to_multiset().count(t[i]) > 0);
        assert(s.contains(t[i]));
        let w = choose|w: int| 0 <= w < s.len() && s[w] == t[i];
        assert(job_ok(s[w]));
    }
}

/// Where the scan of an insertion stops, the insertion happens: if the
/// first `k` keys are not larger than `j`'s and the key at `k` (if any) is,
/// then [`insert_by_key`] puts `j` exactly at position `k`.
pub proof fn lemma_insert_by_key_at(key: spec_fn(Job) -> int, j: Job, s: Seq<Job>, k: int)
    requires
        0 <= k <= s.len(),
        forall|i: int| 0 <= i < k ==> key(#[trigger] s[i]) <= key(j),
        k < s.len() ==> key(s[k]) > key(j),
    ensures
        insert_by_key(key, j, s) == s.insert(k, j),
    decreases s.len(),
{
    if s.len() == 0 {
        assert(seq![j] =~= s.insert(0, j));
    } else if k == 0 {
        assert(key(s[0]) > key(j));
        assert(seq![j] + s =~= s.insert(0, j));
    } else {
        assert(key(s[0]) <= key(j));
        let rest = s.drop_first();
        lemma_insert_by_key_at(key, j, rest, k - 1);
        assert(seq![s[0]] + rest.insert(k - 1, j) =~= s.insert(k, j));
    }
}

/// When no key of `s` is larger than `j`'s, `j` lands at the very end.
pub proof fn lemma_insert_by_key_all_le(key: spec_fn(Job) -> int, j: Job, s: Seq<Job>)
    requires
        forall|i: int| 0 <= i < s.len() ==> key(#[trigger] s[i]) <= key(j),
    ensures
        insert_by_key(key, j, s) == s.push(j),
{
    lemma_insert_by_key_at(key, j, s, s.len() as int);
    assert(s.insert(s.len() as int, j) =~= s.push(j));
}

/// A stable sort is a fixed point: sorting an already sorted sequence
/// changes nothing.
pub proof fn lemma_sort_by_key_fixed_point(key: spec_fn(Job) -> int, s: Seq<Job>)
    requires
        sorted_by_key(key, s),
    ensures
        sort_by_key(key, s) == s,
    decreases s.len(),
{
    if s.len() > 0 {
        assert(sorted_by_key(key, s.drop_last()));
        lemma_sort_by_key_fixed_point(key, s.drop_last());
        assert(forall|i: int|
            0 <= i < s.drop_last().len() ==> key(#[trigger] s.drop_last()[i]) <= key(s.last()));
        lemma_insert_by_key_all_le(key, s.last(), s.drop_last());
        assert(s.drop_last().push(s.last()) =~= s);
    }
}

} // verus!
