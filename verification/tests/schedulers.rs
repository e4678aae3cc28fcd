use scheduling::edf::{edf_scheduler, edf_sequence_cost};
use scheduling::job::Job;
use scheduling::lawler::{lawler_get_next, lawler_scheduler};
use scheduling::rnd::rnd_scheduler;
use scheduling::strategy::{run_strategy, Strategy};
use scheduling::wsrt::{ratio_parts, wsrt_scheduler, wsrt_sequence_cost};

fn job(name: &str, p: i32, d: i32) -> Job {
    Job { name: name.to_string(), p, d }
}

fn names(jobs: &[Job]) -> Vec<String> {
    jobs.iter().map(|j| j.name.clone()).collect()
}

#[test]
fn edf_orders_by_due_date() {
    let jobs = vec![job("A", 3, 5), job("B", 2, 3), job("C", 4, 10)];
    let r = edf_scheduler(jobs);
    assert_eq!(names(&r.jobs), vec!["B", "A", "C"]);
    // Completions 2, 5, 9 against due dates 3, 5, 10: max of (d - completion)
    // is max(1, 0, 1) = 1.
    assert_eq!(r.cost, 1);
}

#[test]
fn edf_cost_can_be_negative() {
    let jobs = vec![job("A", 5, 2)];
    let r = edf_scheduler(jobs);
    assert_eq!(names(&r.jobs), vec!["A"]);
    assert_eq!(r.cost, 2 - 5);
}

#[test]
fn edf_keeps_original_order_on_tied_due_dates() {
    let jobs = vec![job("X", 1, 5), job("Y", 2, 5), job("Z", 1, 4)];
    let r = edf_scheduler(jobs);
    assert_eq!(names(&r.jobs), vec!["Z", "X", "Y"]);
}

#[test]
fn edf_is_idempotent_on_sorted_input() {
    let jobs = vec![job("A", 3, 5), job("B", 2, 3), job("C", 4, 10)];
    let once = edf_scheduler(jobs);
    let order_once = names(&once.jobs);
    let twice = edf_scheduler(once.jobs);
    assert_eq!(names(&twice.jobs), order_once);
}

#[test]
fn edf_sequence_cost_matches_hand_computation() {
    let v = vec![job("B", 2, 3), job("A", 3, 5), job("C", 4, 10)];
    assert_eq!(edf_sequence_cost(&v), 1);
}

#[test]
fn wsrt_keeps_original_order_on_tied_ratios() {
    // Ratios 4/2 and 2/1 both truncate to 2: a tie, so the original order
    // A then B must be kept.
    let jobs = vec![job("A", 2, 4), job("B", 1, 2)];
    let r = wsrt_scheduler(jobs);
    assert_eq!(names(&r.jobs), vec!["A", "B"]);
    // Completions 2 and 3: cost = 4*2 + 2*3 = 14.
    assert_eq!(r.cost, 14);
}

#[test]
fn wsrt_orders_by_truncated_ratio() {
    // Ratios: A -> 8/2 = 4, B -> 2/1 = 2, so B first.
    let jobs = vec![job("A", 2, 8), job("B", 1, 2)];
    let r = wsrt_scheduler(jobs);
    assert_eq!(names(&r.jobs), vec!["B", "A"]);
    // Completions 1 and 3: cost = 2*1 + 8*3 = 26.
    assert_eq!(r.cost, 26);
}

#[test]
fn wsrt_is_idempotent_on_sorted_input() {
    let jobs = vec![job("A", 2, 8), job("B", 1, 2), job("C", 1, 2)];
    let once = wsrt_scheduler(jobs);
    let order_once = names(&once.jobs);
    let twice = wsrt_scheduler(once.jobs);
    assert_eq!(names(&twice.jobs), order_once);
}

#[test]
fn ratio_truncates_toward_zero() {
    assert_eq!(ratio_parts(7, 2), 3);
    assert_eq!(ratio_parts(-7, 2), -3);
    assert_eq!(ratio_parts(0, 5), 0);
    assert_eq!(ratio_parts(i32::MIN, 1), i32::MIN as i64);
}

#[test]
fn lawler_single_job() {
    // One job {A, p 5, d 2}: one round at remaining time 5, squared penalty
    // 5 - 2/2 = 4, so the reported penalty is sqrt(4) = 2.
    let jobs = vec![job("A", 5, 2)];
    let r = lawler_scheduler(jobs);
    assert_eq!(names(&r.jobs), vec!["A"]);
    assert_eq!(r.cost, 4);
    assert_eq!((r.cost as f32).sqrt(), 2.0);
}

#[test]
fn lawler_selects_largest_penalty_each_round() {
    // Total time 6; squared penalties 6-4/2=4 (A), 6-2/2=5 (B), 6-0/2=6 (C):
    // C goes first. At time 3: 3-2=1 (A), 3-1=2 (B): then B, then A.
    let jobs = vec![job("A", 2, 4), job("B", 1, 2), job("C", 3, 0)];
    let r = lawler_scheduler(jobs);
    assert_eq!(names(&r.jobs), vec!["C", "B", "A"]);
    assert_eq!(r.cost, 6);
}

#[test]
fn lawler_runs_one_round_per_job() {
    let jobs = vec![job("A", 1, 9), job("B", 2, 9), job("C", 3, 9), job("D", 4, 9)];
    let r = lawler_scheduler(jobs);
    assert_eq!(r.jobs.len(), 4);
    let mut got = names(&r.jobs);
    got.sort();
    assert_eq!(got, vec!["A", "B", "C", "D"]);
}

#[test]
fn lawler_negative_deadline_truncates_toward_zero() {
    // -3/2 truncates to -1, so the squared penalty is 1 - (-1) = 2.
    let jobs = vec![job("A", 1, -3)];
    let r = lawler_scheduler(jobs);
    assert_eq!(r.cost, 2);
}

#[test]
fn lawler_get_next_picks_first_maximum() {
    let jobs = vec![job("A", 2, 4), job("B", 1, 2), job("C", 3, 0)];
    let time = 6;
    let next = lawler_get_next(&jobs, &time);
    assert_eq!(next.name, "C");
    assert_eq!(next.p, 3);
    assert_eq!(next.d, 0);
    // A tie keeps the earliest job.
    let tied = vec![job("X", 1, 2), job("Y", 1, 2)];
    let t2 = 2;
    assert_eq!(lawler_get_next(&tied, &t2).name, "X");
}

#[test]
fn random_output_is_a_permutation_costed_like_wsrt() {
    for _ in 0..20 {
        let jobs = vec![job("A", 3, 5), job("B", 2, 3), job("C", 4, 10), job("D", 1, -2)];
        let r = rnd_scheduler(jobs);
        assert_eq!(r.jobs.len(), 4);
        let mut got = names(&r.jobs);
        got.sort();
        assert_eq!(got, vec!["A", "B", "C", "D"]);
        assert_eq!(r.cost, wsrt_sequence_cost(&r.jobs));
    }
}

#[test]
fn random_takes_the_empty_job_list() {
    let r = rnd_scheduler(Vec::new());
    assert_eq!(r.jobs.len(), 0);
    assert_eq!(r.cost, 0);
    let via_strategy = run_strategy(Strategy::Random, Vec::new());
    assert_eq!(via_strategy.jobs.len(), 0);
    assert_eq!(via_strategy.cost, 0);
}

#[test]
fn strategy_dispatch_runs_the_selected_policy() {
    let mk = || vec![job("A", 3, 5), job("B", 2, 3), job("C", 4, 10)];
    let edf = run_strategy(Strategy::Edf, mk());
    assert_eq!(names(&edf.jobs), vec!["B", "A", "C"]);
    assert_eq!(edf.cost, 1);
    let wsrt = run_strategy(Strategy::Wsrt, mk());
    let direct = wsrt_scheduler(mk());
    assert_eq!(names(&wsrt.jobs), names(&direct.jobs));
    assert_eq!(wsrt.cost, direct.cost);
    let lawler = run_strategy(Strategy::Lawler, mk());
    let direct = lawler_scheduler(mk());
    assert_eq!(names(&lawler.jobs), names(&direct.jobs));
    assert_eq!(lawler.cost, direct.cost);
    let random = run_strategy(Strategy::Random, mk());
    assert_eq!(random.jobs.len(), 3);
    assert_eq!(random.cost, wsrt_sequence_cost(&random.jobs));
}

#[test]
fn joined_names_has_a_comma_after_each_name() {
    let jobs = vec![job("A", 3, 5), job("B", 2, 3), job("C", 4, 10)];
    let r = edf_scheduler(jobs);
    assert_eq!(r.joined_names(), "B,A,C,");
}
