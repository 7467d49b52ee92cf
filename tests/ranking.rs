use routing_engine::ranking::{rank, rank_with_stats};
use routing_engine::stats::{StatsSnapshot, SuccessRateTracker};
use routing_engine::types::{Outcome, SuccessBasedRoutingConfig, PROBABILITY_SCALE};

fn s(x: &str) -> String {
    x.to_string()
}

fn cfg(min_samples: u64, exploration_percent: u64) -> SuccessBasedRoutingConfig {
    SuccessBasedRoutingConfig { min_samples, smoothing_window: 4, exploration_percent }
}

fn snap(c: &str, probability: Option<u64>, sample_count: u64, failure_count: u64) -> StatsSnapshot {
    StatsSnapshot { connector: s(c), probability, sample_count, failure_count }
}

#[test]
fn successes_rank_above_failures() {
    let p = s("P");
    let config = cfg(5, 0);
    let mut t = SuccessRateTracker::new();
    for i in 0..5u64 {
        t.record_outcome(&p, &s("A"), Outcome::Success, i, &config);
        t.record_outcome(&p, &s("B"), Outcome::Failure, i, &config);
    }
    let r = rank(&t, &p, &vec![s("A"), s("B")], &config, 0);
    assert_eq!(r, vec![s("A"), s("B")]);
    let r = rank(&t, &p, &vec![s("B"), s("A")], &config, 99);
    assert_eq!(r, vec![s("A"), s("B")]);
}

#[test]
fn rank_is_a_permutation() {
    let snapshot = vec![snap("b", Some(900_000), 10, 1), snap("d", None, 2, 0)];
    let cands = vec![s("a"), s("b"), s("c"), s("d"), s("e")];
    let r = rank_with_stats(&cands, &snapshot, &cfg(5, 30), 10);
    assert_eq!(r.len(), cands.len());
    let mut sorted = r.clone();
    sorted.sort();
    assert_eq!(sorted, vec![s("a"), s("b"), s("c"), s("d"), s("e")]);
}

#[test]
fn rank_is_deterministic() {
    let snapshot = vec![
        snap("x", Some(500_000), 10, 5),
        snap("y", Some(500_000), 10, 3),
        snap("z", None, 1, 1),
    ];
    let cands = vec![s("z"), s("x"), s("y"), s("w")];
    let first = rank_with_stats(&cands, &snapshot, &cfg(5, 20), 50);
    let second = rank_with_stats(&cands, &snapshot, &cfg(5, 20), 50);
    assert_eq!(first, second);
    // equal probability: fewer failures first; then no data, least tried first
    assert_eq!(first, vec![s("y"), s("x"), s("w"), s("z")]);
}

#[test]
fn ties_broken_by_connector_id() {
    let snapshot = vec![snap("beta", Some(700_000), 8, 2), snap("alpha", Some(700_000), 8, 2)];
    let r = rank_with_stats(&vec![s("beta"), s("alpha")], &snapshot, &cfg(5, 0), 0);
    assert_eq!(r, vec![s("alpha"), s("beta")]);
    let snapshot = vec![snap("ab", Some(1), 8, 2), snap("a", Some(1), 8, 2)];
    let r = rank_with_stats(&vec![s("ab"), s("a")], &snapshot, &cfg(5, 0), 0);
    assert_eq!(r, vec![s("a"), s("ab")]);
}

#[test]
fn exploration_picks_an_undersampled_connector() {
    let snapshot = vec![
        snap("good", Some(PROBABILITY_SCALE), 100, 0),
        snap("new1", None, 3, 0),
        snap("new2", None, 1, 0),
    ];
    let cands = vec![s("good"), s("new1"), s("new2")];
    // draw % 100 under the percentage explores; draw / 100 picks among the
    // under-sampled candidates, in candidate order
    for draw in 0..25u64 {
        let r = rank_with_stats(&cands, &snapshot, &cfg(5, 25), draw);
        assert_eq!(r, vec![s("new1"), s("good"), s("new2")]);
        let r = rank_with_stats(&cands, &snapshot, &cfg(5, 25), draw + 100);
        assert_eq!(r, vec![s("new2"), s("good"), s("new1")]);
        let r = rank_with_stats(&cands, &snapshot, &cfg(5, 25), draw + 200);
        assert_eq!(r, vec![s("new1"), s("good"), s("new2")]);
    }
    // the others exploit: fully sampled first, then least tried first
    for draw in 25..100u64 {
        let r = rank_with_stats(&cands, &snapshot, &cfg(5, 25), draw);
        assert_eq!(r, vec![s("good"), s("new2"), s("new1")]);
        let r = rank_with_stats(&cands, &snapshot, &cfg(5, 25), draw + 100);
        assert_eq!(r, vec![s("good"), s("new2"), s("new1")]);
    }
}

#[test]
fn no_exploration_at_zero_percent() {
    let snapshot = vec![snap("good", Some(800_000), 100, 20)];
    let cands = vec![s("fresh"), s("good")];
    for draw in 0..100u64 {
        let r = rank_with_stats(&cands, &snapshot, &cfg(5, 0), draw);
        assert_eq!(r, vec![s("good"), s("fresh")]);
    }
}

#[test]
fn exploration_needs_an_undersampled_candidate() {
    let snapshot = vec![snap("a", Some(100), 10, 9), snap("b", Some(200), 10, 8)];
    let r = rank_with_stats(&vec![s("a"), s("b")], &snapshot, &cfg(5, 100), 0);
    assert_eq!(r, vec![s("b"), s("a")]);
}

#[test]
fn rank_of_no_candidates_is_empty() {
    let r = rank_with_stats(&vec![], &vec![], &cfg(5, 50), 0);
    assert!(r.is_empty());
}

#[test]
fn more_successes_never_move_behind_failures() {
    let p = s("P");
    let config = cfg(2, 0);
    let mut t = SuccessRateTracker::new();
    t.record_outcome(&p, &s("Y"), Outcome::Failure, 0, &config);
    t.record_outcome(&p, &s("Y"), Outcome::Failure, 1, &config);
    for i in 0..6u64 {
        t.record_outcome(&p, &s("X"), Outcome::Success, i, &config);
        let r = rank(&t, &p, &vec![s("Y"), s("X")], &config, 0);
        if i >= 1 {
            assert_eq!(r, vec![s("X"), s("Y")]);
        } else {
            // one sample only: not enough data yet
            assert_eq!(r, vec![s("Y"), s("X")]);
        }
    }
}
