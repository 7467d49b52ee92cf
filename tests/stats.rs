use routing_engine::stats::SuccessRateTracker;
use routing_engine::types::{Outcome, SuccessBasedRoutingConfig};

fn s(x: &str) -> String {
    x.to_string()
}

#[test]
fn smoothing_moves_a_quarter_of_the_way() {
    let config = SuccessBasedRoutingConfig { min_samples: 1, smoothing_window: 4, exploration_percent: 0 };
    let mut t = SuccessRateTracker::new();
    t.record_outcome(&s("p"), &s("c"), Outcome::Success, 10, &config);
    assert_eq!(t.entries[0].probability, 1_000_000);
    t.record_outcome(&s("p"), &s("c"), Outcome::Failure, 11, &config);
    assert_eq!(t.entries[0].probability, 750_000);
    t.record_outcome(&s("p"), &s("c"), Outcome::Success, 12, &config);
    assert_eq!(t.entries[0].probability, 812_500);
    assert_eq!(t.entries[0].successes, 2);
    assert_eq!(t.entries[0].failures, 1);
    assert_eq!(t.entries[0].last_updated, 12);
    assert_eq!(t.entries.len(), 1);
}

#[test]
fn first_failure_starts_at_zero() {
    let config = SuccessBasedRoutingConfig { min_samples: 1, smoothing_window: 2, exploration_percent: 0 };
    let mut t = SuccessRateTracker::new();
    t.record_outcome(&s("p"), &s("c"), Outcome::Failure, 1, &config);
    assert_eq!(t.entries[0].probability, 0);
    t.record_outcome(&s("p"), &s("c"), Outcome::Success, 2, &config);
    assert_eq!(t.entries[0].probability, 500_000);
}

#[test]
fn stats_are_kept_per_profile() {
    let config = SuccessBasedRoutingConfig { min_samples: 2, smoothing_window: 2, exploration_percent: 0 };
    let mut t = SuccessRateTracker::new();
    t.record_outcome(&s("alpha"), &s("c"), Outcome::Success, 1, &config);
    t.record_outcome(&s("beta"), &s("c"), Outcome::Failure, 1, &config);
    t.record_outcome(&s("alpha"), &s("c"), Outcome::Success, 2, &config);
    t.record_outcome(&s("alpha"), &s("d"), Outcome::Failure, 3, &config);
    assert_eq!(t.entries.len(), 3);
    let snap = t.get_stats(&s("alpha"), &config);
    assert_eq!(snap.len(), 2);
    assert_eq!(snap[0].connector, s("c"));
    assert_eq!(snap[0].probability, Some(1_000_000));
    assert_eq!(snap[0].sample_count, 2);
    assert_eq!(snap[0].failure_count, 0);
    // one sample is below the minimum: insufficient data
    assert_eq!(snap[1].connector, s("d"));
    assert_eq!(snap[1].probability, None);
    assert_eq!(snap[1].sample_count, 1);
    assert_eq!(t.get_stats(&s("gamma"), &config).len(), 0);
}

#[test]
fn config_validity() {
    let ok = SuccessBasedRoutingConfig { min_samples: 0, smoothing_window: 1, exploration_percent: 100 };
    assert!(ok.is_valid());
    let no_window = SuccessBasedRoutingConfig { min_samples: 0, smoothing_window: 0, exploration_percent: 10 };
    assert!(!no_window.is_valid());
    let too_much = SuccessBasedRoutingConfig { min_samples: 0, smoothing_window: 3, exploration_percent: 101 };
    assert!(!too_much.is_valid());
}
