use routing_engine::orchestrator::{
    is_ordering, merge_override, route, CurrencyOverride, ProfileRoutingConfig, RoutingPayloadWrapper,
};
use routing_engine::rules::{Comparison, Condition, Predicate, Rule, RuleTree, TransactionContext, FIELD_CURRENCY};
use routing_engine::stats::SuccessRateTracker;
use routing_engine::store::{ConfigStore, RoutingAlgorithm, ToggleDynamicRoutingQuery, ToggleDynamicRoutingWrapper};
use routing_engine::types::{ApiEventsType, Outcome, RoutingError, SuccessBasedRoutingConfig};

fn s(x: &str) -> String {
    x.to_string()
}

fn profile(overrides: Vec<CurrencyOverride>) -> ProfileRoutingConfig {
    ProfileRoutingConfig { profile_id: s("P"), default_connectors: vec![s("A"), s("B"), s("C")], overrides }
}

/// An override for every currency used below, forcing `C`.
fn forcing_c() -> Vec<CurrencyOverride> {
    vec![
        CurrencyOverride { currency: 0, connector: s("C") },
        CurrencyOverride { currency: 978, connector: s("C") },
        CurrencyOverride { currency: 840, connector: s("C") },
    ]
}

fn ctx(currency: u64) -> TransactionContext {
    TransactionContext { amount: 1_000, currency, card_network: 0, payment_method: 0 }
}

fn config(exploration_percent: u64) -> SuccessBasedRoutingConfig {
    SuccessBasedRoutingConfig { min_samples: 5, smoothing_window: 4, exploration_percent }
}

fn euro_rule(connectors: Vec<String>) -> RoutingAlgorithm {
    RoutingAlgorithm::StaticRuleBased(RuleTree {
        rules: vec![Rule {
            condition: Condition::Leaf(Predicate { field: FIELD_CURRENCY, comparison: Comparison::Equal, value: 978 }),
            connectors,
        }],
        default_connectors: vec![s("B")],
    })
}

fn toggle(enable: bool) -> ToggleDynamicRoutingWrapper {
    ToggleDynamicRoutingWrapper { profile_id: s("P"), query: ToggleDynamicRoutingQuery { enable } }
}

#[test]
fn no_active_algorithm_gives_default() {
    let mut store = ConfigStore::new();
    // stored, never activated
    store.upsert(s("P"), s("draft"), euro_rule(vec![s("C")]), 1);
    store.upsert(s("P"), s("sr"), RoutingAlgorithm::SuccessBased(config(0)), 2);
    let tracker = SuccessRateTracker::new();
    for p in [profile(vec![]), profile(forcing_c())] {
        for currency in [0, 978] {
            let r = route(&store, &tracker, &p, &ctx(currency), 0);
            assert_eq!(r, vec![s("A"), s("B"), s("C")]);
        }
    }
}

#[test]
fn malformed_rules_fall_back_to_default() {
    let mut store = ConfigStore::new();
    let bad = RoutingAlgorithm::StaticRuleBased(RuleTree {
        rules: vec![Rule {
            condition: Condition::Leaf(Predicate { field: 99, comparison: Comparison::Equal, value: 1 }),
            connectors: vec![s("C")],
        }],
        default_connectors: vec![s("C")],
    });
    let id = store.upsert(s("P"), s("bad"), bad, 1);
    store.activate(id, None).unwrap();
    let tracker = SuccessRateTracker::new();
    for currency in [0, 978, 840] {
        let r = route(&store, &tracker, &profile(vec![]), &ctx(currency), 0);
        assert_eq!(r, vec![s("A"), s("B"), s("C")]);
        // the override does not touch a fallback
        let r = route(&store, &tracker, &profile(forcing_c()), &ctx(currency), 0);
        assert_eq!(r, vec![s("A"), s("B"), s("C")]);
    }
}

#[test]
fn static_path_uses_the_rules() {
    let mut store = ConfigStore::new();
    let id = store.upsert(s("P"), s("rules"), euro_rule(vec![s("C"), s("A")]), 1);
    store.activate(id, None).unwrap();
    let tracker = SuccessRateTracker::new();
    assert_eq!(route(&store, &tracker, &profile(vec![]), &ctx(978), 0), vec![s("C"), s("A")]);
    assert_eq!(route(&store, &tracker, &profile(vec![]), &ctx(840), 0), vec![s("B")]);
}

#[test]
fn empty_rule_selection_falls_back_to_default() {
    let mut store = ConfigStore::new();
    let id = store.upsert(s("P"), s("rules"), euro_rule(vec![]), 1);
    store.activate(id, None).unwrap();
    let tracker = SuccessRateTracker::new();
    assert_eq!(route(&store, &tracker, &profile(vec![]), &ctx(978), 0), vec![s("A"), s("B"), s("C")]);
    assert_eq!(route(&store, &tracker, &profile(forcing_c()), &ctx(978), 0), vec![s("A"), s("B"), s("C")]);
}

#[test]
fn dynamic_path_ranks_the_default_connectors() {
    let mut store = ConfigStore::new();
    let rules = store.upsert(s("P"), s("rules"), euro_rule(vec![s("A")]), 1);
    let dynamic = store.upsert(s("P"), s("sr"), RoutingAlgorithm::SuccessBased(config(0)), 2);
    store.activate(rules, None).unwrap();
    store.activate(dynamic, None).unwrap();
    let mut tracker = SuccessRateTracker::new();
    for i in 0..5u64 {
        tracker.record_outcome(&s("P"), &s("C"), Outcome::Success, i, &config(0));
        tracker.record_outcome(&s("P"), &s("A"), Outcome::Failure, i, &config(0));
    }
    let r = route(&store, &tracker, &profile(vec![]), &ctx(978), 0);
    assert_eq!(r, vec![s("C"), s("A"), s("B")]);
    // switched off: the rule-based algorithm decides
    assert_eq!(store.toggle_dynamic_routing(&toggle(false)), Ok(()));
    let r = route(&store, &tracker, &profile(vec![]), &ctx(978), 0);
    assert_eq!(r, vec![s("A")]);
    // switched on again: the same success-based algorithm is active
    assert_eq!(store.toggle_dynamic_routing(&toggle(true)), Ok(()));
    let r = route(&store, &tracker, &profile(vec![]), &ctx(978), 0);
    assert_eq!(r, vec![s("C"), s("A"), s("B")]);
}

#[test]
fn unusable_dynamic_config_falls_back_to_default() {
    let mut store = ConfigStore::new();
    let bad = SuccessBasedRoutingConfig { min_samples: 1, smoothing_window: 0, exploration_percent: 0 };
    let id = store.upsert(s("P"), s("sr"), RoutingAlgorithm::SuccessBased(bad), 1);
    store.activate(id, None).unwrap();
    let tracker = SuccessRateTracker::new();
    assert_eq!(route(&store, &tracker, &profile(vec![]), &ctx(978), 0), vec![s("A"), s("B"), s("C")]);
    assert_eq!(route(&store, &tracker, &profile(forcing_c()), &ctx(978), 0), vec![s("A"), s("B"), s("C")]);
}

#[test]
fn override_moves_connector_to_front() {
    let mut store = ConfigStore::new();
    let id = store.upsert(s("P"), s("rules"), euro_rule(vec![s("A"), s("B"), s("C")]), 1);
    store.activate(id, None).unwrap();
    let tracker = SuccessRateTracker::new();
    let overrides = vec![
        CurrencyOverride { currency: 978, connector: s("C") },
        CurrencyOverride { currency: 978, connector: s("B") },
        CurrencyOverride { currency: 840, connector: s("B") },
    ];
    let p = profile(overrides);
    assert_eq!(route(&store, &tracker, &p, &ctx(978), 0), vec![s("C"), s("A"), s("B")]);
    // the rules fall through to their own default list, `[B]`
    assert_eq!(route(&store, &tracker, &p, &ctx(840), 0), vec![s("B")]);
}

#[test]
fn merge_keeps_relative_order() {
    let overrides = vec![CurrencyOverride { currency: 1, connector: s("b") }];
    let r = merge_override(vec![s("a"), s("b"), s("c"), s("b")], &overrides, 1);
    assert_eq!(r, vec![s("b"), s("a"), s("c")]);
    let r = merge_override(vec![s("a"), s("c")], &overrides, 2);
    assert_eq!(r, vec![s("a"), s("c")]);
    // a forced connector that the ordering lacks changes nothing
    let r = merge_override(vec![s("a"), s("c")], &overrides, 1);
    assert_eq!(r, vec![s("a"), s("c")]);
}

#[test]
fn toggle_without_success_based_algorithm() {
    let mut store = ConfigStore::new();
    store.upsert(s("P"), s("rules"), euro_rule(vec![]), 1);
    assert_eq!(store.toggle_dynamic_routing(&toggle(true)), Err(RoutingError::NotFound));
    assert_eq!(store.toggle_dynamic_routing(&toggle(false)), Ok(()));
    assert_eq!(toggle(true).get_api_event_type(), Some(ApiEventsType::Routing));
    assert_eq!(toggle(true).query.get_api_event_type(), Some(ApiEventsType::Routing));
}

#[test]
fn repeated_default_connector_gives_default() {
    let mut store = ConfigStore::new();
    let id = store.upsert(s("P"), s("sr"), RoutingAlgorithm::SuccessBased(config(0)), 1);
    store.activate(id, None).unwrap();
    let tracker = SuccessRateTracker::new();
    let p = ProfileRoutingConfig {
        profile_id: s("P"),
        default_connectors: vec![s("B"), s("A"), s("B")],
        overrides: forcing_c(),
    };
    assert_eq!(route(&store, &tracker, &p, &ctx(978), 0), vec![s("B"), s("A"), s("B")]);
}

#[test]
fn profile_validity() {
    assert!(profile(vec![]).is_valid());
    let mut p = profile(vec![]);
    p.default_connectors.push(s("B"));
    assert!(!p.is_valid());
    p.default_connectors.clear();
    assert!(!p.is_valid());
    p.default_connectors.push(s("only"));
    assert!(p.is_valid());
    assert!(!is_ordering(&vec![]));
    assert!(is_ordering(&vec![s("x"), s("y")]));
    assert_eq!(p.get_api_event_type(), Some(ApiEventsType::Routing));
}

#[test]
fn update_default_ordering() {
    let mut p = profile(vec![]);
    let payload = RoutingPayloadWrapper { profile_id: s("P"), updated_config: vec![s("C"), s("D")] };
    assert_eq!(p.update_default(&payload), Ok(()));
    assert_eq!(p.default_connectors, vec![s("C"), s("D")]);
    let other = RoutingPayloadWrapper { profile_id: s("Q"), updated_config: vec![s("E")] };
    assert_eq!(p.update_default(&other), Err(RoutingError::NotFound));
    let twice = RoutingPayloadWrapper { profile_id: s("P"), updated_config: vec![s("E"), s("E")] };
    assert_eq!(p.update_default(&twice), Err(RoutingError::InvalidConfig));
    let empty = RoutingPayloadWrapper { profile_id: s("P"), updated_config: vec![] };
    assert_eq!(p.update_default(&empty), Err(RoutingError::InvalidConfig));
    assert_eq!(p.default_connectors, vec![s("C"), s("D")]);
    assert_eq!(payload.get_api_event_type(), Some(ApiEventsType::Routing));
}

#[test]
fn exploration_through_the_orchestrator() {
    let mut store = ConfigStore::new();
    let id = store.upsert(s("P"), s("sr"), RoutingAlgorithm::SuccessBased(config(10)), 1);
    store.activate(id, None).unwrap();
    let mut tracker = SuccessRateTracker::new();
    for i in 0..5u64 {
        tracker.record_outcome(&s("P"), &s("A"), Outcome::Success, i, &config(10));
        tracker.record_outcome(&s("P"), &s("B"), Outcome::Success, i, &config(10));
    }
    tracker.record_outcome(&s("P"), &s("C"), Outcome::Success, 9, &config(10));
    let p = profile(vec![]);
    assert_eq!(route(&store, &tracker, &p, &ctx(1), 3), vec![s("C"), s("A"), s("B")]);
    assert_eq!(route(&store, &tracker, &p, &ctx(1), 10), vec![s("A"), s("B"), s("C")]);
}
