use routing_engine::rules::{
    evaluate, validate, Comparison, Condition, Predicate, Rule, RuleTree, TransactionContext, FIELD_AMOUNT,
    FIELD_CARD_NETWORK, FIELD_CURRENCY,
};
use routing_engine::types::RoutingError;

fn s(x: &str) -> String {
    x.to_string()
}

fn leaf(field: u32, comparison: Comparison, value: u64) -> Condition {
    Condition::Leaf(Predicate { field, comparison, value })
}

fn ctx(amount: u64, currency: u64) -> TransactionContext {
    TransactionContext { amount, currency, card_network: 1, payment_method: 2 }
}

fn tree() -> RuleTree {
    RuleTree {
        rules: vec![
            Rule {
                condition: Condition::All(
                    Box::new(leaf(FIELD_CURRENCY, Comparison::Equal, 978)),
                    Box::new(leaf(FIELD_AMOUNT, Comparison::GreaterOrEqual, 10_000)),
                ),
                connectors: vec![s("adyen"), s("stripe")],
            },
            Rule {
                condition: Condition::Any(
                    Box::new(leaf(FIELD_CURRENCY, Comparison::Equal, 840)),
                    Box::new(leaf(FIELD_CARD_NETWORK, Comparison::NotEqual, 1)),
                ),
                connectors: vec![s("checkout")],
            },
            Rule { condition: leaf(FIELD_AMOUNT, Comparison::Less, 100), connectors: vec![s("small")] },
        ],
        default_connectors: vec![s("fallback"), s("stripe")],
    }
}

#[test]
fn first_matching_rule_wins() {
    let t = tree();
    assert_eq!(evaluate(&t, &ctx(20_000, 978)), Ok(vec![s("adyen"), s("stripe")]));
    // the second rule matches too, but comes later: a small USD payment
    assert_eq!(evaluate(&t, &ctx(50, 840)), Ok(vec![s("checkout")]));
    assert_eq!(evaluate(&t, &ctx(50, 978)), Ok(vec![s("small")]));
}

#[test]
fn unmatched_falls_through_to_default() {
    let t = tree();
    assert_eq!(evaluate(&t, &ctx(5_000, 978)), Ok(vec![s("fallback"), s("stripe")]));
    let empty = RuleTree { rules: vec![], default_connectors: vec![s("d")] };
    assert_eq!(evaluate(&empty, &ctx(1, 1)), Ok(vec![s("d")]));
}

#[test]
fn comparisons() {
    let c = ctx(100, 1);
    let cases = [
        (Comparison::Equal, 100, true),
        (Comparison::NotEqual, 100, false),
        (Comparison::Less, 101, true),
        (Comparison::LessOrEqual, 100, true),
        (Comparison::Greater, 100, false),
        (Comparison::GreaterOrEqual, 101, false),
    ];
    for (comparison, value, expected) in cases {
        let t = RuleTree {
            rules: vec![Rule { condition: leaf(FIELD_AMOUNT, comparison, value), connectors: vec![s("hit")] }],
            default_connectors: vec![s("miss")],
        };
        let want = if expected { vec![s("hit")] } else { vec![s("miss")] };
        assert_eq!(evaluate(&t, &c), Ok(want));
    }
}

#[test]
fn undefined_field_is_an_error_for_every_context() {
    let mut t = tree();
    // hidden behind a branch that a short-circuit would never reach
    t.rules.push(Rule {
        condition: Condition::Any(Box::new(leaf(FIELD_AMOUNT, Comparison::GreaterOrEqual, 0)), Box::new(leaf(42, Comparison::Equal, 1))),
        connectors: vec![s("x")],
    });
    assert!(!validate(&t));
    assert!(validate(&tree()));
    for c in [ctx(0, 0), ctx(20_000, 978), ctx(50, 840)] {
        assert_eq!(evaluate(&t, &c), Err(RoutingError::RuleEvaluationError));
    }
}
