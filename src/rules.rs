//! Rule evaluator: static, rule-based routing over transaction attributes.
use vstd::prelude::*;
use crate::ids::{copy_ids, ids_of};
use crate::types::RoutingError;

verus! {

/// Attribute numbers understood by predicates. Any other number names an
/// undefined field.
pub const FIELD_AMOUNT: u32 = 0;
pub const FIELD_CURRENCY: u32 = 1;
pub const FIELD_CARD_NETWORK: u32 = 2;
pub const FIELD_PAYMENT_METHOD: u32 = 3;

/// The attributes of a transaction that rules can test. Currencies, card
/// networks and payment methods are given by their numeric codes.
#[derive(Debug, Clone, Copy, PartialEq, Eq, Structural)]
pub struct TransactionContext {
    pub amount: u64,
    pub currency: u64,
    pub card_network: u64,
    pub payment_method: u64,
}

/// The value of an attribute, or `None` for an undefined field.
pub open spec fn attribute(ctx: TransactionContext, field: u32) -> Option<u64> {
    if field == FIELD_AMOUNT {
        Some(ctx.amount)
    } else if field == FIELD_CURRENCY {
        Some(ctx.currency)
    } else if field == FIELD_CARD_NETWORK {
        Some(ctx.card_network)
    } else if field == FIELD_PAYMENT_METHOD {
        Some(ctx.payment_method)
    } else {
        None
    }
}

#[derive(Debug, Clone, Copy, PartialEq, Eq, Structural)]
pub enum Comparison {
    Equal,
    NotEqual,
    Less,
    LessOrEqual,
    Greater,
    GreaterOrEqual,
}

/// `attribute <comparison> value`.
#[derive(Debug, Clone, Copy, PartialEq, Eq, Structural)]
pub struct Predicate {
    pub field: u32,
    pub comparison: Comparison,
    pub value: u64,
}

/// A boolean combination of predicates.
#[derive(Debug)]
pub enum Condition {
    Leaf(Predicate),
    All(Box<Condition>, Box<Condition>),
    Any(Box<Condition>, Box<Condition>),
}

/// A rule: when its condition holds, its connectors in their order.
#[derive(Debug)]
pub struct Rule {
    pub condition: Condition,
    pub connectors: Vec<String>,
}

/// Rules tried in order, and the list used when none matches.
#[derive(Debug)]
pub struct RuleTree {
    pub rules: Vec<Rule>,
    pub default_connectors: Vec<String>,
}

pub open spec fn compares(v: u64, comparison: Comparison, value: u64) -> bool {
    match comparison {
        Comparison::Equal => v == value,
        Comparison::NotEqual => v != value,
        Comparison::Less => v < value,
        Comparison::LessOrEqual => v <= value,
        Comparison::Greater => v > value,
        Comparison::GreaterOrEqual => v >= value,
    }
}

/// A condition is well formed when every predicate names a defined field.
pub open spec fn condition_wf(c: Condition) -> bool
    decreases c,
{
    match c {
        Condition::Leaf(p) => p.field <= FIELD_PAYMENT_METHOD,
        Condition::All(a, b) => condition_wf(*a) && condition_wf(*b),
        Condition::Any(a, b) => condition_wf(*a) && condition_wf(*b),
    }
}

/// Whether a well-formed condition holds of a transaction.
pub open spec fn condition_holds(c: Condition, ctx: TransactionContext) -> bool
    decreases c,
{
    match c {
        Condition::Leaf(p) => match attribute(ctx, p.field) {
            Some(v) => compares(v, p.comparison, p.value),
            None => false,
        },
        Condition::All(a, b) => condition_holds(*a, ctx) && condition_holds(*b, ctx),
        Condition::Any(a, b) => condition_holds(*a, ctx) || condition_holds(*b, ctx),
    }
}

/// A rule tree is well formed when all its conditions are.
pub open spec fn tree_wf(t: RuleTree) -> bool {
    forall|i: int| 0 <= i < t.rules@.len() ==> condition_wf(#[trigger] t.rules@[i].condition)
}

/// The first rule from position `i` on whose condition holds.
pub open spec fn first_match_from(rules: Seq<Rule>, ctx: TransactionContext, i: int) -> Option<int>
    decreases rules.len() - i,
{
    if i < 0 || i >= rules.len() {
        None
    } else if condition_holds(rules[i].condition, ctx) {
        Some(i)
    } else {
        first_match_from(rules, ctx, i + 1)
    }
}

/// The connectors a well-formed tree selects for a transaction: those of the
/// first matching rule, or the default list.
pub open spec fn selected(t: RuleTree, ctx: TransactionContext) -> Seq<Seq<char>> {
    match first_match_from(t.rules@, ctx, 0) {
        Some(i) => ids_of(t.rules@[i].connectors@),
        None => ids_of(t.default_connectors@),
    }
}

fn condition_valid(c: &Condition) -> (r: bool)
    ensures
        r == condition_wf(*c),
    decreases c,
{
    match c {
        Condition::Leaf(p) => p.field <= FIELD_PAYMENT_METHOD,
        Condition::All(a, b) => condition_valid(a) && condition_valid(b),
        Condition::Any(a, b) => condition_valid(a) && condition_valid(b),
    }
}

fn attribute_value(ctx: &TransactionContext, field: u32) -> (r: Option<u64>)
    ensures
        r == attribute(*ctx, field),
{
    if field == FIELD_AMOUNT {
        Some(ctx.amount)
    } else if field == FIELD_CURRENCY {
        Some(ctx.currency)
    } else if field == FIELD_CARD_NETWORK {
        Some(ctx.card_network)
    } else if field == FIELD_PAYMENT_METHOD {
        Some(ctx.payment_method)
    } else {
        None
    }
}

fn holds(c: &Condition, ctx: &TransactionContext) -> (r: bool)
    ensures
        r == condition_holds(*c, *ctx),
    decreases c,
{
    match c {
        Condition::Leaf(p) => match attribute_value(ctx, p.field) {
            Some(v) => match p.comparison {
                Comparison::Equal => v == p.value,
                Comparison::NotEqual => v != p.value,
                Comparison::Less => v < p.value,
                Comparison::LessOrEqual => v <= p.value,
                Comparison::Greater => v > p.value,
                Comparison::GreaterOrEqual => v >= p.value,
            },
            None => false,
        },
        Condition::All(a, b) => holds(a, ctx) && holds(b, ctx),
        Condition::Any(a, b) => holds(a, ctx) || holds(b, ctx),
    }
}

/// Whether every predicate of the tree names a defined field.
pub fn validate(tree: &RuleTree) -> (r: bool)
    ensures
        r == tree_wf(*tree),
{
    let mut i: usize = 0;
    while i < tree.rules.len()
        invariant
            i <= tree.rules@.len(),
            forall|k: int| 0 <= k < i ==> condition_wf(#[trigger] tree.rules@[k].condition),
        decreases tree.rules@.len() - i,
    {
        if !condition_valid(&tree.rules[i].condition) {
            return false;
        }
        i = i + 1;
    }
    true
}

/// Evaluates a rule tree for a transaction: the connectors of the first
/// rule whose condition holds, else the default list. A tree with a
/// predicate on an undefined field fails for every transaction.
pub fn evaluate(tree: &RuleTree, ctx: &TransactionContext) -> (r: Result<Vec<String>, RoutingError>)
    ensures
        r is Ok <==> tree_wf(*tree),
        r matches Ok(v) ==> ids_of(v@) == selected(*tree, *ctx),
        r matches Err(e) ==> e == RoutingError::RuleEvaluationError,
{
    if !validate(tree) {
        return Err(RoutingError::RuleEvaluationError);
    }
    let mut i: usize = 0;
    while i < tree.rules.len()
        invariant
            tree_wf(*tree),
            i <= tree.rules@.len(),
            first_match_from(tree.rules@, *ctx, 0) == first_match_from(tree.rules@, *ctx, i as int),
        decreases tree.rules@.len() - i,
    {
        if holds(&tree.rules[i].condition, ctx) {
            return Ok(copy_ids(&tree.rules[i].connectors));
        }
        i = i + 1;
    }
    Ok(copy_ids(&tree.default_connectors))
}

} // verus!
