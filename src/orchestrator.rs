//! Routing orchestrator: picks the active algorithm of a profile, runs it,
//! applies the profile's override to a successful result, and falls back to
//! the default ordering unchanged when nothing is active or a step fails,
//! so that a decision always yields connectors.
use vstd::prelude::*;
use crate::ids::{copy_ids, id_equal, ids_of};
use crate::ranking::{is_ranking, rank};
use crate::rules::{evaluate, selected, tree_wf, RuleTree, TransactionContext};
use crate::stats::{profile_snapshot, SuccessRateTracker};
use crate::store::{ConfigStore, RoutingAlgorithm};
use crate::types::{ApiEventsType, RoutingError, RoutingKind, SuccessBasedRoutingConfig};

verus! {

/// Whether a connector ordering names at least one connector, each once.
pub fn is_ordering(v: &Vec<String>) -> (r: bool)
ensures
    r == (v@.len() > 0 && ids_of(v@).no_duplicates()),
{
    let ghost d = ids_of(v@);
    if v.len() == 0 {
        return false;
    }
    let mut i: usize = 0;
    while i < v.len()
        invariant
            d == ids_of(v@),
            i <= v@.len(),
            forall|a: int, b: int| 0 <= a < b < v@.len() && a < i ==> d[a] != d[b],
        decreases v@.len() - i,
    {
        let mut j: usize = i + 1;
        while j < v.len()
            invariant
                d == ids_of(v@),
                    i < v@.len(),
                i + 1 <= j <= v@.len(),
                forall|a: int, b: int| 0 <= a < b < v@.len() && a < i ==> d[a] != d[b],
                forall|b: int| i < b < j ==> d[i as int] != d[b],
            decreases v@.len() - j,
        {
            if id_equal(&v[i], &v[j]) {
                assert(d[i as int] == v@[i as int]@ && d[j as int] == v@[j as int]@);
                assert(!d.no_duplicates());
                return false;
            }
            j = j + 1;
        }
        i = i + 1;
    }
    assert(d.no_duplicates());
    true
}

/// A connector forced to the front for transactions in one currency.
#[derive(Debug)]
pub struct CurrencyOverride {
    pub currency: u64,
    pub connector: String,
}

/// A profile's routing settings: its hard-coded default ordering and its
/// overrides.
#[derive(Debug)]
pub struct ProfileRoutingConfig {
    pub profile_id: String,
    pub default_connectors: Vec<String>,
    pub overrides: Vec<CurrencyOverride>,
}

/// Request to replace the default ordering of a profile.
#[derive(Debug)]
pub struct RoutingPayloadWrapper {
    pub profile_id: String,
    pub updated_config: Vec<String>,
}

impl RoutingPayloadWrapper {
    /// Every update of a default ordering is logged as a routing event.
    pub fn get_api_event_type(&self) -> (r: Option<ApiEventsType>)
        ensures
            r == Some(ApiEventsType::Routing),
    {
        Some(ApiEventsType::Routing)
    }
}

impl ProfileRoutingConfig {
    /// The default ordering names at least one connector, each once.
    pub open spec fn wf(&self) -> bool {
        &&& self.default_connectors@.len() > 0
        &&& ids_of(self.default_connectors@).no_duplicates()
    }

    /// Whether the default ordering names at least one connector, each once.
    pub fn is_valid(&self) -> (r: bool)
        ensures
            r == self.wf(),
    {
        is_ordering(&self.default_connectors)
    }

    /// Every operation on a profile's routing settings is logged as a
    /// routing event.
    pub fn get_api_event_type(&self) -> (r: Option<ApiEventsType>)
        ensures
            r == Some(ApiEventsType::Routing),
    {
        Some(ApiEventsType::Routing)
    }

    /// Replaces the default ordering. A payload for another profile is
    /// `NotFound`; one whose list is empty or names a connector twice is
    /// `InvalidConfig`. On an error nothing changes.
    pub fn update_default(&mut self, payload: &RoutingPayloadWrapper) -> (r: Result<(), RoutingError>)
        ensures
            old(self).profile_id@ != payload.profile_id@ ==> r == Err::<(), RoutingError>(RoutingError::NotFound),
            old(self).profile_id@ == payload.profile_id@ && !(payload.updated_config@.len() > 0 && ids_of(
                payload.updated_config@,
            ).no_duplicates()) ==> r == Err::<(), RoutingError>(RoutingError::InvalidConfig),
            r is Ok ==> ids_of(final(self).default_connectors@) == ids_of(payload.updated_config@),
            r is Err ==> final(self).default_connectors == old(self).default_connectors,
            r is Ok <==> old(self).profile_id@ == payload.profile_id@ && payload.updated_config@.len() > 0 && ids_of(
                payload.updated_config@,
            ).no_duplicates(),
            final(self).profile_id == old(self).profile_id,
            final(self).overrides == old(self).overrides,
    {
        if !id_equal(&self.profile_id, &payload.profile_id) {
            return Err(RoutingError::NotFound);
        }
        if !is_ordering(&payload.updated_config) {
            return Err(RoutingError::InvalidConfig);
        }
        self.default_connectors = copy_ids(&payload.updated_config);
        Ok(())
    }
}

/// The connector of the first override, from position `i` on, for a
/// currency.
pub open spec fn override_from(overrides: Seq<CurrencyOverride>, currency: u64, i: int) -> Option<Seq<char>>
    decreases overrides.len() - i,
{
    if i < 0 || i >= overrides.len() {
        None
    } else if overrides[i].currency == currency {
        Some(overrides[i].connector@)
    } else {
        override_from(overrides, currency, i + 1)
    }
}

/// `s` without the occurrences of `x`, in order.
pub open spec fn without(s: Seq<Seq<char>>, x: Seq<char>) -> Seq<Seq<char>>
    decreases s.len(),
{
    if s.len() == 0 {
        s
    } else if s.last() == x {
        without(s.drop_last(), x)
    } else {
        without(s.drop_last(), x).push(s.last())
    }
}

/// The ordering after the override for the currency: when the ordering
/// holds the forced connector, that connector at rank 0 and the others in
/// their relative order; else the ordering unchanged.
pub open spec fn merged(base: Seq<Seq<char>>, overrides: Seq<CurrencyOverride>, currency: u64) -> Seq<Seq<char>> {
    match override_from(overrides, currency, 0) {
        Some(x) => if base.contains(x) {
            seq![x] + without(base, x)
        } else {
            base
        },
        None => base,
    }
}

/// The configuration of the profile's active success-based algorithm, if
/// any.
pub open spec fn dynamic_config(store: ConfigStore, profile: Seq<char>) -> Option<SuccessBasedRoutingConfig> {
    if exists|k: int| #[trigger] store.is_active_for(k, profile, RoutingKind::SuccessBased) {
        let k = choose|k: int| #[trigger] store.is_active_for(k, profile, RoutingKind::SuccessBased);
        match store.algorithms@[k].algorithm {
            RoutingAlgorithm::SuccessBased(c) => Some(c),
            _ => None,
        }
    } else {
        None
    }
}

/// The rule tree of the profile's active rule-based algorithm, if any.
pub open spec fn static_tree(store: ConfigStore, profile: Seq<char>) -> Option<RuleTree> {
    if exists|k: int| #[trigger] store.is_active_for(k, profile, RoutingKind::StaticRuleBased) {
        let k = choose|k: int| #[trigger] store.is_active_for(k, profile, RoutingKind::StaticRuleBased);
        match store.algorithms@[k].algorithm {
            RoutingAlgorithm::StaticRuleBased(t) => Some(t),
            _ => None,
        }
    } else {
        None
    }
}

/// Whether the static path succeeds: the tree is well formed and selects
/// at least one connector.
pub open spec fn static_succeeds(t: RuleTree, ctx: TransactionContext) -> bool {
    tree_wf(t) && selected(t, ctx).len() > 0
}

/// The decision owed for a transaction.
/// * An active success-based algorithm with a usable configuration: a
///   ranking of the default connectors, then the override.
/// * Else an active rule-based algorithm whose evaluation succeeds: its
///   selection, then the override.
/// * Else (nothing active, a failed step, an unusable configuration): the
///   default ordering unchanged.
/// A default ordering that names a connector twice cannot be ranked: the
/// decision is then that ordering unchanged.
pub open spec fn is_decision(
    store: ConfigStore,
    tracker: SuccessRateTracker,
    profile: ProfileRoutingConfig,
    ctx: TransactionContext,
    draw: u64,
    r: Seq<Seq<char>>,
) -> bool {
    let d = ids_of(profile.default_connectors@);
    let ov = profile.overrides@;
    if !d.no_duplicates() {
        r == d
    } else {
        match dynamic_config(store, profile.profile_id@) {
            Some(cfg) => if cfg.wf() {
                exists|base: Seq<Seq<char>>|
                    is_ranking(profile_snapshot(tracker.entries@, profile.profile_id@, cfg.min_samples), cfg, draw, d, base)
                        && r == #[trigger] merged(base, ov, ctx.currency)
            } else {
                r == d
            },
            None => match static_tree(store, profile.profile_id@) {
                Some(t) => if static_succeeds(t, ctx) {
                    r == merged(selected(t, ctx), ov, ctx.currency)
                } else {
                    r == d
                },
                None => r == d,
            },
        }
    }
}

fn find_override(overrides: &Vec<CurrencyOverride>, currency: u64) -> (r: Option<&String>)
    ensures
        r matches Some(x) ==> override_from(overrides@, currency, 0) == Some(x@),
        r is None ==> override_from(overrides@, currency, 0) is None,
{
    let mut i: usize = 0;
    while i < overrides.len()
        invariant
            i <= overrides@.len(),
            override_from(overrides@, currency, 0) == override_from(overrides@, currency, i as int),
        decreases overrides@.len() - i,
    {
        if overrides[i].currency == currency {
            return Some(&overrides[i].connector);
        }
        i = i + 1;
    }
    None
}

fn holds_id(v: &Vec<String>, x: &String) -> (r: bool)
    ensures
        r == ids_of(v@).contains(x@),
{
    let mut i: usize = 0;
    while i < v.len()
        invariant
            i <= v@.len(),
            forall|k: int| 0 <= k < i ==> (#[trigger] v@[k])@ != x@,
        decreases v@.len() - i,
    {
        if id_equal(&v[i], x) {
            assert(ids_of(v@)[i as int] == x@);
            return true;
        }
        i = i + 1;
    }
    assert forall|k: int| 0 <= k < ids_of(v@).len() implies #[trigger] ids_of(v@)[k] != x@ by {
        assert(ids_of(v@)[k] == v@[k]@);
    }
    false
}

/// Applies the override for a currency to an ordering: a forced connector
/// that the ordering holds moves to rank 0 and the rest keep their order.
pub fn merge_override(base: Vec<String>, overrides: &Vec<CurrencyOverride>, currency: u64) -> (r: Vec<String>)
    ensures
        ids_of(r@) == merged(ids_of(base@), overrides@, currency),
{
    match find_override(overrides, currency) {
        None => base,
        Some(x) => {
            if !holds_id(&base, x) {
                return base;
            }
            let ghost b = ids_of(base@);
            let mut r: Vec<String> = Vec::new();
            r.push(x.clone());
            let mut i: usize = 0;
            while i < base.len()
                invariant
                    b == ids_of(base@),
                    i <= base@.len(),
                    ids_of(r@) == seq![x@] + without(b.subrange(0, i as int), x@),
                decreases base@.len() - i,
            {
                assert(b.subrange(0, i + 1).drop_last() =~= b.subrange(0, i as int));
                assert(b.subrange(0, i + 1).last() == base@[i as int]@);
                let ghost before = ids_of(r@);
                if !id_equal(&base[i], x) {
                    r.push(base[i].clone());
                    assert(ids_of(r@) =~= before.push(base@[i as int]@));
                }
                i = i + 1;
            }
            assert(b.subrange(0, i as int) =~= b);
            r
        },
    }
}

/// Decides the connector ordering for one transaction of a profile. `draw`
/// is a random number drawn uniformly by the caller, used by the
/// exploration policy of success-based routing. Never fails: with nothing
/// active, or when a step fails, the result is the profile's default
/// ordering as it is.
pub fn route(
    store: &ConfigStore,
    tracker: &SuccessRateTracker,
    profile: &ProfileRoutingConfig,
    ctx: &TransactionContext,
    draw: u64,
) -> (r: Vec<String>)
    requires
        store.wf(),
        tracker.wf(),
        profile.default_connectors@.len() > 0,
    ensures
        r@.len() > 0,
        is_decision(*store, *tracker, *profile, *ctx, draw, ids_of(r@)),
{
    let ghost d = ids_of(profile.default_connectors@);
    let ghost ov = profile.overrides@;
    if !profile.is_valid() {
        return copy_ids(&profile.default_connectors);
    }
    let mut dynamic: Option<SuccessBasedRoutingConfig> = None;
    match store.get_active(&profile.profile_id, RoutingKind::SuccessBased) {
        Ok(a) => {
            match &a.algorithm {
                RoutingAlgorithm::SuccessBased(cfg) => {
                    dynamic = Some(*cfg);
                },
                _ => {},
            }
        },
        Err(_) => {},
    }
    assert(dynamic == dynamic_config(*store, profile.profile_id@));
    let base: Option<Vec<String>> = match dynamic {
        Some(cfg) => {
            if cfg.is_valid() {
                Some(rank(tracker, &profile.profile_id, &profile.default_connectors, &cfg, draw))
            } else {
                None
            }
        },
        None => {
            match store.get_active(&profile.profile_id, RoutingKind::StaticRuleBased) {
                Ok(a) => {
                    match &a.algorithm {
                        RoutingAlgorithm::StaticRuleBased(tree) => {
                            assert(static_tree(*store, profile.profile_id@) == Some(*tree));
                            match evaluate(tree, ctx) {
                                Ok(v) => {
                                    if v.len() > 0 {
                                        Some(v)
                                    } else {
                                        None
                                    }
                                },
                                Err(_) => None,
                            }
                        },
                        _ => None,
                    }
                },
                Err(_) => None,
            }
        },
    };
    match base {
        Some(b) => {
            assert(ids_of(b@).len() == b@.len());
            let r = merge_override(b, &profile.overrides, ctx.currency);
            proof {
                let bb = ids_of(b@);
                match override_from(ov, ctx.currency, 0) {
                    Some(x) => {
                        if bb.contains(x) {
                            assert(ids_of(r@).len() > 0);
                        }
                    },
                    None => {},
                }
                assert(ids_of(r@).len() > 0);
            }
            r
        },
        None => copy_ids(&profile.default_connectors),
    }
}

/// With no algorithm active for a profile, a decision is the profile's
/// default ordering unchanged.
pub proof fn lemma_no_algorithm_gives_default(
    store: ConfigStore,
    tracker: SuccessRateTracker,
    profile: ProfileRoutingConfig,
    ctx: TransactionContext,
    draw: u64,
    r: Seq<Seq<char>>,
)
    requires
        forall|k: int, kind: RoutingKind| !#[trigger] store.is_active_for(k, profile.profile_id@, kind),
        is_decision(store, tracker, profile, ctx, draw, r),
    ensures
        r == ids_of(profile.default_connectors@),
{
    assert(!exists|k: int| #[trigger] store.is_active_for(k, profile.profile_id@, RoutingKind::SuccessBased));
    assert(!exists|k: int| #[trigger] store.is_active_for(k, profile.profile_id@, RoutingKind::StaticRuleBased));
}

/// A rule tree with a predicate on an undefined field fails to evaluate for
/// every transaction, and a decision made with it active (and no
/// success-based algorithm active) is the default ordering unchanged.
pub proof fn lemma_rule_fallback(
    store: ConfigStore,
    tracker: SuccessRateTracker,
    profile: ProfileRoutingConfig,
    ctx: TransactionContext,
    draw: u64,
    r: Seq<Seq<char>>,
    tree: RuleTree,
)
    requires
        dynamic_config(store, profile.profile_id@) is None,
        static_tree(store, profile.profile_id@) == Some(tree),
        !tree_wf(tree),
        is_decision(store, tracker, profile, ctx, draw, r),
    ensures
        r == ids_of(profile.default_connectors@),
{
}

} // verus!
