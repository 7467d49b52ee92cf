//! Vocabulary shared by the components of the engine.
use vstd::prelude::*;

verus! {

/// Success probabilities are fixed-point numbers in parts per million.
pub const PROBABILITY_SCALE: u64 = 1000000;

/// Failures of the engine. `NotFound`, `Conflict` and `InvalidConfig` reach
/// the caller of an administrative operation; `RuleEvaluationError` and `InsufficientData`
/// are recovered inside the decision path.
#[derive(Debug, Clone, Copy, PartialEq, Eq, Structural)]
pub enum RoutingError {
    NotFound,
    Conflict,
    RuleEvaluationError,
    InsufficientData,
    ConfigStoreUnavailable,
    InvalidConfig,
}

/// The category under which the event log files a record.
#[derive(Debug, Clone, Copy, PartialEq, Eq, Structural)]
pub enum ApiEventsType {
    Routing,
}

/// The kind of a routing algorithm, the tag of its variant.
#[derive(Debug, Clone, Copy, PartialEq, Eq, Structural)]
pub enum RoutingKind {
    StaticRuleBased,
    SuccessBased,
    VolumeSplit,
}

impl RoutingKind {
    /// Every operation on a routing kind is logged as a routing event.
    pub fn get_api_event_type(&self) -> (r: Option<ApiEventsType>)
        ensures
            r == Some(ApiEventsType::Routing),
    {
        Some(ApiEventsType::Routing)
    }
}

/// Result of a payment as reported back to the engine.
#[derive(Debug, Clone, Copy, PartialEq, Eq, Structural)]
pub enum Outcome {
    Success,
    Failure,
}

/// Per-profile tunables of success-based routing.
///
/// * `min_samples`: outcomes a connector needs before its rate is trusted.
/// * `smoothing_window`: each outcome moves a connector's smoothed success
///   probability `1 / smoothing_window` of the way towards the outcome
///   (exponential smoothing with a half-life of about
///   `0.69 * smoothing_window` outcomes); `1` keeps only the last outcome.
/// * `exploration_percent`: share of decisions, out of 100, in which the
///   connector without enough data, picked at random among them, is tried
///   first.
#[derive(Debug, Clone, Copy, PartialEq, Eq, Structural)]
pub struct SuccessBasedRoutingConfig {
    pub min_samples: u64,
    pub smoothing_window: u64,
    pub exploration_percent: u64,
}

impl SuccessBasedRoutingConfig {
    /// A usable configuration: a positive window and a percentage.
    pub open spec fn wf(&self) -> bool {
        self.smoothing_window >= 1 && self.exploration_percent <= 100
    }

    /// Whether the given tunables form a usable configuration.
    pub fn is_valid(&self) -> (r: bool)
        ensures
            r == self.wf(),
    {
        self.smoothing_window >= 1 && self.exploration_percent <= 100
    }

    /// Every operation on a success-based configuration is logged as a
    /// routing event.
    pub fn get_api_event_type(&self) -> (r: Option<ApiEventsType>)
        ensures
            r == Some(ApiEventsType::Routing),
    {
        Some(ApiEventsType::Routing)
    }
}

} // verus!
