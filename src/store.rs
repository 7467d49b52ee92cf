//! Config store: versioned routing algorithms per profile, with at most one
//! active algorithm of each kind per profile.
use vstd::prelude::*;
use crate::ids::id_equal;
use crate::rules::RuleTree;
use crate::types::{ApiEventsType, RoutingError, RoutingKind, SuccessBasedRoutingConfig};

verus! {

/// Identifier of one stored algorithm version.
#[derive(Debug, Clone, Copy, PartialEq, Eq, Structural)]
pub struct RoutingAlgorithmId {
    pub id: u64,
}

impl RoutingAlgorithmId {
    /// Every operation on an algorithm id is logged as a routing event.
    pub fn get_api_event_type(&self) -> (r: Option<ApiEventsType>)
        ensures
            r == Some(ApiEventsType::Routing),
    {
        Some(ApiEventsType::Routing)
    }
}

/// Lifecycle of a stored algorithm: created as a draft, then active or
/// retired.
#[derive(Debug, Clone, Copy, PartialEq, Eq, Structural)]
pub enum AlgorithmStatus {
    Active,
    Inactive,
    Draft,
}

/// One connector's share of traffic in a volume split.
#[derive(Debug)]
pub struct VolumeSplitEntry {
    pub connector: String,
    pub weight: u64,
}

/// A routing algorithm, one variant per kind.
#[derive(Debug)]
pub enum RoutingAlgorithm {
    StaticRuleBased(RuleTree),
    SuccessBased(SuccessBasedRoutingConfig),
    VolumeSplit(Vec<VolumeSplitEntry>),
}

pub open spec fn kind_of(a: RoutingAlgorithm) -> RoutingKind {
    match a {
        RoutingAlgorithm::StaticRuleBased(_) => RoutingKind::StaticRuleBased,
        RoutingAlgorithm::SuccessBased(_) => RoutingKind::SuccessBased,
        RoutingAlgorithm::VolumeSplit(_) => RoutingKind::VolumeSplit,
    }
}

impl RoutingAlgorithm {
    /// The kind of the algorithm.
    pub fn kind(&self) -> (r: RoutingKind)
        ensures
            r == kind_of(*self),
    {
        match self {
            RoutingAlgorithm::StaticRuleBased(_) => RoutingKind::StaticRuleBased,
            RoutingAlgorithm::SuccessBased(_) => RoutingKind::SuccessBased,
            RoutingAlgorithm::VolumeSplit(_) => RoutingKind::VolumeSplit,
        }
    }
}

/// A stored algorithm version of a profile.
#[derive(Debug)]
pub struct MerchantRoutingAlgorithm {
    pub id: RoutingAlgorithmId,
    pub profile_id: String,
    pub name: String,
    pub algorithm: RoutingAlgorithm,
    pub created_at: u64,
}

impl MerchantRoutingAlgorithm {
    /// Every operation on a stored algorithm is logged as a routing event.
    pub fn get_api_event_type(&self) -> (r: Option<ApiEventsType>)
        ensures
            r == Some(ApiEventsType::Routing),
    {
        Some(ApiEventsType::Routing)
    }
}

/// A listing entry summarising a stored algorithm.
#[derive(Debug)]
pub struct RoutingDictionaryRecord {
    pub id: RoutingAlgorithmId,
    pub name: String,
    pub kind: RoutingKind,
    pub status: AlgorithmStatus,
    pub created_at: u64,
}

impl RoutingDictionaryRecord {
    /// Every operation on a listing entry is logged as a routing event.
    pub fn get_api_event_type(&self) -> (r: Option<ApiEventsType>)
        ensures
            r == Some(ApiEventsType::Routing),
    {
        Some(ApiEventsType::Routing)
    }
}

/// Request to fetch one stored algorithm by its id.
#[derive(Debug, Clone, Copy, PartialEq, Eq, Structural)]
pub struct RoutingRetrieveQuery {
    pub algorithm_id: RoutingAlgorithmId,
}

impl RoutingRetrieveQuery {
    /// Every retrieval is logged as a routing event.
    pub fn get_api_event_type(&self) -> (r: Option<ApiEventsType>)
        ensures
            r == Some(ApiEventsType::Routing),
    {
        Some(ApiEventsType::Routing)
    }
}

/// Request to tune the parameters of a stored success-based algorithm.
#[derive(Debug, Clone, Copy, PartialEq, Eq, Structural)]
pub struct SuccessBasedRoutingUpdateConfigQuery {
    pub algorithm_id: RoutingAlgorithmId,
}

impl SuccessBasedRoutingUpdateConfigQuery {
    /// Every tuning request is logged as a routing event.
    pub fn get_api_event_type(&self) -> (r: Option<ApiEventsType>)
        ensures
            r == Some(ApiEventsType::Routing),
    {
        Some(ApiEventsType::Routing)
    }
}

/// Request carrying new tunables for a stored success-based algorithm of a
/// profile.
#[derive(Debug)]
pub struct SuccessBasedRoutingPayloadWrapper {
    pub profile_id: String,
    pub query: SuccessBasedRoutingUpdateConfigQuery,
    pub updated_config: SuccessBasedRoutingConfig,
}

impl SuccessBasedRoutingPayloadWrapper {
    /// Every tuning payload is logged as a routing event.
    pub fn get_api_event_type(&self) -> (r: Option<ApiEventsType>)
        ensures
            r == Some(ApiEventsType::Routing),
    {
        Some(ApiEventsType::Routing)
    }
}

/// Request to store a new routing algorithm for a profile.
#[derive(Debug)]
pub struct RoutingConfigRequest {
    pub profile_id: String,
    pub name: String,
    pub algorithm: RoutingAlgorithm,
}

impl RoutingConfigRequest {
    /// Every configuration request is logged as a routing event.
    pub fn get_api_event_type(&self) -> (r: Option<ApiEventsType>)
        ensures
            r == Some(ApiEventsType::Routing),
    {
        Some(ApiEventsType::Routing)
    }
}

/// Command that makes a stored algorithm of a profile its active one.
#[derive(Debug)]
pub struct RoutingLinkWrapper {
    pub profile_id: String,
    pub algorithm_id: RoutingAlgorithmId,
}

impl RoutingLinkWrapper {
    /// Every link command is logged as a routing event.
    pub fn get_api_event_type(&self) -> (r: Option<ApiEventsType>)
        ensures
            r == Some(ApiEventsType::Routing),
    {
        Some(ApiEventsType::Routing)
    }
}

/// Which active algorithms to retrieve: those of one kind, or all.
#[derive(Debug, Clone, Copy, PartialEq, Eq, Structural)]
pub struct RoutingRetrieveLinkQuery {
    pub kind: Option<RoutingKind>,
}

impl RoutingRetrieveLinkQuery {
    /// Every retrieval of active algorithms is logged as a routing event.
    pub fn get_api_event_type(&self) -> (r: Option<ApiEventsType>)
        ensures
            r == Some(ApiEventsType::Routing),
    {
        Some(ApiEventsType::Routing)
    }
}

/// Retrieval of the active algorithms of a profile.
#[derive(Debug)]
pub struct RoutingRetrieveLinkQueryWrapper {
    pub profile_id: String,
    pub query: RoutingRetrieveLinkQuery,
}

impl RoutingRetrieveLinkQueryWrapper {
    /// Every retrieval of active algorithms is logged as a routing event.
    pub fn get_api_event_type(&self) -> (r: Option<ApiEventsType>)
        ensures
            r == Some(ApiEventsType::Routing),
    {
        Some(ApiEventsType::Routing)
    }
}

/// The active algorithms of a profile, newest first.
#[derive(Debug)]
pub struct LinkedRoutingConfigRetrieveResponse {
    pub records: Vec<RoutingDictionaryRecord>,
}

impl LinkedRoutingConfigRetrieveResponse {
    /// Every response listing active algorithms is logged as a routing
    /// event.
    pub fn get_api_event_type(&self) -> (r: Option<ApiEventsType>)
        ensures
            r == Some(ApiEventsType::Routing),
    {
        Some(ApiEventsType::Routing)
    }
}

/// Whether success-based routing is to be on.
#[derive(Debug, Clone, Copy, PartialEq, Eq, Structural)]
pub struct ToggleDynamicRoutingQuery {
    pub enable: bool,
}

impl ToggleDynamicRoutingQuery {
    /// Every toggle query is logged as a routing event.
    pub fn get_api_event_type(&self) -> (r: Option<ApiEventsType>)
        ensures
            r == Some(ApiEventsType::Routing),
    {
        Some(ApiEventsType::Routing)
    }
}

/// Command that switches success-based routing of a profile on or off, by
/// moving its success-based algorithm between active and inactive; the
/// stored algorithms themselves stay as they are.
#[derive(Debug)]
pub struct ToggleDynamicRoutingWrapper {
    pub profile_id: String,
    pub query: ToggleDynamicRoutingQuery,
}

impl ToggleDynamicRoutingWrapper {
    /// Every toggle is logged as a routing event.
    pub fn get_api_event_type(&self) -> (r: Option<ApiEventsType>)
        ensures
            r == Some(ApiEventsType::Routing),
    {
        Some(ApiEventsType::Routing)
    }
}

/// What an activation of `id` did to the store, given the algorithm the
/// caller expected active (`None`: none). An unknown id is `NotFound`; an
/// expectation that is not the current state is `Conflict`; either way
/// nothing changes. Else `id` becomes active and the algorithm active before
/// it for the same profile and kind is retired, in one step.
pub open spec fn activation(
    before: ConfigStore,
    after: ConfigStore,
    id: RoutingAlgorithmId,
    expected: Option<RoutingAlgorithmId>,
    r: Result<(), RoutingError>,
) -> bool {
    &&& after.algorithms@ == before.algorithms@
    &&& id.id >= before.algorithms@.len() ==> r == Err::<(), RoutingError>(RoutingError::NotFound)
        && after.statuses@ == before.statuses@
    &&& id.id < before.algorithms@.len() ==> ({
        let a = before.algorithms@[id.id as int];
        let kind = kind_of(a.algorithm);
        if before.current_is(a.profile_id@, kind, expected) {
            &&& r is Ok
            &&& after.statuses@.len() == before.statuses@.len()
            &&& forall|k: int|
                0 <= k < before.statuses@.len() ==> #[trigger] after.statuses@[k] == if k == id.id {
                    AlgorithmStatus::Active
                } else if before.is_active_for(k, a.profile_id@, kind) {
                    AlgorithmStatus::Inactive
                } else {
                    before.statuses@[k]
                }
        } else {
            &&& r == Err::<(), RoutingError>(RoutingError::Conflict)
            &&& after.statuses@ == before.statuses@
        }
    })
}

/// Stored algorithms, indexed by their id, and the status of each.
#[derive(Debug)]
pub struct ConfigStore {
    pub algorithms: Vec<MerchantRoutingAlgorithm>,
    pub statuses: Vec<AlgorithmStatus>,
    /// Marks, per profile, the success-based algorithm that switching
    /// success-based routing off retired, for switching it on again.
    pub switched_off: Vec<bool>,
}

impl ConfigStore {
    /// Whether algorithm `i` is the active one of `kind` for `profile`.
    pub open spec fn is_active_for(&self, i: int, profile: Seq<char>, kind: RoutingKind) -> bool {
        &&& 0 <= i < self.algorithms@.len()
        &&& self.statuses@[i] == AlgorithmStatus::Active
        &&& self.algorithms@[i].profile_id@ == profile
        &&& kind_of(self.algorithms@[i].algorithm) == kind
    }

    /// Ids are positions, creation times never go backwards, and no two
    /// algorithms of one kind are active for one profile.
    pub open spec fn wf(&self) -> bool {
        &&& self.algorithms@.len() == self.statuses@.len()
        &&& forall|i: int| 0 <= i < self.algorithms@.len() ==> (#[trigger] self.algorithms@[i]).id.id == i
        &&& forall|i: int, j: int|
            0 <= i < j < self.algorithms@.len() ==> (#[trigger] self.algorithms@[i]).created_at
                <= (#[trigger] self.algorithms@[j]).created_at
        &&& forall|i: int, j: int, p: Seq<char>, k: RoutingKind|
            #[trigger] self.is_active_for(i, p, k) && #[trigger] self.is_active_for(j, p, k) ==> i == j
        &&& self.switched_off@.len() == self.algorithms@.len()
        &&& forall|i: int, j: int, p: Seq<char>|
            #[trigger] self.switched_off_for(i, p) && #[trigger] self.switched_off_for(j, p) ==> i == j
    }

    /// Whether algorithm `k` is the success-based algorithm of `profile`
    /// that switching success-based routing off retired.
    pub open spec fn switched_off_for(&self, k: int, profile: Seq<char>) -> bool {
        &&& 0 <= k < self.switched_off@.len()
        &&& self.switched_off@[k]
        &&& self.holds_kind(k, profile, RoutingKind::SuccessBased)
    }

    /// Whether `expected` names the algorithm active now for `profile` and
    /// `kind` (`None`: none is).
    pub open spec fn current_is(&self, profile: Seq<char>, kind: RoutingKind, expected: Option<RoutingAlgorithmId>) -> bool {
        match expected {
            None => forall|k: int| !(#[trigger] self.is_active_for(k, profile, kind)),
            Some(e) => self.is_active_for(e.id as int, profile, kind),
        }
    }

    /// An empty store.
    pub fn new() -> (r: Self)
        ensures
            r.wf(),
            r.algorithms@.len() == 0,
    {
        ConfigStore { algorithms: Vec::new(), statuses: Vec::new(), switched_off: Vec::new() }
    }

    /// Stores a new algorithm version for a profile, as a draft, and returns
    /// its id. Its creation time is `now`, or the latest creation time in the
    /// store if that is later.
    pub fn upsert(&mut self, profile_id: String, name: String, algorithm: RoutingAlgorithm, now: u64) -> (r: RoutingAlgorithmId)
        requires
            old(self).wf(),
            old(self).algorithms@.len() < u64::MAX,
        ensures
            final(self).wf(),
            r.id == old(self).algorithms@.len(),
            final(self).statuses@ == old(self).statuses@.push(AlgorithmStatus::Draft),
            final(self).algorithms@.len() == old(self).algorithms@.len() + 1,
            forall|i: int| 0 <= i < old(self).algorithms@.len() ==> final(self).algorithms@[i] == old(self).algorithms@[i],
            final(self).algorithms@.last().profile_id == profile_id,
            final(self).algorithms@.last().name == name,
            final(self).algorithms@.last().algorithm == algorithm,
            final(self).algorithms@.last().created_at == (if old(self).algorithms@.len() > 0
                && old(self).algorithms@.last().created_at > now {
                old(self).algorithms@.last().created_at
            } else {
                now
            }),
    {
        let n = self.algorithms.len();
        let mut created_at = now;
        if n > 0 && self.algorithms[n - 1].created_at > now {
            created_at = self.algorithms[n - 1].created_at;
        }
        let id = RoutingAlgorithmId { id: n as u64 };
        self.algorithms.push(MerchantRoutingAlgorithm { id, profile_id, name, algorithm, created_at });
        self.statuses.push(AlgorithmStatus::Draft);
        self.switched_off.push(false);
        proof {
            let o = old(self);
            assert forall|i: int, j: int|
                0 <= i < j < self.algorithms@.len() implies (#[trigger] self.algorithms@[i]).created_at
                    <= (#[trigger] self.algorithms@[j]).created_at by {
                if j == n && i < n - 1 {
                    assert(o.algorithms@[i].created_at <= o.algorithms@[n - 1].created_at);
                }
            }
            assert forall|i: int, j: int, p: Seq<char>, k: RoutingKind|
                #[trigger] self.is_active_for(i, p, k) && #[trigger] self.is_active_for(j, p, k) implies i == j by {
                assert(o.is_active_for(i, p, k) && o.is_active_for(j, p, k));
            }
            assert forall|a: int, b: int, q: Seq<char>|
                #[trigger] self.switched_off_for(a, q) && #[trigger] self.switched_off_for(b, q) implies a == b by {
                assert(o.switched_off_for(a, q) && o.switched_off_for(b, q));
            }
        }
        id
    }

    /// The position of the algorithm active for `profile` and `kind`.
    fn find_active(&self, profile_id: &String, kind: RoutingKind) -> (r: Option<usize>)
        requires
            self.wf(),
        ensures
            match r {
                Some(i) => self.is_active_for(i as int, profile_id@, kind),
                None => forall|k: int| !(#[trigger] self.is_active_for(k, profile_id@, kind)),
            },
    {
        let mut i: usize = 0;
        while i < self.algorithms.len()
            invariant
                self.wf(),
                i <= self.algorithms@.len(),
                forall|k: int| 0 <= k < i ==> !(#[trigger] self.is_active_for(k, profile_id@, kind)),
            decreases self.algorithms@.len() - i,
        {
            let a = &self.algorithms[i];
            if self.statuses[i] == AlgorithmStatus::Active && id_equal(&a.profile_id, profile_id)
                && a.algorithm.kind() == kind {
                return Some(i);
            }
            i = i + 1;
        }
        None
    }

    /// The active algorithm of `kind` for a profile, or `NotFound`.
    pub fn get_active(&self, profile_id: &String, kind: RoutingKind) -> (r: Result<&MerchantRoutingAlgorithm, RoutingError>)
        requires
            self.wf(),
        ensures
            r is Ok <==> exists|k: int| #[trigger] self.is_active_for(k, profile_id@, kind),
            r matches Ok(a) ==> exists|k: int|
                #[trigger] self.is_active_for(k, profile_id@, kind) && *a == self.algorithms@[k],
            r matches Err(e) ==> e == RoutingError::NotFound,
    {
        match self.find_active(profile_id, kind) {
            Some(i) => Ok(&self.algorithms[i]),
            None => Err(RoutingError::NotFound),
        }
    }

    /// Makes an algorithm the active one of its kind for its profile, and
    /// retires the one active before it, in one step. `expected` names the
    /// algorithm the caller saw active (`None`: none); if another one is
    /// active now, nothing changes and the result is `Conflict`.
    pub fn activate(&mut self, id: RoutingAlgorithmId, expected: Option<RoutingAlgorithmId>) -> (r: Result<(), RoutingError>)
        requires
            old(self).wf(),
        ensures
            final(self).wf(),
            activation(*old(self), *final(self), id, expected, r),
    {
        if id.id >= self.algorithms.len() as u64 {
            return Err(RoutingError::NotFound);
        }
        let i = id.id as usize;
        let kind = self.algorithms[i].algorithm.kind();
        let ghost profile = self.algorithms@[i as int].profile_id@;
        let current = self.find_active(&self.algorithms[i].profile_id, kind);
        let matches_expected = match (current, expected) {
            (None, None) => true,
            (Some(c), Some(e)) => c as u64 == e.id,
            _ => false,
        };
        if !matches_expected {
            proof {
                match expected {
                    Some(e) => {
                        if self.is_active_for(e.id as int, profile, kind) {
                            assert(current is Some);
                        }
                    },
                    None => {},
                }
            }
            return Err(RoutingError::Conflict);
        }
        match current {
            Some(c) => {
                self.statuses.set(c, AlgorithmStatus::Inactive);
            },
            None => {},
        }
        self.statuses.set(i, AlgorithmStatus::Active);
        proof {
            let o = old(self);
            assert forall|k: int|
                0 <= k < o.statuses@.len() implies #[trigger] self.statuses@[k] == if k == i {
                    AlgorithmStatus::Active
                } else if o.is_active_for(k, profile, kind) {
                    AlgorithmStatus::Inactive
                } else {
                    o.statuses@[k]
                } by {
                if o.is_active_for(k, profile, kind) {
                    assert(current == Some(k as usize));
                }
            }
            assert forall|a: int, b: int, p: Seq<char>, k: RoutingKind|
                #[trigger] self.is_active_for(a, p, k) && #[trigger] self.is_active_for(b, p, k) implies a == b by {
                if a != i && b != i {
                    assert(o.is_active_for(a, p, k) && o.is_active_for(b, p, k));
                } else if a == i && b != i {
                    assert(o.is_active_for(b, p, k));
                } else if b == i && a != i {
                    assert(o.is_active_for(a, p, k));
                }
            }
            assert forall|a: int, b: int, q: Seq<char>|
                #[trigger] self.switched_off_for(a, q) && #[trigger] self.switched_off_for(b, q) implies a == b by {
                assert(o.switched_off_for(a, q) && o.switched_off_for(b, q));
            }
        }
        Ok(())
    }

    /// Listing entries of every algorithm of a profile, newest first.
    pub fn list(&self, profile_id: &String) -> (r: Vec<RoutingDictionaryRecord>)
        requires
            self.wf(),
        ensures
            r@ == listing_from(*self, profile_id@, 0),
            forall|a: int, b: int| 0 <= a < b < r@.len() ==> (#[trigger] r@[a]).created_at >= (#[trigger] r@[b]).created_at,
    {
        let mut r: Vec<RoutingDictionaryRecord> = Vec::new();
        let mut i: usize = self.algorithms.len();
        while i > 0
            invariant
                self.wf(),
                i <= self.algorithms@.len(),
                r@ == listing_from(*self, profile_id@, i as int),
                forall|a: int, b: int| 0 <= a < b < r@.len() ==> (#[trigger] r@[a]).created_at >= (#[trigger] r@[b]).created_at,
                r@.len() > 0 ==> forall|k: int| 0 <= k < i ==> r@.last().created_at >= (#[trigger] self.algorithms@[k]).created_at,
            decreases i,
        {
            let a = &self.algorithms[i - 1];
            if id_equal(&a.profile_id, profile_id) {
                r.push(RoutingDictionaryRecord {
                    id: a.id,
                    name: a.name.clone(),
                    kind: a.algorithm.kind(),
                    status: self.statuses[i - 1],
                    created_at: a.created_at,
                });
            }
            i = i - 1;
        }
        r
    }

    /// The stored algorithm with the queried id, or `NotFound`.
    pub fn retrieve(&self, query: &RoutingRetrieveQuery) -> (r: Result<&MerchantRoutingAlgorithm, RoutingError>)
        requires
            self.wf(),
        ensures
            r is Ok <==> query.algorithm_id.id < self.algorithms@.len(),
            r matches Ok(a) ==> *a == self.algorithms@[query.algorithm_id.id as int],
            r matches Err(e) ==> e == RoutingError::NotFound,
    {
        if query.algorithm_id.id >= self.algorithms.len() as u64 {
            return Err(RoutingError::NotFound);
        }
        Ok(&self.algorithms[query.algorithm_id.id as usize])
    }

    /// Stores, as a new draft version, a success-based algorithm with the
    /// payload's tunables, for the profile and under the name of the queried
    /// one. Ids name immutable versions, so the queried one is left as it is.
    /// A query that names no success-based algorithm of the payload's profile
    /// is `NotFound`; unusable tunables are `InvalidConfig`.
    pub fn update_success_config(&mut self, payload: &SuccessBasedRoutingPayloadWrapper, now: u64) -> (r: Result<
        RoutingAlgorithmId,
        RoutingError,
    >)
        requires
            old(self).wf(),
            old(self).algorithms@.len() < u64::MAX,
        ensures
            final(self).wf(),
            ({
                let i = payload.query.algorithm_id.id as int;
                let found = i < old(self).algorithms@.len() && kind_of(old(self).algorithms@[i].algorithm)
                    == RoutingKind::SuccessBased && old(self).algorithms@[i].profile_id@ == payload.profile_id@;
                &&& !found ==> r == Err::<RoutingAlgorithmId, RoutingError>(RoutingError::NotFound)
                &&& found && !payload.updated_config.wf() ==> r == Err::<RoutingAlgorithmId, RoutingError>(
                    RoutingError::InvalidConfig,
                )
                &&& r is Ok <==> found && payload.updated_config.wf()
            }),
            r is Err ==> final(self).algorithms@ == old(self).algorithms@ && final(self).statuses@ == old(self).statuses@,
            r matches Ok(id) ==> {
                let q = old(self).algorithms@[payload.query.algorithm_id.id as int];
                &&& id.id == old(self).algorithms@.len()
                &&& final(self).statuses@ == old(self).statuses@.push(AlgorithmStatus::Draft)
                &&& final(self).algorithms@.len() == old(self).algorithms@.len() + 1
                &&& forall|i: int| 0 <= i < old(self).algorithms@.len() ==> final(self).algorithms@[i] == old(self).algorithms@[i]
                &&& final(self).algorithms@.last().profile_id@ == q.profile_id@
                &&& final(self).algorithms@.last().name@ == q.name@
                &&& final(self).algorithms@.last().algorithm == RoutingAlgorithm::SuccessBased(payload.updated_config)
            },
    {
        if payload.query.algorithm_id.id >= self.algorithms.len() as u64 {
            return Err(RoutingError::NotFound);
        }
        let i = payload.query.algorithm_id.id as usize;
        if self.algorithms[i].algorithm.kind() != RoutingKind::SuccessBased || !id_equal(
            &self.algorithms[i].profile_id,
            &payload.profile_id,
        ) {
            return Err(RoutingError::NotFound);
        }
        if !payload.updated_config.is_valid() {
            return Err(RoutingError::InvalidConfig);
        }
        let profile_id = self.algorithms[i].profile_id.clone();
        let name = self.algorithms[i].name.clone();
        let id = self.upsert(profile_id, name, RoutingAlgorithm::SuccessBased(payload.updated_config), now);
        Ok(id)
    }

    /// Whether algorithm `k` belongs to `profile` and is of `kind`,
    /// whatever its status.
    pub open spec fn holds_kind(&self, k: int, profile: Seq<char>, kind: RoutingKind) -> bool {
        &&& 0 <= k < self.algorithms@.len()
        &&& self.algorithms@[k].profile_id@ == profile
        &&& kind_of(self.algorithms@[k].algorithm) == kind
    }

    /// Stores the algorithm of a configuration request as a new draft.
    pub fn create(&mut self, request: RoutingConfigRequest, now: u64) -> (r: RoutingAlgorithmId)
        requires
            old(self).wf(),
            old(self).algorithms@.len() < u64::MAX,
        ensures
            final(self).wf(),
            r.id == old(self).algorithms@.len(),
            final(self).statuses@ == old(self).statuses@.push(AlgorithmStatus::Draft),
            final(self).algorithms@.len() == old(self).algorithms@.len() + 1,
            forall|i: int| 0 <= i < old(self).algorithms@.len() ==> final(self).algorithms@[i] == old(self).algorithms@[i],
            final(self).algorithms@.last().profile_id == request.profile_id,
            final(self).algorithms@.last().name == request.name,
            final(self).algorithms@.last().algorithm == request.algorithm,
    {
        self.upsert(request.profile_id, request.name, request.algorithm, now)
    }

    /// Activates the linked algorithm as `activate` does, provided it
    /// belongs to the command's profile; otherwise `NotFound` and nothing
    /// changes.
    pub fn link(&mut self, command: &RoutingLinkWrapper, expected: Option<RoutingAlgorithmId>) -> (r: Result<(), RoutingError>)
        requires
            old(self).wf(),
        ensures
            final(self).wf(),
            ({
                let i = command.algorithm_id.id as int;
                if i < old(self).algorithms@.len() && old(self).algorithms@[i].profile_id@ == command.profile_id@ {
                    activation(*old(self), *final(self), command.algorithm_id, expected, r)
                } else {
                    &&& r == Err::<(), RoutingError>(RoutingError::NotFound)
                    &&& final(self).algorithms@ == old(self).algorithms@
                    &&& final(self).statuses@ == old(self).statuses@
                }
            }),
    {
        let id = command.algorithm_id;
        if id.id >= self.algorithms.len() as u64 || !id_equal(&self.algorithms[id.id as usize].profile_id, &command.profile_id) {
            return Err(RoutingError::NotFound);
        }
        self.activate(id, expected)
    }

    /// The active algorithms of a profile, of the queried kind or of every
    /// kind, newest first.
    pub fn linked(&self, request: &RoutingRetrieveLinkQueryWrapper) -> (r: LinkedRoutingConfigRetrieveResponse)
        requires
            self.wf(),
        ensures
            r.records@ == linked_from(*self, request.profile_id@, request.query.kind, 0),
    {
        let mut records: Vec<RoutingDictionaryRecord> = Vec::new();
        let mut i: usize = self.algorithms.len();
        while i > 0
            invariant
                self.wf(),
                i <= self.algorithms@.len(),
                records@ == linked_from(*self, request.profile_id@, request.query.kind, i as int),
            decreases i,
        {
            let a = &self.algorithms[i - 1];
            let kind = a.algorithm.kind();
            let kind_matches = match request.query.kind {
                Some(k) => k == kind,
                None => true,
            };
            if self.statuses[i - 1] == AlgorithmStatus::Active && kind_matches && id_equal(&a.profile_id, &request.profile_id) {
                records.push(RoutingDictionaryRecord {
                    id: a.id,
                    name: a.name.clone(),
                    kind,
                    status: self.statuses[i - 1],
                    created_at: a.created_at,
                });
            }
            i = i - 1;
        }
        LinkedRoutingConfigRetrieveResponse { records }
    }

    /// Switches success-based routing of a profile, moving its
    /// success-based algorithm between active and inactive. Switching off
    /// retires the active one, if any, and remembers it. Switching on keeps
    /// an active one, or else reactivates the one remembered, provided it is
    /// still inactive; with none, the result is `NotFound`. Drafts never
    /// change, and nothing changes on an error.
    pub fn toggle_dynamic_routing(&mut self, toggle: &ToggleDynamicRoutingWrapper) -> (r: Result<(), RoutingError>)
        requires
            old(self).wf(),
        ensures
            final(self).wf(),
            toggled(*old(self), *final(self), *toggle, r),
    {
        let ghost p = toggle.profile_id@;
        let kind = RoutingKind::SuccessBased;
        let current = self.find_active(&toggle.profile_id, kind);
        if !toggle.query.enable {
            match current {
                Some(c) => {
                    self.statuses.set(c, AlgorithmStatus::Inactive);
                    let mut k: usize = 0;
                    while k < self.algorithms.len()
                        invariant
                            self.algorithms@ == old(self).algorithms@,
                            self.statuses@ == old(self).statuses@.update(c as int, AlgorithmStatus::Inactive),
                            self.switched_off@.len() == old(self).switched_off@.len(),
                            old(self).wf(),
                            p == toggle.profile_id@,
                            kind == RoutingKind::SuccessBased,
                            c < self.algorithms@.len(),
                            k <= self.algorithms@.len(),
                            forall|m: int| 0 <= m < k ==> #[trigger] self.switched_off@[m] == if old(self).holds_kind(m, p, kind) {
                                m == c
                            } else {
                                old(self).switched_off@[m]
                            },
                            forall|m: int| k <= m < self.switched_off@.len() ==> #[trigger] self.switched_off@[m] == old(self).switched_off@[m],
                        decreases self.algorithms@.len() - k,
                    {
                        let a = &self.algorithms[k];
                        if a.algorithm.kind() == kind && id_equal(&a.profile_id, &toggle.profile_id) {
                            assert(old(self).holds_kind(k as int, p, kind));
                            self.switched_off.set(k, k == c);
                        } else {
                            assert(!old(self).holds_kind(k as int, p, kind));
                        }
                        k = k + 1;
                    }
                    proof {
                        let o = old(self);
                        assert(o.is_active_for(c as int, p, kind));
                        assert forall|a: int, b: int, q: Seq<char>, kd: RoutingKind|
                            #[trigger] self.is_active_for(a, q, kd) && #[trigger] self.is_active_for(b, q, kd) implies a == b by {
                            assert(o.is_active_for(a, q, kd) && o.is_active_for(b, q, kd));
                        }
                        assert forall|a: int, b: int, q: Seq<char>|
                            #[trigger] self.switched_off_for(a, q) && #[trigger] self.switched_off_for(b, q) implies a == b by {
                            if q != p {
                                assert(!o.holds_kind(a, p, kind) && !o.holds_kind(b, p, kind));
                                assert(o.switched_off_for(a, q) && o.switched_off_for(b, q));
                            } else {
                                assert(a == c && b == c);
                            }
                        }
                    }
                },
                None => {},
            }
            return Ok(());
        }
        match current {
            Some(c) => {
                assert(self.is_active_for(c as int, p, kind));
                return Ok(());
            },
            None => {},
        }
        let mut i: usize = 0;
        while i < self.algorithms.len()
            invariant
                self.wf(),
                self.algorithms@ == old(self).algorithms@,
                self.statuses@ == old(self).statuses@,
                self.switched_off@ == old(self).switched_off@,
                p == toggle.profile_id@,
                kind == RoutingKind::SuccessBased,
                toggle.query.enable,
                old(self).wf(),
                forall|k: int| !#[trigger] old(self).is_active_for(k, p, kind),
                i <= self.algorithms@.len(),
                forall|j: int|
                    0 <= j < i ==> !(#[trigger] self.switched_off_for(j, p) && self.statuses@[j] == AlgorithmStatus::Inactive),
            decreases self.algorithms@.len() - i,
        {
            let a = &self.algorithms[i];
            if self.switched_off[i] && self.statuses[i] == AlgorithmStatus::Inactive && a.algorithm.kind() == kind
                && id_equal(&a.profile_id, &toggle.profile_id) {
                let ghost k: int = i as int;
                assert(self.switched_off_for(k, p));
                self.statuses.set(i, AlgorithmStatus::Active);
                self.switched_off.set(i, false);
                proof {
                    let o = old(self);
                    assert(o.switched_off_for(k, p));
                    assert forall|a: int, b: int, q: Seq<char>, kd: RoutingKind|
                        #[trigger] self.is_active_for(a, q, kd) && #[trigger] self.is_active_for(b, q, kd) implies a == b by {
                        if a != k && b != k {
                            assert(o.is_active_for(a, q, kd) && o.is_active_for(b, q, kd));
                        } else if a == k && b != k {
                            assert(q == p && kd == kind);
                            assert(o.is_active_for(b, p, kind));
                        } else if b == k && a != k {
                            assert(q == p && kd == kind);
                            assert(o.is_active_for(a, p, kind));
                        }
                    }
                    assert forall|a: int, b: int, q: Seq<char>|
                        #[trigger] self.switched_off_for(a, q) && #[trigger] self.switched_off_for(b, q) implies a == b by {
                        assert(o.switched_off_for(a, q) && o.switched_off_for(b, q));
                    }
                }
                return Ok(());
            }
            i = i + 1;
        }
        proof {
            assert forall|k: int|
                !(#[trigger] old(self).switched_off_for(k, p) && old(self).statuses@[k] == AlgorithmStatus::Inactive) by {
                if 0 <= k < self.algorithms@.len() {
                    assert(!(self.switched_off_for(k, p) && self.statuses@[k] == AlgorithmStatus::Inactive));
                }
            }
        }
        Err(RoutingError::NotFound)
    }

    /// Retires an algorithm; no other status changes.
    pub fn deactivate(&mut self, id: RoutingAlgorithmId) -> (r: Result<(), RoutingError>)
        requires
            old(self).wf(),
        ensures
            final(self).wf(),
            final(self).algorithms@ == old(self).algorithms@,
            r is Ok <==> id.id < old(self).algorithms@.len(),
            r matches Err(e) ==> e == RoutingError::NotFound && final(self).statuses@ == old(self).statuses@,
            r is Ok ==> final(self).statuses@ == old(self).statuses@.update(id.id as int, AlgorithmStatus::Inactive),
    {
        if id.id >= self.algorithms.len() as u64 {
            return Err(RoutingError::NotFound);
        }
        self.statuses.set(id.id as usize, AlgorithmStatus::Inactive);
        proof {
            let o = old(self);
            assert forall|a: int, b: int, q: Seq<char>|
                #[trigger] self.switched_off_for(a, q) && #[trigger] self.switched_off_for(b, q) implies a == b by {
                assert(o.switched_off_for(a, q) && o.switched_off_for(b, q));
            }
            assert forall|a: int, b: int, p: Seq<char>, k: RoutingKind|
                #[trigger] self.is_active_for(a, p, k) && #[trigger] self.is_active_for(b, p, k) implies a == b by {
                assert(o.is_active_for(a, p, k) && o.is_active_for(b, p, k));
            }
        }
        Ok(())
    }
}

/// The listing entry of algorithm `i`.
pub open spec fn record_of(store: ConfigStore, i: int) -> RoutingDictionaryRecord {
    RoutingDictionaryRecord {
        id: store.algorithms@[i].id,
        name: store.algorithms@[i].name,
        kind: kind_of(store.algorithms@[i].algorithm),
        status: store.statuses@[i],
        created_at: store.algorithms@[i].created_at,
    }
}

/// Listing entries of a profile's algorithms at positions `i` and above,
/// newest first.
pub open spec fn listing_from(store: ConfigStore, profile: Seq<char>, i: int) -> Seq<RoutingDictionaryRecord>
    decreases store.algorithms@.len() - i,
{
    if i < 0 || i >= store.algorithms@.len() {
        Seq::empty()
    } else {
        let rest = listing_from(store, profile, i + 1);
        if store.algorithms@[i].profile_id@ == profile {
            rest.push(record_of(store, i))
        } else {
            rest
        }
    }
}

/// Listing entries of a profile's active algorithms at positions `i` and
/// above, of the given kind (`None`: of every kind), newest first.
pub open spec fn linked_from(store: ConfigStore, profile: Seq<char>, kind: Option<RoutingKind>, i: int) -> Seq<
    RoutingDictionaryRecord,
>
    decreases store.algorithms@.len() - i,
{
    if i < 0 || i >= store.algorithms@.len() {
        Seq::empty()
    } else {
        let rest = linked_from(store, profile, kind, i + 1);
        if store.algorithms@[i].profile_id@ == profile && store.statuses@[i] == AlgorithmStatus::Active && (
        kind is None || kind == Some(kind_of(store.algorithms@[i].algorithm))) {
            rest.push(record_of(store, i))
        } else {
            rest
        }
    }
}

/// What a dynamic-routing toggle did to the store (see
/// `ConfigStore::toggle_dynamic_routing`).
pub open spec fn toggled(
    before: ConfigStore,
    after: ConfigStore,
    toggle: ToggleDynamicRoutingWrapper,
    r: Result<(), RoutingError>,
) -> bool {
    &&& after.algorithms@ == before.algorithms@
    &&& after.statuses@.len() == before.statuses@.len()
    &&& forall|k: int|
        0 <= k < before.statuses@.len() && before.statuses@[k] == AlgorithmStatus::Draft
            ==> #[trigger] after.statuses@[k] == AlgorithmStatus::Draft
    &&& ({
        let p = toggle.profile_id@;
        let kind = RoutingKind::SuccessBased;
        let any_active = exists|k: int| #[trigger] before.is_active_for(k, p, kind);
        let restorable = exists|k: int|
            #[trigger] before.switched_off_for(k, p) && before.statuses@[k] == AlgorithmStatus::Inactive;
        &&& !toggle.query.enable && any_active ==> r is Ok && exists|c: int|
            #[trigger] before.is_active_for(c, p, kind) && after.statuses@ == before.statuses@.update(
                c,
                AlgorithmStatus::Inactive,
            ) && after.switched_off@.len() == before.switched_off@.len() && forall|k: int|
                0 <= k < before.switched_off@.len() ==> #[trigger] after.switched_off@[k] == if before.holds_kind(k, p, kind) {
                    k == c
                } else {
                    before.switched_off@[k]
                }
        &&& (toggle.query.enable && any_active) || (!toggle.query.enable && !any_active) ==> r is Ok
            && after.statuses@ == before.statuses@ && after.switched_off@ == before.switched_off@
        &&& toggle.query.enable && !any_active && restorable ==> r is Ok && exists|k: int|
            #[trigger] before.switched_off_for(k, p) && before.statuses@[k] == AlgorithmStatus::Inactive
                && after.statuses@ == before.statuses@.update(k, AlgorithmStatus::Active)
                && after.switched_off@ == before.switched_off@.update(k, false)
        &&& toggle.query.enable && !any_active && !restorable ==> r == Err::<(), RoutingError>(RoutingError::NotFound)
            && after.statuses@ == before.statuses@ && after.switched_off@ == before.switched_off@
    })
}

/// Switching success-based routing off and then on again restores the
/// algorithm that was active: every status is back as it was.
pub proof fn lemma_toggle_round_trip(
    s0: ConfigStore,
    s1: ConfigStore,
    s2: ConfigStore,
    off: ToggleDynamicRoutingWrapper,
    on: ToggleDynamicRoutingWrapper,
    r1: Result<(), RoutingError>,
    r2: Result<(), RoutingError>,
    c: int,
)
    requires
        s0.wf(),
        s1.wf(),
        !off.query.enable,
        on.query.enable,
        on.profile_id@ == off.profile_id@,
        s0.is_active_for(c, off.profile_id@, RoutingKind::SuccessBased),
        toggled(s0, s1, off, r1),
        toggled(s1, s2, on, r2),
    ensures
        r2 is Ok,
        s2.statuses@ == s0.statuses@,
        s2.algorithms@ == s0.algorithms@,
{
    let p = off.profile_id@;
    let kind = RoutingKind::SuccessBased;
    let c1 = choose|c1: int| #[trigger] s0.is_active_for(c1, p, kind) && s1.statuses@ == s0.statuses@.update(
        c1,
        AlgorithmStatus::Inactive,
    ) && s1.switched_off@.len() == s0.switched_off@.len() && forall|k: int|
        0 <= k < s0.switched_off@.len() ==> #[trigger] s1.switched_off@[k] == if s0.holds_kind(k, p, kind) {
            k == c1
        } else {
            s0.switched_off@[k]
        };
    assert(c1 == c);
    assert(s1.switched_off@[c] == true);
    assert(s1.switched_off_for(c, p));
    assert forall|k: int| !#[trigger] s1.is_active_for(k, p, kind) by {
        if s1.is_active_for(k, p, kind) {
            assert(k != c);
            assert(s0.is_active_for(k, p, kind));
        }
    }
    assert(s1.statuses@[c] == AlgorithmStatus::Inactive);
    let k = choose|k: int|
        #[trigger] s1.switched_off_for(k, p) && s1.statuses@[k] == AlgorithmStatus::Inactive
            && s2.statuses@ == s1.statuses@.update(k, AlgorithmStatus::Active)
            && s2.switched_off@ == s1.switched_off@.update(k, false);
    assert(k == c);
    assert(s2.statuses@ =~= s0.statuses@);
}

/// No two algorithms of one kind are ever active at once for one profile:
/// every operation of the store keeps the store well formed, and a well
/// formed store names at most one active algorithm per profile and kind.
pub proof fn lemma_single_active(store: ConfigStore, profile: Seq<char>, kind: RoutingKind, i: int, j: int)
    requires
        store.wf(),
        store.is_active_for(i, profile, kind),
        store.is_active_for(j, profile, kind),
    ensures
        i == j,
{
}

} // verus!
