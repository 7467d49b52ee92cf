//! Success-rate tracker: rolling success statistics per profile and
//! connector, fed by payment outcomes.
use vstd::prelude::*;
use crate::ids::id_equal;
use crate::types::{Outcome, SuccessBasedRoutingConfig, PROBABILITY_SCALE};

verus! {

/// Statistics of one connector within one profile.
#[derive(Debug)]
pub struct ConnectorStats {
    pub profile_id: String,
    pub connector: String,
    pub successes: u64,
    pub failures: u64,
    /// Smoothed success probability, in parts per million.
    pub probability: u64,
    pub last_updated: u64,
}

impl ConnectorStats {
    pub open spec fn samples(&self) -> int {
        self.successes + self.failures
    }

    /// The probability is a fraction of the scale, and a connector that has
    /// only ever succeeded (failed) stands at the top (bottom) of it.
    pub open spec fn wf(&self) -> bool {
        &&& self.probability <= PROBABILITY_SCALE
        &&& 1 <= self.samples() <= u64::MAX
        &&& (self.failures == 0 && self.successes > 0 ==> self.probability
            == PROBABILITY_SCALE)
        &&& (self.successes == 0 && self.failures > 0 ==> self.probability == 0)
    }

    pub open spec fn is_for(&self, profile: Seq<char>, connector: Seq<char>) -> bool {
        self.profile_id@ == profile && self.connector@ == connector
    }
}

/// The smoothed probability after one more outcome.
pub open spec fn smoothed(p: u64, outcome: Outcome, window: u64) -> u64
    recommends
        window >= 1,
        p <= PROBABILITY_SCALE,
{
    match outcome {
        Outcome::Success => (p + (PROBABILITY_SCALE - p) as int / window as int) as u64,
        Outcome::Failure => (p - p / window) as u64,
    }
}

/// The record kept after one more outcome for an existing entry.
pub open spec fn after_outcome(e: ConnectorStats, outcome: Outcome, window: u64, at: u64) -> ConnectorStats {
    ConnectorStats {
        successes: if outcome == Outcome::Success { (e.successes + 1) as u64 } else { e.successes },
        failures: if outcome == Outcome::Failure { (e.failures + 1) as u64 } else { e.failures },
        probability: smoothed(e.probability, outcome, window),
        last_updated: at,
        ..e
    }
}

/// The record created by the first outcome seen for a connector: its rate is
/// that outcome.
pub open spec fn first_outcome(profile: String, connector: String, outcome: Outcome, at: u64) -> ConnectorStats {
    ConnectorStats {
        profile_id: profile,
        connector,
        successes: if outcome == Outcome::Success { 1 } else { 0 },
        failures: if outcome == Outcome::Failure { 1 } else { 0 },
        probability: if outcome == Outcome::Success { PROBABILITY_SCALE } else { 0 },
        last_updated: at,
    }
}

/// Read-only view of one connector's statistics, as the ranking sees it.
/// `probability` is `None` when the connector has fewer samples than the
/// configured minimum (insufficient data).
#[derive(Debug)]
pub struct StatsSnapshot {
    pub connector: String,
    pub probability: Option<u64>,
    pub sample_count: u64,
    pub failure_count: u64,
}

/// The snapshot entry of one record.
pub open spec fn snapshot_of(e: ConnectorStats, min_samples: u64) -> StatsSnapshot {
    StatsSnapshot {
        connector: e.connector,
        probability: if e.samples() >= min_samples { Some(e.probability) } else { None },
        sample_count: e.samples() as u64,
        failure_count: e.failures,
    }
}

/// The snapshot of a profile: one entry per record of that profile, in the
/// order of the records.
pub open spec fn profile_snapshot(entries: Seq<ConnectorStats>, profile: Seq<char>, min_samples: u64) -> Seq<StatsSnapshot>
    decreases entries.len(),
{
    if entries.len() == 0 {
        Seq::empty()
    } else {
        let rest = profile_snapshot(entries.drop_last(), profile, min_samples);
        if entries.last().profile_id@ == profile {
            rest.push(snapshot_of(entries.last(), min_samples))
        } else {
            rest
        }
    }
}

/// All statistics of the engine, keyed by profile and connector.
#[derive(Debug)]
pub struct SuccessRateTracker {
    pub entries: Vec<ConnectorStats>,
}

impl SuccessRateTracker {
    /// Every record is well formed and no two records share a key.
    pub open spec fn wf(&self) -> bool {
        &&& forall|i: int| 0 <= i < self.entries@.len() ==> (#[trigger] self.entries@[i]).wf()
        &&& forall|i: int, j: int|
            0 <= i < j < self.entries@.len() ==> !(#[trigger] self.entries@[i]).is_for(
                (#[trigger] self.entries@[j]).profile_id@,
                self.entries@[j].connector@,
            )
    }

    /// Whether a record exists for the key.
    pub open spec fn tracks(&self, profile: Seq<char>, connector: Seq<char>) -> bool {
        exists|i: int| 0 <= i < self.entries@.len() && (#[trigger] self.entries@[i]).is_for(profile, connector)
    }

    /// A tracker with no statistics.
    pub fn new() -> (r: Self)
        ensures
            r.wf(),
            r.entries@.len() == 0,
    {
        SuccessRateTracker { entries: Vec::new() }
    }

    fn find(&self, profile: &String, connector: &String) -> (r: Option<usize>)
        ensures
            match r {
                Some(i) => i < self.entries@.len() && self.entries@[i as int].is_for(profile@, connector@),
                None => !self.tracks(profile@, connector@),
            },
    {
        let mut i: usize = 0;
        while i < self.entries.len()
            invariant
                i <= self.entries@.len(),
                forall|k: int| 0 <= k < i ==> !(#[trigger] self.entries@[k]).is_for(profile@, connector@),
            decreases self.entries@.len() - i,
        {
            let e = &self.entries[i];
            if id_equal(&e.profile_id, profile) && id_equal(&e.connector, connector) {
                return Some(i);
            }
            i = i + 1;
        }
        None
    }

    /// Feeds one payment outcome back into the statistics of a connector.
    ///
    /// The first outcome of a connector creates its record with that outcome
    /// as its rate; later ones smooth the rate towards the outcome. The
    /// counters stop at `u64::MAX` outcomes, after which the record is kept
    /// as it is.
    pub fn record_outcome(
        &mut self,
        profile_id: &String,
        connector: &String,
        outcome: Outcome,
        timestamp: u64,
        config: &SuccessBasedRoutingConfig,
    )
        requires
            old(self).wf(),
            config.wf(),
        ensures
            final(self).wf(),
            old(self).tracks(profile_id@, connector@) ==> exists|i: int|
                0 <= i < old(self).entries@.len() && (#[trigger] old(self).entries@[i]).is_for(
                    profile_id@,
                    connector@,
                ) && final(self).entries@ == old(self).entries@.update(
                    i,
                    if old(self).entries@[i].samples() < u64::MAX {
                        after_outcome(old(self).entries@[i], outcome, config.smoothing_window, timestamp)
                    } else {
                        old(self).entries@[i]
                    },
                ),
            !old(self).tracks(profile_id@, connector@) ==> final(self).entries@ == old(self).entries@.push(
                first_outcome(*profile_id, *connector, outcome, timestamp),
            ),
    {
        match self.find(profile_id, connector) {
            Some(i) => {
                let e = &self.entries[i];
                if e.successes < u64::MAX - e.failures {
                    let p = e.probability;
                    let w = config.smoothing_window;
                    let probability = match outcome {
                        Outcome::Success => p + (PROBABILITY_SCALE - p) / w,
                        Outcome::Failure => p - p / w,
                    };
                    let updated = ConnectorStats {
                        profile_id: e.profile_id.clone(),
                        connector: e.connector.clone(),
                        successes: if outcome == Outcome::Success { e.successes + 1 } else { e.successes },
                        failures: if outcome == Outcome::Failure { e.failures + 1 } else { e.failures },
                        probability,
                        last_updated: timestamp,
                    };
                    proof {
                        assert(p + (PROBABILITY_SCALE - p) as int / w as int <= PROBABILITY_SCALE) by (nonlinear_arith)
                            requires p <= PROBABILITY_SCALE, w >= 1;
                        assert(p - p / w >= 0) by (nonlinear_arith)
                            requires w >= 1;
                        assert(p / w <= p) by (nonlinear_arith)
                            requires w >= 1;
                    }
                    self.entries.set(i, updated);
                    assert(self.entries@[i as int].is_for(profile_id@, connector@));
                    assert forall|k: int| 0 <= k < self.entries@.len() implies (#[trigger] self.entries@[k]).wf() by {
                        if k != i {
                            assert(old(self).entries@[k].wf());
                        }
                    }
                    assert forall|a: int, b: int|
                        0 <= a < b < self.entries@.len() implies !(#[trigger] self.entries@[a]).is_for(
                            (#[trigger] self.entries@[b]).profile_id@,
                            self.entries@[b].connector@,
                        ) by {
                        assert(old(self).entries@[a].is_for(
                            old(self).entries@[b].profile_id@, old(self).entries@[b].connector@) == self.entries@[a].is_for(
                            self.entries@[b].profile_id@, self.entries@[b].connector@));
                    }
                }
            },
            None => {
                let fresh = ConnectorStats {
                    profile_id: profile_id.clone(),
                    connector: connector.clone(),
                    successes: if outcome == Outcome::Success { 1 } else { 0 },
                    failures: if outcome == Outcome::Failure { 1 } else { 0 },
                    probability: if outcome == Outcome::Success { PROBABILITY_SCALE } else { 0 },
                    last_updated: timestamp,
                };
                self.entries.push(fresh);
                assert forall|a: int, b: int|
                    0 <= a < b < self.entries@.len() implies !(#[trigger] self.entries@[a]).is_for(
                        (#[trigger] self.entries@[b]).profile_id@,
                        self.entries@[b].connector@,
                    ) by {
                    if b == self.entries@.len() - 1 {
                        assert(!old(self).entries@[a].is_for(profile_id@, connector@));
                    }
                }
            },
        }
    }

    /// Read-only snapshot of the statistics of one profile.
    pub fn get_stats(&self, profile_id: &String, config: &SuccessBasedRoutingConfig) -> (r: Vec<StatsSnapshot>)
        requires
            self.wf(),
        ensures
            r@ == profile_snapshot(self.entries@, profile_id@, config.min_samples),
    {
        let mut r: Vec<StatsSnapshot> = Vec::new();
        let mut i: usize = 0;
        while i < self.entries.len()
            invariant
                self.wf(),
                i <= self.entries@.len(),
                r@ == profile_snapshot(self.entries@.subrange(0, i as int), profile_id@, config.min_samples),
            decreases self.entries@.len() - i,
        {
            let e = &self.entries[i];
            assert(self.entries@.subrange(0, i + 1).drop_last() =~= self.entries@.subrange(0, i as int));
            assert(e.wf());
            if id_equal(&e.profile_id, profile_id) {
                let samples = e.successes + e.failures;
                let snap = StatsSnapshot {
                    connector: e.connector.clone(),
                    probability: if samples >= config.min_samples { Some(e.probability) } else { None },
                    sample_count: samples,
                    failure_count: e.failures,
                };
                r.push(snap);
            }
            i = i + 1;
        }
        assert(self.entries@.subrange(0, self.entries@.len() as int) =~= self.entries@);
        r
    }
}

/// A success never lowers a connector's smoothed probability and a failure
/// never raises it.
pub proof fn lemma_smoothing_monotone(p: u64, window: u64)
    requires
        window >= 1,
        p <= PROBABILITY_SCALE,
    ensures
        p <= smoothed(p, Outcome::Success, window) <= PROBABILITY_SCALE,
        smoothed(p, Outcome::Failure, window) <= p,
{
    assert((PROBABILITY_SCALE - p) as int / window as int <= (PROBABILITY_SCALE - p) as int) by (nonlinear_arith)
        requires window >= 1, p <= PROBABILITY_SCALE;
    assert(0 <= (PROBABILITY_SCALE - p) as int / window as int) by (nonlinear_arith)
        requires window >= 1, p <= PROBABILITY_SCALE;
    assert(0 <= p / window <= p) by (nonlinear_arith)
        requires window >= 1;
}

} // verus!
