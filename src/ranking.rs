//! Dynamic router: orders candidate connectors by their tracked success
//! rates, with an explicit exploration policy for connectors that lack data.
use vstd::prelude::*;
use crate::ids::{id_equal, id_precedes, ids_of, lex_lt, lemma_lex_asymmetric, lemma_lex_irreflexive, lemma_lex_total, lemma_lex_transitive};
use crate::stats::{after_outcome, lemma_smoothing_monotone, profile_snapshot, snapshot_of, ConnectorStats, StatsSnapshot, SuccessRateTracker};
use crate::types::{Outcome, SuccessBasedRoutingConfig, PROBABILITY_SCALE};

verus! {

/// Sort key of a candidate: tier (0 with enough samples, 1 without), score
/// (the probability; neutral 0 without enough samples), count (failures
/// with enough samples, samples without) and the connector id.
pub type RankKey = (int, int, int, Seq<char>);

/// The last snapshot entry for a connector, if any.
pub open spec fn find_stats(snap: Seq<StatsSnapshot>, c: Seq<char>) -> Option<StatsSnapshot>
    decreases snap.len(),
{
    if snap.len() == 0 {
        None
    } else if snap.last().connector@ == c {
        Some(snap.last())
    } else {
        find_stats(snap.drop_last(), c)
    }
}

/// The sort key of a connector under a snapshot. A connector missing from
/// the snapshot has no samples at all.
pub open spec fn key_of(snap: Seq<StatsSnapshot>, c: Seq<char>) -> RankKey {
    match find_stats(snap, c) {
        Some(s) => match s.probability {
            Some(p) => (0, p as int, s.failure_count as int, c),
            None => (1, 0, s.sample_count as int, c),
        },
        None => (1, 0, 0, c),
    }
}

/// Whether a connector lacks enough samples to be ranked by its rate.
pub open spec fn is_insufficient(snap: Seq<StatsSnapshot>, c: Seq<char>) -> bool {
    key_of(snap, c).0 == 1
}

/// Ranking order: connectors with enough data first, by descending
/// probability, then fewer failures; connectors without enough data after
/// them, least tried first; the connector id settles the rest.
pub open spec fn precedes(a: RankKey, b: RankKey) -> bool {
    a.0 < b.0 || (a.0 == b.0 && (a.1 > b.1 || (a.1 == b.1 && (a.2 < b.2 || (a.2 == b.2
        && lex_lt(a.3, b.3))))))
}

proof fn lemma_precedes_transitive(a: RankKey, b: RankKey, c: RankKey)
    requires
        precedes(a, b),
        precedes(b, c),
    ensures
        precedes(a, c),
{
    if a.0 == b.0 && b.0 == c.0 && a.1 == b.1 && b.1 == c.1 && a.2 == b.2 && b.2 == c.2 {
        lemma_lex_transitive(a.3, b.3, c.3);
    }
}

proof fn lemma_precedes_asymmetric(a: RankKey, b: RankKey)
    ensures
        !(precedes(a, b) && precedes(b, a)),
{
    lemma_lex_asymmetric(a.3, b.3);
}

proof fn lemma_precedes_total(a: RankKey, b: RankKey)
    requires
        a.3 != b.3,
    ensures
        precedes(a, b) || precedes(b, a),
{
    lemma_lex_total(a.3, b.3);
}

/// Every earlier connector precedes every later one.
pub open spec fn ranked_by_key(snap: Seq<StatsSnapshot>, r: Seq<Seq<char>>) -> bool {
    forall|i: int, j: int|
        0 <= i < j < r.len() ==> precedes(#[trigger] key_of(snap, r[i]), #[trigger] key_of(snap, r[j]))
}

/// `r` holds exactly the connectors of `c`, each once.
pub open spec fn same_connectors(r: Seq<Seq<char>>, c: Seq<Seq<char>>) -> bool {
    &&& r.len() == c.len()
    &&& r.no_duplicates()
    &&& forall|x: Seq<char>| c.contains(x) ==> r.contains(x)
    &&& forall|x: Seq<char>| r.contains(x) ==> c.contains(x)
}

/// The candidates without enough samples, in candidate order.
pub open spec fn insufficient_of(snap: Seq<StatsSnapshot>, c: Seq<Seq<char>>) -> Seq<Seq<char>>
    decreases c.len(),
{
    if c.len() == 0 {
        Seq::empty()
    } else {
        let rest = insufficient_of(snap, c.drop_last());
        if is_insufficient(snap, c.last()) {
            rest.push(c.last())
        } else {
            rest
        }
    }
}

/// Whether a decision explores: `draw % 100` falls under the exploration
/// percentage and some candidate lacks enough samples.
pub open spec fn explores(snap: Seq<StatsSnapshot>, config: SuccessBasedRoutingConfig, draw: u64, c: Seq<Seq<char>>) -> bool {
    draw % 100 < config.exploration_percent && insufficient_of(snap, c).len() > 0
}

/// The connector an exploring decision tries first: the one at position
/// `(draw / 100) % n` among the `n` candidates without enough samples.
pub open spec fn explored(snap: Seq<StatsSnapshot>, draw: u64, c: Seq<Seq<char>>) -> Seq<char> {
    let ins = insufficient_of(snap, c);
    ins[(draw as int / 100) % (ins.len() as int)]
}

/// The ranking owed for candidates `c`: a permutation of them, ordered by
/// `precedes`; when the decision explores, the explored connector leads and
/// the rest keep that order.
pub open spec fn is_ranking(
    snap: Seq<StatsSnapshot>,
    config: SuccessBasedRoutingConfig,
    draw: u64,
    c: Seq<Seq<char>>,
    r: Seq<Seq<char>>,
) -> bool {
    &&& same_connectors(r, c)
    &&& if explores(snap, config, draw, c) {
        &&& r.len() > 0
        &&& r[0] == explored(snap, draw, c)
        &&& ranked_by_key(snap, r.drop_first())
    } else {
        ranked_by_key(snap, r)
    }
}

/// A connector is among the insufficient ones exactly when it is a
/// candidate without enough samples.
pub proof fn lemma_insufficient_of_members(snap: Seq<StatsSnapshot>, c: Seq<Seq<char>>)
    ensures
        forall|x: Seq<char>| #[trigger] insufficient_of(snap, c).contains(x) <==> (c.contains(x) && is_insufficient(snap, x)),
    decreases c.len(),
{
    let ins = insufficient_of(snap, c);
    if c.len() == 0 {
        assert forall|x: Seq<char>| #[trigger] ins.contains(x) <==> (c.contains(x) && is_insufficient(snap, x)) by {}
    } else {
        let d = c.drop_last();
        let rest = insufficient_of(snap, d);
        lemma_insufficient_of_members(snap, d);
        assert forall|x: Seq<char>| #[trigger] ins.contains(x) <==> (c.contains(x) && is_insufficient(snap, x)) by {
            if ins.contains(x) {
                let k = choose|k: int| 0 <= k < ins.len() && ins[k] == x;
                if is_insufficient(snap, c.last()) && k == rest.len() {
                    assert(c[c.len() - 1] == x);
                } else {
                    assert(rest[k] == x);
                    assert(rest.contains(x));
                    let i = choose|i: int| 0 <= i < d.len() && d[i] == x;
                    assert(c[i] == x);
                }
            }
            if c.contains(x) && is_insufficient(snap, x) {
                let i = choose|i: int| 0 <= i < c.len() && c[i] == x;
                if i == c.len() - 1 {
                    assert(ins[rest.len() as int] == x);
                } else {
                    assert(d[i] == x);
                    assert(rest.contains(x));
                    let k = choose|k: int| 0 <= k < rest.len() && rest[k] == x;
                    assert(ins[k] == x);
                }
            }
        }
    }
}

/// One candidate with its sort key spelled out.
struct RankEntry {
    connector: String,
    tier: u64,
    score: u64,
    count: u64,
}

impl RankEntry {
    spec fn key(&self) -> RankKey {
        (self.tier as int, self.score as int, self.count as int, self.connector@)
    }
}

spec fn entry_ids(s: Seq<RankEntry>) -> Seq<Seq<char>> {
    s.map_values(|e: RankEntry| e.connector@)
}

fn entry_precedes(a: &RankEntry, b: &RankEntry) -> (r: bool)
    ensures
        r == precedes(a.key(), b.key()),
{
    if a.tier != b.tier {
        a.tier < b.tier
    } else if a.score != b.score {
        a.score > b.score
    } else if a.count != b.count {
        a.count < b.count
    } else {
        id_precedes(&a.connector, &b.connector)
    }
}

/// The key of one candidate, looked up in the snapshot from its end.
fn entry_for(snapshot: &Vec<StatsSnapshot>, connector: &String) -> (r: RankEntry)
    ensures
        r.key() == key_of(snapshot@, connector@),
{
    let mut i: usize = snapshot.len();
    assert(snapshot@.subrange(0, i as int) =~= snapshot@);
    while i > 0
        invariant
            i <= snapshot@.len(),
            find_stats(snapshot@, connector@) == find_stats(snapshot@.subrange(0, i as int), connector@),
        decreases i,
    {
        let s = &snapshot[i - 1];
        assert(snapshot@.subrange(0, i as int).drop_last() =~= snapshot@.subrange(0, i - 1));
        if id_equal(&s.connector, connector) {
            return match s.probability {
                Some(p) => RankEntry { connector: connector.clone(), tier: 0, score: p, count: s.failure_count },
                None => RankEntry { connector: connector.clone(), tier: 1, score: 0, count: s.sample_count },
            };
        }
        i = i - 1;
    }
    assert(snapshot@.subrange(0, 0) =~= Seq::<StatsSnapshot>::empty());
    RankEntry { connector: connector.clone(), tier: 1, score: 0, count: 0 }
}

spec fn entries_sorted(s: Seq<RankEntry>) -> bool {
    forall|i: int, j: int| 0 <= i < j < s.len() ==> precedes((#[trigger] s[i]).key(), (#[trigger] s[j]).key())
}

spec fn entries_keyed(snap: Seq<StatsSnapshot>, s: Seq<RankEntry>) -> bool {
    forall|k: int| 0 <= k < s.len() ==> (#[trigger] s[k]).key() == key_of(snap, s[k].connector@)
}

/// Inserts each candidate at its place among those already sorted.
fn sort_entries(candidates: &Vec<String>, snapshot: &Vec<StatsSnapshot>) -> (r: Vec<RankEntry>)
    requires
        ids_of(candidates@).no_duplicates(),
    ensures
        r@.len() == candidates@.len(),
        entries_keyed(snapshot@, r@),
        entries_sorted(r@),
        forall|x: Seq<char>| ids_of(candidates@).contains(x) ==> entry_ids(r@).contains(x),
        forall|x: Seq<char>| entry_ids(r@).contains(x) ==> ids_of(candidates@).contains(x),
{
    let ghost c = ids_of(candidates@);
    let mut sorted: Vec<RankEntry> = Vec::new();
    let mut i: usize = 0;
    while i < candidates.len()
        invariant
            c == ids_of(candidates@),
            c.no_duplicates(),
            i <= candidates@.len(),
            sorted@.len() == i,
            entries_keyed(snapshot@, sorted@),
            entries_sorted(sorted@),
            forall|k: int| 0 <= k < i ==> entry_ids(sorted@).contains(#[trigger] c[k]),
            forall|j: int| 0 <= j < sorted@.len() ==> c.subrange(0, i as int).contains(#[trigger] entry_ids(sorted@)[j]),
        decreases candidates@.len() - i,
    {
        let e = entry_for(snapshot, &candidates[i]);
        assert(e.connector@ == c[i as int]);
        let mut pos: usize = 0;
        while pos < sorted.len() && !entry_precedes(&e, &sorted[pos])
            invariant
                pos <= sorted@.len(),
                forall|k: int| 0 <= k < pos ==> !precedes(e.key(), (#[trigger] sorted@[k]).key()),
            decreases sorted@.len() - pos,
        {
            pos = pos + 1;
        }
        let ghost old_sorted = sorted@;
        proof {
            // the new candidate differs from every one already placed
            assert forall|j: int| 0 <= j < old_sorted.len() implies (#[trigger] old_sorted[j]).connector@ != e.connector@ by {
                assert(entry_ids(old_sorted)[j] == old_sorted[j].connector@);
                let k = choose|k: int| 0 <= k < i && c.subrange(0, i as int)[k] == entry_ids(old_sorted)[j];
                assert(c[k] == c.subrange(0, i as int)[k]);
            }
        }
        sorted.insert(pos, e);
        proof {
            let ns = sorted@;
            assert(ns == old_sorted.insert(pos as int, e));
            assert forall|a: int, b: int| 0 <= a < b < ns.len() implies precedes((#[trigger] ns[a]).key(), (#[trigger] ns[b]).key()) by {
                if b == pos {
                    lemma_precedes_total(ns[a].key(), e.key());
                } else if a == pos {
                    if b > pos + 1 {
                        lemma_precedes_transitive(e.key(), old_sorted[pos as int].key(), old_sorted[b - 1].key());
                    }
                } else if a < pos && b > pos {
                    assert(ns[a] == old_sorted[a] && ns[b] == old_sorted[b - 1]);
                }
            }
            assert forall|k: int| 0 <= k < ns.len() implies (#[trigger] ns[k]).key() == key_of(snapshot@, ns[k].connector@) by {
                if k > pos {
                    assert(ns[k] == old_sorted[k - 1]);
                }
            }
            assert forall|k: int| 0 <= k < i + 1 implies entry_ids(ns).contains(#[trigger] c[k]) by {
                if k == i {
                    assert(entry_ids(ns)[pos as int] == c[k]);
                } else {
                    let j = choose|j: int| 0 <= j < old_sorted.len() && entry_ids(old_sorted)[j] == c[k];
                    if j < pos {
                        assert(entry_ids(ns)[j] == c[k]);
                    } else {
                        assert(entry_ids(ns)[j + 1] == c[k]);
                    }
                }
            }
            assert forall|j: int| 0 <= j < ns.len() implies c.subrange(0, i + 1).contains(#[trigger] entry_ids(ns)[j]) by {
                if j == pos {
                    assert(c.subrange(0, i + 1)[i as int] == c[i as int]);
                } else {
                    let jj = if j < pos { j } else { j - 1 };
                    assert(entry_ids(ns)[j] == entry_ids(old_sorted)[jj]);
                    let k = choose|k: int| 0 <= k < i && c.subrange(0, i as int)[k] == entry_ids(old_sorted)[jj];
                    assert(c.subrange(0, i + 1)[k] == c.subrange(0, i as int)[k]);
                }
            }
        }
        i = i + 1;
    }
    proof {
        assert(c.subrange(0, i as int) =~= c);
        assert forall|x: Seq<char>| c.contains(x) implies entry_ids(sorted@).contains(x) by {
            let k = choose|k: int| 0 <= k < c.len() && c[k] == x;
            assert(entry_ids(sorted@).contains(c[k]));
        }
        assert forall|x: Seq<char>| entry_ids(sorted@).contains(x) implies c.contains(x) by {
            let j = choose|j: int| 0 <= j < sorted@.len() && entry_ids(sorted@)[j] == x;
            assert(c.subrange(0, i as int).contains(entry_ids(sorted@)[j]));
        }
    }
    sorted
}

/// The candidates without enough samples, in candidate order.
fn undersampled(candidates: &Vec<String>, snapshot: &Vec<StatsSnapshot>) -> (r: Vec<String>)
    ensures
        ids_of(r@) == insufficient_of(snapshot@, ids_of(candidates@)),
{
    let ghost c = ids_of(candidates@);
    let mut r: Vec<String> = Vec::new();
    let mut i: usize = 0;
    while i < candidates.len()
        invariant
            c == ids_of(candidates@),
            i <= candidates@.len(),
            ids_of(r@) == insufficient_of(snapshot@, c.subrange(0, i as int)),
        decreases candidates@.len() - i,
    {
        let e = entry_for(snapshot, &candidates[i]);
        assert(c.subrange(0, i + 1).drop_last() =~= c.subrange(0, i as int));
        assert(c.subrange(0, i + 1).last() == candidates@[i as int]@);
        let ghost before = ids_of(r@);
        if e.tier == 1 {
            r.push(candidates[i].clone());
            assert(ids_of(r@) =~= before.push(candidates@[i as int]@));
        }
        i = i + 1;
    }
    assert(c.subrange(0, i as int) =~= c);
    r
}

/// Ranks the candidate connectors of a decision against a statistics
/// snapshot. `draw` is a random number drawn uniformly by the caller: the
/// decision explores when `draw % 100` falls under the configured
/// exploration percentage, and `draw / 100` then picks, uniformly, which
/// connector without enough samples is tried first.
pub fn rank_with_stats(
    candidates: &Vec<String>,
    snapshot: &Vec<StatsSnapshot>,
    config: &SuccessBasedRoutingConfig,
    draw: u64,
) -> (r: Vec<String>)
    requires
        ids_of(candidates@).no_duplicates(),
    ensures
        is_ranking(snapshot@, *config, draw, ids_of(candidates@), ids_of(r@)),
{
    let ghost snap = snapshot@;
    let ghost c = ids_of(candidates@);
    let mut sorted = sort_entries(candidates, snapshot);
    let ghost s0 = sorted@;
    let ins = undersampled(candidates, snapshot);
    let exploring = draw % 100 < config.exploration_percent && ins.len() > 0;
    let mut j: usize = 0;
    if exploring {
        let idx = ((draw / 100) % (ins.len() as u64)) as usize;
        let lead = &ins[idx];
        proof {
            lemma_insufficient_of_members(snap, c);
            assert(ids_of(ins@)[idx as int] == lead@);
            assert(insufficient_of(snap, c).contains(lead@));
        }
        while j < sorted.len() && !id_equal(&sorted[j].connector, lead)
            invariant
                s0 == sorted@,
                j <= sorted@.len(),
                forall|k: int| 0 <= k < j ==> (#[trigger] sorted@[k]).connector@ != lead@,
            decreases sorted@.len() - j,
        {
            j = j + 1;
        }
        proof {
            if j == s0.len() {
                assert(c.contains(lead@));
                let k = choose|k: int| 0 <= k < s0.len() && entry_ids(s0)[k] == lead@;
                assert(entry_ids(s0)[k] == s0[k].connector@);
            }
            assert(s0[j as int].connector@ == explored(snap, draw, c));
        }
        let e = sorted.remove(j);
        sorted.insert(0, e);
        proof {
            let ns = sorted@;
            assert forall|k: int| 1 <= k < ns.len() implies #[trigger] ns[k] == (if k <= j { s0[k - 1] } else { s0[k] }) by {}
        }
    }
    assert(exploring == explores(snap, *config, draw, c));
    let ghost s1 = sorted@;
    let mut r: Vec<String> = Vec::new();
    let mut k: usize = 0;
    while k < sorted.len()
        invariant
            s1 == sorted@,
            k <= sorted@.len(),
            r@.len() == k,
            forall|m: int| 0 <= m < k ==> (#[trigger] r@[m])@ == sorted@[m].connector@,
        decreases sorted@.len() - k,
    {
        r.push(sorted[k].connector.clone());
        k = k + 1;
    }
    proof {
        let ids = ids_of(r@);
        let n = s0.len() as int;
        assert forall|k: int| 0 <= k < n implies #[trigger] entry_ids(s0)[k] == s0[k].connector@ by {}
        // position in the sorted entries of the connector now at position m
        let src = |m: int| if !exploring { m } else if m == 0 { j as int } else if m <= j { m - 1 } else { m };
        assert forall|m: int| 0 <= m < n implies #[trigger] ids[m] == s0[src(m)].connector@
            && key_of(snap, ids[m]) == s0[src(m)].key() && 0 <= src(m) < n by {
            if exploring {
                if m == 0 {
                    assert(s1[0] == s0[j as int]);
                } else if m <= j {
                    assert(s1[m] == s0[m - 1]);
                } else {
                    assert(s1[m] == s0[m]);
                }
            }
        }
        assert forall|a: int, b: int| 0 <= a < b < n implies s0[a].connector@ != s0[b].connector@ by {
            if s0[a].connector@ == s0[b].connector@ {
                lemma_lex_irreflexive(s0[a].connector@);
                assert(precedes(s0[a].key(), s0[b].key()));
            }
        }
        assert forall|a: int, b: int| 0 <= a < b < n implies ids[a] != ids[b] by {
            assert(src(a) != src(b));
            if src(a) < src(b) {
                assert(s0[src(a)].connector@ != s0[src(b)].connector@);
            } else {
                assert(s0[src(b)].connector@ != s0[src(a)].connector@);
            }
        }
        assert(ids.no_duplicates());
        assert forall|x: Seq<char>| c.contains(x) implies ids.contains(x) by {
            let k = choose|k: int| 0 <= k < n && entry_ids(s0)[k] == x;
            let m = if !exploring { k } else if k == j { 0 } else if k < j { k + 1 } else { k };
            assert(src(m) == k);
            assert(ids[m] == x);
        }
        assert forall|x: Seq<char>| ids.contains(x) implies c.contains(x) by {
            let m = choose|m: int| 0 <= m < n && ids[m] == x;
            assert(entry_ids(s0)[src(m)] == x);
        }
        if exploring {
            assert forall|a: int, b: int| 0 <= a < b < ids.drop_first().len() implies precedes(
                #[trigger] key_of(snap, ids.drop_first()[a]), #[trigger] key_of(snap, ids.drop_first()[b])) by {
                assert(ids.drop_first()[a] == ids[a + 1] && ids.drop_first()[b] == ids[b + 1]);
                assert(src(a + 1) < src(b + 1));
            }
            assert(ids[0] == s0[j as int].connector@);
        } else {
            assert forall|a: int, b: int| 0 <= a < b < ids.len() implies precedes(
                #[trigger] key_of(snap, ids[a]), #[trigger] key_of(snap, ids[b])) by {
                assert(src(a) == a && src(b) == b);
            }
        }
    }
    r
}

/// Ranks the candidate connectors of a profile by the statistics tracked
/// for it. `draw` is a random number drawn uniformly by the caller, used as
/// `rank_with_stats` uses it.
pub fn rank(
    tracker: &SuccessRateTracker,
    profile_id: &String,
    candidates: &Vec<String>,
    config: &SuccessBasedRoutingConfig,
    draw: u64,
) -> (r: Vec<String>)
    requires
        tracker.wf(),
        ids_of(candidates@).no_duplicates(),
    ensures
        is_ranking(
            profile_snapshot(tracker.entries@, profile_id@, config.min_samples),
            *config,
            draw,
            ids_of(candidates@),
            ids_of(r@),
        ),
{
    let snapshot = tracker.get_stats(profile_id, config);
    rank_with_stats(candidates, &snapshot, config, draw)
}

proof fn lemma_ranked_unique(snap: Seq<StatsSnapshot>, r1: Seq<Seq<char>>, r2: Seq<Seq<char>>)
    requires
        r1.len() == r2.len(),
        r1.no_duplicates(),
        r2.no_duplicates(),
        forall|x: Seq<char>| r1.contains(x) ==> r2.contains(x),
        forall|x: Seq<char>| r2.contains(x) ==> r1.contains(x),
        ranked_by_key(snap, r1),
        ranked_by_key(snap, r2),
    ensures
        r1 == r2,
    decreases r1.len(),
{
    if r1.len() == 0 {
        assert(r1 =~= r2);
    } else {
        lemma_heads_equal(snap, r1, r2);
        let t1 = r1.drop_first();
        let t2 = r2.drop_first();
        assert forall|x: Seq<char>| t1.contains(x) implies t2.contains(x) by {
            let k = choose|k: int| 0 <= k < t1.len() && t1[k] == x;
            assert(r1[k + 1] == x);
            assert(r2.contains(x));
            let m = choose|m: int| 0 <= m < r2.len() && r2[m] == x;
            assert(m != 0);
            assert(t2[m - 1] == x);
        }
        assert forall|x: Seq<char>| t2.contains(x) implies t1.contains(x) by {
            let k = choose|k: int| 0 <= k < t2.len() && t2[k] == x;
            assert(r2[k + 1] == x);
            assert(r1.contains(x));
            let m = choose|m: int| 0 <= m < r1.len() && r1[m] == x;
            assert(m != 0);
            assert(t1[m - 1] == x);
        }
        assert forall|a: int, b: int| 0 <= a < b < t1.len() implies precedes(
            #[trigger] key_of(snap, t1[a]), #[trigger] key_of(snap, t1[b])) by {
            assert(t1[a] == r1[a + 1] && t1[b] == r1[b + 1]);
        }
        assert forall|a: int, b: int| 0 <= a < b < t2.len() implies precedes(
            #[trigger] key_of(snap, t2[a]), #[trigger] key_of(snap, t2[b])) by {
            assert(t2[a] == r2[a + 1] && t2[b] == r2[b + 1]);
        }
        lemma_ranked_unique(snap, t1, t2);
        assert(r1 =~= r2) by {
            assert forall|i: int| 0 < i < r1.len() implies r1[i] == r2[i] by {
                assert(r1[i] == t1[i - 1] && r2[i] == t2[i - 1]);
            }
        }
    }
}

proof fn lemma_heads_equal(snap: Seq<StatsSnapshot>, r1: Seq<Seq<char>>, r2: Seq<Seq<char>>)
    requires
        r1.len() == r2.len(),
        r1.len() > 0,
        forall|x: Seq<char>| r1.contains(x) ==> r2.contains(x),
        forall|x: Seq<char>| r2.contains(x) ==> r1.contains(x),
        ranked_by_key(snap, r1),
        ranked_by_key(snap, r2),
    ensures
        r1[0] == r2[0],
{
    if r1[0] != r2[0] {
        assert(r1.contains(r1[0]));
        let k = choose|k: int| 0 <= k < r2.len() && r2[k] == r1[0];
        assert(r2.contains(r2[0]));
        let m = choose|m: int| 0 <= m < r1.len() && r1[m] == r2[0];
        assert(precedes(key_of(snap, r2[0]), key_of(snap, r2[k])));
        assert(precedes(key_of(snap, r1[0]), key_of(snap, r1[m])));
        lemma_precedes_asymmetric(key_of(snap, r1[0]), key_of(snap, r2[0]));
    }
}

/// Ranking is deterministic: for the same snapshot, configuration, draw and
/// candidates there is exactly one ranking, so two decisions with no outcome
/// recorded between them return the same list.
pub proof fn lemma_rank_deterministic(
    snap: Seq<StatsSnapshot>,
    config: SuccessBasedRoutingConfig,
    draw: u64,
    c: Seq<Seq<char>>,
    r1: Seq<Seq<char>>,
    r2: Seq<Seq<char>>,
)
    requires
        is_ranking(snap, config, draw, c, r1),
        is_ranking(snap, config, draw, c, r2),
    ensures
        r1 == r2,
{
    if explores(snap, config, draw, c) {
        if r1[0] != r2[0] {
            assert(r1.contains(r1[0]) && c.contains(r1[0]) && r2.contains(r1[0]));
            let k = choose|k: int| 0 <= k < r2.len() && r2[k] == r1[0];
            assert(r2.contains(r2[0]) && c.contains(r2[0]) && r1.contains(r2[0]));
            let m = choose|m: int| 0 <= m < r1.len() && r1[m] == r2[0];
            assert(precedes(key_of(snap, r2[0]), key_of(snap, r2[k])));
            assert(precedes(key_of(snap, r1[0]), key_of(snap, r1[m])));
            lemma_precedes_asymmetric(key_of(snap, r1[0]), key_of(snap, r2[0]));
        }
        let t1 = r1.drop_first();
        let t2 = r2.drop_first();
        assert forall|x: Seq<char>| t1.contains(x) implies t2.contains(x) by {
            let k = choose|k: int| 0 <= k < t1.len() && t1[k] == x;
            assert(r1[k + 1] == x && r1.contains(x) && c.contains(x) && r2.contains(x));
            let m = choose|m: int| 0 <= m < r2.len() && r2[m] == x;
            assert(m != 0);
            assert(t2[m - 1] == x);
        }
        assert forall|x: Seq<char>| t2.contains(x) implies t1.contains(x) by {
            let k = choose|k: int| 0 <= k < t2.len() && t2[k] == x;
            assert(r2[k + 1] == x && r2.contains(x) && c.contains(x) && r1.contains(x));
            let m = choose|m: int| 0 <= m < r1.len() && r1[m] == x;
            assert(m != 0);
            assert(t1[m - 1] == x);
        }
        assert(t1.no_duplicates()) by {
            assert forall|a: int, b: int| 0 <= a < b < t1.len() implies t1[a] != t1[b] by {
                assert(t1[a] == r1[a + 1] && t1[b] == r1[b + 1]);
            }
        }
        assert(t2.no_duplicates()) by {
            assert forall|a: int, b: int| 0 <= a < b < t2.len() implies t2[a] != t2[b] by {
                assert(t2[a] == r2[a + 1] && t2[b] == r2[b + 1]);
            }
        }
        lemma_ranked_unique(snap, t1, t2);
        assert(r1 =~= r2) by {
            assert forall|i: int| 0 < i < r1.len() implies r1[i] == r2[i] by {
                assert(r1[i] == t1[i - 1] && r2[i] == t2[i - 1]);
            }
        }
    } else {
        assert forall|x: Seq<char>| r1.contains(x) implies r2.contains(x) by {
            assert(c.contains(x));
        }
        assert forall|x: Seq<char>| r2.contains(x) implies r1.contains(x) by {
            assert(c.contains(x));
        }
        lemma_ranked_unique(snap, r1, r2);
    }
}

proof fn lemma_find_in_profile_snapshot(entries: Seq<ConnectorStats>, profile: Seq<char>, min_samples: u64, i: int)
    requires
        0 <= i < entries.len(),
        entries[i].profile_id@ == profile,
        forall|a: int, b: int|
            0 <= a < b < entries.len() ==> !(#[trigger] entries[a]).is_for(
                (#[trigger] entries[b]).profile_id@,
                entries[b].connector@,
            ),
    ensures
        find_stats(profile_snapshot(entries, profile, min_samples), entries[i].connector@)
            == Some(snapshot_of(entries[i], min_samples)),
    decreases entries.len(),
{
    let rest = profile_snapshot(entries.drop_last(), profile, min_samples);
    let last = entries.last();
    if i < entries.len() - 1 {
        assert(!entries[i].is_for(last.profile_id@, last.connector@));
        assert forall|a: int, b: int|
            0 <= a < b < entries.drop_last().len() implies !(#[trigger] entries.drop_last()[a]).is_for(
                (#[trigger] entries.drop_last()[b]).profile_id@,
                entries.drop_last()[b].connector@,
            ) by {
            assert(entries.drop_last()[a] == entries[a] && entries.drop_last()[b] == entries[b]);
        }
        lemma_find_in_profile_snapshot(entries.drop_last(), profile, min_samples, i);
        if last.profile_id@ == profile {
            assert(rest.push(snapshot_of(last, min_samples)).drop_last() =~= rest);
        }
    }
}

/// A connector that has only ever succeeded is ranked ahead of one that has
/// only ever failed, once both hold the minimum number of samples, whatever
/// the draw: recording successes for the first never moves it behind the
/// second.
pub proof fn lemma_success_ranks_ahead_of_failure(
    tracker: SuccessRateTracker,
    profile: Seq<char>,
    config: SuccessBasedRoutingConfig,
    draw: u64,
    c: Seq<Seq<char>>,
    r: Seq<Seq<char>>,
    winner: int,
    loser: int,
    a: int,
    b: int,
)
    requires
        tracker.wf(),
        0 <= winner < tracker.entries@.len(),
        0 <= loser < tracker.entries@.len(),
        tracker.entries@[winner].profile_id@ == profile,
        tracker.entries@[loser].profile_id@ == profile,
        tracker.entries@[winner].failures == 0,
        tracker.entries@[loser].successes == 0,
        tracker.entries@[winner].samples() >= config.min_samples,
        tracker.entries@[loser].samples() >= config.min_samples,
        is_ranking(profile_snapshot(tracker.entries@, profile, config.min_samples), config, draw, c, r),
        0 <= a < r.len(),
        0 <= b < r.len(),
        r[a] == tracker.entries@[winner].connector@,
        r[b] == tracker.entries@[loser].connector@,
    ensures
        a < b,
{
    let e = tracker.entries@;
    let snap = profile_snapshot(e, profile, config.min_samples);
    assert(e[winner].wf() && e[loser].wf());
    assert(winner != loser);
    if winner < loser {
        assert(!e[winner].is_for(e[loser].profile_id@, e[loser].connector@));
    } else {
        assert(!e[loser].is_for(e[winner].profile_id@, e[winner].connector@));
    }
    lemma_find_in_profile_snapshot(e, profile, config.min_samples, winner);
    lemma_find_in_profile_snapshot(e, profile, config.min_samples, loser);
    let kw = key_of(snap, r[a]);
    let kl = key_of(snap, r[b]);
    assert(kw.0 == 0 && kw.1 == PROBABILITY_SCALE && kl.0 == 0 && kl.1 == 0);
    assert(precedes(kw, kl));
    assert(a != b);
    if b < a {
        lemma_precedes_asymmetric(kw, kl);
        if explores(snap, config, draw, c) {
            lemma_explored_insufficient(snap, draw, c);
            assert(b >= 1);
            assert(r.drop_first()[b - 1] == r[b] && r.drop_first()[a - 1] == r[a]);
        }
    }
}

/// The explored connector is a candidate without enough samples.
pub proof fn lemma_explored_insufficient(snap: Seq<StatsSnapshot>, draw: u64, c: Seq<Seq<char>>)
    requires
        insufficient_of(snap, c).len() > 0,
    ensures
        c.contains(explored(snap, draw, c)),
        is_insufficient(snap, explored(snap, draw, c)),
{
    let ins = insufficient_of(snap, c);
    lemma_insufficient_of_members(snap, c);
    let k = (draw as int / 100) % (ins.len() as int);
    assert(ins.contains(ins[k]));
}

/// Exploration is not greedy: with a positive exploration percentage, every
/// candidate without enough samples leads the ranking for some draw, ahead
/// of every fully sampled connector whatever its probability. The draw
/// returned is one such.
pub proof fn lemma_every_undersampled_can_lead(
    snap: Seq<StatsSnapshot>,
    config: SuccessBasedRoutingConfig,
    c: Seq<Seq<char>>,
    u: int,
) -> (draw: u64)
    requires
        config.exploration_percent > 0,
        0 <= u < c.len(),
        is_insufficient(snap, c[u]),
        100 * c.len() <= u64::MAX,
    ensures
        explores(snap, config, draw, c),
        explored(snap, draw, c) == c[u],
        forall|r: Seq<Seq<char>>| #[trigger] is_ranking(snap, config, draw, c, r) ==> r[0] == c[u],
{
    let ins = insufficient_of(snap, c);
    lemma_insufficient_of_members(snap, c);
    assert(c.contains(c[u]));
    assert(ins.contains(c[u]));
    let k = choose|k: int| 0 <= k < ins.len() && ins[k] == c[u];
    lemma_insufficient_of_len(snap, c);
    let d = (100 * k) as u64;
    assert(d % 100 == 0 && d as int / 100 == k) by (nonlinear_arith)
        requires d == 100 * k, k >= 0;
    assert(k % (ins.len() as int) == k) by (nonlinear_arith)
        requires 0 <= k < ins.len();
    d
}

proof fn lemma_insufficient_of_len(snap: Seq<StatsSnapshot>, c: Seq<Seq<char>>)
    ensures
        insufficient_of(snap, c).len() <= c.len(),
    decreases c.len(),
{
    if c.len() > 0 {
        lemma_insufficient_of_len(snap, c.drop_last());
    }
}

/// Two connectors that both have enough samples stand in a ranking in the
/// order of their keys.
proof fn lemma_sufficient_order(
    snap: Seq<StatsSnapshot>,
    config: SuccessBasedRoutingConfig,
    draw: u64,
    c: Seq<Seq<char>>,
    r: Seq<Seq<char>>,
    a: int,
    b: int,
)
    requires
        is_ranking(snap, config, draw, c, r),
        0 <= a < r.len(),
        0 <= b < r.len(),
        a != b,
        !is_insufficient(snap, r[a]),
        !is_insufficient(snap, r[b]),
    ensures
        (a < b) == precedes(key_of(snap, r[a]), key_of(snap, r[b])),
{
    lemma_precedes_asymmetric(key_of(snap, r[a]), key_of(snap, r[b]));
    if explores(snap, config, draw, c) {
        lemma_explored_insufficient(snap, draw, c);
        assert(a >= 1 && b >= 1);
        assert(r.drop_first()[a - 1] == r[a] && r.drop_first()[b - 1] == r[b]);
    }
}

/// Recording a success for a connector `x` never moves it behind a
/// connector `y` that has only ever failed, once both hold the minimum
/// number of samples: if `x` ranked ahead of `y` before the outcome, it
/// ranks ahead of `y` after it, whatever the draws.
pub proof fn lemma_success_keeps_lead(
    before: SuccessRateTracker,
    after: SuccessRateTracker,
    profile: Seq<char>,
    config: SuccessBasedRoutingConfig,
    at: u64,
    draw1: u64,
    draw2: u64,
    c: Seq<Seq<char>>,
    r1: Seq<Seq<char>>,
    r2: Seq<Seq<char>>,
    x: int,
    y: int,
    a1: int,
    b1: int,
    a2: int,
    b2: int,
)
    requires
        before.wf(),
        config.wf(),
        0 <= x < before.entries@.len(),
        0 <= y < before.entries@.len(),
        before.entries@[x].profile_id@ == profile,
        before.entries@[y].profile_id@ == profile,
        before.entries@[x].samples() >= config.min_samples,
        before.entries@[y].samples() >= config.min_samples,
        before.entries@[y].successes == 0,
        before.entries@[x].samples() < u64::MAX,
        after.entries@ == before.entries@.update(
            x,
            after_outcome(before.entries@[x], Outcome::Success, config.smoothing_window, at),
        ),
        is_ranking(profile_snapshot(before.entries@, profile, config.min_samples), config, draw1, c, r1),
        is_ranking(profile_snapshot(after.entries@, profile, config.min_samples), config, draw2, c, r2),
        0 <= a1 < r1.len() && 0 <= b1 < r1.len() && 0 <= a2 < r2.len() && 0 <= b2 < r2.len(),
        r1[a1] == before.entries@[x].connector@,
        r1[b1] == before.entries@[y].connector@,
        r2[a2] == before.entries@[x].connector@,
        r2[b2] == before.entries@[y].connector@,
        a1 < b1,
    ensures
        a2 < b2,
{
    let e1 = before.entries@;
    let e2 = after.entries@;
    let m = config.min_samples;
    let s1 = profile_snapshot(e1, profile, m);
    let s2 = profile_snapshot(e2, profile, m);
    assert(e1[x].wf() && e1[y].wf());
    assert(x != y);
    if x < y {
        assert(!e1[x].is_for(e1[y].profile_id@, e1[y].connector@));
    } else {
        assert(!e1[y].is_for(e1[x].profile_id@, e1[x].connector@));
    }
    assert forall|i: int, j: int| 0 <= i < j < e2.len() implies !(#[trigger] e2[i]).is_for(
        (#[trigger] e2[j]).profile_id@,
        e2[j].connector@,
    ) by {
        assert(!e1[i].is_for(e1[j].profile_id@, e1[j].connector@));
        assert(e2[i].profile_id == e1[i].profile_id && e2[i].connector == e1[i].connector);
        assert(e2[j].profile_id == e1[j].profile_id && e2[j].connector == e1[j].connector);
    }
    lemma_find_in_profile_snapshot(e1, profile, m, x);
    lemma_find_in_profile_snapshot(e1, profile, m, y);
    lemma_find_in_profile_snapshot(e2, profile, m, x);
    lemma_find_in_profile_snapshot(e2, profile, m, y);
    lemma_smoothing_monotone(e1[x].probability, config.smoothing_window);
    let kx1 = key_of(s1, r1[a1]);
    let ky1 = key_of(s1, r1[b1]);
    let kx2 = key_of(s2, r2[a2]);
    let ky2 = key_of(s2, r2[b2]);
    assert(e2[x] == after_outcome(e1[x], Outcome::Success, config.smoothing_window, at));
    assert(e2[y] == e1[y]);
    assert(kx1.0 == 0 && ky1.0 == 0 && kx2.0 == 0 && ky2.0 == 0);
    assert(ky1.1 == 0 && ky2 == ky1);
    assert(kx2.1 >= kx1.1 && kx2.2 == kx1.2 && kx2.3 == kx1.3);
    lemma_sufficient_order(s1, config, draw1, c, r1, a1, b1);
    assert(precedes(kx1, ky1));
    assert(precedes(kx2, ky2));
    assert(a2 != b2);
    lemma_sufficient_order(s2, config, draw2, c, r2, a2, b2);
}

} // verus!
