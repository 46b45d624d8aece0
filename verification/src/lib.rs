//! Periodic measurement recorder: a sampling scheduler that drives a set of
//! named measurement series, each on its own cadence, and a time-series store
//! that persists every sample and answers range and latest-value queries.
//!
//! Measurement values are IEEE-754 double bit patterns carried as `u64`, so
//! that the scheduling and storage logic stays on plain integers; the driver
//! layer converts to and from floating point at the edge.
use vstd::prelude::*;

pub mod config;
pub mod digits;
pub mod errors;
pub mod record;
pub mod segments;
pub mod sensors;
pub mod series;
pub mod store;
pub mod timestamp;

use crate::config::SeriesConfig;
use crate::errors::{ConfigError, StoreError};
use crate::record::Record;
use crate::series::{interval_secs_of, interval_valid, SeriesDef, SeriesState};
use crate::store::{has_ts, insert_by_time, Store};
use crate::timestamp::Timestamp;

verus! {

/// The catalog entry a configured series is persisted as.
pub open spec fn series_def_of(c: SeriesConfig) -> SeriesDef {
    SeriesDef { id: c.id, name: c.name, category: c.category, unit: c.unit, color: c.color }
}

/// The series name the `d`-th claim of sensor `k` names.
pub open spec fn claim(sensors: Seq<crate::config::Sensor>, k: int, d: int) -> Seq<char> {
    sensors[k].config.declared_spec()[d]
}

/// Whether `(k, d)` designates a claim: sensor `k` exists and declares at
/// least `d + 1` series.
pub open spec fn valid_claim_index(sensors: Seq<crate::config::Sensor>, k: int, d: int) -> bool {
    0 <= k < sensors.len() && 0 <= d < sensors[k].config.declared_spec().len()
}

/// Some configured series carries the id `id`.
pub open spec fn series_declares(series: Seq<SeriesConfig>, id: Seq<char>) -> bool {
    exists|j: int| 0 <= j < series.len() && series[j].id@ == id
}

/// Some sensor claims the series id `id`.
pub open spec fn claim_exists(sensors: Seq<crate::config::Sensor>, id: Seq<char>) -> bool {
    exists|k: int, d: int| valid_claim_index(sensors, k, d) && claim(sensors, k, d) == id
}

/// The sensor named `sensor` claims the series id `series`.
pub open spec fn sensor_claims(
    sensors: Seq<crate::config::Sensor>,
    sensor: Seq<char>,
    series: Seq<char>,
) -> bool {
    exists|k: int, d: int|
        valid_claim_index(sensors, k, d) && sensors[k].id@ == sensor && claim(sensors, k, d)
            == series
}

/// A configuration the scheduler can be built from: series ids are unique,
/// every sampling interval parses, every claimed series exists, no series is
/// claimed by two claims, and every series is claimed by some sensor.
pub open spec fn config_valid(cfg: crate::config::Recorder) -> bool {
    &&& forall|a: int, b: int|
        0 <= a < b < cfg.series@.len() ==> cfg.series@[a].id@ != cfg.series@[b].id@
    &&& forall|a: int|
        0 <= a < cfg.series@.len() ==> interval_valid(
            (#[trigger] cfg.series@[a]).sampling_interval@,
        )
    &&& forall|k: int, d: int|
        valid_claim_index(cfg.sensors@, k, d) ==> series_declares(
            cfg.series@,
            claim(cfg.sensors@, k, d),
        )
    &&& forall|k1: int, d1: int, k2: int, d2: int|
        valid_claim_index(cfg.sensors@, k1, d1) && valid_claim_index(cfg.sensors@, k2, d2) && (k1
            != k2 || d1 != d2) ==> claim(cfg.sensors@, k1, d1) != claim(cfg.sensors@, k2, d2)
    &&& forall|j: int|
        0 <= j < cfg.series@.len() ==> claim_exists(cfg.sensors@, (#[trigger] cfg.series@[j]).id@)
}

/// The configuration violation a construction error reports really occurs in
/// `cfg`.
pub open spec fn error_witnessed(cfg: crate::config::Recorder, e: ConfigError) -> bool {
    match e {
        ConfigError::DuplicateSeries { series } => exists|a: int, b: int|
            0 <= a < b < cfg.series@.len() && cfg.series@[a].id@ == series@ && cfg.series@[b].id@
                == series@,
        ConfigError::InvalidInterval { series } => exists|a: int|
            0 <= a < cfg.series@.len() && (#[trigger] cfg.series@[a]).id@ == series@
                && !interval_valid(cfg.series@[a].sampling_interval@),
        ConfigError::UnknownSeries { series, sensor } => !series_declares(cfg.series@, series@)
            && exists|k: int, d: int|
            valid_claim_index(cfg.sensors@, k, d) && cfg.sensors@[k].id@ == sensor@
                && #[trigger] claim(cfg.sensors@, k, d) == series@,
        ConfigError::SeriesClaimedTwice { series, first_sensor, second_sensor } => exists|
            k1: int,
            d1: int,
            k2: int,
            d2: int,
        |
            valid_claim_index(cfg.sensors@, k1, d1) && valid_claim_index(cfg.sensors@, k2, d2) && (
            k1 != k2 || d1 != d2) && #[trigger] claim(cfg.sensors@, k1, d1) == series@
                && #[trigger] claim(cfg.sensors@, k2, d2) == series@ && cfg.sensors@[k1].id@
                == first_sensor@ && cfg.sensors@[k2].id@ == second_sensor@,
        ConfigError::OrphanSeries { series } => series_declares(cfg.series@, series@) && forall|
            k: int,
            d: int,
        | valid_claim_index(cfg.sensors@, k, d) ==> claim(cfg.sensors@, k, d) != series@,
    }
}

/// Law: when the configured series ids are distinct, every interval is
/// valid, no two claims name the same series and every series is claimed,
/// the only violation a construction error can report is a claim naming an
/// unknown series — so the error is `UnknownSeries`, naming a series no
/// configuration entry declares and the sensor of a claim that names it.
pub proof fn lemma_error_is_unknown_series(cfg: crate::config::Recorder, e: ConfigError)
    requires
        error_witnessed(cfg, e),
        forall|a: int, b: int|
            0 <= a < b < cfg.series@.len() ==> cfg.series@[a].id@ != cfg.series@[b].id@,
        forall|a: int|
            0 <= a < cfg.series@.len() ==> interval_valid(
                (#[trigger] cfg.series@[a]).sampling_interval@,
            ),
        forall|k1: int, d1: int, k2: int, d2: int|
            valid_claim_index(cfg.sensors@, k1, d1) && valid_claim_index(cfg.sensors@, k2, d2) && (
            k1 != k2 || d1 != d2) ==> claim(cfg.sensors@, k1, d1) != claim(cfg.sensors@, k2, d2),
        forall|j: int|
            0 <= j < cfg.series@.len() ==> claim_exists(
                cfg.sensors@,
                (#[trigger] cfg.series@[j]).id@,
            ),
    ensures
        e matches ConfigError::UnknownSeries { series, sensor } && !series_declares(
            cfg.series@,
            series@,
        ) && sensor_claims(cfg.sensors@, sensor@, series@),
{
    match e {
        ConfigError::DuplicateSeries { series } => {
            assert(false);
        },
        ConfigError::InvalidInterval { series } => {
            assert(false);
        },
        ConfigError::UnknownSeries { series, sensor } => {
        },
        ConfigError::SeriesClaimedTwice { series, first_sensor, second_sensor } => {
            assert(false);
        },
        ConfigError::OrphanSeries { series } => {
            assert(series_declares(cfg.series@, series@));
            let j = choose|j: int| 0 <= j < cfg.series@.len() && cfg.series@[j].id@ == series@;
            assert(claim_exists(cfg.sensors@, cfg.series@[j].id@));
            assert(false);
        },
    }
}

/// Law: when the configured series ids are distinct, every interval is
/// valid, every claim names an existing series and every series is claimed,
/// the only violation left is a doubly claimed series — so the error is
/// `SeriesClaimedTwice`, and both named sensors really claim that series.
pub proof fn lemma_error_is_series_claimed_twice(cfg: crate::config::Recorder, e: ConfigError)
    requires
        error_witnessed(cfg, e),
        forall|a: int, b: int|
            0 <= a < b < cfg.series@.len() ==> cfg.series@[a].id@ != cfg.series@[b].id@,
        forall|a: int|
            0 <= a < cfg.series@.len() ==> interval_valid(
                (#[trigger] cfg.series@[a]).sampling_interval@,
            ),
        forall|k: int, d: int|
            valid_claim_index(cfg.sensors@, k, d) ==> series_declares(
                cfg.series@,
                claim(cfg.sensors@, k, d),
            ),
        forall|j: int|
            0 <= j < cfg.series@.len() ==> claim_exists(
                cfg.sensors@,
                (#[trigger] cfg.series@[j]).id@,
            ),
    ensures
        e matches ConfigError::SeriesClaimedTwice { series, first_sensor, second_sensor }
            && sensor_claims(cfg.sensors@, first_sensor@, series@) && sensor_claims(
            cfg.sensors@,
            second_sensor@,
            series@,
        ),
{
    match e {
        ConfigError::DuplicateSeries { series } => {
            assert(false);
        },
        ConfigError::InvalidInterval { series } => {
            assert(false);
        },
        ConfigError::UnknownSeries { series, sensor } => {
            assert(false);
        },
        ConfigError::SeriesClaimedTwice { series, first_sensor, second_sensor } => {
        },
        ConfigError::OrphanSeries { series } => {
            assert(series_declares(cfg.series@, series@));
            let j = choose|j: int| 0 <= j < cfg.series@.len() && cfg.series@[j].id@ == series@;
            assert(claim_exists(cfg.sensors@, cfg.series@[j].id@));
            assert(false);
        },
    }
}

/// Law: when the configured series ids are distinct, every interval is
/// valid, every claim names an existing series and no two claims name the
/// same one, the only violation left is a series nobody claims — so the
/// error is `OrphanSeries`, naming a configured series with no claim.
pub proof fn lemma_error_is_orphan_series(cfg: crate::config::Recorder, e: ConfigError)
    requires
        error_witnessed(cfg, e),
        forall|a: int, b: int|
            0 <= a < b < cfg.series@.len() ==> cfg.series@[a].id@ != cfg.series@[b].id@,
        forall|a: int|
            0 <= a < cfg.series@.len() ==> interval_valid(
                (#[trigger] cfg.series@[a]).sampling_interval@,
            ),
        forall|k: int, d: int|
            valid_claim_index(cfg.sensors@, k, d) ==> series_declares(
                cfg.series@,
                claim(cfg.sensors@, k, d),
            ),
        forall|k1: int, d1: int, k2: int, d2: int|
            valid_claim_index(cfg.sensors@, k1, d1) && valid_claim_index(cfg.sensors@, k2, d2) && (
            k1 != k2 || d1 != d2) ==> claim(cfg.sensors@, k1, d1) != claim(cfg.sensors@, k2, d2),
    ensures
        e matches ConfigError::OrphanSeries { series } && series_declares(cfg.series@, series@)
            && !claim_exists(cfg.sensors@, series@),
{
    match e {
        ConfigError::DuplicateSeries { series } => {
            assert(false);
        },
        ConfigError::InvalidInterval { series } => {
            assert(false);
        },
        ConfigError::UnknownSeries { series, sensor } => {
            assert(false);
        },
        ConfigError::SeriesClaimedTwice { series, first_sensor, second_sensor } => {
            assert(false);
        },
        ConfigError::OrphanSeries { series } => {
            if claim_exists(cfg.sensors@, series@) {
                let (k, d) = choose|k: int, d: int|
                    valid_claim_index(cfg.sensors@, k, d) && claim(cfg.sensors@, k, d) == series@;
                assert(claim(cfg.sensors@, k, d) != series@);
            }
        },
    }
}

/// Claim `(k2, d2)` comes strictly before position `(k, d)` in the order the
/// claims are examined: sensor by sensor, declaration by declaration.
spec fn claim_before(k: int, d: int, k2: int, d2: int) -> bool {
    k2 < k || (k2 == k && d2 < d)
}

/// What validation has established once every claim before position `(k, d)`
/// has been examined: `assigned` records, per series, the sensor whose claim
/// took it; examined claims name existing series; no two of them name the
/// same series.
spec fn claims_inv(
    cfg: crate::config::Recorder,
    assigned: Seq<Option<String>>,
    k: int,
    d: int,
) -> bool {
    &&& forall|j: int|
        0 <= j < cfg.series@.len() && (#[trigger] assigned[j]) is Some ==> exists|k2: int, d2: int|
            valid_claim_index(cfg.sensors@, k2, d2) && claim_before(k, d, k2, d2)
                && #[trigger] claim(cfg.sensors@, k2, d2) == cfg.series@[j].id@
                && cfg.sensors@[k2].id@ == (assigned[j]->Some_0)@
    &&& forall|j: int, k2: int, d2: int|
        0 <= j < cfg.series@.len() && assigned[j] is None && valid_claim_index(cfg.sensors@, k2, d2)
            && claim_before(k, d, k2, d2) ==> #[trigger] claim(cfg.sensors@, k2, d2) != (
        #[trigger] cfg.series@[j]).id@
    &&& forall|k2: int, d2: int|
        valid_claim_index(cfg.sensors@, k2, d2) && claim_before(k, d, k2, d2) ==> series_declares(
            cfg.series@,
            #[trigger] claim(cfg.sensors@, k2, d2),
        )
    &&& forall|k1: int, d1: int, k2: int, d2: int|
        valid_claim_index(cfg.sensors@, k1, d1) && claim_before(k, d, k1, d1) && valid_claim_index(
            cfg.sensors@,
            k2,
            d2,
        ) && claim_before(k, d, k2, d2) && (k1 != k2 || d1 != d2) ==> #[trigger] claim(
            cfg.sensors@,
            k1,
            d1,
        ) != #[trigger] claim(cfg.sensors@, k2, d2)
}

/// The wake slack: on a wake at instant `now`, every series due by
/// `now + DUE_SLACK_SECS` is sampled in the same cycle, so coincident
/// deadlines are not split across wakes.
pub const DUE_SLACK_SECS: u64 = 1;

/// The ids of the clocks due at `now`, in configuration order: those whose
/// next due instant lies within the wake slack.
pub open spec fn due_ids(clocks: Seq<SeriesState>, now: Timestamp) -> Seq<Seq<char>>
    decreases clocks.len(),
{
    if clocks.len() == 0 {
        Seq::<Seq<char>>::empty()
    } else {
        due_ids(clocks.drop_last(), now) + (if clocks.last().next_due(now) <= crate::timestamp::sat_add(
            now.secs,
            DUE_SLACK_SECS,
        ) {
            seq![clocks.last().id@]
        } else {
            Seq::<Seq<char>>::empty()
        })
    }
}

/// Law: a series whose next due instant lies within the wake slack is never
/// skipped — its id is always among the due ids.
pub proof fn lemma_due_ids_complete(clocks: Seq<SeriesState>, now: Timestamp, a: int)
    requires
        0 <= a < clocks.len(),
        clocks[a].next_due(now) <= crate::timestamp::sat_add(now.secs, DUE_SLACK_SECS),
    ensures
        due_ids(clocks, now).contains(clocks[a].id@),
    decreases clocks.len(),
{
    if a == clocks.len() - 1 {
        let r = due_ids(clocks, now);
        assert(r.len() > 0 && r.last() == clocks[a].id@);
        assert(r.contains(clocks[a].id@)) by {
            assert(r[r.len() - 1] == clocks[a].id@);
        }
    } else {
        lemma_due_ids_complete(clocks.drop_last(), now, a);
        let sub = due_ids(clocks.drop_last(), now);
        let w = choose|w: int| 0 <= w < sub.len() && sub[w] == clocks.drop_last()[a].id@;
        assert(due_ids(clocks, now)[w] == clocks[a].id@);
    }
}

/// Law: no attempt is made before a series is due — an id is among the due
/// ids only when some clock with that id is within the wake slack.
pub proof fn lemma_due_ids_sound(clocks: Seq<SeriesState>, now: Timestamp, id: Seq<char>)
    requires
        due_ids(clocks, now).contains(id),
    ensures
        exists|a: int|
            0 <= a < clocks.len() && (#[trigger] clocks[a]).id@ == id && clocks[a].next_due(now)
                <= crate::timestamp::sat_add(now.secs, DUE_SLACK_SECS),
    decreases clocks.len(),
{
    let r = due_ids(clocks, now);
    assert(clocks.len() > 0);
    let sub = due_ids(clocks.drop_last(), now);
    let w = choose|w: int| 0 <= w < r.len() && r[w] == id;
    if w < sub.len() {
        assert(sub.contains(id)) by {
            assert(sub[w] == id);
        }
        lemma_due_ids_sound(clocks.drop_last(), now, id);
        let a = choose|a: int|
            0 <= a < clocks.drop_last().len() && (#[trigger] clocks.drop_last()[a]).id@ == id
                && clocks.drop_last()[a].next_due(now) <= crate::timestamp::sat_add(
                now.secs,
                DUE_SLACK_SECS,
            );
        assert(clocks[a].id@ == id && clocks[a].next_due(now) <= crate::timestamp::sat_add(
            now.secs,
            DUE_SLACK_SECS,
        ));
    } else {
        assert(r[w] == clocks.last().id@);
        assert(clocks[clocks.len() - 1].id@ == id);
    }
}

/// Law: an attempt recorded for one series leaves every other series' clock
/// untouched, so a series due in a cycle stays due whatever happens to the
/// series attempted before it — one series' failure never delays another's.
pub proof fn lemma_no_cross_series_interference(
    pre: Recorder,
    post: Recorder,
    attempted: Seq<char>,
    other: Seq<char>,
    now: Timestamp,
)
    requires
        other != attempted,
        post.clocks().len() == pre.clocks().len(),
        forall|a: int|
            0 <= a < pre.clocks().len() && (#[trigger] pre.clocks()[a]).id@ != attempted
                ==> post.clocks()[a] == pre.clocks()[a],
        due_ids(pre.clocks(), now).contains(other),
    ensures
        due_ids(post.clocks(), now).contains(other),
{
    lemma_due_ids_sound(pre.clocks(), now, other);
    let a = choose|a: int|
        0 <= a < pre.clocks().len() && (#[trigger] pre.clocks()[a]).id@ == other && pre.clocks()[
            a
        ].next_due(now) <= crate::timestamp::sat_add(now.secs, DUE_SLACK_SECS);
    assert(post.clocks()[a] == pre.clocks()[a]);
    lemma_due_ids_complete(post.clocks(), now, a);
}

/// Law: immediately after an attempt recorded at instant `t`, a series' next
/// due instant is exactly `t` plus its sampling interval (capped at the
/// counter's maximum), whatever the outcome of the attempt was.
pub proof fn lemma_next_due_after_attempt(pre: SeriesState, post: SeriesState, t: Timestamp)
    requires
        post.sampling_interval == pre.sampling_interval,
        post.last_measure_instant == Some(t),
    ensures
        forall|now: Timestamp|
            post.next_due(now) == crate::timestamp::sat_add(t.secs, pre.sampling_interval),
{
}

/// The per-series clock states match the configured series, none attempted
/// yet.
pub open spec fn clocks_match(series: Seq<SeriesState>, cfgs: Seq<SeriesConfig>) -> bool {
    &&& series.len() == cfgs.len()
    &&& forall|a: int|
        0 <= a < series.len() ==> ((#[trigger] series[a]).id@ == cfgs[a].id@ && interval_valid(
            cfgs[a].sampling_interval@,
        ) && Some(series[a].sampling_interval) == interval_secs_of(cfgs[a].sampling_interval@)
            && series[a].last_measure_instant is None && series[a].last_measure is None)
}

fn find_series_index(series: &Vec<SeriesState>, id: &String) -> (r: Option<usize>)
    ensures
        r matches Some(j) ==> 0 <= j < series@.len() && series@[j as int].id@ == id@,
        r is None ==> forall|j: int| 0 <= j < series@.len() ==> series@[j].id@ != id@,
{
    let n = series.len();
    let mut j: usize = 0;
    while j < n
        invariant
            n == series@.len(),
            0 <= j <= n,
            forall|b: int| 0 <= b < j ==> series@[b].id@ != id@,
        decreases n - j,
    {
        if series[j].id == *id {
            return Some(j);
        }
        j += 1;
    }
    None
}

/// The sampling scheduler: one clock per configured series, the sensor
/// assignment that construction validated, and the store every successful
/// sample is appended to.
#[derive(Debug)]
pub struct Recorder {
    store: Store,
    series: Vec<SeriesState>,
    sensor_by_series: Vec<String>,
}

impl Recorder {
    /// The per-series clocks, in configuration order.
    pub closed spec fn clocks(self) -> Seq<SeriesState> {
        self.series@
    }

    /// The owning sensor of each series, aligned with `clocks`.
    pub closed spec fn assignment(self) -> Seq<Seq<char>> {
        self.sensor_by_series.deep_view()
    }

    /// The store the scheduler appends to.
    pub closed spec fn spec_store(self) -> Store {
        self.store
    }

    /// Well-formedness: the store is well-formed, every series has exactly
    /// one assigned sensor, and series ids are unique.
    pub closed spec fn wf(self) -> bool {
        &&& self.store.wf()
        &&& self.sensor_by_series@.len() == self.series@.len()
        &&& forall|a: int, b: int|
            0 <= a < b < self.series@.len() ==> self.series@[a].id@ != self.series@[b].id@
    }

    /// Builds the scheduler from configuration: one clock per series, the
    /// store's catalog seeded, the sensor wiring validated. Construction
    /// succeeds exactly on valid configurations, and every reported error
    /// names a violation that really occurs in the configuration.
    pub fn new(cfg: crate::config::Recorder) -> (r: Result<Recorder, ConfigError>)
        ensures
            r is Ok <==> config_valid(cfg),
            r matches Err(e) ==> error_witnessed(cfg, e),
            r matches Ok(rec) ==> ({
                &&& rec.wf()
                &&& clocks_match(rec.clocks(), cfg.series@)
                &&& rec.assignment().len() == cfg.series@.len()
                &&& forall|a: int|
                    0 <= a < cfg.series@.len() ==> sensor_claims(
                        cfg.sensors@,
                        #[trigger] rec.assignment()[a],
                        cfg.series@[a].id@,
                    )
                &&& rec.spec_store().catalog_view() == cfg.series@.map_values(
                    |c: SeriesConfig| series_def_of(c),
                )
                &&& forall|id: Seq<char>| rec.spec_store().samples_of(id) == Seq::<Record>::empty()
            }),
    {
        let ns = cfg.series.len();
        let mut series: Vec<SeriesState> = Vec::new();
        let mut defs: Vec<SeriesDef> = Vec::new();

        let mut i: usize = 0;
        while i < ns
            invariant
                ns == cfg.series@.len(),
                0 <= i <= ns,
                defs@.len() == i,
                series@.len() == i,
                clocks_match(series@, cfg.series@.take(i as int)),
                forall|a: int| 0 <= a < i ==> #[trigger] defs@[a] == series_def_of(cfg.series@[a]),
                forall|a: int, b: int| 0 <= a < b < i ==> cfg.series@[a].id@ != cfg.series@[b].id@,
            decreases ns - i,
        {
            let scfg = &cfg.series[i];
            match find_series_index(&series, &scfg.id) {
                Some(a) => {
                    proof {
                        assert(cfg.series@[a as int].id@ == cfg.series@[i as int].id@);
                        assert(!config_valid(cfg));
                    }
                    return Err(ConfigError::DuplicateSeries { series: scfg.id.clone() });
                },
                None => {},
            }
            proof {
                assert forall|a: int| 0 <= a < i implies cfg.series@[a].id@ != cfg.series@[
                    i as int
                ].id@ by {
                    assert(series@[a].id@ == cfg.series@[a].id@);
                    assert(series@[a].id@ != scfg.id@);
                }
            }
            match SeriesState::new(scfg) {
                Ok(st) => {
                    series.push(st);
                },
                Err(e) => {
                    proof {
                        assert(!interval_valid(cfg.series@[i as int].sampling_interval@));
                        assert(!config_valid(cfg));
                        assert(error_witnessed(cfg, e));
                    }
                    return Err(e);
                },
            }
            defs.push(SeriesDef::new(scfg.duplicate()));
            proof {
                assert(cfg.series@.take(i + 1 as int).drop_last() =~= cfg.series@.take(i as int));
                assert(clocks_match(series@, cfg.series@.take(i + 1 as int)));
            }
            i += 1;
        }
        proof {
            assert(cfg.series@.take(ns as int) =~= cfg.series@);
        }

        let nk = cfg.sensors.len();
        let mut assigned: Vec<Option<String>> = Vec::new();
        let mut j0: usize = 0;
        while j0 < ns
            invariant
                0 <= j0 <= ns,
                assigned@.len() == j0,
                forall|j: int| 0 <= j < j0 ==> (#[trigger] assigned@[j]) is None,
            decreases ns - j0,
        {
            assigned.push(None);
            j0 += 1;
        }
        proof {
            assert(claims_inv(cfg, assigned@, 0, 0));
        }

        let mut k: usize = 0;
        while k < nk
            invariant
                ns == cfg.series@.len(),
                nk == cfg.sensors@.len(),
                0 <= k <= nk,
                defs@.len() == ns,
                clocks_match(series@, cfg.series@),
                forall|a: int| 0 <= a < ns ==> #[trigger] defs@[a] == series_def_of(cfg.series@[a]),
                forall|a: int, b: int| 0 <= a < b < ns ==> cfg.series@[a].id@ != cfg.series@[b].id@,
                assigned@.len() == ns,
                claims_inv(cfg, assigned@, k as int, 0),
            decreases nk - k,
        {
            let sensor = &cfg.sensors[k];
            let declared = sensor.config.declared_series();
            let nd = declared.len();
            let mut d: usize = 0;
            while d < nd
                invariant
                    ns == cfg.series@.len(),
                    nk == cfg.sensors@.len(),
                    0 <= k < nk,
                    0 <= d <= nd,
                    defs@.len() == ns,
                    clocks_match(series@, cfg.series@),
                    forall|a: int|
                        0 <= a < ns ==> #[trigger] defs@[a] == series_def_of(cfg.series@[a]),
                    forall|a: int, b: int|
                        0 <= a < b < ns ==> cfg.series@[a].id@ != cfg.series@[b].id@,
                    assigned@.len() == ns,
                    *sensor == cfg.sensors@[k as int],
                    declared.deep_view() == cfg.sensors@[k as int].config.declared_spec(),
                    nd == declared@.len(),
                    claims_inv(cfg, assigned@, k as int, d as int),
                decreases nd - d,
            {
                let sid = &declared[d];
                proof {
                    assert(declared.deep_view()[d as int] == sid@);
                    assert(claim(cfg.sensors@, k as int, d as int) == sid@);
                    assert(valid_claim_index(cfg.sensors@, k as int, d as int));
                }
                match find_series_index(&series, sid) {
                    None => {
                        proof {
                            if series_declares(cfg.series@, sid@) {
                                let j = choose|j: int|
                                    0 <= j < cfg.series@.len() && cfg.series@[j].id@ == sid@;
                                assert(series@[j].id@ == sid@);
                            }
                            assert(!series_declares(cfg.series@, sid@));
                            assert(!config_valid(cfg));
                        }
                        return Err(
                            ConfigError::UnknownSeries {
                                series: sid.clone(),
                                sensor: sensor.id.clone(),
                            },
                        );
                    },
                    Some(j) => {
                        match &assigned[j] {
                            Some(prev) => {
                                let e = ConfigError::SeriesClaimedTwice {
                                    series: sid.clone(),
                                    first_sensor: prev.clone(),
                                    second_sensor: sensor.id.clone(),
                                };
                                proof {
                                    let ka = k as int;
                                    let da = d as int;
                                    assert(cfg.series@[j as int].id@ == sid@);
                                    assert(assigned@[j as int] is Some);
                                    assert(error_witnessed(cfg, e));
                                    assert(!config_valid(cfg)) by {
                                        if config_valid(cfg) {
                                            assert(false);
                                        }
                                    }
                                }
                                return Err(e);
                            },
                            None => {},
                        }
                        let sensor_id = sensor.id.clone();
                        let ghost pre = assigned@;
                        assigned[j] = Some(sensor_id);
                        proof {
                            let ka = k as int;
                            let da = d as int;
                            let ja = j as int;
                            let post = assigned@;
                            assert(post[ja] is Some && (post[ja]->Some_0)@ == cfg.sensors@[
                                ka
                            ].id@);
                            assert(cfg.series@[ja].id@ == sid@);
                            assert forall|k2: int, d2: int|
                                valid_claim_index(cfg.sensors@, k2, d2) && claim_before(
                                    ka,
                                    da + 1,
                                    k2,
                                    d2,
                                ) && !claim_before(ka, da, k2, d2) implies k2 == ka && d2
                                == da by {}
                            assert forall|jj: int|
                                0 <= jj < cfg.series@.len() && (#[trigger] post[jj]) is
                                Some implies exists|k2: int, d2: int|
                                valid_claim_index(cfg.sensors@, k2, d2) && claim_before(
                                    ka,
                                    da + 1,
                                    k2,
                                    d2,
                                ) && #[trigger] claim(cfg.sensors@, k2, d2) == cfg.series@[jj].id@
                                && cfg.sensors@[k2].id@ == (post[jj]->Some_0)@ by {
                                if jj == ja {
                                    assert(valid_claim_index(cfg.sensors@, ka, da) && claim_before(
                                        ka,
                                        da + 1,
                                        ka,
                                        da,
                                    ) && claim(cfg.sensors@, ka, da) == cfg.series@[jj].id@
                                        && cfg.sensors@[ka].id@ == (post[jj]->Some_0)@);
                                } else {
                                    assert(post[jj] == pre[jj]);
                                }
                            }
                            assert forall|jj: int, k2: int, d2: int|
                                0 <= jj < cfg.series@.len() && post[jj] is None
                                    && valid_claim_index(cfg.sensors@, k2, d2) && claim_before(
                                    ka,
                                    da + 1,
                                    k2,
                                    d2,
                                ) implies #[trigger] claim(cfg.sensors@, k2, d2) != (
                            #[trigger] cfg.series@[jj]).id@ by {
                                assert(jj != ja);
                                assert(post[jj] == pre[jj]);
                                if !claim_before(ka, da, k2, d2) {
                                    assert(k2 == ka && d2 == da);
                                    assert(claim(cfg.sensors@, ka, da) == cfg.series@[ja].id@);
                                    assert(cfg.series@[jj].id@ != cfg.series@[ja].id@);
                                }
                            }
                            assert forall|k2: int, d2: int|
                                valid_claim_index(cfg.sensors@, k2, d2) && claim_before(
                                    ka,
                                    da + 1,
                                    k2,
                                    d2,
                                ) implies series_declares(
                                cfg.series@,
                                #[trigger] claim(cfg.sensors@, k2, d2),
                            ) by {
                                if !claim_before(ka, da, k2, d2) {
                                    assert(claim(cfg.sensors@, ka, da) == cfg.series@[ja].id@);
                                }
                            }
                            assert forall|k1: int, d1: int, k2: int, d2: int|
                                valid_claim_index(cfg.sensors@, k1, d1) && claim_before(
                                    ka,
                                    da + 1,
                                    k1,
                                    d1,
                                ) && valid_claim_index(cfg.sensors@, k2, d2) && claim_before(
                                    ka,
                                    da + 1,
                                    k2,
                                    d2,
                                ) && (k1 != k2 || d1 != d2) implies #[trigger] claim(
                                cfg.sensors@,
                                k1,
                                d1,
                            ) != #[trigger] claim(cfg.sensors@, k2, d2) by {
                                if !claim_before(ka, da, k1, d1) {
                                    assert(k1 == ka && d1 == da);
                                    assert(claim_before(ka, da, k2, d2));
                                    assert(pre[ja] is None);
                                    assert(claim(cfg.sensors@, k2, d2) != cfg.series@[ja].id@);
                                } else if !claim_before(ka, da, k2, d2) {
                                    assert(k2 == ka && d2 == da);
                                    assert(pre[ja] is None);
                                    assert(claim(cfg.sensors@, k1, d1) != cfg.series@[ja].id@);
                                }
                            }
                            assert(claims_inv(cfg, assigned@, ka, da + 1));
                        }
                    },
                }
                d += 1;
            }
            proof {
                let ka = k as int;
                assert forall|k2: int, d2: int|
                    valid_claim_index(cfg.sensors@, k2, d2) && claim_before(
                        ka + 1,
                        0,
                        k2,
                        d2,
                    ) implies claim_before(ka, nd as int, k2, d2) by {
                    if k2 == ka {
                        assert(d2 < cfg.sensors@[ka].config.declared_spec().len());
                    }
                }
                assert(claims_inv(cfg, assigned@, ka + 1, 0));
            }
            k += 1;
        }

        let mut sensor_by_series: Vec<String> = Vec::new();
        let mut j: usize = 0;
        while j < ns
            invariant
                ns == cfg.series@.len(),
                nk == cfg.sensors@.len(),
                0 <= j <= ns,
                defs@.len() == ns,
                clocks_match(series@, cfg.series@),
                forall|a: int| 0 <= a < ns ==> #[trigger] defs@[a] == series_def_of(cfg.series@[a]),
                forall|a: int, b: int| 0 <= a < b < ns ==> cfg.series@[a].id@ != cfg.series@[b].id@,
                assigned@.len() == ns,
                claims_inv(cfg, assigned@, nk as int, 0),
                sensor_by_series@.len() == j,
                forall|a: int| 0 <= a < j ==> (#[trigger] assigned@[a]) is Some,
                forall|a: int|
                    0 <= a < j ==> sensor_claims(
                        cfg.sensors@,
                        #[trigger] sensor_by_series.deep_view()[a],
                        cfg.series@[a].id@,
                    ),
            decreases ns - j,
        {
            match &assigned[j] {
                Some(s) => {
                    let ghost prev = sensor_by_series.deep_view();
                    sensor_by_series.push(s.clone());
                    proof {
                        let ja = j as int;
                        assert(sensor_by_series.deep_view()[ja] == (assigned@[ja]->Some_0)@);
                        assert(sensor_claims(
                            cfg.sensors@,
                            sensor_by_series.deep_view()[ja],
                            cfg.series@[ja].id@,
                        ));
                        assert forall|a: int| 0 <= a < ja implies sensor_claims(
                            cfg.sensors@,
                            #[trigger] sensor_by_series.deep_view()[a],
                            cfg.series@[a].id@,
                        ) by {
                            assert(sensor_by_series.deep_view()[a] == prev[a]);
                        }
                    }
                },
                None => {
                    proof {
                        assert forall|k2: int, d2: int|
                            valid_claim_index(cfg.sensors@, k2, d2) implies #[trigger] claim(
                            cfg.sensors@,
                            k2,
                            d2,
                        ) != cfg.series@[j as int].id@ by {
                            assert(claim_before(nk as int, 0, k2, d2));
                        }
                        assert(series_declares(cfg.series@, cfg.series@[j as int].id@));
                        assert(!claim_exists(cfg.sensors@, cfg.series@[j as int].id@));
                        assert(!config_valid(cfg));
                    }
                    return Err(ConfigError::OrphanSeries { series: series[j].id.clone() });
                },
            }
            j += 1;
        }

        let mut store = Store::new();
        store.update_series(&defs);
        proof {
            assert forall|a: int, b: int| 0 <= a < b < defs@.len() implies (
            #[trigger] defs@[a]).id@ != (#[trigger] defs@[b]).id@ by {
                assert(defs@[a].id@ == cfg.series@[a].id@);
                assert(defs@[b].id@ == cfg.series@[b].id@);
            }
            crate::store::lemma_upsert_all_fresh(Seq::<SeriesDef>::empty(), defs@);
            assert(Seq::<SeriesDef>::empty() + defs@ =~= defs@);
            assert(defs@ =~= cfg.series@.map_values(|c: SeriesConfig| series_def_of(c)));
            assert(config_valid(cfg)) by {
                assert forall|a: int| 0 <= a < cfg.series@.len() implies interval_valid(
                    (#[trigger] cfg.series@[a]).sampling_interval@,
                ) by {
                    assert(series@[a].id@ == cfg.series@[a].id@);
                }
                assert forall|k2: int, d2: int|
                    valid_claim_index(cfg.sensors@, k2, d2) implies series_declares(
                    cfg.series@,
                    #[trigger] claim(cfg.sensors@, k2, d2),
                ) by {
                    assert(claim_before(nk as int, 0, k2, d2));
                }
                assert forall|k1: int, d1: int, k2: int, d2: int|
                    valid_claim_index(cfg.sensors@, k1, d1) && valid_claim_index(
                        cfg.sensors@,
                        k2,
                        d2,
                    ) && (k1 != k2 || d1 != d2) implies #[trigger] claim(cfg.sensors@, k1, d1)
                    != #[trigger] claim(cfg.sensors@, k2, d2) by {
                    assert(claim_before(nk as int, 0, k1, d1));
                    assert(claim_before(nk as int, 0, k2, d2));
                }
                assert forall|jj: int| 0 <= jj < cfg.series@.len() implies claim_exists(
                    cfg.sensors@,
                    (#[trigger] cfg.series@[jj]).id@,
                ) by {
                    assert(assigned@[jj] is Some);
                }
            }
        }
        let rec = Recorder { store, series, sensor_by_series };
        Ok(rec)
    }

    /// Read access to the store, for the query side.
    pub fn store(&self) -> (r: &Store)
        ensures
            *r == self.spec_store(),
            self.wf() ==> r.wf(),
    {
        &self.store
    }

    /// Replays one on-disk row into the store on startup; clocks and sensor
    /// assignment are untouched, and replaying a row twice is idempotent.
    pub fn load_row(&mut self, row: &crate::segments::SegmentRow)
        requires
            old(self).wf(),
            row.values@.len() == old(self).spec_store().catalog_view().len(),
        ensures
            final(self).wf(),
            final(self).clocks() == old(self).clocks(),
            final(self).assignment() == old(self).assignment(),
            final(self).spec_store().catalog_view() == old(self).spec_store().catalog_view(),
            forall|c: int|
                0 <= c < old(self).spec_store().catalog_view().len()
                    ==> final(self).spec_store().samples_of(
                    (#[trigger] old(self).spec_store().catalog_view()[c]).id@,
                ) == crate::store::loaded_samples(
                    old(self).spec_store().samples_of(
                        old(self).spec_store().catalog_view()[c].id@,
                    ),
                    row.timestamp,
                    row.values@[c],
                ),
            forall|id: Seq<char>|
                !crate::store::catalog_has(old(self).spec_store().catalog_view(), id)
                    ==> final(self).spec_store().samples_of(id) == old(
                    self,
                ).spec_store().samples_of(id),
    {
        self.store.load_row(row)
    }

    /// Some clock belongs to the series named `id`.
    pub open spec fn has_series(self, id: Seq<char>) -> bool {
        exists|a: int| 0 <= a < self.clocks().len() && (#[trigger] self.clocks()[a]).id@ == id
    }

    /// The earliest next-due instant across all series, or `None` when no
    /// series is configured — the scheduler then has nothing left to do.
    pub fn next_measure_instant(&self, now: Timestamp) -> (r: Option<Timestamp>)
        ensures
            r is None <==> self.clocks().len() == 0,
            r matches Some(t) ==> (exists|a: int|
                0 <= a < self.clocks().len() && t.secs == (#[trigger] self.clocks()[a]).next_due(
                    now,
                )) && (forall|a: int|
                0 <= a < self.clocks().len() ==> t.secs <= (#[trigger] self.clocks()[a]).next_due(
                    now,
                )),
    {
        let n = self.series.len();
        if n == 0 {
            return None;
        }
        let mut min: u64 = self.series[0].next_measure_instant(now).secs;
        let mut i: usize = 1;
        while i < n
            invariant
                n == self.series@.len(),
                1 <= i <= n,
                exists|a: int|
                    0 <= a < i && min == (#[trigger] self.series@[a]).next_due(now),
                forall|a: int| 0 <= a < i ==> min <= (#[trigger] self.series@[a]).next_due(now),
            decreases n - i,
        {
            let next = self.series[i].next_measure_instant(now).secs;
            if next < min {
                min = next;
            }
            i += 1;
        }
        Some(Timestamp { secs: min })
    }

    /// The ids of the series due at `now`, within the wake slack, in
    /// configuration order. Each of them is to be sampled in this cycle.
    pub fn due_series(&self, now: Timestamp) -> (r: Vec<String>)
        ensures
            r.deep_view() == due_ids(self.clocks(), now),
    {
        let mut out: Vec<String> = Vec::new();
        let n = self.series.len();
        let deadline = crate::timestamp::saturating_add_secs(now.secs, DUE_SLACK_SECS);
        let mut i: usize = 0;
        while i < n
            invariant
                n == self.series@.len(),
                0 <= i <= n,
                deadline == crate::timestamp::sat_add(now.secs, DUE_SLACK_SECS),
                out.deep_view() == due_ids(self.series@.take(i as int), now),
            decreases n - i,
        {
            proof {
                let pre = self.series@.take(i as int);
                let cur = self.series@.take(i + 1 as int);
                assert(cur.drop_last() =~= pre);
                assert(cur.last() == self.series@[i as int]);
            }
            let next = self.series[i].next_measure_instant(now).secs;
            if next <= deadline {
                out.push(self.series[i].id.clone());
            }
            proof {
                assert(out.deep_view() =~= due_ids(self.series@.take(i + 1 as int), now));
            }
            i += 1;
        }
        proof {
            assert(self.series@.take(n as int) =~= self.series@);
        }
        out
    }

    /// The sensor assigned to the series named `series_id`, or `None` for an
    /// id that is not a configured series.
    pub fn sensor_for(&self, series_id: &str) -> (r: Option<&String>)
        requires
            self.wf(),
        ensures
            r is Some <==> self.has_series(series_id@),
            r matches Some(s) ==> exists|a: int|
                0 <= a < self.clocks().len() && (#[trigger] self.clocks()[a]).id@ == series_id@
                    && self.assignment()[a] == s@,
    {
        let key: String = series_id.to_owned();
        match find_series_index(&self.series, &key) {
            Some(a) => {
                proof {
                    assert(self.clocks()[a as int].id@ == series_id@ && self.assignment()[a as int]
                        == self.sensor_by_series@[a as int]@);
                }
                Some(&self.sensor_by_series[a])
            },
            None => {
                proof {
                    if self.has_series(series_id@) {
                        let a = choose|a: int|
                            0 <= a < self.clocks().len() && (#[trigger] self.clocks()[a]).id@
                                == series_id@;
                        assert(self.series@[a].id@ == series_id@);
                    }
                }
                None
            },
        }
    }

    /// Records one measurement attempt for `series_id` at instant `now`: a
    /// successful value is appended to the store with `now` as its
    /// timestamp, a failure is only noted; the series' clock advances either
    /// way, so a persistently failing sensor simply retries after its normal
    /// interval. No other series' clock or samples are touched. An `Err`
    /// means the sample could not be stored (a record with this timestamp
    /// already exists); the clock has advanced regardless, and the caller
    /// may log it and continue.
    pub fn record_attempt(
        &mut self,
        series_id: &str,
        now: Timestamp,
        outcome: Result<u64, String>,
    ) -> (r: Result<(), StoreError>)
        requires
            old(self).wf(),
        ensures
            final(self).wf(),
            final(self).assignment() == old(self).assignment(),
            final(self).clocks().len() == old(self).clocks().len(),
            final(self).spec_store().catalog_view() == old(self).spec_store().catalog_view(),
            forall|a: int|
                0 <= a < old(self).clocks().len() && (#[trigger] old(self).clocks()[a]).id@
                    != series_id@ ==> final(self).clocks()[a] == old(self).clocks()[a],
            forall|id: Seq<char>|
                id != series_id@ ==> final(self).spec_store().samples_of(id) == old(
                    self,
                ).spec_store().samples_of(id),
            forall|a: int|
                0 <= a < old(self).clocks().len() && (#[trigger] old(self).clocks()[a]).id@
                    == series_id@ ==> (final(self).clocks()[a].id == old(self).clocks()[a].id
                    && final(self).clocks()[a].sampling_interval == old(
                    self,
                ).clocks()[a].sampling_interval && final(self).clocks()[a].last_measure_instant
                    == Some(now)),
            !old(self).has_series(series_id@) ==> r is Ok && final(self).spec_store().samples_of(
                series_id@,
            ) == old(self).spec_store().samples_of(series_id@),
            outcome matches Ok(bits) ==> (old(self).has_series(series_id@) ==> ((r is Ok <==> !has_ts(
                old(self).spec_store().samples_of(series_id@),
                now.secs,
            )) && (r is Ok ==> final(self).spec_store().samples_of(series_id@) == insert_by_time(
                old(self).spec_store().samples_of(series_id@),
                Record { timestamp: now.secs, value_bits: bits },
            )) && (r is Err ==> final(self).spec_store().samples_of(series_id@) == old(
                self,
            ).spec_store().samples_of(series_id@)))),
            outcome is Err ==> r is Ok && final(self).spec_store().samples_of(series_id@) == old(
                self,
            ).spec_store().samples_of(series_id@),
            r matches Err(e) ==> e == StoreError::DuplicateRecord,
    {
        let key: String = series_id.to_owned();
        match find_series_index(&self.series, &key) {
            None => {
                proof {
                    if self.has_series(series_id@) {
                        let a = choose|a: int|
                            0 <= a < self.clocks().len() && (#[trigger] self.clocks()[a]).id@
                                == series_id@;
                        assert(self.series@[a].id@ == series_id@);
                    }
                }
                Ok(())
            },
            Some(a) => {
                let record_result: Result<Record, String> = match outcome {
                    Ok(bits) => Ok(Record { timestamp: now.secs, value_bits: bits }),
                    Err(m) => Err(m),
                };
                let mut save_res: Result<(), StoreError> = Ok(());
                if let Ok(rec) = &record_result {
                    save_res = self.store.save(*rec, series_id);
                }
                let clock = &mut self.series[a];
                clock.notify_measured(now, record_result);
                proof {
                    assert forall|b: int, c: int|
                        0 <= b < c < self.series@.len() implies self.series@[b].id@ != self.series@[
                        c
                    ].id@ by {
                        assert(self.series@[b].id@ == old(self).series@[b].id@);
                        assert(self.series@[c].id@ == old(self).series@[c].id@);
                    }
                    assert forall|b: int|
                        0 <= b < old(self).clocks().len() && (#[trigger] old(self).clocks()[b]).id@
                            != series_id@ implies self.series@[b] == old(self).series@[b] by {
                        assert(old(self).series@[a as int].id@ == series_id@);
                    }
                }
                save_res
            },
        }
    }
}

} // verus!
