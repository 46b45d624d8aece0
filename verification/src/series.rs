//! Per-series state: the persisted catalog entry and the runtime clock.
use vstd::prelude::*;

use crate::config::SeriesConfig;
use crate::errors::ConfigError;
use crate::record::Record;
use crate::timestamp::{sat_add, saturating_add_secs, Timestamp};

verus! {

/// The duration that `humantime::parse_duration` reads out of a string,
/// truncated to whole seconds; `None` when the string does not parse.
pub uninterp spec fn interval_secs_of(s: Seq<char>) -> Option<u64>;

/// A character that can belong to a unit word of an interval string.
pub open spec fn is_unit_char(c: char) -> bool {
    ('a' <= c && c <= 'z') || ('A' <= c && c <= 'Z') || c == '\u{b5}'
}

/// A conservative syntactic guard under which the duration parser can never
/// accumulate a nanosecond remainder: the string has no fractional part and
/// no unit word that could denote nanoseconds, microseconds or milliseconds
/// (every such word starts with 'n', 'u', 'µ', "ms" or "mil"; every
/// whole-second unit word starts otherwise). Sampling intervals have
/// one-second resolution, so nothing this refuses is a usable cadence.
pub open spec fn whole_second_interval(s: Seq<char>) -> bool {
    &&& forall|i: int| 0 <= i < s.len() ==> (#[trigger] s[i]) != '.'
    &&& forall|i: int|
        0 <= i < s.len() && is_unit_char(#[trigger] s[i]) && (i == 0 || !is_unit_char(
            s[i - 1],
        )) ==> (s[i] != 'n' && s[i] != 'u' && s[i] != '\u{b5}' && !(s[i] == 'm' && i + 1 < s.len()
            && s[i + 1] == 's') && !(s[i] == 'm' && i + 2 < s.len() && s[i + 1] == 'i' && s[i
            + 2] == 'l'))
}

/// A sampling interval the scheduler accepts: within the whole-second
/// subset of the duration grammar, and parsing to a duration.
pub open spec fn interval_valid(s: Seq<char>) -> bool {
    whole_second_interval(s) && interval_secs_of(s) is Some
}

fn is_unit_char_exec(c: char) -> (r: bool)
    ensures
        r == is_unit_char(c),
{
    ('a' <= c && c <= 'z') || ('A' <= c && c <= 'Z') || c == '\u{b5}'
}

/// Checks the whole-second guard by one scan over the characters.
fn check_whole_second_interval(s: &str) -> (r: bool)
    ensures
        r == whole_second_interval(s@),
{
    let n = s.unicode_len();
    let mut i: usize = 0;
    while i < n
        invariant
            n == s@.len(),
            0 <= i <= n,
            forall|j: int| 0 <= j < i ==> (#[trigger] s@[j]) != '.',
            forall|j: int|
                0 <= j < i && is_unit_char(#[trigger] s@[j]) && (j == 0 || !is_unit_char(
                    s@[j - 1],
                )) ==> (s@[j] != 'n' && s@[j] != 'u' && s@[j] != '\u{b5}' && !(s@[j] == 'm' && j + 1
                < s@.len() && s@[j + 1] == 's') && !(s@[j] == 'm' && j + 2 < s@.len() && s@[j + 1]
                == 'i' && s@[j + 2] == 'l')),
        decreases n - i,
    {
        let c = s.get_char(i);
        if c == '.' {
            return false;
        }
        let at_token_start = is_unit_char_exec(c) && (i == 0 || !is_unit_char_exec(
            s.get_char(i - 1),
        ));
        if at_token_start {
            if c == 'n' || c == 'u' || c == '\u{b5}' {
                return false;
            }
            if c == 'm' && n - i > 1 && s.get_char(i + 1) == 's' {
                return false;
            }
            if c == 'm' && n - i > 2 && s.get_char(i + 1) == 'i' && s.get_char(i + 2) == 'l' {
                return false;
            }
        }
        i += 1;
    }
    true
}

/// Relies on `humantime::parse_duration`: the result is a function of the
/// characters alone, truncated to whole seconds.
///
/// The `requires` keeps the parser's one aborting input shape out of
/// verified code: reaching the abort needs a sub-second span that carries
/// the accumulated nanosecond remainder to exactly one second on top of a
/// full seconds counter (witness: "18446744073709551615s 1000000000ns").
/// On a string admitted here every span contributes a whole number of
/// seconds, the nanosecond remainder stays zero, and every overflow path
/// in the parser returns its error instead.
#[verifier::external_body]
pub(crate) fn parse_interval_secs(s: &str) -> (r: Option<u64>)
    requires
        whole_second_interval(s@),
    ensures
        r == interval_secs_of(s@),
{
    match humantime::parse_duration(s) {
        Ok(d) => Some(d.as_secs()),
        Err(_) => None,
    }
}

/// The persisted projection of a series' display metadata, independent of its
/// sample data.
#[derive(Debug)]
pub struct SeriesDef {
    pub id: String,
    pub name: String,
    pub category: String,
    pub unit: String,
    pub color: String,
}

impl SeriesDef {
    pub fn new(cfg: SeriesConfig) -> (r: Self)
        ensures
            r.id == cfg.id,
            r.name == cfg.name,
            r.category == cfg.category,
            r.unit == cfg.unit,
            r.color == cfg.color,
    {
        Self { id: cfg.id, name: cfg.name, category: cfg.category, color: cfg.color, unit: cfg.unit }
    }

    /// A field-for-field copy of this entry.
    pub fn duplicate(&self) -> (r: Self)
        ensures
            r == *self,
    {
        Self {
            id: self.id.clone(),
            name: self.name.clone(),
            category: self.category.clone(),
            unit: self.unit.clone(),
            color: self.color.clone(),
        }
    }
}

/// The runtime clock of one series: its cadence and its last attempt.
///
/// The only transition is "never sampled" to "sampled at least once"; the
/// state is owned by the scheduler and never persisted.
#[derive(Debug)]
pub struct SeriesState {
    pub id: String,
    /// Interval between two measures, in whole seconds.
    pub sampling_interval: u64,
    /// Instant of the last measurement attempt, successful or not.
    pub last_measure_instant: Option<Timestamp>,
    /// Outcome of the last attempt: the stored record, or a failure message.
    pub last_measure: Option<Result<Record, String>>,
}

impl SeriesState {
    pub fn new(cfg: &SeriesConfig) -> (r: Result<Self, ConfigError>)
        ensures
            r is Ok <==> interval_valid(cfg.sampling_interval@),
            (r matches Ok(s) ==> s.id == cfg.id
                && interval_secs_of(cfg.sampling_interval@) == Some(s.sampling_interval)
                && s.last_measure_instant is None && s.last_measure is None),
            r matches Err(e) ==> (e matches ConfigError::InvalidInterval { series } && series == cfg.id),
    {
        if !check_whole_second_interval(cfg.sampling_interval.as_str()) {
            return Err(ConfigError::InvalidInterval { series: cfg.id.clone() });
        }
        match parse_interval_secs(cfg.sampling_interval.as_str()) {
            Some(interval) => Ok(Self {
                id: cfg.id.clone(),
                sampling_interval: interval,
                last_measure_instant: None,
                last_measure: None,
            }),
            None => Err(ConfigError::InvalidInterval { series: cfg.id.clone() }),
        }
    }

    /// The earliest instant this series is eligible to be sampled: `now` when
    /// it was never attempted, else the last attempt plus the interval.
    pub open spec fn next_due(self, now: Timestamp) -> u64 {
        match self.last_measure_instant {
            Some(t) => sat_add(t.secs, self.sampling_interval),
            None => now.secs,
        }
    }

    pub fn next_measure_instant(&self, now: Timestamp) -> (r: Timestamp)
        ensures
            r.secs == self.next_due(now),
    {
        match self.last_measure_instant {
            Some(t) => Timestamp { secs: saturating_add_secs(t.secs, self.sampling_interval) },
            None => now,
        }
    }

    /// Records a measurement attempt. Recording a failure is itself a
    /// non-error event; the clock advances either way.
    pub fn notify_measured(&mut self, now: Timestamp, record: Result<Record, String>)
        ensures
            final(self).id == old(self).id,
            final(self).sampling_interval == old(self).sampling_interval,
            final(self).last_measure_instant == Some(now),
            final(self).last_measure == Some(record),
    {
        self.last_measure_instant = Some(now);
        self.last_measure = Some(record);
    }
}

} // verus!
