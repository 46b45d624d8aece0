//! The time-series store: durable, ordered, range-queryable persistence of
//! timestamped values per series, plus the persisted series catalog.
//!
//! Of the two storage strategies a recorder of this kind can use — an indexed
//! embedded database, or log-structured per-time-window segments — this store
//! deliberately uses the log-structured one: the in-process state below is the
//! authoritative ordered view, and the `segments` module gives the on-disk
//! layout (segment naming, rotation, row encoding, and which few segment
//! files a range query must scan) as pure functions, so a driver layer can
//! persist every append, rebuild this state on startup, and answer a range
//! query from the files without reading the whole history.
//! Historical data written with fewer series columns keeps parsing (short rows
//! are padded), so no migration step is ever needed.
//!
//! Appending a record whose (series, timestamp) key is already present is
//! rejected with a distinct error, never silently overwritten.
use vstd::prelude::*;

use crate::errors::StoreError;
use crate::record::Record;
use crate::segments::SegmentRow;
use crate::series::SeriesDef;

verus! {

/// Some catalog entry carries the id `id`.
pub open spec fn catalog_has(c: Seq<SeriesDef>, id: Seq<char>) -> bool {
    exists|i: int| 0 <= i < c.len() && (#[trigger] c[i]).id@ == id
}

/// What replaying one row's column does to a series' samples: a present
/// value takes its place in timestamp order unless that timestamp is
/// already stored; a missing value changes nothing.
pub open spec fn loaded_samples(s0: Seq<Record>, ts: u64, v: Option<u64>) -> Seq<Record> {
    match v {
        Some(bits) => if has_ts(s0, ts) {
            s0
        } else {
            insert_by_time(s0, Record { timestamp: ts, value_bits: bits })
        },
        None => s0,
    }
}

/// Timestamps strictly increase along the sequence.
pub open spec fn sorted_by_time(s: Seq<Record>) -> bool {
    forall|i: int, j: int| 0 <= i < j < s.len() ==> s[i].timestamp < s[j].timestamp
}

/// Some record in `s` carries timestamp `t`.
pub open spec fn has_ts(s: Seq<Record>, t: u64) -> bool {
    exists|i: int| 0 <= i < s.len() && s[i].timestamp == t
}

/// `r` inserted into `s` before the first record with a later timestamp.
pub open spec fn insert_by_time(s: Seq<Record>, r: Record) -> Seq<Record>
    decreases s.len(),
{
    if s.len() == 0 {
        seq![r]
    } else if r.timestamp < s[0].timestamp {
        seq![r] + s
    } else {
        seq![s[0]] + insert_by_time(s.drop_first(), r)
    }
}

/// The records of `s` with timestamp in the inclusive range `[from, to]`,
/// in their original order.
pub open spec fn range_filter(s: Seq<Record>, from: u64, to: u64) -> Seq<Record>
    decreases s.len(),
{
    if s.len() == 0 {
        Seq::<Record>::empty()
    } else {
        range_filter(s.drop_last(), from, to) + (if from <= s.last().timestamp
            && s.last().timestamp <= to {
            seq![s.last()]
        } else {
            Seq::<Record>::empty()
        })
    }
}

/// `c` with `d` either replacing the entry of the same id or appended.
pub open spec fn upsert_one(c: Seq<SeriesDef>, d: SeriesDef) -> Seq<SeriesDef>
    decreases c.len(),
{
    if c.len() == 0 {
        seq![d]
    } else if c[0].id@ == d.id@ {
        seq![d] + c.drop_first()
    } else {
        seq![c[0]] + upsert_one(c.drop_first(), d)
    }
}

/// `ds` upserted into `c`, left to right.
pub open spec fn upsert_all(c: Seq<SeriesDef>, ds: Seq<SeriesDef>) -> Seq<SeriesDef>
    decreases ds.len(),
{
    if ds.len() == 0 {
        c
    } else {
        upsert_all(upsert_one(c, ds[0]), ds.drop_first())
    }
}

proof fn lemma_insert_by_time_at(s: Seq<Record>, r: Record, pos: int)
    requires
        sorted_by_time(s),
        0 <= pos <= s.len(),
        forall|j: int| 0 <= j < pos ==> s[j].timestamp < r.timestamp,
        pos < s.len() ==> s[pos].timestamp > r.timestamp,
    ensures
        insert_by_time(s, r) == s.insert(pos, r),
        sorted_by_time(s.insert(pos, r)),
    decreases s.len(),
{
    let t = s.insert(pos, r);
    s.insert_ensures(pos, r);
    assert forall|i: int, j: int| 0 <= i < j < t.len() implies t[i].timestamp < t[j].timestamp by {
        if j > pos {
            assert(t[j] == s[j - 1]);
            if i == pos {
                if j - 1 > pos {
                    assert(s[pos].timestamp < s[j - 1].timestamp);
                }
            } else if i > pos {
                assert(t[i] == s[i - 1]);
            }
        }
    }
    if pos == 0 {
        if s.len() == 0 {
            assert(insert_by_time(s, r) =~= s.insert(pos, r));
        } else {
            assert(r.timestamp < s[0].timestamp);
            assert(insert_by_time(s, r) =~= s.insert(pos, r));
        }
    } else {
        assert(s[0].timestamp < r.timestamp);
        lemma_insert_by_time_at(s.drop_first(), r, pos - 1);
        assert(insert_by_time(s, r) =~= seq![s[0]] + s.drop_first().insert(pos - 1, r));
        assert(seq![s[0]] + s.drop_first().insert(pos - 1, r) =~= s.insert(pos, r));
    }
}

proof fn lemma_upsert_one_found(c: Seq<SeriesDef>, d: SeriesDef, i: int)
    requires
        0 <= i < c.len(),
        c[i].id@ == d.id@,
        forall|j: int| 0 <= j < i ==> c[j].id@ != d.id@,
    ensures
        upsert_one(c, d) == c.update(i, d),
    decreases i,
{
    if i == 0 {
        assert(upsert_one(c, d) =~= c.update(0, d));
    } else {
        lemma_upsert_one_found(c.drop_first(), d, i - 1);
        assert(upsert_one(c, d) =~= seq![c[0]] + c.drop_first().update(i - 1, d));
        assert(seq![c[0]] + c.drop_first().update(i - 1, d) =~= c.update(i, d));
    }
}

proof fn lemma_upsert_one_absent(c: Seq<SeriesDef>, d: SeriesDef)
    requires
        forall|j: int| 0 <= j < c.len() ==> c[j].id@ != d.id@,
    ensures
        upsert_one(c, d) == c.push(d),
    decreases c.len(),
{
    if c.len() == 0 {
        assert(upsert_one(c, d) =~= c.push(d));
    } else {
        lemma_upsert_one_absent(c.drop_first(), d);
        assert(upsert_one(c, d) =~= seq![c[0]] + c.drop_first().push(d));
        assert(seq![c[0]] + c.drop_first().push(d) =~= c.push(d));
    }
}

/// Upserting entries whose ids are fresh and mutually distinct appends them
/// in order.
pub proof fn lemma_upsert_all_fresh(c: Seq<SeriesDef>, ds: Seq<SeriesDef>)
    requires
        forall|a: int, b: int| 0 <= a < b < ds.len() ==> ds[a].id@ != ds[b].id@,
        forall|a: int, j: int|
            0 <= a < ds.len() && 0 <= j < c.len() ==> (#[trigger] c[j]).id@ != (
            #[trigger] ds[a]).id@,
    ensures
        upsert_all(c, ds) == c + ds,
    decreases ds.len(),
{
    if ds.len() == 0 {
        assert(upsert_all(c, ds) =~= c + ds);
    } else {
        lemma_upsert_one_absent(c, ds[0]);
        let c2 = c.push(ds[0]);
        let rest = ds.drop_first();
        assert forall|a: int, j: int|
            0 <= a < rest.len() && 0 <= j < c2.len() implies (#[trigger] c2[j]).id@ != (
        #[trigger] rest[a]).id@ by {
            assert(rest[a] == ds[a + 1]);
            if j < c.len() {
                assert(c[j].id@ != ds[a + 1].id@);
            } else {
                assert(c2[j] == ds[0]);
                assert(ds[0].id@ != ds[a + 1].id@);
            }
        }
        assert forall|a: int, b: int| 0 <= a < b < rest.len() implies rest[a].id@ != rest[b].id@ by {
            assert(rest[a] == ds[a + 1] && rest[b] == ds[b + 1]);
        }
        lemma_upsert_all_fresh(c2, rest);
        assert(upsert_all(c, ds) == upsert_all(upsert_one(c, ds[0]), rest));
        assert(c2 + rest =~= c + ds);
    }
}

proof fn lemma_upsert_all_snoc(c: Seq<SeriesDef>, ds: Seq<SeriesDef>, d: SeriesDef)
    ensures
        upsert_all(c, ds.push(d)) == upsert_one(upsert_all(c, ds), d),
    decreases ds.len(),
{
    if ds.len() == 0 {
        assert(ds.push(d)[0] == d);
        assert(ds.push(d).drop_first() =~= Seq::<SeriesDef>::empty());
        assert(upsert_all(c, ds.push(d)) == upsert_all(
            upsert_one(c, d),
            Seq::<SeriesDef>::empty(),
        ));
        assert(upsert_all(upsert_one(c, d), Seq::<SeriesDef>::empty()) == upsert_one(c, d));
        assert(upsert_all(c, ds) == c);
    } else {
        assert(ds.push(d)[0] == ds[0]);
        assert(ds.push(d).drop_first() =~= ds.drop_first().push(d));
        assert(upsert_all(c, ds.push(d)) == upsert_all(
            upsert_one(c, ds[0]),
            ds.drop_first().push(d),
        ));
        lemma_upsert_all_snoc(upsert_one(c, ds[0]), ds.drop_first(), d);
    }
}

proof fn lemma_range_filter_singleton(x: Record, from: u64, to: u64)
    ensures
        from <= x.timestamp <= to ==> range_filter(seq![x], from, to) == seq![x],
        !(from <= x.timestamp <= to) ==> range_filter(seq![x], from, to) == Seq::<
            Record,
        >::empty(),
{
    let s = seq![x];
    assert(s.drop_last() =~= Seq::<Record>::empty());
    assert(s.last() == x);
    assert(range_filter(Seq::<Record>::empty(), from, to) == Seq::<Record>::empty());
    if from <= x.timestamp <= to {
        assert(range_filter(s, from, to) =~= seq![x]);
    } else {
        assert(range_filter(s, from, to) =~= Seq::<Record>::empty());
    }
}

proof fn lemma_range_filter_all_out(s: Seq<Record>, from: u64, to: u64)
    requires
        forall|k: int| 0 <= k < s.len() ==> !(from <= (#[trigger] s[k]).timestamp <= to),
    ensures
        range_filter(s, from, to) == Seq::<Record>::empty(),
    decreases s.len(),
{
    if s.len() > 0 {
        lemma_range_filter_all_out(s.drop_last(), from, to);
        assert(range_filter(s, from, to) =~= Seq::<Record>::empty());
    }
}

proof fn lemma_range_filter_split(s1: Seq<Record>, s2: Seq<Record>, from: u64, to: u64)
    ensures
        range_filter(s1 + s2, from, to) == range_filter(s1, from, to) + range_filter(
            s2,
            from,
            to,
        ),
    decreases s2.len(),
{
    if s2.len() == 0 {
        assert(s1 + s2 =~= s1);
        assert(range_filter(s1, from, to) + range_filter(s2, from, to) =~= range_filter(
            s1,
            from,
            to,
        ));
    } else {
        assert((s1 + s2).drop_last() =~= s1 + s2.drop_last());
        assert((s1 + s2).last() == s2.last());
        lemma_range_filter_split(s1, s2.drop_last(), from, to);
        assert(range_filter(s1 + s2, from, to) =~= range_filter(s1, from, to) + range_filter(
            s2,
            from,
            to,
        ));
    }
}

proof fn lemma_point_range_of_insert(s: Seq<Record>, r: Record)
    requires
        sorted_by_time(s),
        !has_ts(s, r.timestamp),
    ensures
        range_filter(insert_by_time(s, r), r.timestamp, r.timestamp) == seq![r],
    decreases s.len(),
{
    let t = r.timestamp;
    assert forall|k: int| 0 <= k < s.len() implies !(t <= (#[trigger] s[k]).timestamp <= t) by {
        assert(s[k].timestamp != t);
    }
    if s.len() == 0 {
        assert(insert_by_time(s, r) == seq![r]);
        lemma_range_filter_singleton(r, t, t);
    } else if r.timestamp < s[0].timestamp {
        assert(insert_by_time(s, r) == seq![r] + s);
        lemma_range_filter_split(seq![r], s, t, t);
        lemma_range_filter_singleton(r, t, t);
        lemma_range_filter_all_out(s, t, t);
        assert(range_filter(insert_by_time(s, r), t, t) =~= seq![r]);
    } else {
        let rest = s.drop_first();
        assert(insert_by_time(s, r) == seq![s[0]] + insert_by_time(rest, r));
        assert forall|k: int| 0 <= k < rest.len() implies (#[trigger] rest[k]).timestamp != t by {
            assert(rest[k] == s[k + 1]);
            assert(s[k + 1].timestamp != t);
        }
        if has_ts(rest, t) {
            let w = choose|k: int| 0 <= k < rest.len() && rest[k].timestamp == t;
            assert(rest[w].timestamp != t);
        }
        lemma_point_range_of_insert(rest, r);
        lemma_range_filter_split(seq![s[0]], insert_by_time(rest, r), t, t);
        assert(s[0].timestamp != t);
        lemma_range_filter_singleton(s[0], t, t);
        assert(range_filter(insert_by_time(s, r), t, t) =~= seq![r]);
    }
}

/// Law: after appending a record `r` for a series that held no sample with
/// `r`'s timestamp, the point range query `[r.timestamp, r.timestamp]` for
/// that series returns exactly `r`, exactly once.
pub proof fn lemma_append_then_point_range(pre: Store, post: Store, id: Seq<char>, r: Record)
    requires
        pre.wf(),
        !has_ts(pre.samples_of(id), r.timestamp),
        post.samples_of(id) == insert_by_time(pre.samples_of(id), r),
    ensures
        range_filter(post.samples_of(id), r.timestamp, r.timestamp) == seq![r],
{
    pre.lemma_samples_sorted(id);
    lemma_point_range_of_insert(pre.samples_of(id), r);
}

/// Law: a catalog upsert may change what `series` lists, but every range
/// query reads the same samples before and after it.
pub proof fn lemma_upsert_preserves_ranges(
    pre: Store,
    post: Store,
    id: Seq<char>,
    from: u64,
    to: u64,
)
    requires
        forall|sid: Seq<char>| post.samples_of(sid) == pre.samples_of(sid),
    ensures
        range_filter(post.samples_of(id), from, to) == range_filter(pre.samples_of(id), from, to),
{
}

/// Inserts `record` into the time-ordered `samples`, rejecting a duplicate
/// timestamp and leaving the sequence unchanged in that case.
fn insert_record_vec(samples: &mut Vec<Record>, record: Record) -> (r: Result<(), StoreError>)
    requires
        sorted_by_time(old(samples)@),
    ensures
        r is Ok <==> !has_ts(old(samples)@, record.timestamp),
        r matches Err(e) ==> e == StoreError::DuplicateRecord && final(samples)@ == old(samples)@,
        r is Ok ==> final(samples)@ == insert_by_time(old(samples)@, record),
        sorted_by_time(final(samples)@),
{
    let n = samples.len();
    let mut pos: usize = 0;
    while pos < n && samples[pos].timestamp < record.timestamp
        invariant
            sorted_by_time(samples@),
            *samples == *old(samples),
            n == samples@.len(),
            0 <= pos <= n,
            forall|j: int| 0 <= j < pos ==> samples@[j].timestamp < record.timestamp,
        decreases n - pos,
    {
        pos += 1;
    }
    if pos < n && samples[pos].timestamp == record.timestamp {
        proof {
            assert(has_ts(samples@, record.timestamp));
        }
        return Err(StoreError::DuplicateRecord);
    }
    proof {
        if has_ts(old(samples)@, record.timestamp) {
            let j = choose|j: int|
                0 <= j < samples@.len() && samples@[j].timestamp == record.timestamp;
            if j < pos {
                assert(samples@[j].timestamp < record.timestamp);
            } else if j > pos {
                assert(pos < samples@.len());
                assert(samples@[pos as int].timestamp < samples@[j].timestamp);
            }
            assert(false);
        }
        lemma_insert_by_time_at(samples@, record, pos as int);
    }
    samples.insert(pos, record);
    Ok(())
}

/// All samples of one series, oldest first.
#[derive(Debug)]
struct SeriesSamples {
    id: String,
    samples: Vec<Record>,
}

/// The store: the series catalog and, per series, its time-ordered samples.
#[derive(Debug)]
pub struct Store {
    catalog: Vec<SeriesDef>,
    data: Vec<SeriesSamples>,
}

/// Two stores whose data differ at most at entry `i`, whose entry `i` is not
/// the series `other`, hold the same samples for `other`.
proof fn lemma_frame_except(pre: Store, post: Store, i: int, other: Seq<char>)
    requires
        pre.data_wf(),
        post.data_wf(),
        pre.data@.len() <= post.data@.len(),
        0 <= i < post.data@.len(),
        forall|k: int|
            0 <= k < post.data@.len() && k != i ==> k < pre.data@.len() && post.data@[k]
                == pre.data@[k],
        post.data@[i].id@ != other,
        i < pre.data@.len() ==> pre.data@[i].id@ == post.data@[i].id@,
    ensures
        post.samples_of(other) == pre.samples_of(other),
{
    if pre.has_data(other) {
        let k = pre.data_index(other);
        assert(0 <= k < pre.data@.len() && pre.data@[k].id@ == other);
        assert(k != i);
        pre.lemma_data_index_is(other, k);
        post.lemma_data_index_is(other, k);
    } else {
        if post.has_data(other) {
            let j = post.data_index(other);
            assert(0 <= j < post.data@.len() && post.data@[j].id@ == other);
            assert(j != i);
            assert(pre.data@[j].id@ == other);
        }
        assert(!post.has_data(other));
    }
}

impl Store {
    /// The persisted catalog, in insertion order.
    pub closed spec fn catalog_view(self) -> Seq<SeriesDef> {
        self.catalog@
    }

    spec fn has_data(self, id: Seq<char>) -> bool {
        exists|i: int| 0 <= i < self.data@.len() && self.data@[i].id@ == id
    }

    spec fn data_index(self, id: Seq<char>) -> int {
        choose|i: int| 0 <= i < self.data@.len() && self.data@[i].id@ == id
    }

    /// All samples stored for the series named `id`, oldest first.
    pub closed spec fn samples_of(self, id: Seq<char>) -> Seq<Record> {
        if self.has_data(id) {
            self.data@[self.data_index(id)].samples@
        } else {
            Seq::<Record>::empty()
        }
    }

    spec fn data_wf(self) -> bool {
        &&& forall|i: int, j: int|
            0 <= i < j < self.data@.len() ==> self.data@[i].id@ != self.data@[j].id@
        &&& forall|i: int|
            0 <= i < self.data@.len() ==> sorted_by_time(#[trigger] self.data@[i].samples@)
    }

    spec fn catalog_wf(self) -> bool {
        forall|i: int, j: int|
            0 <= i < j < self.catalog@.len() ==> self.catalog@[i].id@ != self.catalog@[j].id@
    }

    /// Well-formedness: ids are unique in the catalog and in the data, and
    /// every series' samples are in strictly increasing timestamp order.
    pub closed spec fn wf(self) -> bool {
        self.data_wf() && self.catalog_wf()
    }

    proof fn lemma_data_index_is(self, id: Seq<char>, i: int)
        requires
            self.data_wf(),
            0 <= i < self.data@.len(),
            self.data@[i].id@ == id,
        ensures
            self.has_data(id),
            self.data_index(id) == i,
            self.samples_of(id) == self.data@[i].samples@,
    {
        assert(self.has_data(id));
        let j = self.data_index(id);
        assert(0 <= j < self.data@.len() && self.data@[j].id@ == id);
        if i < j {
            assert(self.data@[i].id@ != self.data@[j].id@);
        } else if j < i {
            assert(self.data@[j].id@ != self.data@[i].id@);
        }
    }

    proof fn lemma_same_data_same_samples(self, other: Store)
        requires
            self.data@ == other.data@,
            self.data_wf(),
        ensures
            forall|id: Seq<char>| self.samples_of(id) == other.samples_of(id),
    {
        assert forall|id: Seq<char>| self.samples_of(id) == other.samples_of(id) by {
            if self.has_data(id) {
                let i = self.data_index(id);
                assert(0 <= i < self.data@.len() && self.data@[i].id@ == id);
                self.lemma_data_index_is(id, i);
                other.lemma_data_index_is(id, i);
            } else {
                if other.has_data(id) {
                    let i = other.data_index(id);
                    assert(0 <= i < self.data@.len() && self.data@[i].id@ == id);
                }
                assert(!other.has_data(id));
            }
        }
    }

    /// In a well-formed store every series' samples are time-ordered.
    pub proof fn lemma_samples_sorted(self, id: Seq<char>)
        requires
            self.wf(),
        ensures
            sorted_by_time(self.samples_of(id)),
    {
        if self.has_data(id) {
            let i = self.data_index(id);
            assert(0 <= i < self.data@.len() && self.data@[i].id@ == id);
            assert(sorted_by_time(self.data@[i].samples@));
        }
    }

    /// A fresh store: empty catalog, no samples for any series.
    pub fn new() -> (r: Store)
        ensures
            r.wf(),
            r.catalog_view() == Seq::<SeriesDef>::empty(),
            forall|id: Seq<char>| r.samples_of(id) == Seq::<Record>::empty(),
    {
        let r = Store { catalog: Vec::new(), data: Vec::new() };
        proof {
            assert forall|id: Seq<char>| r.samples_of(id) == Seq::<Record>::empty() by {
                assert(!r.has_data(id));
            }
        }
        r
    }

    fn find_data(&self, series: &str) -> (r: Option<usize>)
        requires
            self.wf(),
        ensures
            r is Some <==> self.has_data(series@),
            r matches Some(i) ==> 0 <= i < self.data@.len() && self.data@[i as int].id@
                == series@ && self.data_index(series@) == i,
    {
        let key: String = series.to_owned();
        let n = self.data.len();
        let mut i: usize = 0;
        while i < n
            invariant
                self.wf(),
                n == self.data@.len(),
                key@ == series@,
                0 <= i <= n,
                forall|j: int| 0 <= j < i ==> self.data@[j].id@ != series@,
            decreases n - i,
        {
            if self.data[i].id == key {
                proof {
                    self.lemma_data_index_is(series@, i as int);
                }
                return Some(i);
            }
            i += 1;
        }
        proof {
            if self.has_data(series@) {
                let j = self.data_index(series@);
                assert(0 <= j < self.data@.len() && self.data@[j].id@ == series@);
            }
        }
        None
    }

    /// Appends one immutable fact for `series`. A record whose timestamp is
    /// already present for that series is rejected with `DuplicateRecord` and
    /// the store is left unchanged; otherwise the record takes its place in
    /// timestamp order. Samples of every other series are untouched.
    pub fn save(&mut self, record: Record, series: &str) -> (r: Result<(), StoreError>)
        requires
            old(self).wf(),
        ensures
            final(self).wf(),
            final(self).catalog_view() == old(self).catalog_view(),
            r is Ok <==> !has_ts(old(self).samples_of(series@), record.timestamp),
            r matches Err(e) ==> e == StoreError::DuplicateRecord && final(self).samples_of(
                series@,
            ) == old(self).samples_of(series@),
            r is Ok ==> final(self).samples_of(series@) == insert_by_time(
                old(self).samples_of(series@),
                record,
            ),
            forall|other: Seq<char>|
                other != series@ ==> final(self).samples_of(other) == old(self).samples_of(other),
    {
        match self.find_data(series) {
            Some(i) => {
                proof {
                    old(self).lemma_data_index_is(series@, i as int);
                }
                let res = insert_record_vec(&mut self.data[i].samples, record);
                proof {
                    assert(self.data@[i as int].id@ == series@);
                    assert forall|k: int| 0 <= k < self.data@.len() implies sorted_by_time(
                        #[trigger] self.data@[k].samples@,
                    ) by {
                        if k != i {
                            assert(self.data@[k] == old(self).data@[k]);
                        }
                    }
                    self.lemma_data_index_is(series@, i as int);
                    assert forall|other: Seq<char>|
                        other != series@ implies self.samples_of(other) == old(self).samples_of(
                        other,
                    ) by {
                        lemma_frame_except(*old(self), *self, i as int, other);
                    }
                }
                res
            },
            None => {
                let mut samples: Vec<Record> = Vec::new();
                samples.push(record);
                let entry = SeriesSamples { id: series.to_owned(), samples };
                let ghost n: int = self.data@.len() as int;
                self.data.push(entry);
                proof {
                    assert(old(self).samples_of(series@) =~= Seq::<Record>::empty());
                    assert(!has_ts(old(self).samples_of(series@), record.timestamp));
                    assert forall|a: int, b: int| 0 <= a < b < self.data@.len() implies self
                        .data@[a].id@ != self.data@[b].id@ by {
                        if b == n {
                            if self.data@[a].id@ == series@ {
                                assert(old(self).data@[a].id@ == series@);
                            }
                        }
                    }
                    assert forall|k: int| 0 <= k < self.data@.len() implies sorted_by_time(
                        #[trigger] self.data@[k].samples@,
                    ) by {
                        if k < n {
                            assert(self.data@[k] == old(self).data@[k]);
                        }
                    }
                    self.lemma_data_index_is(series@, n);
                    assert(self.samples_of(series@) =~= insert_by_time(
                        old(self).samples_of(series@),
                        record,
                    ));
                    assert forall|other: Seq<char>|
                        other != series@ implies self.samples_of(other) == old(self).samples_of(
                        other,
                    ) by {
                        lemma_frame_except(*old(self), *self, n, other);
                    }
                }
                Ok(())
            },
        }
    }

    /// Fetches the samples of `series` whose timestamps lie in the inclusive
    /// range `[from, to]`, oldest first. A range whose lower bound exceeds its
    /// upper bound is an explicit error, never an empty result.
    pub fn fetch(&self, series: &str, from: u64, to: u64) -> (r: Result<Vec<Record>, StoreError>)
        requires
            self.wf(),
        ensures
            r is Err <==> from > to,
            r matches Err(e) ==> e == StoreError::InvalidRange,
            r matches Ok(v) ==> v@ == range_filter(self.samples_of(series@), from, to),
    {
        if from > to {
            return Err(StoreError::InvalidRange);
        }
        let mut out: Vec<Record> = Vec::new();
        match self.find_data(series) {
            None => {
                proof {
                    assert(self.samples_of(series@) =~= Seq::<Record>::empty());
                }
                Ok(out)
            },
            Some(i) => {
                let samples = &self.data[i].samples;
                let n = samples.len();
                let mut k: usize = 0;
                while k < n
                    invariant
                        n == samples@.len(),
                        0 <= k <= n,
                        out@ == range_filter(samples@.take(k as int), from, to),
                    decreases n - k,
                {
                    let rec = samples[k];
                    proof {
                        assert(samples@.take(k + 1 as int).drop_last() =~= samples@.take(k as int));
                        assert(samples@.take(k + 1 as int).last() == samples@[k as int]);
                    }
                    if from <= rec.timestamp && rec.timestamp <= to {
                        out.push(rec);
                    }
                    k += 1;
                }
                proof {
                    assert(samples@.take(n as int) =~= samples@);
                    assert(self.samples_of(series@) == samples@);
                }
                Ok(out)
            },
        }
    }

    /// The most recent sample of `series`, or the distinct not-found outcome
    /// `None` when the series has no samples yet.
    pub fn latest(&self, series: &str) -> (r: Option<Record>)
        requires
            self.wf(),
        ensures
            r is None <==> self.samples_of(series@).len() == 0,
            r matches Some(rec) ==> rec == self.samples_of(series@).last() && forall|k: int|
                0 <= k < self.samples_of(series@).len() ==> (#[trigger] self.samples_of(
                    series@,
                )[k]).timestamp <= rec.timestamp,
    {
        match self.find_data(series) {
            None => {
                proof {
                    assert(self.samples_of(series@) =~= Seq::<Record>::empty());
                }
                None
            },
            Some(i) => {
                let samples = &self.data[i].samples;
                if samples.len() == 0 {
                    None
                } else {
                    let rec = samples[samples.len() - 1];
                    proof {
                        let s = self.samples_of(series@);
                        assert(sorted_by_time(s));
                        assert forall|k: int| 0 <= k < s.len() implies (#[trigger] s[k]).timestamp
                            <= rec.timestamp by {
                            if k < s.len() - 1 {
                                assert(s[k].timestamp < s[s.len() - 1].timestamp);
                            }
                        }
                    }
                    Some(rec)
                }
            },
        }
    }

    /// The catalog entries, in insertion order.
    pub fn series(&self) -> (r: Vec<SeriesDef>)
        ensures
            r@ == self.catalog_view(),
    {
        let mut out: Vec<SeriesDef> = Vec::new();
        let n = self.catalog.len();
        let mut i: usize = 0;
        while i < n
            invariant
                n == self.catalog@.len(),
                0 <= i <= n,
                out@ == self.catalog@.take(i as int),
            decreases n - i,
        {
            out.push(self.catalog[i].duplicate());
            proof {
                assert(self.catalog@.take(i + 1 as int) =~= self.catalog@.take(i as int).push(
                    self.catalog@[i as int],
                ));
            }
            i += 1;
        }
        proof {
            assert(self.catalog@.take(n as int) =~= self.catalog@);
        }
        out
    }

    fn upsert_entry(&mut self, d: &SeriesDef)
        requires
            old(self).wf(),
        ensures
            final(self).wf(),
            final(self).catalog@ == upsert_one(old(self).catalog@, *d),
            final(self).data@ == old(self).data@,
    {
        let n = self.catalog.len();
        let mut i: usize = 0;
        while i < n
            invariant
                self.wf(),
                *self == *old(self),
                n == self.catalog@.len(),
                0 <= i <= n,
                forall|j: int| 0 <= j < i ==> self.catalog@[j].id@ != d.id@,
            decreases n - i,
        {
            if self.catalog[i].id == d.id {
                self.catalog[i] = d.duplicate();
                proof {
                    lemma_upsert_one_found(old(self).catalog@, *d, i as int);
                    assert forall|a: int, b: int| 0 <= a < b < self.catalog@.len() implies self
                        .catalog@[a].id@ != self.catalog@[b].id@ by {
                        assert(self.catalog@[a].id@ == old(self).catalog@[a].id@);
                        assert(self.catalog@[b].id@ == old(self).catalog@[b].id@);
                    }
                }
                return ;
            }
            i += 1;
        }
        self.catalog.push(d.duplicate());
        proof {
            lemma_upsert_one_absent(old(self).catalog@, *d);
            assert forall|a: int, b: int| 0 <= a < b < self.catalog@.len() implies self.catalog@[
                a
            ].id@ != self.catalog@[b].id@ by {
                if b < self.catalog@.len() - 1 {
                    assert(old(self).catalog@[a].id@ != old(self).catalog@[b].id@);
                }
            }
        }
    }

    /// Reconciles the catalog with the configured series: for each given
    /// entry, inserts it if its id is new, else overwrites that id's display
    /// metadata. Historical samples are never touched.
    pub fn update_series(&mut self, defs: &Vec<SeriesDef>)
        requires
            old(self).wf(),
        ensures
            final(self).wf(),
            final(self).catalog_view() == upsert_all(old(self).catalog_view(), defs@),
            forall|id: Seq<char>| final(self).samples_of(id) == old(self).samples_of(id),
    {
        let n = defs.len();
        let mut k: usize = 0;
        while k < n
            invariant
                self.wf(),
                n == defs@.len(),
                0 <= k <= n,
                self.catalog@ == upsert_all(old(self).catalog@, defs@.take(k as int)),
                self.data@ == old(self).data@,
            decreases n - k,
        {
            self.upsert_entry(&defs[k]);
            proof {
                assert(defs@.take(k + 1 as int) =~= defs@.take(k as int).push(defs@[k as int]));
                lemma_upsert_all_snoc(old(self).catalog@, defs@.take(k as int), defs@[k as int]);
            }
            k += 1;
        }
        proof {
            assert(defs@.take(n as int) =~= defs@);
            self.lemma_same_data_same_samples(*old(self));
        }
    }

    /// Replays one on-disk row: each present value column becomes a sample
    /// of the series at that catalog position, with an already-stored
    /// timestamp left as it is, so replaying is idempotent. Series outside
    /// the catalog are untouched.
    pub fn load_row(&mut self, row: &SegmentRow)
        requires
            old(self).wf(),
            row.values@.len() == old(self).catalog_view().len(),
        ensures
            final(self).wf(),
            final(self).catalog_view() == old(self).catalog_view(),
            forall|c: int|
                0 <= c < old(self).catalog_view().len() ==> final(self).samples_of(
                    (#[trigger] old(self).catalog_view()[c]).id@,
                ) == loaded_samples(
                    old(self).samples_of(old(self).catalog_view()[c].id@),
                    row.timestamp,
                    row.values@[c],
                ),
            forall|id: Seq<char>|
                !catalog_has(old(self).catalog_view(), id) ==> final(self).samples_of(id) == old(
                    self,
                ).samples_of(id),
    {
        let n = self.catalog.len();
        let mut c: usize = 0;
        while c < n
            invariant
                self.wf(),
                n == self.catalog@.len(),
                0 <= c <= n,
                row.values@.len() == n,
                self.catalog@ == old(self).catalog@,
                forall|cc: int|
                    0 <= cc < c ==> self.samples_of((#[trigger] old(self).catalog@[cc]).id@)
                        == loaded_samples(
                        old(self).samples_of(old(self).catalog@[cc].id@),
                        row.timestamp,
                        row.values@[cc],
                    ),
                forall|cc: int|
                    c <= cc < n ==> self.samples_of((#[trigger] old(self).catalog@[cc]).id@) == old(
                        self,
                    ).samples_of(old(self).catalog@[cc].id@),
                forall|id: Seq<char>|
                    !catalog_has(old(self).catalog@, id) ==> self.samples_of(id) == old(
                        self,
                    ).samples_of(id),
            decreases n - c,
        {
            let id = self.catalog[c].id.clone();
            match &row.values[c] {
                Some(bits) => {
                    let rec = Record { timestamp: row.timestamp, value_bits: *bits };
                    let ghost mid = *self;
                    let _ = self.save(rec, id.as_str());
                    proof {
                        assert forall|cc: int|
                            0 <= cc < n && cc != c implies self.samples_of(
                            (#[trigger] old(self).catalog@[cc]).id@,
                        ) == mid.samples_of(old(self).catalog@[cc].id@) by {
                            assert(old(self).catalog@[cc].id@ != old(self).catalog@[
                                c as int
                            ].id@) by {
                                if cc < c {
                                    assert(old(self).catalog@[cc].id@ != old(self).catalog@[
                                        c as int
                                    ].id@);
                                }
                            }
                        }
                        assert forall|id2: Seq<char>|
                            !catalog_has(old(self).catalog@, id2) implies self.samples_of(id2)
                            == mid.samples_of(id2) by {
                            assert(id2 != old(self).catalog@[c as int].id@);
                        }
                        assert(self.samples_of(old(self).catalog@[c as int].id@)
                            == loaded_samples(
                            old(self).samples_of(old(self).catalog@[c as int].id@),
                            row.timestamp,
                            row.values@[c as int],
                        ));
                    }
                },
                None => {},
            }
            c += 1;
        }
    }

    /// The position of `series` in the catalog, used as its value column in
    /// the on-disk row encoding.
    pub fn series_index(&self, series: &str) -> (r: Option<usize>)
        ensures
            r matches Some(i) ==> 0 <= i < self.catalog_view().len() && self.catalog_view()[
                i as int
            ].id@ == series@ && (forall|j: int|
                0 <= j < i ==> self.catalog_view()[j].id@ != series@),
            r is None ==> forall|j: int|
                0 <= j < self.catalog_view().len() ==> self.catalog_view()[j].id@ != series@,
    {
        let key: String = series.to_owned();
        let n = self.catalog.len();
        let mut i: usize = 0;
        while i < n
            invariant
                n == self.catalog@.len(),
                key@ == series@,
                0 <= i <= n,
                forall|j: int| 0 <= j < i ==> self.catalog@[j].id@ != series@,
            decreases n - i,
        {
            if self.catalog[i].id == key {
                return Some(i);
            }
            i += 1;
        }
        None
    }
}

} // verus!
