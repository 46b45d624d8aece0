//! The on-disk layout of the store: per-time-window flat segments.
//!
//! Samples live in segment files named by the segment's start timestamp; a
//! new segment starts once the current one is older than the rotation
//! period. Each record is one flat text line: the timestamp, then one value
//! column per catalog series, ';'-separated, an empty field for a missing
//! value. Rows written with fewer columns by an older configuration still
//! parse: short rows are padded with missing values, never rejected.
//!
//! Everything here is pure: the driver layer lists, opens and appends the
//! actual files and hands the names and lines through these functions.
use vstd::prelude::*;

use crate::digits::{all_digits, digits_value, parse_u64, u64_digits, u64_to_string};

verus! {

/// Segment start timestamps in strictly increasing order, as a directory
/// listing of segment files yields them once sorted.
pub open spec fn sorted_starts(s: Seq<u64>) -> bool {
    forall|i: int, j: int| 0 <= i < j < s.len() ==> s[i] < s[j]
}

/// The position splitting starts `<= x` from starts `> x`.
fn partition_point_le(starts: &Vec<u64>, x: u64) -> (r: usize)
    requires
        sorted_starts(starts@),
    ensures
        r <= starts@.len(),
        forall|i: int| 0 <= i < r ==> starts@[i] <= x,
        forall|i: int| r <= i < starts@.len() ==> starts@[i] > x,
{
    let mut lo: usize = 0;
    let mut hi: usize = starts.len();
    while lo < hi
        invariant
            sorted_starts(starts@),
            0 <= lo <= hi <= starts@.len(),
            forall|i: int| 0 <= i < lo ==> starts@[i] <= x,
            forall|i: int| hi <= i < starts@.len() ==> starts@[i] > x,
        decreases hi - lo,
    {
        let mid = lo + (hi - lo) / 2;
        if starts[mid] <= x {
            proof {
                assert forall|i: int| 0 <= i < mid + 1 implies starts@[i] <= x by {
                    if i < mid {
                        assert(starts@[i] < starts@[mid as int]);
                    }
                }
            }
            lo = mid + 1;
        } else {
            proof {
                assert forall|i: int| mid <= i < starts@.len() implies starts@[i] > x by {
                    if i > mid {
                        assert(starts@[mid as int] < starts@[i]);
                    }
                }
            }
            hi = mid;
        }
    }
    lo
}

/// The contiguous slice of segments a range query must scan: `r.0` is the
/// first segment that can hold a record at or after `from`, `r.1` the first
/// that starts after `to`. Only segments in `[r.0, r.1)` are read.
pub fn select_segments(starts: &Vec<u64>, from: u64, to: u64) -> (r: (usize, usize))
    requires
        sorted_starts(starts@),
        from <= to,
    ensures
        r.0 <= r.1 <= starts@.len(),
        forall|i: int| 0 <= i < r.1 ==> starts@[i] <= to,
        forall|i: int| r.1 <= i < starts@.len() ==> starts@[i] > to,
        forall|i: int| 0 <= i < r.0 ==> #[trigger] starts@[i + 1] <= from,
        forall|i: int| r.0 < i < starts@.len() ==> starts@[i] > from,
{
    let pf = partition_point_le(starts, from);
    let pt = partition_point_le(starts, to);
    let begin = if pf == 0 {
        0
    } else {
        pf - 1
    };
    proof {
        assert forall|i: int| begin < i < starts@.len() implies starts@[i] > from by {}
        assert forall|i: int| 0 <= i < begin implies #[trigger] starts@[i + 1] <= from by {}
        assert(begin <= pt) by {
            if begin > pt {
                assert(starts@[begin as int] <= from);
                assert(starts@[begin as int] > to);
            }
        }
    }
    (begin, pt)
}

/// Law: the selected slice covers every record in range — a record with
/// timestamp `ts` in `[from, to]` living in segment `i` (which holds the
/// records from its start up to the next segment's start) lies in the
/// scanned slice.
pub proof fn lemma_segment_selection_covers(
    starts: Seq<u64>,
    begin: int,
    end: int,
    from: u64,
    to: u64,
    i: int,
    ts: u64,
)
    requires
        begin <= end <= starts.len(),
        forall|k: int| end <= k < starts.len() ==> starts[k] > to,
        forall|k: int| 0 <= k < begin ==> #[trigger] starts[k + 1] <= from,
        begin == 0 || begin < starts.len(),
        0 <= i < starts.len(),
        starts[i] <= ts,
        i + 1 < starts.len() ==> ts < starts[i + 1],
        from <= ts <= to,
    ensures
        begin <= i < end,
{
    if i >= end {
        assert(starts[i] > to);
    }
    if i < begin {
        assert(starts[i + 1] <= from);
    }
}

/// The segment to continue appending to on startup: the most recent
/// existing segment when it is still inside the rotation period, else a new
/// segment starting now.
pub fn resume_segment_start(existing: &Vec<u64>, now: u64, rotation_secs: u64) -> (r: u64)
    requires
        sorted_starts(existing@),
        forall|i: int| 0 <= i < existing@.len() ==> existing@[i] <= now,
    ensures
        r == ({
            let n = existing@.len();
            if n > 0 && now - existing@[n - 1] < rotation_secs {
                existing@[n - 1]
            } else {
                now
            }
        }),
{
    let n = existing.len();
    if n == 0 {
        return now;
    }
    let last = existing[n - 1];
    if now - last < rotation_secs {
        last
    } else {
        now
    }
}

/// What to do with the current segment before an append.
#[derive(Debug, Clone, Copy, PartialEq, Eq, Structural)]
pub enum RotationDecision {
    /// The current segment is still within the rotation period.
    Keep,
    /// Start a new segment with this start timestamp.
    StartNew(u64),
    /// A segment with the new start timestamp already exists: a fatal
    /// inconsistency under the single-writer assumption, never overwritten.
    AlreadyExists(u64),
}

/// Decides rotation: a new segment starts once the current one is strictly
/// older than the rotation period; an existing segment with the new start
/// timestamp is detected, not overwritten.
pub fn rotation_decision(
    existing: &Vec<u64>,
    current_start: u64,
    now: u64,
    rotation_secs: u64,
) -> (r: RotationDecision)
    requires
        current_start <= now,
    ensures
        now - current_start <= rotation_secs ==> r == RotationDecision::Keep,
        now - current_start > rotation_secs ==> (if existing@.contains(now) {
            r == RotationDecision::AlreadyExists(now)
        } else {
            r == RotationDecision::StartNew(now)
        }),
{
    if now - current_start <= rotation_secs {
        return RotationDecision::Keep;
    }
    let n = existing.len();
    let mut i: usize = 0;
    while i < n
        invariant
            current_start <= now,
            now - current_start > rotation_secs,
            n == existing@.len(),
            0 <= i <= n,
            forall|j: int| 0 <= j < i ==> existing@[j] != now,
        decreases n - i,
    {
        if existing[i] == now {
            return RotationDecision::AlreadyExists(now);
        }
        i += 1;
    }
    proof {
        if existing@.contains(now) {
            let j = choose|j: int| 0 <= j < existing@.len() && existing@[j] == now;
            assert(existing@[j] != now);
        }
    }
    RotationDecision::StartNew(now)
}

/// The file name of the segment starting at `start`: its start timestamp
/// and the ".csv" suffix.
pub fn segment_file_name(start: u64) -> (r: String)
    ensures
        r@ == u64_digits(start as nat) + ".csv"@,
{
    let mut name = u64_to_string(start);
    name.append(".csv");
    name
}

/// The number a segment file name denotes: the stem before the ".csv"
/// suffix read as an unsigned decimal, with leading zeros and an optional
/// leading '+' accepted, as a listing may hold hand-written names.
pub open spec fn segment_name_value(name: Seq<char>) -> Option<u64> {
    if name.len() >= 5 && name.skip(name.len() - 4) == ".csv"@ {
        let stem = name.take(name.len() - 4);
        let digits = if stem[0] == '+' {
            stem.drop_first()
        } else {
            stem
        };
        if digits.len() > 0 && all_digits(digits) && digits_value(digits) <= u64::MAX {
            Some(digits_value(digits) as u64)
        } else {
            None
        }
    } else {
        None
    }
}

/// The segment start a file name denotes, or `None` for any file that is
/// not a segment.
pub fn parse_segment_file_name(name: &str) -> (r: Option<u64>)
    ensures
        r == segment_name_value(name@),
{
    let n = name.unicode_len();
    if n < 5 {
        proof {
            reveal_strlit(".csv");
        }
        return None;
    }
    let suffix = name.substring_char(n - 4, n);
    proof {
        assert(name@.skip(n - 4 as int) =~= suffix@);
    }
    if !suffix_is_csv(suffix) {
        return None;
    }
    let stem = name.substring_char(0, n - 4);
    proof {
        assert(name@.take(n - 4 as int) =~= stem@);
    }
    if stem.get_char(0) == '+' {
        let digits_part = stem.substring_char(1, n - 4);
        proof {
            assert(digits_part@ =~= stem@.drop_first());
        }
        parse_u64(digits_part)
    } else {
        parse_u64(stem)
    }
}

/// Law: the file name written for a segment start reads back as exactly
/// that start.
pub proof fn lemma_segment_name_round_trip(start: u64)
    ensures
        segment_name_value(u64_digits(start as nat) + ".csv"@) == Some(start),
{
    reveal_strlit(".csv");
    crate::digits::lemma_digits_round_trip(start);
    let digits = u64_digits(start as nat);
    let name = digits + ".csv"@;
    assert(name.skip(name.len() - 4) =~= ".csv"@);
    assert(name.take(name.len() - 4) =~= digits);
    assert(crate::digits::is_digit(digits[0]));
    assert(digits[0] != '+');
}

/// Whether `s` is exactly ".csv".
fn suffix_is_csv(s: &str) -> (r: bool)
    ensures
        r == (s@ == ".csv"@),
{
    proof {
        reveal_strlit(".csv");
    }
    let n = s.unicode_len();
    if n != 4 {
        proof {
            assert(s@ != ".csv"@);
        }
        return false;
    }
    let r = s.get_char(0) == '.' && s.get_char(1) == 'c' && s.get_char(2) == 's' && s.get_char(3)
        == 'v';
    proof {
        if r {
            assert(s@ =~= ".csv"@);
        }
    }
    r
}

/// One parsed on-disk record: a timestamp and one optional value column per
/// catalog series.
pub struct SegmentRow {
    pub timestamp: u64,
    /// Per column, the stored value's bit pattern, or `None` for an empty
    /// (missing) field.
    pub values: Vec<Option<u64>>,
}

/// The characters of one value field: the value's digit run, or nothing for
/// a missing value.
pub open spec fn field_chars(v: Option<u64>) -> Seq<char> {
    match v {
        Some(b) => u64_digits(b as nat),
        None => Seq::<char>::empty(),
    }
}

/// The characters of one record line: the timestamp, then each value column
/// behind its ';' delimiter.
pub open spec fn row_chars(ts: u64, values: Seq<Option<u64>>) -> Seq<char>
    decreases values.len(),
{
    if values.len() == 0 {
        u64_digits(ts as nat)
    } else {
        row_chars(ts, values.drop_last()) + seq![';'] + field_chars(values.last())
    }
}

/// Writes one record line: the timestamp, then one ';'-prefixed field per
/// column, an empty field for a missing value.
pub fn encode_row(timestamp: u64, values: &Vec<Option<u64>>) -> (r: String)
    ensures
        r@ == row_chars(timestamp, values@),
{
    proof {
        reveal_strlit(";");
    }
    let mut line = u64_to_string(timestamp);
    let n = values.len();
    let mut i: usize = 0;
    while i < n
        invariant
            n == values@.len(),
            0 <= i <= n,
            line@ == row_chars(timestamp, values@.take(i as int)),
        decreases n - i,
    {
        proof {
            reveal_strlit(";");
            assert(values@.take(i + 1 as int).drop_last() =~= values@.take(i as int));
            assert(values@.take(i + 1 as int).last() == values@[i as int]);
        }
        line.append(";");
        match &values[i] {
            Some(b) => {
                let t = u64_to_string(*b);
                line.append(t.as_str());
            },
            None => {},
        }
        proof {
            assert(line@ =~= row_chars(timestamp, values@.take(i + 1 as int)));
        }
        i += 1;
    }
    proof {
        assert(values@.take(n as int) =~= values@);
    }
    line
}

/// The value columns' characters: each field behind its ';' delimiter.
spec fn columns_chars(values: Seq<Option<u64>>) -> Seq<char>
    decreases values.len(),
{
    if values.len() == 0 {
        Seq::<char>::empty()
    } else {
        columns_chars(values.drop_last()) + seq![';'] + field_chars(values.last())
    }
}

proof fn lemma_row_chars_split(ts: u64, values: Seq<Option<u64>>)
    ensures
        row_chars(ts, values) == u64_digits(ts as nat) + columns_chars(values),
    decreases values.len(),
{
    if values.len() == 0 {
        assert(row_chars(ts, values) =~= u64_digits(ts as nat) + columns_chars(values));
    } else {
        lemma_row_chars_split(ts, values.drop_last());
        assert(row_chars(ts, values) =~= u64_digits(ts as nat) + columns_chars(values));
    }
}

/// No character of `s` is the field delimiter.
spec fn no_semi(s: Seq<char>) -> bool {
    forall|i: int| 0 <= i < s.len() ==> (#[trigger] s[i]) != ';'
}

proof fn lemma_field_chars_no_semi(v: Option<u64>)
    ensures
        no_semi(field_chars(v)),
{
    if v is Some {
        let b = v->Some_0;
        crate::digits::lemma_digits_round_trip(b);
        assert forall|i: int|
            0 <= i < field_chars(v).len() implies (#[trigger] field_chars(v)[i]) != ';' by {
            assert(crate::digits::is_digit(field_chars(v)[i]));
        }
    }
}

proof fn lemma_split_solo(x: Seq<char>)
    requires
        no_semi(x),
    ensures
        split_fields(x) == seq![x],
{
    lemma_first_semi_at(x, x.len() as int);
}

proof fn lemma_split_concat(x: Seq<char>, rest: Seq<char>)
    requires
        no_semi(x),
    ensures
        split_fields(x + seq![';'] + rest) == seq![x] + split_fields(rest),
{
    let s = x + seq![';'] + rest;
    assert forall|j: int| 0 <= j < x.len() implies s[j] != ';' by {
        assert(s[j] == x[j]);
    }
    assert(s[x.len() as int] == ';');
    lemma_first_semi_at(s, x.len() as int);
    assert(s.take(x.len() as int) =~= x);
    assert(s.skip(x.len() as int + 1) =~= rest);
}

proof fn lemma_columns_chars_front(values: Seq<Option<u64>>)
    requires
        values.len() > 0,
    ensures
        columns_chars(values) == seq![';'] + field_chars(values[0]) + columns_chars(
            values.drop_first(),
        ),
    decreases values.len(),
{
    if values.len() == 1 {
        assert(values.drop_last() =~= Seq::<Option<u64>>::empty());
        assert(values.drop_first() =~= Seq::<Option<u64>>::empty());
        assert(values.last() == values[0]);
        assert(columns_chars(values) =~= seq![';'] + field_chars(values[0]) + columns_chars(
            values.drop_first(),
        ));
    } else {
        let dl = values.drop_last();
        lemma_columns_chars_front(dl);
        assert(dl[0] == values[0]);
        assert(dl.drop_first() =~= values.drop_first().drop_last());
        assert(values.drop_first().last() == values.last());
        assert(columns_chars(values.drop_first()) == columns_chars(values.drop_first().drop_last())
            + seq![';'] + field_chars(values.last()));
        assert(columns_chars(values) =~= seq![';'] + field_chars(values[0]) + columns_chars(
            values.drop_first(),
        ));
    }
}

proof fn lemma_split_of_columns(x: Seq<char>, values: Seq<Option<u64>>)
    requires
        no_semi(x),
    ensures
        split_fields(x + columns_chars(values)) == seq![x] + values.map_values(
            |v: Option<u64>| field_chars(v),
        ),
    decreases values.len(),
{
    let fields = values.map_values(|v: Option<u64>| field_chars(v));
    if values.len() == 0 {
        assert(x + columns_chars(values) =~= x);
        lemma_split_solo(x);
        assert(seq![x] + fields =~= seq![x]);
    } else {
        lemma_columns_chars_front(values);
        let rest = field_chars(values[0]) + columns_chars(values.drop_first());
        assert(x + columns_chars(values) =~= x + seq![';'] + rest);
        lemma_split_concat(x, rest);
        lemma_field_chars_no_semi(values[0]);
        lemma_split_of_columns(field_chars(values[0]), values.drop_first());
        let rest_fields = values.drop_first().map_values(|v: Option<u64>| field_chars(v));
        assert(seq![x] + (seq![field_chars(values[0])] + rest_fields) =~= seq![x] + fields) by {
            assert forall|i: int| 0 <= i < rest_fields.len() implies #[trigger] rest_fields[i]
                == fields[i + 1] by {
                assert(values.drop_first()[i] == values[i + 1]);
            }
            assert(fields[0] == field_chars(values[0]));
        }
    }
}

/// Law: every record line the encoder writes reads back as the same record
/// — the same timestamp and, column for column, the same value or absence.
pub proof fn lemma_row_round_trip(ts: u64, values: Seq<Option<u64>>)
    ensures
        row_valid(row_chars(ts, values), values.len() as int),
        digits_value(split_fields(row_chars(ts, values))[0]) == ts,
        forall|c: int| 0 <= c < values.len() ==> row_col(row_chars(ts, values), c) == values[c],
{
    let line = row_chars(ts, values);
    let fields = values.map_values(|v: Option<u64>| field_chars(v));
    lemma_row_chars_split(ts, values);
    crate::digits::lemma_digits_round_trip(ts);
    assert forall|i: int|
        0 <= i < u64_digits(ts as nat).len() implies (#[trigger] u64_digits(ts as nat)[i])
        != ';' by {
        assert(crate::digits::is_digit(u64_digits(ts as nat)[i]));
    }
    lemma_split_of_columns(u64_digits(ts as nat), values);
    let fs = split_fields(line);
    assert(fs == seq![u64_digits(ts as nat)] + fields);
    assert(fs[0] == u64_digits(ts as nat));
    assert forall|j: int| 1 <= j < fs.len() implies field_ok(#[trigger] fs[j]) by {
        assert(fs[j] == field_chars(values[j - 1]));
        if values[j - 1] is Some {
            crate::digits::lemma_digits_round_trip(values[j - 1]->Some_0);
        }
    }
    assert forall|c: int| 0 <= c < values.len() implies row_col(line, c) == values[c] by {
        assert(fs[c + 1] == field_chars(values[c]));
        if values[c] is Some {
            crate::digits::lemma_digits_round_trip(values[c]->Some_0);
        }
    }
}

/// The position of the first ';' in `s`, or `s.len()` when there is none.
pub open spec fn first_semi(s: Seq<char>) -> int
    decreases s.len(),
{
    if s.len() == 0 {
        0
    } else if s[0] == ';' {
        0
    } else {
        1 + first_semi(s.drop_first())
    }
}

proof fn lemma_first_semi(s: Seq<char>)
    ensures
        0 <= first_semi(s) <= s.len(),
        forall|j: int| 0 <= j < first_semi(s) ==> s[j] != ';',
        first_semi(s) < s.len() ==> s[first_semi(s)] == ';',
    decreases s.len(),
{
    if s.len() > 0 && s[0] != ';' {
        lemma_first_semi(s.drop_first());
        assert forall|j: int| 0 <= j < first_semi(s) implies s[j] != ';' by {
            if j > 0 {
                assert(s.drop_first()[j - 1] != ';');
            }
        }
        if first_semi(s) < s.len() {
            assert(s.drop_first()[first_semi(s) - 1] == ';');
        }
    }
}

proof fn lemma_first_semi_at(s: Seq<char>, k: int)
    requires
        0 <= k <= s.len(),
        forall|j: int| 0 <= j < k ==> s[j] != ';',
        k < s.len() ==> s[k] == ';',
    ensures
        first_semi(s) == k,
    decreases s.len(),
{
    if s.len() > 0 && k > 0 {
        assert(s[0] != ';');
        assert forall|j: int| 0 <= j < k - 1 implies s.drop_first()[j] != ';' by {
            assert(s[j + 1] != ';');
        }
        lemma_first_semi_at(s.drop_first(), k - 1);
    }
}

/// The ';'-separated fields of a line, in order; a line without ';' is one
/// field, and every line has at least one field.
pub open spec fn split_fields(s: Seq<char>) -> Seq<Seq<char>>
    decreases s.len(),
{
    let k = first_semi(s);
    if 0 <= k < s.len() {
        seq![s.take(k)] + split_fields(s.skip(k + 1))
    } else {
        seq![s]
    }
}

fn find_semi(s: &str) -> (r: usize)
    ensures
        r == first_semi(s@),
{
    let n = s.unicode_len();
    let mut i: usize = 0;
    while i < n
        invariant
            n == s@.len(),
            0 <= i <= n,
            forall|j: int| 0 <= j < i ==> s@[j] != ';',
        decreases n - i,
    {
        if s.get_char(i) == ';' {
            proof {
                lemma_first_semi_at(s@, i as int);
            }
            return i;
        }
        i += 1;
    }
    proof {
        lemma_first_semi_at(s@, n as int);
    }
    n
}

/// Splits a line at each ';'.
fn split_line(s: &str) -> (r: Vec<String>)
    ensures
        r.deep_view() == split_fields(s@),
        r@.len() >= 1,
    decreases s@.len(),
{
    let n = s.unicode_len();
    let k = find_semi(s);
    proof {
        lemma_first_semi(s@);
    }
    if k == n {
        let mut v: Vec<String> = Vec::new();
        v.push(s.to_owned());
        proof {
            assert(v.deep_view() =~= split_fields(s@));
        }
        v
    } else {
        let head = s.substring_char(0, k).to_owned();
        let tail = s.substring_char(k + 1, n);
        let mut rest = split_line(tail);
        let mut v: Vec<String> = Vec::new();
        v.push(head);
        v.append(&mut rest);
        proof {
            assert(head@ =~= s@.take(k as int));
            assert(tail@ =~= s@.skip(k + 1 as int));
            assert(v.deep_view() =~= split_fields(s@));
        }
        v
    }
}

/// A well-formed value field: empty, or a digit run that fits the counter.
pub open spec fn field_ok(f: Seq<char>) -> bool {
    f.len() == 0 || (all_digits(f) && digits_value(f) <= u64::MAX)
}

/// A line that parses as a record of at most `ncols` value columns: a valid
/// timestamp field, then only well-formed value fields. Fewer fields than
/// columns is fine — short rows are padded, not rejected.
pub open spec fn row_valid(s: Seq<char>, ncols: int) -> bool {
    let fs = split_fields(s);
    &&& fs.len() - 1 <= ncols
    &&& fs[0].len() > 0 && all_digits(fs[0]) && digits_value(fs[0]) <= u64::MAX
    &&& forall|j: int| 1 <= j < fs.len() ==> field_ok(#[trigger] fs[j])
}

/// The value column `c` of a line: the parsed field when it is present and
/// non-empty, else a missing value.
pub open spec fn row_col(s: Seq<char>, c: int) -> Option<u64> {
    let fs = split_fields(s);
    if 0 <= c && c + 1 < fs.len() && fs[c + 1].len() > 0 {
        Some(digits_value(fs[c + 1]) as u64)
    } else {
        None
    }
}

/// Reads one record line back, for a catalog of `ncols` series: `Some`
/// exactly for a well-formed row, with short rows padded by missing values.
pub fn parse_row(line: &str, ncols: usize) -> (r: Option<SegmentRow>)
    ensures
        r is Some <==> row_valid(line@, ncols as int),
        r matches Some(row) ==> (row.timestamp == digits_value(split_fields(line@)[0])
            && row.values@.len() == ncols && (forall|c: int|
            0 <= c < ncols ==> row.values@[c] == row_col(line@, c))),
{
    let fields = split_line(line);
    let nf = fields.len();
    if nf - 1 > ncols {
        return None;
    }
    let ts = match parse_u64(fields[0].as_str()) {
        None => {
            return None;
        },
        Some(t) => t,
    };
    let mut values: Vec<Option<u64>> = Vec::new();
    let mut c: usize = 0;
    while c < ncols
        invariant
            0 <= c <= ncols,
            values@.len() == c,
            nf == fields@.len(),
            nf - 1 <= ncols,
            fields.deep_view() == split_fields(line@),
            forall|cc: int| 0 <= cc < c ==> #[trigger] values@[cc] == row_col(line@, cc),
            forall|j: int|
                1 <= j < nf && j - 1 < c ==> field_ok(#[trigger] split_fields(line@)[j]),
        decreases ncols - c,
    {
        if c + 1 < nf {
            let f = &fields[c + 1];
            if f.unicode_len() == 0 {
                values.push(None);
            } else {
                match parse_u64(f.as_str()) {
                    None => {
                        proof {
                            assert(!field_ok(split_fields(line@)[c + 1 as int]));
                        }
                        return None;
                    },
                    Some(v) => {
                        values.push(Some(v));
                    },
                }
            }
        } else {
            values.push(None);
        }
        c += 1;
    }
    proof {
        assert(row_valid(line@, ncols as int));
    }
    Some(SegmentRow { timestamp: ts, values })
}

} // verus!
