use vstd::prelude::*;

use crate::calc::project_map::ProjectMap;
use crate::calc::raw_log::{RawLog, RawLogView, ts_field_ok};
use crate::digits::{digits_to_nat, nat_to_digits, parse_u64, u64_to_string};
use crate::error::TimeTrackerError;
use crate::text::{find_char, find_char_in, lemma_find_char, split_lines, str_eq};

verus! {

/// Two records of one project further apart than this open a new span:
/// the gap is genuine inactivity.
pub const MAX_SECONDS_BETWEEN_RECORDS_IN_SPAN: u64 = 5 * 60;

/// A maximal contiguous block of attributed activity for one project.
/// Well-formed spans satisfy `end >= start`.
#[derive(Debug, PartialEq)]
pub struct Span {
    pub name: String,
    pub start: u64,
    pub end: u64,
}

/// Mathematical model of a span.
pub ghost struct SpanView {
    pub name: Seq<char>,
    pub start: u64,
    pub end: u64,
}

impl View for Span {
    type V = SpanView;

    open spec fn view(&self) -> SpanView {
        SpanView { name: self.name@, start: self.start, end: self.end }
    }
}

/// A span whose interval is not inverted.
pub open spec fn span_wf(s: SpanView) -> bool {
    s.end >= s.start
}

/// Every span of the sequence is well-formed.
pub open spec fn spans_wf(s: Seq<SpanView>) -> bool {
    forall|i: int| 0 <= i < s.len() ==> span_wf(#[trigger] s[i])
}

/// The models of a vector of spans.
pub open spec fn span_views(v: Seq<Span>) -> Seq<SpanView> {
    v.map_values(|s: Span| s@)
}

/// The models of a vector of records.
pub open spec fn log_views(v: Seq<RawLog>) -> Seq<RawLogView> {
    v.map_values(|l: RawLog| l@)
}

impl Span {
    /// Seconds covered by the span.
    pub fn duration(&self) -> (r: u64)
        requires
            span_wf(self@),
        ensures
            r == self.end - self.start,
    {
        self.end - self.start
    }
}

/// Elapsed time between the end of the current span and the next record;
/// an out-of-order record never yields a negative gap.
pub open spec fn gap_of(cur_end: u64, t: u64) -> u64 {
    if t >= cur_end {
        (t - cur_end) as u64
    } else {
        0
    }
}

/// The midpoint of the interval between two timestamps, in either order.
pub open spec fn midpoint(a: u64, b: u64) -> u64 {
    if a >= b {
        (b + (a - b) / 2) as u64
    } else {
        (a + (b - a) / 2) as u64
    }
}

/// The current span, stretched to cover a later record of its project.
pub open spec fn extend_span(cur: SpanView, t: u64) -> SpanView {
    SpanView { name: cur.name, start: cur.start, end: if t >= cur.end { t } else { cur.end } }
}

/// One left-to-right pass over the remaining records, carrying the open
/// span and the spans already emitted. Policy, per record:
/// same project within the gap threshold extends the span; a different
/// project within the threshold closes the span at the midpoint of the
/// ambiguous interval and opens the new one there; a gap at or above the
/// threshold closes the span as it stands and opens a fresh zero-length
/// one at the record.
pub open spec fn reconstruct_rec(
    logs: Seq<RawLogView>,
    cur: SpanView,
    acc: Seq<SpanView>,
) -> Seq<SpanView>
    decreases logs.len(),
{
    if logs.len() == 0 {
        acc.push(cur)
    } else {
        let log = logs[0];
        let same = log.name == cur.name;
        let small = gap_of(cur.end, log.timestamp) < MAX_SECONDS_BETWEEN_RECORDS_IN_SPAN;
        if same && small {
            reconstruct_rec(logs.skip(1), extend_span(cur, log.timestamp), acc)
        } else if small {
            let mid = midpoint(cur.end, log.timestamp);
            reconstruct_rec(
                logs.skip(1),
                SpanView { name: log.name, start: mid, end: log.timestamp },
                acc.push(SpanView { name: cur.name, start: cur.start, end: mid }),
            )
        } else {
            reconstruct_rec(
                logs.skip(1),
                SpanView { name: log.name, start: log.timestamp, end: log.timestamp },
                acc.push(cur),
            )
        }
    }
}

/// The spans reconstructed from an ordered stream of records.
pub open spec fn reconstruct(logs: Seq<RawLogView>) -> Seq<SpanView> {
    if logs.len() == 0 {
        Seq::empty()
    } else {
        reconstruct_rec(
            logs.skip(1),
            SpanView { name: logs[0].name, start: logs[0].timestamp, end: logs[0].timestamp },
            Seq::empty(),
        )
    }
}

/// Builds the spans for an ordered sequence of records, one pass, no
/// lookahead.
pub fn get_spans_from(raw_logs: Vec<RawLog>) -> (spans: Vec<Span>)
    ensures
        span_views(spans@) == reconstruct(log_views(raw_logs@)),
{
    let n = raw_logs.len();
    let mut spans: Vec<Span> = Vec::new();
    if n == 0 {
        proof {
            assert(log_views(raw_logs@).len() == 0);
            assert(span_views(spans@) =~= reconstruct(log_views(raw_logs@)));
        }
        return spans;
    }
    proof {
        assert(log_views(raw_logs@)[0] == raw_logs@[0]@);
    }
    let mut span = Span {
        name: raw_logs[0].name.clone(),
        start: raw_logs[0].timestamp,
        end: raw_logs[0].timestamp,
    };
    proof {
        let lv = log_views(raw_logs@);
        assert(span_views(spans@) =~= Seq::<SpanView>::empty());
        assert(span@ == SpanView { name: lv[0].name, start: lv[0].timestamp, end: lv[0].timestamp });
    }
    let mut i: usize = 1;
    while i < n
        invariant
            1 <= i <= n,
            n == raw_logs.len(),
            reconstruct_rec(log_views(raw_logs@).skip(i as int), span@, span_views(spans@))
                == reconstruct(log_views(raw_logs@)),
        decreases n - i,
    {
        proof {
            let lv = log_views(raw_logs@);
            assert(lv.skip(i as int)[0] == lv[i as int]);
            assert(lv[i as int] == raw_logs@[i as int]@);
            assert(lv.skip(i as int).skip(1) =~= lv.skip(i as int + 1));
        }
        let same_name = str_eq(raw_logs[i].name.as_str(), span.name.as_str());
        let t = raw_logs[i].timestamp;
        let gap = if t >= span.end {
            t - span.end
        } else {
            0
        };
        if same_name && gap < MAX_SECONDS_BETWEEN_RECORDS_IN_SPAN {
            if t >= span.end {
                span.end = t;
            }
        } else if gap < MAX_SECONDS_BETWEEN_RECORDS_IN_SPAN {
            let lo = if t >= span.end {
                span.end
            } else {
                t
            };
            let hi = if t >= span.end {
                t
            } else {
                span.end
            };
            let mid = lo + (hi - lo) / 2;
            let new_span = Span { name: raw_logs[i].name.clone(), start: mid, end: t };
            span.end = mid;
            let ghost prev = span_views(spans@);
            let ghost emitted = span@;
            spans.push(span);
            proof {
                assert(span_views(spans@) =~= prev.push(emitted));
            }
            span = new_span;
        } else {
            let new_span = Span { name: raw_logs[i].name.clone(), start: t, end: t };
            let ghost prev = span_views(spans@);
            let ghost emitted = span@;
            spans.push(span);
            proof {
                assert(span_views(spans@) =~= prev.push(emitted));
            }
            span = new_span;
        }
        i = i + 1;
    }
    proof {
        assert(log_views(raw_logs@).skip(n as int).len() == 0);
    }
    let ghost prev = span_views(spans@);
    let ghost last = span@;
    spans.push(span);
    proof {
        assert(span_views(spans@) =~= prev.push(last));
    }
    spans
}

// ---------------------------------------------------------------------------
// The span codec: one line per span, "name/start/end"
// ---------------------------------------------------------------------------

/// What follows a span line's first separator.
pub open spec fn span_line_rest(s: Seq<char>) -> Seq<char> {
    s.skip(find_char(s, '/') as int + 1)
}

/// A span line has both separators: one after the name, one between the
/// two timestamps.
pub open spec fn span_line_shaped(s: Seq<char>) -> bool {
    &&& find_char(s, '/') < s.len()
    &&& find_char(span_line_rest(s), '/') < span_line_rest(s).len()
}

/// The start field of a shaped span line.
pub open spec fn span_start_field(s: Seq<char>) -> Seq<char> {
    span_line_rest(s).take(find_char(span_line_rest(s), '/') as int)
}

/// The end field of a shaped span line.
pub open spec fn span_end_field(s: Seq<char>) -> Seq<char> {
    span_line_rest(s).skip(find_char(span_line_rest(s), '/') as int + 1)
}

/// A line carrying a span: a name, then two parseable timestamp fields.
pub open spec fn span_line_ok(s: Seq<char>) -> bool {
    &&& span_line_shaped(s)
    &&& ts_field_ok(span_start_field(s))
    &&& ts_field_ok(span_end_field(s))
}

/// The span written on a well-shaped line.
pub open spec fn span_line_view(s: Seq<char>) -> SpanView {
    SpanView {
        name: s.take(find_char(s, '/') as int),
        start: digits_to_nat(span_start_field(s)) as u64,
        end: digits_to_nat(span_end_field(s)) as u64,
    }
}

/// The error that span decoding stops with on a bad line.
pub open spec fn span_line_error_matches(e: TimeTrackerError, line: Seq<char>) -> bool {
    match e {
        TimeTrackerError::InvalidLineError(v) => !span_line_shaped(line) && v@ == line,
        TimeTrackerError::InvalidTimestampError(v) => span_line_shaped(line) && ((!ts_field_ok(
            span_start_field(line),
        ) && v@ == span_start_field(line)) || (ts_field_ok(span_start_field(line))
            && !ts_field_ok(span_end_field(line)) && v@ == span_end_field(line))),
    }
}

/// The text encoding of a span.
pub open spec fn span_encode_spec(s: SpanView) -> Seq<char> {
    s.name + seq!['/'] + nat_to_digits(s.start as nat) + seq!['/'] + nat_to_digits(s.end as nat)
}

impl Span {
    /// Decodes one line of the processed-data file.
    pub fn try_from(raw_data: &str) -> (r: Result<Span, TimeTrackerError>)
        ensures
            match r {
                Ok(span) => span_line_ok(raw_data@) && span@ == span_line_view(raw_data@),
                Err(e) => !span_line_ok(raw_data@) && span_line_error_matches(e, raw_data@),
            },
    {
        let n = raw_data.unicode_len();
        let i = find_char_in(raw_data, '/');
        proof {
            lemma_find_char(raw_data@, '/');
        }
        if i == n {
            return Err(TimeTrackerError::InvalidLineError(String::from_str(raw_data)));
        }
        let rest = raw_data.substring_char(i + 1, n);
        proof {
            assert(rest@ =~= raw_data@.skip(i as int + 1));
        }
        let m = rest.unicode_len();
        let j = find_char_in(rest, '/');
        proof {
            lemma_find_char(rest@, '/');
        }
        if j == m {
            return Err(TimeTrackerError::InvalidLineError(String::from_str(raw_data)));
        }
        let name = raw_data.substring_char(0, i);
        let start_field = rest.substring_char(0, j);
        let end_field = rest.substring_char(j + 1, m);
        proof {
            assert(name@ =~= raw_data@.take(i as int));
            assert(start_field@ =~= rest@.take(j as int));
            assert(end_field@ =~= rest@.skip(j as int + 1));
        }
        let start = match parse_u64(start_field) {
            Some(v) => v,
            None => {
                return Err(TimeTrackerError::InvalidTimestampError(String::from_str(start_field)));
            },
        };
        let end = match parse_u64(end_field) {
            Some(v) => v,
            None => {
                return Err(TimeTrackerError::InvalidTimestampError(String::from_str(end_field)));
            },
        };
        Ok(Span { name: String::from_str(name), start, end })
    }

    /// Encodes the span as one line of text (without the newline).
    pub fn encode(&self) -> (r: String)
        ensures
            r@ == span_encode_spec(self@),
    {
        let r = String::from_str(self.name.as_str()).concat("/").concat(
            u64_to_string(self.start).as_str(),
        ).concat("/").concat(u64_to_string(self.end).as_str());
        proof {
            reveal_strlit("/");
            assert("/"@ =~= seq!['/']);
        }
        r
    }
}

/// All given lines carry spans.
pub open spec fn span_lines_ok(lines: Seq<Seq<char>>) -> bool {
    forall|i: int| 0 <= i < lines.len() ==> span_line_ok(#[trigger] lines[i])
}

/// The spans written on a sequence of well-shaped lines.
pub open spec fn decode_span_lines(lines: Seq<Seq<char>>) -> Seq<SpanView> {
    lines.map_values(|l: Seq<char>| span_line_view(l))
}

/// Decodes a whole processed-data file, stopping at the first malformed
/// line.
pub fn spans_from(processed_data: &str) -> (r: Result<Vec<Span>, TimeTrackerError>)
    ensures
        match r {
            Ok(v) => span_lines_ok(split_lines(processed_data@)) && span_views(v@)
                == decode_span_lines(split_lines(processed_data@)),
            Err(e) => exists|i: int|
                {
                    &&& 0 <= i < split_lines(processed_data@).len()
                    &&& !span_line_ok(#[trigger] split_lines(processed_data@)[i])
                    &&& (forall|k: int|
                        0 <= k < i ==> span_line_ok(#[trigger] split_lines(processed_data@)[k]))
                    &&& span_line_error_matches(e, split_lines(processed_data@)[i])
                },
        },
{
    let lines = crate::text::split_lines_in(processed_data);
    let n = lines.len();
    let mut spans: Vec<Span> = Vec::new();
    let mut i: usize = 0;
    while i < n
        invariant
            0 <= i <= n,
            n == lines.len(),
            lines.deep_view() == split_lines(processed_data@),
            forall|k: int|
                0 <= k < i ==> span_line_ok(#[trigger] split_lines(processed_data@)[k]),
            span_views(spans@) =~= decode_span_lines(
                split_lines(processed_data@).take(i as int),
            ),
        decreases n - i,
    {
        proof {
            assert(lines.deep_view()[i as int] == lines[i as int]@);
        }
        match Span::try_from(lines[i].as_str()) {
            Ok(span) => {
                let ghost prev = span_views(spans@);
                let ghost sv = span@;
                spans.push(span);
                proof {
                    assert(span_views(spans@) =~= prev.push(sv));
                    assert(split_lines(processed_data@).take(i + 1) =~= split_lines(
                        processed_data@,
                    ).take(i as int).push(split_lines(processed_data@)[i as int]));
                }
            },
            Err(e) => {
                proof {
                    let ghost w = i as int;
                    assert({
                        &&& 0 <= w < split_lines(processed_data@).len()
                        &&& !span_line_ok(split_lines(processed_data@)[w])
                        &&& (forall|k: int|
                            0 <= k < w ==> span_line_ok(
                                #[trigger] split_lines(processed_data@)[k],
                            ))
                        &&& span_line_error_matches(e, split_lines(processed_data@)[w])
                    });
                }
                return Err(e);
            },
        }
        i = i + 1;
    }
    proof {
        assert(split_lines(processed_data@).take(n as int) =~= split_lines(
            processed_data@,
        ));
    }
    Ok(spans)
}

// ---------------------------------------------------------------------------
// Checkpoints: the last timestamp seen per project
// ---------------------------------------------------------------------------

/// Some span of the sequence belongs to the project.
pub open spec fn contains_project(spans: Seq<SpanView>, p: Seq<char>) -> bool {
    exists|i: int| 0 <= i < spans.len() && (#[trigger] spans[i]).name == p
}

/// The largest `end` among the project's spans (zero when it has none).
pub open spec fn max_end_for(spans: Seq<SpanView>, p: Seq<char>) -> u64
    decreases spans.len(),
{
    if spans.len() == 0 {
        0
    } else {
        let m = max_end_for(spans.drop_last(), p);
        if spans.last().name == p && spans.last().end > m {
            spans.last().end
        } else {
            m
        }
    }
}

/// The checkpoint mapping: each project seen, with the latest `end` of its
/// spans.
pub open spec fn last_timestamps(spans: Seq<SpanView>) -> Map<Seq<char>, u64> {
    Map::new(
        |p: Seq<char>| contains_project(spans, p),
        |p: Seq<char>| max_end_for(spans, p),
    )
}

/// Computes the last timestamp per project over a batch of spans.
pub fn get_last_timestamp_per_project(spans: &Vec<Span>) -> (r: ProjectMap)
    ensures
        r.wf(),
        r@ == last_timestamps(span_views(spans@)),
{
    let n = spans.len();
    let mut r = ProjectMap::new();
    proof {
        assert(r@ =~= last_timestamps(span_views(spans@).take(0)));
    }
    let mut i: usize = 0;
    while i < n
        invariant
            0 <= i <= n,
            n == spans.len(),
            r.wf(),
            r@ == last_timestamps(span_views(spans@).take(i as int)),
        decreases n - i,
    {
        proof {
            assert(span_views(spans@)[i as int] == spans@[i as int]@);
        }
        r.set_max(spans[i].name.as_str(), spans[i].end);
        proof {
            let sv = span_views(spans@);
            let pre = sv.take(i as int);
            assert(sv.take(i + 1) =~= pre.push(sv[i as int]));
            lemma_last_timestamps_push(pre, sv[i as int]);
        }
        i = i + 1;
    }
    proof {
        assert(span_views(spans@).take(n as int) =~= span_views(spans@));
    }
    r
}

/// One more span raises (or introduces) its project's checkpoint.
proof fn lemma_last_timestamps_push(pre: Seq<SpanView>, s: SpanView)
    ensures
        last_timestamps(pre.push(s)) == last_timestamps(pre).insert(
            s.name,
            if last_timestamps(pre).contains_key(s.name) && last_timestamps(pre)[s.name] >= s.end {
                last_timestamps(pre)[s.name]
            } else {
                s.end
            },
        ),
{
    let post = pre.push(s);
    assert(post.drop_last() =~= pre);
    assert(post.last() == s);
    assert forall|p: Seq<char>| contains_project(post, p) implies (contains_project(pre, p) || p
        == s.name) by {
        let i = choose|i: int| 0 <= i < post.len() && (#[trigger] post[i]).name == p;
        if i < pre.len() {
            assert(pre[i].name == p);
        }
    }
    assert forall|p: Seq<char>| contains_project(pre, p) implies contains_project(post, p) by {
        let i = choose|i: int| 0 <= i < pre.len() && (#[trigger] pre[i]).name == p;
        assert(post[i].name == p);
    }
    assert(contains_project(post, s.name)) by {
        assert(post[post.len() - 1].name == s.name);
    }
    if !contains_project(pre, s.name) {
        lemma_absent_max_end(pre, s.name);
    }
    assert(last_timestamps(post) =~= last_timestamps(pre).insert(
        s.name,
        if last_timestamps(pre).contains_key(s.name) && last_timestamps(pre)[s.name] >= s.end {
            last_timestamps(pre)[s.name]
        } else {
            s.end
        },
    ));
}

/// A project with no spans has checkpoint zero.
proof fn lemma_absent_max_end(spans: Seq<SpanView>, p: Seq<char>)
    requires
        !contains_project(spans, p),
    ensures
        max_end_for(spans, p) == 0,
    decreases spans.len(),
{
    if spans.len() > 0 {
        assert(!contains_project(spans.drop_last(), p)) by {
            if contains_project(spans.drop_last(), p) {
                let i = choose|i: int|
                    0 <= i < spans.drop_last().len() && (#[trigger] spans.drop_last()[i]).name
                        == p;
                assert(spans[i].name == p);
            }
        }
        lemma_absent_max_end(spans.drop_last(), p);
        assert(spans[spans.len() - 1] == spans.last());
    }
}

/// The (name, timestamp) pairs of a record sequence.
pub open spec fn raw_pairs(s: Seq<RawLogView>) -> Seq<(Seq<char>, u64)> {
    s.map_values(|l: RawLogView| (l.name, l.timestamp))
}

/// Timestamps never decrease along the sequence.
pub open spec fn sorted_by_timestamp(s: Seq<RawLogView>) -> bool {
    forall|i: int, j: int|
        0 <= i < j < s.len() ==> (#[trigger] s[i]).timestamp <= (#[trigger] s[j]).timestamp
}

/// Turns a checkpoint mapping into synthetic records, ordered by timestamp
/// ascending, one per project.
pub fn get_vec_raw_logs_from_map_last_timestamp_per_project(map: ProjectMap) -> (r: Vec<RawLog>)
    requires
        map.wf(),
    ensures
        sorted_by_timestamp(log_views(r@)),
        raw_pairs(log_views(r@)).to_multiset() == map.entries_view().to_multiset(),
{
    let n = map.entries.len();
    let mut r: Vec<RawLog> = Vec::new();
    proof {
        assert(raw_pairs(log_views(r@)) =~= Seq::<(Seq<char>, u64)>::empty());
        assert(map.entries_view().take(0) =~= Seq::<(Seq<char>, u64)>::empty());
    }
    let mut i: usize = 0;
    while i < n
        invariant
            0 <= i <= n,
            n == map.entries.len(),
            sorted_by_timestamp(log_views(r@)),
            raw_pairs(log_views(r@)).to_multiset() == map.entries_view().take(
                i as int,
            ).to_multiset(),
        decreases n - i,
    {
        let name = map.entries[i].0.clone();
        let ts = map.entries[i].1;
        proof {
            assert(map.entries_view()[i as int] == (map.entries@[i as int].0@,
            map.entries@[i as int].1));
        }
        let m = r.len();
        let mut idx: usize = 0;
        while idx < m && r[idx].timestamp <= ts
            invariant
                0 <= idx <= m,
                m == r.len(),
                forall|k: int| 0 <= k < idx ==> (#[trigger] log_views(r@)[k]).timestamp <= ts,
            decreases m - idx,
        {
            proof {
                assert(log_views(r@)[idx as int] == r@[idx as int]@);
            }
            idx = idx + 1;
        }
        proof {
            if idx < m {
                assert(log_views(r@)[idx as int] == r@[idx as int]@);
            }
        }
        let ghost prev = r@;
        let log = RawLog { name, timestamp: ts };
        r.insert(idx, log);
        proof {
            let lv_prev = log_views(prev);
            let lv = log_views(r@);
            assert(r@ == prev.insert(idx as int, log));
            assert(lv =~= lv_prev.insert(idx as int, log@));
            assert(sorted_by_timestamp(lv)) by {
                assert(forall|k: int| 0 <= k < idx ==> lv[k] == lv_prev[k]);
                assert(forall|k: int|
                    idx < k < lv.len() ==> lv[k] == #[trigger] lv_prev[k - 1]);
                assert(lv[idx as int] == log@);
                assert(idx < lv_prev.len() ==> lv_prev[idx as int].timestamp > ts);
            }
            crate::order::lemma_insert_multiset(lv_prev, idx as int, log@);
            assert(raw_pairs(lv) =~= raw_pairs(lv_prev).insert(idx as int, (log@.name,
            log@.timestamp)));
            crate::order::lemma_insert_multiset(
                raw_pairs(lv_prev),
                idx as int,
                (log@.name, log@.timestamp),
            );
            broadcast use vstd::seq_lib::group_to_multiset_ensures;

            assert(map.entries_view().take(i + 1) =~= map.entries_view().take(i as int).push(
                map.entries_view()[i as int],
            ));
            assert(map.entries_view().take(i + 1).to_multiset() == map.entries_view().take(
                i as int,
            ).to_multiset().insert(map.entries_view()[i as int]));
        }
        i = i + 1;
    }
    proof {
        assert(map.entries_view().take(n as int) =~= map.entries_view());
    }
    r
}

// ---------------------------------------------------------------------------
// Reconstruction of a single project's unbroken activity
// ---------------------------------------------------------------------------

/// Records all of one project, in order, each within the gap threshold of
/// the last: the pass only ever extends the open span.
proof fn lemma_rec_same_small(logs: Seq<RawLogView>, cur: SpanView, acc: Seq<SpanView>)
    requires
        forall|i: int| 0 <= i < logs.len() ==> (#[trigger] logs[i]).name == cur.name,
        logs.len() > 0 ==> cur.end <= logs[0].timestamp && logs[0].timestamp - cur.end
            < MAX_SECONDS_BETWEEN_RECORDS_IN_SPAN,
        forall|i: int|
            0 <= i < logs.len() - 1 ==> (#[trigger] logs[i]).timestamp <= logs[i + 1].timestamp
                && logs[i + 1].timestamp - logs[i].timestamp
                < MAX_SECONDS_BETWEEN_RECORDS_IN_SPAN,
    ensures
        reconstruct_rec(logs, cur, acc) == acc.push(
            SpanView {
                name: cur.name,
                start: cur.start,
                end: if logs.len() > 0 {
                    logs.last().timestamp
                } else {
                    cur.end
                },
            },
        ),
    decreases logs.len(),
{
    if logs.len() == 0 {
        assert(reconstruct_rec(logs, cur, acc) == acc.push(cur));
        assert(cur == SpanView { name: cur.name, start: cur.start, end: cur.end });
    } else {
        let log = logs[0];
        assert(gap_of(cur.end, log.timestamp) == log.timestamp - cur.end);
        let cur2 = extend_span(cur, log.timestamp);
        assert(cur2 == SpanView { name: cur.name, start: cur.start, end: log.timestamp });
        assert(forall|i: int|
            0 <= i < logs.skip(1).len() ==> (#[trigger] logs.skip(1)[i]) == logs[i + 1]);
        lemma_rec_same_small(logs.skip(1), cur2, acc);
        if logs.len() > 1 {
            assert(logs.skip(1).last() == logs.last());
        }
    }
}

/// Records in timestamp order keep every span's interval upright.
proof fn lemma_rec_wf(logs: Seq<RawLogView>, cur: SpanView, acc: Seq<SpanView>)
    requires
        cur.start <= cur.end,
        spans_wf(acc),
        forall|i: int|
            0 <= i < logs.len() - 1 ==> (#[trigger] logs[i]).timestamp <= logs[i + 1].timestamp,
        logs.len() > 0 ==> cur.end <= logs[0].timestamp,
    ensures
        spans_wf(reconstruct_rec(logs, cur, acc)),
    decreases logs.len(),
{
    if logs.len() == 0 {
        assert forall|i: int| 0 <= i < acc.push(cur).len() implies span_wf(
            #[trigger] acc.push(cur)[i],
        ) by {
            if i < acc.len() {
                assert(acc.push(cur)[i] == acc[i]);
            }
        }
    } else {
        let log = logs[0];
        let t = log.timestamp;
        assert(forall|i: int|
            0 <= i < logs.skip(1).len() ==> (#[trigger] logs.skip(1)[i]) == logs[i + 1]);
        let same = log.name == cur.name;
        let small = gap_of(cur.end, t) < MAX_SECONDS_BETWEEN_RECORDS_IN_SPAN;
        if same && small {
            lemma_rec_wf(logs.skip(1), extend_span(cur, t), acc);
        } else if small {
            let mid = midpoint(cur.end, t);
            assert(cur.end <= mid <= t);
            let emitted = SpanView { name: cur.name, start: cur.start, end: mid };
            assert(spans_wf(acc.push(emitted))) by {
                assert(forall|i: int| 0 <= i < acc.len() ==> acc.push(emitted)[i] == #[trigger] acc[i]);
                assert(acc.push(emitted)[acc.len() as int] == emitted);
            }
            lemma_rec_wf(
                logs.skip(1),
                SpanView { name: log.name, start: mid, end: t },
                acc.push(emitted),
            );
        } else {
            assert(spans_wf(acc.push(cur))) by {
                assert(forall|i: int| 0 <= i < acc.len() ==> acc.push(cur)[i] == #[trigger] acc[i]);
                assert(acc.push(cur)[acc.len() as int] == cur);
            }
            lemma_rec_wf(
                logs.skip(1),
                SpanView { name: log.name, start: t, end: t },
                acc.push(cur),
            );
        }
    }
}

/// A record stream in timestamp order reconstructs to well-formed spans
/// only: every interval satisfies `end >= start`.
pub proof fn lemma_reconstruct_wf(logs: Seq<RawLogView>)
    requires
        forall|i: int|
            0 <= i < logs.len() - 1 ==> (#[trigger] logs[i]).timestamp <= logs[i + 1].timestamp,
    ensures
        spans_wf(reconstruct(logs)),
{
    if logs.len() > 0 {
        let cur = SpanView { name: logs[0].name, start: logs[0].timestamp, end: logs[0].timestamp };
        assert(forall|i: int|
            0 <= i < logs.skip(1).len() ==> (#[trigger] logs.skip(1)[i]) == logs[i + 1]);
        lemma_rec_wf(logs.skip(1), cur, Seq::empty());
    }
}

/// For a non-empty ordered stream of one project's records with every gap
/// below the threshold, reconstruction yields exactly one span, from the
/// first record to the last; its duration is their distance.
pub proof fn lemma_single_project_reconstruct(logs: Seq<RawLogView>)
    requires
        logs.len() > 0,
        forall|i: int| 0 <= i < logs.len() ==> (#[trigger] logs[i]).name == logs[0].name,
        forall|i: int|
            0 <= i < logs.len() - 1 ==> (#[trigger] logs[i]).timestamp <= logs[i + 1].timestamp
                && logs[i + 1].timestamp - logs[i].timestamp
                < MAX_SECONDS_BETWEEN_RECORDS_IN_SPAN,
    ensures
        reconstruct(logs) =~= seq![
            SpanView {
                name: logs[0].name,
                start: logs[0].timestamp,
                end: logs.last().timestamp,
            },
        ],
        reconstruct(logs)[0].end - reconstruct(logs)[0].start == logs.last().timestamp
            - logs[0].timestamp,
{
    let cur = SpanView { name: logs[0].name, start: logs[0].timestamp, end: logs[0].timestamp };
    assert(forall|i: int|
        0 <= i < logs.skip(1).len() ==> (#[trigger] logs.skip(1)[i]) == logs[i + 1]);
    lemma_rec_same_small(logs.skip(1), cur, Seq::empty());
    if logs.len() > 1 {
        assert(logs.skip(1).last() == logs.last());
    }
    assert(Seq::<SpanView>::empty().push(reconstruct(logs)[0]) =~= seq![reconstruct(logs)[0]]);
}

} // verus!
