use vstd::prelude::*;

pub mod display;
pub mod project_map;
pub mod raw_log;
pub mod span;

use crate::calc::project_map::ProjectMap;
use crate::calc::raw_log::{decode_lines, lines_ok, raw_logs_from};
use crate::calc::span::{
    Span, SpanView, contains_project, get_spans_from, reconstruct, span_views, span_wf, spans_wf,
};
use crate::error::TimeTrackerError;
use crate::text::split_lines;

verus! {

/// Seconds one project accumulates over a sequence of spans.
pub open spec fn total_for(spans: Seq<SpanView>, p: Seq<char>) -> int
    decreases spans.len(),
{
    if spans.len() == 0 {
        0
    } else {
        total_for(spans.drop_last(), p) + if spans.last().name == p {
            spans.last().end - spans.last().start
        } else {
            0
        }
    }
}

/// The per-project totals of a batch of spans: every project seen, with
/// the sum of its spans' durations.
pub open spec fn project_totals(spans: Seq<SpanView>) -> Map<Seq<char>, u64> {
    Map::new(
        |p: Seq<char>| contains_project(spans, p),
        |p: Seq<char>| total_for(spans, p) as u64,
    )
}

/// No project's total overflows the counter.
pub open spec fn totals_fit(spans: Seq<SpanView>) -> bool {
    forall|p: Seq<char>| total_for(spans, p) <= u64::MAX
}

/// A total over a prefix never exceeds the total over the whole, and is
/// never negative, for well-formed spans.
proof fn lemma_total_prefix(spans: Seq<SpanView>, p: Seq<char>, i: int)
    requires
        spans_wf(spans),
        0 <= i <= spans.len(),
    ensures
        0 <= total_for(spans.take(i), p) <= total_for(spans, p),
    decreases spans.len() - i,
{
    lemma_total_nonneg(spans.take(i), p);
    if i == spans.len() {
        assert(spans.take(i) =~= spans);
    } else {
        lemma_total_prefix(spans, p, i + 1);
        assert(spans.take(i + 1).drop_last() =~= spans.take(i));
        assert(spans.take(i + 1).last() == spans[i]);
        assert(span_wf(spans[i]));
    }
}

/// Totals of well-formed spans are non-negative.
proof fn lemma_total_nonneg(spans: Seq<SpanView>, p: Seq<char>)
    requires
        spans_wf(spans),
    ensures
        total_for(spans, p) >= 0,
    decreases spans.len(),
{
    if spans.len() > 0 {
        assert(spans_wf(spans.drop_last())) by {
            assert(forall|x: int|
                0 <= x < spans.drop_last().len() ==> spans.drop_last()[x] == #[trigger] spans[x]);
        }
        lemma_total_nonneg(spans.drop_last(), p);
        assert(spans[spans.len() - 1] == spans.last());
    }
}

/// A project with no spans accumulates nothing.
proof fn lemma_total_absent(spans: Seq<SpanView>, p: Seq<char>)
    requires
        !contains_project(spans, p),
    ensures
        total_for(spans, p) == 0,
    decreases spans.len(),
{
    if spans.len() > 0 {
        assert(!contains_project(spans.drop_last(), p)) by {
            if contains_project(spans.drop_last(), p) {
                let i = choose|i: int|
                    0 <= i < spans.drop_last().len() && (#[trigger] spans.drop_last()[i]).name
                        == p;
                assert(spans[i].name == p);
            }
        }
        lemma_total_absent(spans.drop_last(), p);
        assert(spans[spans.len() - 1] == spans.last());
    }
}

/// One more span adds its duration to its project's total.
proof fn lemma_totals_push(pre: Seq<SpanView>, s: SpanView)
    requires
        span_wf(s),
        total_for(pre, s.name) + (s.end - s.start) <= u64::MAX,
    ensures
        project_totals(pre.push(s)) == project_totals(pre).insert(
            s.name,
            (total_for(pre, s.name) + (s.end - s.start)) as u64,
        ),
{
    let post = pre.push(s);
    assert(post.drop_last() =~= pre);
    assert(post.last() == s);
    assert forall|p: Seq<char>| contains_project(post, p) implies (contains_project(pre, p) || p
        == s.name) by {
        let i = choose|i: int| 0 <= i < post.len() && (#[trigger] post[i]).name == p;
        if i < pre.len() {
            assert(pre[i].name == p);
        }
    }
    assert forall|p: Seq<char>| contains_project(pre, p) implies contains_project(post, p) by {
        let i = choose|i: int| 0 <= i < pre.len() && (#[trigger] pre[i]).name == p;
        assert(post[i].name == p);
    }
    assert(contains_project(post, s.name)) by {
        assert(post[post.len() - 1].name == s.name);
    }
    assert(project_totals(post) =~= project_totals(pre).insert(
        s.name,
        (total_for(pre, s.name) + (s.end - s.start)) as u64,
    ));
}

/// Reduces a batch of spans to the mapping from project name to total
/// duration in seconds. The caller rules out inverted spans and overflow.
pub fn calculate_project_total_time(spans: Vec<Span>) -> (r: ProjectMap)
    requires
        spans_wf(span_views(spans@)),
        totals_fit(span_views(spans@)),
    ensures
        r.wf(),
        r@ == project_totals(span_views(spans@)),
{
    match try_calculate_project_total_time(&spans) {
        Some(r) => r,
        None => vstd::pervasive::unreached(),
    }
}

/// As `calculate_project_total_time`, but checks its conditions instead of
/// assuming them: reports `None` exactly when some span is inverted or
/// some project's total overflows.
pub fn try_calculate_project_total_time(spans: &Vec<Span>) -> (r: Option<ProjectMap>)
    ensures
        match r {
            Some(m) => spans_wf(span_views(spans@)) && totals_fit(span_views(spans@)) && m.wf()
                && m@ == project_totals(span_views(spans@)),
            None => !(spans_wf(span_views(spans@)) && totals_fit(span_views(spans@))),
        },
{
    let n = spans.len();
    let mut r = ProjectMap::new();
    proof {
        assert(r@ =~= project_totals(span_views(spans@).take(0)));
    }
    let mut i: usize = 0;
    while i < n
        invariant
            0 <= i <= n,
            n == spans.len(),
            r.wf(),
            spans_wf(span_views(spans@).take(i as int)),
            totals_fit(span_views(spans@).take(i as int)),
            r@ == project_totals(span_views(spans@).take(i as int)),
        decreases n - i,
    {
        let sv = &spans[i];
        proof {
            assert(span_views(spans@)[i as int] == spans@[i as int]@);
        }
        if sv.end < sv.start {
            proof {
                assert(!span_wf(span_views(spans@)[i as int]));
            }
            return None;
        }
        let d = sv.end - sv.start;
        let existing = match r.get(sv.name.as_str()) {
            Some(v) => v,
            None => 0,
        };
        proof {
            let pre = span_views(spans@).take(i as int);
            let p = spans@[i as int]@.name;
            lemma_total_nonneg(pre, p);
            if !project_totals(pre).contains_key(p) {
                lemma_total_absent(pre, p);
            }
            assert(total_for(pre, p) <= u64::MAX);
            assert(existing == total_for(pre, p));
        }
        if existing > u64::MAX - d {
            proof {
                let full = span_views(spans@);
                let p = spans@[i as int]@.name;
                if spans_wf(full) {
                    lemma_total_prefix(full, p, i + 1);
                    assert(full.take(i + 1).drop_last() =~= full.take(i as int));
                    assert(full.take(i + 1).last() == full[i as int]);
                    assert(total_for(full, p) > u64::MAX);
                }
            }
            return None;
        }
        r.add_to(sv.name.as_str(), d);
        proof {
            let pre = span_views(spans@).take(i as int);
            let s = span_views(spans@)[i as int];
            assert(span_views(spans@).take(i + 1) =~= pre.push(s));
            lemma_totals_push(pre, s);
            assert(totals_fit(pre.push(s))) by {
                assert forall|p: Seq<char>| total_for(pre.push(s), p) <= u64::MAX by {
                    assert(pre.push(s).drop_last() =~= pre);
                    assert(pre.push(s).last() == s);
                    lemma_total_nonneg(pre, p);
                }
            }
        }
        i = i + 1;
    }
    proof {
        assert(span_views(spans@).take(n as int) =~= span_views(spans@));
    }
    Some(r)
}

/// Parses a whole raw-data file and reports each project's total
/// attributed time: decode, reconstruct spans, aggregate.
pub fn parse_raw_data(raw_data: &str) -> (r: Result<ProjectMap, TimeTrackerError>)
    requires
        lines_ok(split_lines(raw_data@)) ==> spans_wf(
            reconstruct(decode_lines(split_lines(raw_data@))),
        ) && totals_fit(reconstruct(decode_lines(split_lines(raw_data@)))),
    ensures
        match r {
            Ok(m) => lines_ok(split_lines(raw_data@)) && m.wf() && m@ == project_totals(
                reconstruct(decode_lines(split_lines(raw_data@))),
            ),
            Err(e) => !lines_ok(split_lines(raw_data@)) && exists|i: int|
                {
                    &&& 0 <= i < split_lines(raw_data@).len()
                    &&& !crate::calc::raw_log::line_ok(#[trigger] split_lines(raw_data@)[i])
                    &&& (forall|k: int|
                        0 <= k < i ==> crate::calc::raw_log::line_ok(
                            #[trigger] split_lines(raw_data@)[k],
                        ))
                    &&& crate::calc::raw_log::line_error_matches(e, split_lines(raw_data@)[i])
                },
        },
{
    let logs = match raw_logs_from(raw_data) {
        Ok(logs) => logs,
        Err(e) => {
            proof {
                crate::calc::raw_log::lemma_bad_line_refutes_lines_ok(raw_data@, e);
            }
            return Err(e);
        },
    };
    let spans = get_spans_from(logs);
    Ok(calculate_project_total_time(spans))
}

// ---------------------------------------------------------------------------
// One reporting pass over the raw-data file
// ---------------------------------------------------------------------------

/// The span-file text for a batch of spans: one encoded span per line,
/// each newline-terminated.
pub open spec fn span_lines_text(spans: Seq<SpanView>) -> Seq<char>
    decreases spans.len(),
{
    if spans.len() == 0 {
        Seq::empty()
    } else {
        span_lines_text(spans.drop_last()) + crate::calc::span::span_encode_spec(spans.last())
            + seq!['\n']
    }
}

/// The raw-file text for a batch of records: one encoded record per
/// line, each newline-terminated.
pub open spec fn raw_lines_text(logs: Seq<crate::calc::raw_log::RawLogView>) -> Seq<char>
    decreases logs.len(),
{
    if logs.len() == 0 {
        Seq::empty()
    } else {
        raw_lines_text(logs.drop_last()) + crate::calc::raw_log::encode_spec(
            logs.last().name,
            logs.last().timestamp,
        ) + seq!['\n']
    }
}

/// What one reporting pass computes from the raw-data file: the spans
/// reconstructed from it, the text to append to the processed-data file,
/// and the compacted checkpoint text that replaces the raw file.
pub struct CalcUpdate {
    pub new_spans: Vec<Span>,
    pub processed_appendix: String,
    pub compacted_raw: String,
}

/// Runs the pure part of a reporting pass: decodes the raw file,
/// reconstructs its spans, renders the lines to append to the span file,
/// and renders the compacted raw file - one synthetic record per project
/// at its last timestamp, ordered by timestamp ascending.
pub fn process_raw_data(raw_data: &str) -> (r: Result<CalcUpdate, TimeTrackerError>)
    ensures
        match r {
            Ok(u) => {
                let spans = reconstruct(decode_lines(split_lines(raw_data@)));
                &&& lines_ok(split_lines(raw_data@))
                &&& span_views(u.new_spans@) == spans
                &&& u.processed_appendix@ == span_lines_text(spans)
                &&& exists|ck: Seq<crate::calc::raw_log::RawLogView>|
                    {
                        &&& crate::calc::span::sorted_by_timestamp(ck)
                        &&& (forall|pair: (Seq<char>, u64)|
                            crate::calc::span::raw_pairs(ck).to_multiset().count(pair) == (
                            if crate::calc::span::last_timestamps(spans).contains_key(pair.0)
                                && crate::calc::span::last_timestamps(spans)[pair.0] == pair.1 {
                                1int
                            } else {
                                0int
                            }))
                        &&& u.compacted_raw@ == raw_lines_text(ck)
                    }
            },
            Err(e) => !lines_ok(split_lines(raw_data@)) && exists|i: int|
                {
                    &&& 0 <= i < split_lines(raw_data@).len()
                    &&& !crate::calc::raw_log::line_ok(#[trigger] split_lines(raw_data@)[i])
                    &&& (forall|k: int|
                        0 <= k < i ==> crate::calc::raw_log::line_ok(
                            #[trigger] split_lines(raw_data@)[k],
                        ))
                    &&& crate::calc::raw_log::line_error_matches(e, split_lines(raw_data@)[i])
                },
        },
{
    let logs = match raw_logs_from(raw_data) {
        Ok(logs) => logs,
        Err(e) => {
            proof {
                crate::calc::raw_log::lemma_bad_line_refutes_lines_ok(raw_data@, e);
            }
            return Err(e);
        },
    };
    let new_spans = get_spans_from(logs);
    let ghost spans = span_views(new_spans@);
    let mut processed_appendix = String::new();
    proof {
        assert(processed_appendix@ =~= span_lines_text(spans.take(0)));
    }
    let n = new_spans.len();
    let mut i: usize = 0;
    while i < n
        invariant
            0 <= i <= n,
            n == new_spans.len(),
            spans == span_views(new_spans@),
            processed_appendix@ == span_lines_text(spans.take(i as int)),
        decreases n - i,
    {
        let line = new_spans[i].encode();
        processed_appendix.append(line.as_str());
        processed_appendix.append("\n");
        proof {
            reveal_strlit("\n");
            assert("\n"@ =~= seq!['\n']);
            assert(spans.take(i + 1).drop_last() =~= spans.take(i as int));
            assert(spans.take(i + 1).last() == spans[i as int]);
            assert(spans[i as int] == new_spans@[i as int]@);
        }
        i = i + 1;
    }
    proof {
        assert(spans.take(n as int) =~= spans);
    }
    let map = crate::calc::span::get_last_timestamp_per_project(&new_spans);
    let ck_logs = crate::calc::span::get_vec_raw_logs_from_map_last_timestamp_per_project(map);
    let ghost ck = crate::calc::span::log_views(ck_logs@);
    let mut compacted_raw = String::new();
    proof {
        assert(compacted_raw@ =~= raw_lines_text(ck.take(0)));
    }
    let m = ck_logs.len();
    let mut j: usize = 0;
    while j < m
        invariant
            0 <= j <= m,
            m == ck_logs.len(),
            ck == crate::calc::span::log_views(ck_logs@),
            compacted_raw@ == raw_lines_text(ck.take(j as int)),
        decreases m - j,
    {
        let line = ck_logs[j].encode();
        compacted_raw.append(line.as_str());
        compacted_raw.append("\n");
        proof {
            reveal_strlit("\n");
            assert("\n"@ =~= seq!['\n']);
            assert(ck.take(j + 1).drop_last() =~= ck.take(j as int));
            assert(ck.take(j + 1).last() == ck[j as int]);
            assert(ck[j as int] == ck_logs@[j as int]@);
        }
        j = j + 1;
    }
    proof {
        assert(ck.take(m as int) =~= ck);
        assert forall|pair: (Seq<char>, u64)|
            crate::calc::span::raw_pairs(ck).to_multiset().count(pair) == (
            if crate::calc::span::last_timestamps(spans).contains_key(pair.0)
                && crate::calc::span::last_timestamps(spans)[pair.0] == pair.1 {
                1int
            } else {
                0int
            }) by {
            crate::calc::project_map::lemma_entries_multiset(map.entries_view(), pair);
        }
    }
    Ok(CalcUpdate { new_spans, processed_appendix, compacted_raw })
}

// ---------------------------------------------------------------------------
// Laws of aggregation
// ---------------------------------------------------------------------------

/// A total is indifferent to removing a span and charging it separately.
proof fn lemma_total_remove(spans: Seq<SpanView>, i: int, p: Seq<char>)
    requires
        0 <= i < spans.len(),
    ensures
        total_for(spans, p) == total_for(spans.remove(i), p) + if spans[i].name == p {
            spans[i].end - spans[i].start
        } else {
            0
        },
    decreases spans.len(),
{
    if i == spans.len() - 1 {
        assert(spans.remove(i) =~= spans.drop_last());
        assert(spans[i] == spans.last());
    } else {
        assert(spans.remove(i).drop_last() =~= spans.drop_last().remove(i));
        assert(spans.remove(i).last() == spans.last());
        lemma_total_remove(spans.drop_last(), i, p);
        assert(spans.drop_last()[i] == spans[i]);
    }
}

/// Totals are a function of the multiset of spans alone.
proof fn lemma_total_permutation(s1: Seq<SpanView>, s2: Seq<SpanView>)
    requires
        s1.to_multiset() == s2.to_multiset(),
    ensures
        forall|p: Seq<char>| total_for(s1, p) == total_for(s2, p),
    decreases s1.len(),
{
    broadcast use vstd::seq_lib::group_to_multiset_ensures;

    if s1.len() == 0 {
        assert(s1.to_multiset().len() == s1.len());
        assert(s2.to_multiset().len() == s2.len());
        assert(s2.len() == 0);
    } else {
        let x = s1.last();
        assert(s1.to_multiset().count(x) > 0) by {
            assert(s1[s1.len() - 1] == x);
            assert(s1.contains(x));
        }
        assert(s2.contains(x));
        let j = choose|j: int| 0 <= j < s2.len() && s2[j] == x;
        let s1p = s1.drop_last();
        let s2p = s2.remove(j);
        assert(s1p.to_multiset() == s2p.to_multiset()) by {
            assert(s1.remove(s1.len() - 1) =~= s1p);
            assert(s1p.to_multiset() =~= s1.to_multiset().remove(x));
            assert(s2p.to_multiset() =~= s2.to_multiset().remove(x));
        }
        lemma_total_permutation(s1p, s2p);
        assert forall|p: Seq<char>| total_for(s1, p) == total_for(s2, p) by {
            lemma_total_remove(s2, j, p);
            assert(total_for(s1, p) == total_for(s1p, p) + if x.name == p {
                x.end - x.start
            } else {
                0
            });
        }
    }
}

/// Aggregation is order-independent: any permutation of the same span
/// multiset produces the identical total map.
pub proof fn lemma_totals_order_independent(s1: Seq<SpanView>, s2: Seq<SpanView>)
    requires
        s1.to_multiset() == s2.to_multiset(),
    ensures
        project_totals(s1) == project_totals(s2),
{
    broadcast use vstd::seq_lib::group_to_multiset_ensures;

    lemma_total_permutation(s1, s2);
    assert forall|p: Seq<char>| contains_project(s1, p) implies contains_project(s2, p) by {
        let i = choose|i: int| 0 <= i < s1.len() && (#[trigger] s1[i]).name == p;
        assert(s1.contains(s1[i]));
        assert(s1.to_multiset().count(s1[i]) > 0);
        assert(s2.to_multiset().count(s1[i]) > 0);
        assert(s2.contains(s1[i]));
        let j = choose|j: int| 0 <= j < s2.len() && s2[j] == s1[i];
        assert(s2[j].name == p);
    }
    assert forall|p: Seq<char>| contains_project(s2, p) implies contains_project(s1, p) by {
        let i = choose|i: int| 0 <= i < s2.len() && (#[trigger] s2[i]).name == p;
        assert(s2.contains(s2[i]));
        assert(s2.to_multiset().count(s2[i]) > 0);
        assert(s1.to_multiset().count(s2[i]) > 0);
        assert(s1.contains(s2[i]));
        let j = choose|j: int| 0 <= j < s1.len() && s1[j] == s2[i];
        assert(s1[j].name == p);
    }
    assert(project_totals(s1) =~= project_totals(s2));
}

/// An empty record stream reconstructs to no spans, and no spans
/// aggregate to the empty total map.
pub proof fn lemma_empty_input()
    ensures
        reconstruct(Seq::<crate::calc::raw_log::RawLogView>::empty())
            == Seq::<SpanView>::empty(),
        project_totals(Seq::<SpanView>::empty()) == Map::<Seq<char>, u64>::empty(),
{
    assert(project_totals(Seq::<SpanView>::empty()) =~= Map::<Seq<char>, u64>::empty());
}

} // verus!
