use vstd::prelude::*;

use crate::digits::{
    all_digits, canonical_digits, digits_to_nat, lemma_canonical_unique, lemma_nat_to_digits_wf,
    nat_to_digits, parse_u64, u64_to_string,
};
use crate::error::TimeTrackerError;
use crate::text::{find_char, find_char_in, lemma_find_char, lemma_find_char_unique, split_lines,
    split_lines_in};

verus! {

/// One persisted activity record: a project name (no '/', non-empty by the
/// data model) and a timestamp in whole seconds.
#[derive(Debug, PartialEq)]
pub struct RawLog {
    pub name: String,
    pub timestamp: u64,
}

/// Mathematical model of a record.
pub ghost struct RawLogView {
    pub name: Seq<char>,
    pub timestamp: u64,
}

impl View for RawLog {
    type V = RawLogView;

    open spec fn view(&self) -> RawLogView {
        RawLogView { name: self.name@, timestamp: self.timestamp }
    }
}

/// A record satisfying the data-model invariants.
pub open spec fn valid_raw_log(l: RawLogView) -> bool {
    &&& l.name.len() > 0
    &&& forall|k: int| 0 <= k < l.name.len() ==> l.name[k] != '/'
}

/// The timestamp field of a line: everything after the first '/'.
pub open spec fn line_ts_field(s: Seq<char>) -> Seq<char> {
    s.skip(find_char(s, '/') as int + 1)
}

/// A well-formed timestamp field: a non-empty digit string whose value
/// fits in a `u64`.
pub open spec fn ts_field_ok(f: Seq<char>) -> bool {
    &&& f.len() > 0
    &&& all_digits(f)
    &&& digits_to_nat(f) <= u64::MAX
}

/// A line that decodes: it has a separator and a parseable timestamp field.
pub open spec fn line_ok(s: Seq<char>) -> bool {
    &&& find_char(s, '/') < s.len()
    &&& ts_field_ok(line_ts_field(s))
}

/// The project name encoded in a line: everything before the first '/'.
pub open spec fn line_name(s: Seq<char>) -> Seq<char> {
    s.take(find_char(s, '/') as int)
}

/// The timestamp encoded in a line.
pub open spec fn line_ts(s: Seq<char>) -> u64 {
    digits_to_nat(line_ts_field(s)) as u64
}

/// The text encoding of a record: name, separator, canonical decimal
/// timestamp.
pub open spec fn encode_spec(name: Seq<char>, ts: u64) -> Seq<char> {
    name + seq!['/'] + nat_to_digits(ts as nat)
}

/// A line in the exact shape `encode` produces: decodable, with the
/// timestamp written canonically.
pub open spec fn well_formed_line(s: Seq<char>) -> bool {
    &&& line_ok(s)
    &&& canonical_digits(line_ts_field(s))
}

impl RawLog {
    /// Decodes one line. Fails with `InvalidLineError` when the separator
    /// is missing, and with `InvalidTimestampError` when the timestamp
    /// field is not a non-negative integer that fits in a `u64`.
    pub fn try_from(raw_data: &str) -> (r: Result<RawLog, TimeTrackerError>)
        ensures
            match r {
                Ok(log) => line_ok(raw_data@) && log@.name == line_name(raw_data@)
                    && log@.timestamp == line_ts(raw_data@),
                Err(TimeTrackerError::InvalidLineError(v)) => find_char(raw_data@, '/')
                    >= raw_data@.len() && v@ == raw_data@,
                Err(TimeTrackerError::InvalidTimestampError(v)) => find_char(raw_data@, '/')
                    < raw_data@.len() && !ts_field_ok(line_ts_field(raw_data@)) && v@
                    == line_ts_field(raw_data@),
            },
    {
        let n = raw_data.unicode_len();
        let i = find_char_in(raw_data, '/');
        proof {
            lemma_find_char(raw_data@, '/');
        }
        if i == n {
            return Err(TimeTrackerError::InvalidLineError(String::from_str(raw_data)));
        }
        let name = raw_data.substring_char(0, i);
        let field = raw_data.substring_char(i + 1, n);
        proof {
            assert(field@ =~= line_ts_field(raw_data@));
            assert(name@ =~= line_name(raw_data@));
        }
        match parse_u64(field) {
            Some(v) => Ok(RawLog { name: String::from_str(name), timestamp: v }),
            None => Err(TimeTrackerError::InvalidTimestampError(String::from_str(field))),
        }
    }

    /// Encodes the record as one line of text (without the newline).
    pub fn encode(&self) -> (r: String)
        ensures
            r@ == encode_spec(self.name@, self.timestamp),
    {
        let r = String::from_str(self.name.as_str()).concat("/").concat(
            u64_to_string(self.timestamp).as_str(),
        );
        proof {
            reveal_strlit("/");
            assert("/"@ =~= seq!['/']);
        }
        r
    }
}

/// All given lines decode.
pub open spec fn lines_ok(lines: Seq<Seq<char>>) -> bool {
    forall|i: int| 0 <= i < lines.len() ==> line_ok(#[trigger] lines[i])
}

/// The records encoded in a sequence of decodable lines.
pub open spec fn decode_lines(lines: Seq<Seq<char>>) -> Seq<RawLogView> {
    lines.map_values(|l: Seq<char>| RawLogView { name: line_name(l), timestamp: line_ts(l) })
}

/// The error that decoding stops with on the first bad line.
pub open spec fn line_error_matches(e: TimeTrackerError, line: Seq<char>) -> bool {
    match e {
        TimeTrackerError::InvalidLineError(v) => find_char(line, '/') >= line.len() && v@ == line,
        TimeTrackerError::InvalidTimestampError(v) => find_char(line, '/') < line.len()
            && !ts_field_ok(line_ts_field(line)) && v@ == line_ts_field(line),
    }
}

/// A first bad line refutes `lines_ok`.
pub proof fn lemma_bad_line_refutes_lines_ok(raw: Seq<char>, e: TimeTrackerError)
    requires
        exists|i: int|
            {
                &&& 0 <= i < split_lines(raw).len()
                &&& !line_ok(#[trigger] split_lines(raw)[i])
                &&& (forall|k: int| 0 <= k < i ==> line_ok(#[trigger] split_lines(raw)[k]))
                &&& line_error_matches(e, split_lines(raw)[i])
            },
    ensures
        !lines_ok(split_lines(raw)),
{
    let i = choose|i: int|
        {
            &&& 0 <= i < split_lines(raw).len()
            &&& !line_ok(#[trigger] split_lines(raw)[i])
            &&& (forall|k: int| 0 <= k < i ==> line_ok(#[trigger] split_lines(raw)[k]))
            &&& line_error_matches(e, split_lines(raw)[i])
        };
    assert(!line_ok(split_lines(raw)[i]));
}

/// Decodes a whole raw-data file: one record per line, stopping at the
/// first malformed line.
pub fn raw_logs_from(raw_data: &str) -> (r: Result<Vec<RawLog>, TimeTrackerError>)
    ensures
        match r {
            Ok(v) => lines_ok(split_lines(raw_data@)) && v@.map_values(|l: RawLog| l@)
                == decode_lines(split_lines(raw_data@)),
            Err(e) => exists|i: int|
                {
                    &&& 0 <= i < split_lines(raw_data@).len()
                    &&& !line_ok(#[trigger] split_lines(raw_data@)[i])
                    &&& (forall|k: int| 0 <= k < i ==> line_ok(#[trigger] split_lines(raw_data@)[k]))
                    &&& line_error_matches(e, split_lines(raw_data@)[i])
                },
        },
{
    let lines = split_lines_in(raw_data);
    let n = lines.len();
    let mut raw_logs: Vec<RawLog> = Vec::new();
    let mut i: usize = 0;
    while i < n
        invariant
            0 <= i <= n,
            n == lines.len(),
            lines.deep_view() == split_lines(raw_data@),
            forall|k: int| 0 <= k < i ==> line_ok(#[trigger] split_lines(raw_data@)[k]),
            raw_logs@.map_values(|l: RawLog| l@) =~= decode_lines(
                split_lines(raw_data@).take(i as int),
            ),
        decreases n - i,
    {
        proof {
            assert(lines.deep_view()[i as int] == lines[i as int]@);
        }
        match RawLog::try_from(lines[i].as_str()) {
            Ok(log) => {
                let ghost prev = raw_logs@;
                raw_logs.push(log);
                proof {
                    assert(raw_logs@.map_values(|l: RawLog| l@) =~= prev.map_values(
                        |l: RawLog| l@,
                    ).push(log@));
                    assert(decode_lines(split_lines(raw_data@).take(i + 1)) =~= decode_lines(
                        split_lines(raw_data@).take(i as int),
                    ).push(decode_lines(split_lines(raw_data@))[i as int])) by {
                        assert(split_lines(raw_data@).take(i + 1) =~= split_lines(
                            raw_data@,
                        ).take(i as int).push(split_lines(raw_data@)[i as int]));
                    }
                }
            },
            Err(e) => {
                proof {
                    let ghost w = i as int;
                    assert({
                        &&& 0 <= w < split_lines(raw_data@).len()
                        &&& !line_ok(split_lines(raw_data@)[w])
                        &&& (forall|k: int|
                            0 <= k < w ==> line_ok(#[trigger] split_lines(raw_data@)[k]))
                        &&& line_error_matches(e, split_lines(raw_data@)[w])
                    });
                }
                return Err(e);
            },
        }
        i = i + 1;
    }
    proof {
        assert(split_lines(raw_data@).take(n as int) =~= split_lines(raw_data@));
    }
    Ok(raw_logs)
}

/// Encoding a valid record yields a line that decodes to the same record.
pub proof fn lemma_encode_decode(name: Seq<char>, ts: u64)
    requires
        forall|k: int| 0 <= k < name.len() ==> name[k] != '/',
    ensures
        well_formed_line(encode_spec(name, ts)),
        line_name(encode_spec(name, ts)) == name,
        line_ts(encode_spec(name, ts)) == ts,
{
    let enc = encode_spec(name, ts);
    let d = nat_to_digits(ts as nat);
    lemma_nat_to_digits_wf(ts as nat);
    assert(enc.len() == name.len() + 1 + d.len());
    assert(enc[name.len() as int] == '/');
    assert(forall|k: int| 0 <= k < name.len() ==> enc[k] == name[k]);
    lemma_find_char_unique(enc, '/', name.len() as int);
    assert(find_char(enc, '/') == name.len());
    assert(line_name(enc) =~= name);
    assert(line_ts_field(enc) =~= d);
    assert(digits_to_nat(d) == ts);
}

/// Decoding a well-formed line and encoding the result reproduces the line.
pub proof fn lemma_decode_encode(s: Seq<char>)
    requires
        well_formed_line(s),
    ensures
        encode_spec(line_name(s), line_ts(s)) == s,
{
    let i = find_char(s, '/') as int;
    lemma_find_char(s, '/');
    let f = line_ts_field(s);
    lemma_canonical_unique(f);
    assert(nat_to_digits(line_ts(s) as nat) =~= f);
    assert(encode_spec(line_name(s), line_ts(s)) =~= s) by {
        assert(s[i] == '/');
        assert(forall|k: int| 0 <= k < i ==> line_name(s)[k] == s[k]);
        assert(forall|k: int| 0 <= k < f.len() ==> f[k] == s[i + 1 + k]);
    }
}

} // verus!
