use vstd::prelude::*;

use crate::calc::project_map::ProjectMap;
use crate::digits::{nat_to_digits, u64_to_string};
use crate::order::sort_strings;
use crate::text::{join_lines, join_lines_in, lex_leq_fn};

verus! {

/// One report line: the project and its time, in the coarsest fitting
/// unit pair.
pub open spec fn format_line_spec(name: Seq<char>, t: u64) -> Seq<char> {
    let hours = t / 3600;
    let minutes = (t % 3600) / 60;
    let secs = (t % 3600) % 60;
    if hours == 0 && minutes == 0 {
        name + " - "@ + nat_to_digits(secs as nat) + " seconds"@
    } else if hours == 0 {
        name + " - "@ + nat_to_digits(minutes as nat) + " minutes "@ + nat_to_digits(
            secs as nat,
        ) + " seconds"@
    } else {
        name + " - "@ + nat_to_digits(hours as nat) + " hours "@ + nat_to_digits(
            minutes as nat,
        ) + " minutes"@
    }
}

/// The whole report: one line per project, alphabetized, joined with
/// newlines; a fixed notice when there is no data.
pub open spec fn format_spec(data: ProjectMap) -> Seq<char> {
    let lines = data.entries_view().map_values(|e: (Seq<char>, u64)| format_line_spec(e.0, e.1));
    if lines.len() == 0 {
        "No time track data found"@
    } else {
        join_lines(lines.sort_by(lex_leq_fn()))
    }
}

/// Renders the per-project totals as the report text.
pub fn format(data: &ProjectMap) -> (r: String)
    ensures
        r@ == format_spec(*data),
{
    let ghost spec_lines = data.entries_view().map_values(
        |e: (Seq<char>, u64)| format_line_spec(e.0, e.1),
    );
    let n = data.entries.len();
    let mut lines: Vec<String> = Vec::new();
    proof {
        assert(lines.deep_view() =~= spec_lines.take(0));
    }
    let mut i: usize = 0;
    while i < n
        invariant
            0 <= i <= n,
            n == data.entries.len(),
            spec_lines == data.entries_view().map_values(
                |e: (Seq<char>, u64)| format_line_spec(e.0, e.1),
            ),
            lines.deep_view() == spec_lines.take(i as int),
        decreases n - i,
    {
        let name = &data.entries[i].0;
        let t = data.entries[i].1;
        let hours = t / 3600;
        let rem = t % 3600;
        let minutes = rem / 60;
        let secs = rem % 60;
        let head = String::from_str(name.as_str()).concat(" - ");
        let line = if hours == 0 && minutes == 0 {
            head.concat(u64_to_string(secs).as_str()).concat(" seconds")
        } else if hours == 0 {
            head.concat(u64_to_string(minutes).as_str()).concat(" minutes ").concat(
                u64_to_string(secs).as_str(),
            ).concat(" seconds")
        } else {
            head.concat(u64_to_string(hours).as_str()).concat(" hours ").concat(
                u64_to_string(minutes).as_str(),
            ).concat(" minutes")
        };
        proof {
            assert(data.entries_view()[i as int] == (data.entries@[i as int].0@,
            data.entries@[i as int].1));
            assert(line@ == spec_lines[i as int]);
        }
        let ghost prev = lines.deep_view();
        lines.push(line);
        proof {
            assert(lines.deep_view() =~= prev.push(line@));
            assert(spec_lines.take(i + 1) =~= spec_lines.take(i as int).push(
                spec_lines[i as int],
            ));
        }
        i = i + 1;
    }
    proof {
        assert(spec_lines.take(n as int) =~= spec_lines);
    }
    if lines.len() == 0 {
        return String::from_str("No time track data found");
    }
    let sorted = sort_strings(&lines);
    join_lines_in(&sorted)
}

} // verus!
