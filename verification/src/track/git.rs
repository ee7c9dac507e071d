use vstd::prelude::*;

use crate::text::{contains_seq, find_substring, split_lines, split_lines_in, starts_with_str};

verus! {

/// A line of the ignore tool's standard output that reports a match: the
/// verbose check-ignore format puts "::" on lines for paths no rule
/// excludes.
pub open spec fn line_reports_unignored(line: Seq<char>) -> bool {
    contains_seq(line, "::"@)
}

/// A line of the tool's standard error that reports the directory is not
/// a repository at all; then nothing is ignored and time must be kept.
pub open spec fn line_reports_no_repository(line: Seq<char>) -> bool {
    "fatal: Not a git repository"@.is_prefix_of(line)
}

/// The decision read off the ignore tool's output: at least one changed
/// path would not be ignored, or the directory is no repository (fail
/// open: better to over-report than silently lose tracked time).
pub open spec fn output_indicates_not_ignored_spec(stdout: Seq<char>, stderr: Seq<char>) -> bool {
    ||| exists|i: int|
        0 <= i < split_lines(stdout).len() && line_reports_unignored(
            #[trigger] split_lines(stdout)[i],
        )
    ||| exists|i: int|
        0 <= i < split_lines(stderr).len() && line_reports_no_repository(
            #[trigger] split_lines(stderr)[i],
        )
}

/// Reads the ignore tool's captured output and decides whether the batch
/// holds at least one path that would not be ignored.
pub fn output_indicates_not_ignored(stdout: &str, stderr: &str) -> (r: bool)
    ensures
        r == output_indicates_not_ignored_spec(stdout@, stderr@),
{
    let out_lines = split_lines_in(stdout);
    let n = out_lines.len();
    let mut i: usize = 0;
    while i < n
        invariant
            0 <= i <= n,
            n == out_lines.len(),
            out_lines.deep_view() == split_lines(stdout@),
            forall|k: int|
                0 <= k < i ==> !line_reports_unignored(#[trigger] split_lines(stdout@)[k]),
        decreases n - i,
    {
        proof {
            assert(out_lines.deep_view()[i as int] == out_lines[i as int]@);
        }
        match find_substring(out_lines[i].as_str(), "::") {
            Some(_) => {
                return true;
            },
            None => {},
        }
        i = i + 1;
    }
    let err_lines = split_lines_in(stderr);
    let m = err_lines.len();
    let mut j: usize = 0;
    while j < m
        invariant
            0 <= j <= m,
            m == err_lines.len(),
            err_lines.deep_view() == split_lines(stderr@),
            forall|k: int|
                0 <= k < split_lines(stdout@).len() ==> !line_reports_unignored(
                    #[trigger] split_lines(stdout@)[k],
                ),
            forall|k: int|
                0 <= k < j ==> !line_reports_no_repository(#[trigger] split_lines(stderr@)[k]),
        decreases m - j,
    {
        proof {
            assert(err_lines.deep_view()[j as int] == err_lines[j as int]@);
        }
        if starts_with_str(err_lines[j].as_str(), "fatal: Not a git repository") {
            return true;
        }
        j = j + 1;
    }
    false
}

} // verus!
