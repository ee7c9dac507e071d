use vstd::prelude::*;

use crate::calc::project_map::{ProjectMap, lemma_map_of_value};
use crate::digits::{nat_to_digits, u64_to_string};
use crate::order::sort_strings;
use crate::text::{lemma_lex_total_ordering, lex_leq_fn};

verus! {

/// The human-readable rendering of a duration in seconds.
pub open spec fn to_hms_spec(seconds: u64) -> Seq<char> {
    let hours = seconds / 3600;
    let minutes = (seconds % 3600) / 60;
    let secs = (seconds % 3600) % 60;
    if hours == 0 && minutes == 0 && secs == 0 {
        "None"@
    } else if hours == 0 && minutes == 0 && secs == 1 {
        "1 second"@
    } else if hours == 0 && minutes == 0 {
        nat_to_digits(secs as nat) + " seconds"@
    } else if hours == 0 && minutes == 1 {
        "1 minute"@
    } else if hours == 0 {
        nat_to_digits(minutes as nat) + " minutes"@
    } else if hours == 1 && minutes == 1 {
        "1 hour 1 minute"@
    } else if hours == 1 {
        "1 hour "@ + nat_to_digits(minutes as nat) + " minutes"@
    } else if minutes == 1 {
        nat_to_digits(hours as nat) + " hours 1 minute"@
    } else {
        nat_to_digits(hours as nat) + " hours "@ + nat_to_digits(minutes as nat) + " minutes"@
    }
}

/// Converts a duration in seconds to a human readable string.
pub fn to_hms(seconds: u64) -> (r: String)
    ensures
        r@ == to_hms_spec(seconds),
{
    let hours = seconds / (60 * 60);
    let rem = seconds % (60 * 60);
    let minutes = rem / 60;
    let secs = rem % 60;
    if hours == 0 && minutes == 0 && secs == 0 {
        String::from_str("None")
    } else if hours == 0 && minutes == 0 && secs == 1 {
        String::from_str("1 second")
    } else if hours == 0 && minutes == 0 {
        u64_to_string(secs).concat(" seconds")
    } else if hours == 0 && minutes == 1 {
        String::from_str("1 minute")
    } else if hours == 0 {
        u64_to_string(minutes).concat(" minutes")
    } else if hours == 1 && minutes == 1 {
        String::from_str("1 hour 1 minute")
    } else if hours == 1 {
        String::from_str("1 hour ").concat(u64_to_string(minutes).as_str()).concat(" minutes")
    } else if minutes == 1 {
        u64_to_string(hours).concat(" hours 1 minute")
    } else {
        u64_to_string(hours).concat(" hours ").concat(u64_to_string(minutes).as_str()).concat(
            " minutes",
        )
    }
}

/// The names held in an entry sequence.
pub open spec fn entry_names(entries: Seq<(Seq<char>, u64)>) -> Seq<Seq<char>> {
    entries.map_values(|e: (Seq<char>, u64)| e.0)
}

/// The display rows of a total map: one row per project with a positive
/// total, alphabetized by project name, each with its rendered duration.
pub open spec fn format_rows_spec(data: ProjectMap) -> Seq<(Seq<char>, Seq<char>)> {
    entry_names(data.entries_view()).sort_by(lex_leq_fn()).filter(
        |n: Seq<char>| data@[n] > 0,
    ).map_values(|n: Seq<char>| (n, to_hms_spec(data@[n])))
}

/// Builds the display rows for a total map.
pub fn format(data: &ProjectMap) -> (r: Vec<(String, String)>)
    requires
        data.wf(),
    ensures
        r@.map_values(|e: (String, String)| (e.0@, e.1@)) == format_rows_spec(*data),
{
    let n = data.entries.len();
    let mut names: Vec<String> = Vec::new();
    let mut i: usize = 0;
    proof {
        assert(names.deep_view() =~= entry_names(data.entries_view()).take(0));
    }
    while i < n
        invariant
            0 <= i <= n,
            n == data.entries.len(),
            names.deep_view() =~= entry_names(data.entries_view()).take(i as int),
        decreases n - i,
    {
        let ghost prev = names.deep_view();
        names.push(data.entries[i].0.clone());
        proof {
            assert(names.deep_view() =~= prev.push(data.entries@[i as int].0@));
            assert(entry_names(data.entries_view())[i as int] == data.entries@[i as int].0@);
            assert(entry_names(data.entries_view()).take(i + 1) =~= entry_names(
                data.entries_view(),
            ).take(i as int).push(entry_names(data.entries_view())[i as int]));
        }
        i = i + 1;
    }
    proof {
        assert(entry_names(data.entries_view()).take(n as int) =~= entry_names(
            data.entries_view(),
        ));
    }
    let sorted = sort_strings(&names);
    let ghost sv = entry_names(data.entries_view()).sort_by(lex_leq_fn());
    let m = sorted.len();
    let mut rows: Vec<(String, String)> = Vec::new();
    proof {
        assert(sorted.deep_view().len() == m) by {
            lemma_lex_total_ordering();
            entry_names(data.entries_view()).lemma_sort_by_ensures(lex_leq_fn());
            broadcast use vstd::seq_lib::group_to_multiset_ensures;

        }
        assert(rows@.map_values(|e: (String, String)| (e.0@, e.1@)) =~= sv.take(0).filter(
            |nm: Seq<char>| data@[nm] > 0,
        ).map_values(|nm: Seq<char>| (nm, to_hms_spec(data@[nm]))));
    }
    let mut j: usize = 0;
    while j < m
        invariant
            0 <= j <= m,
            m == sorted.len(),
            data.wf(),
            sorted.deep_view() == sv,
            sv == entry_names(data.entries_view()).sort_by(lex_leq_fn()),
            rows@.map_values(|e: (String, String)| (e.0@, e.1@)) == sv.take(j as int).filter(
                |nm: Seq<char>| data@[nm] > 0,
            ).map_values(|nm: Seq<char>| (nm, to_hms_spec(data@[nm]))),
        decreases m - j,
    {
        proof {
            assert(sorted.deep_view()[j as int] == sorted@[j as int]@);
            // every sorted name is a key of the map
            broadcast use vstd::seq_lib::group_to_multiset_ensures;

            lemma_lex_total_ordering();
            entry_names(data.entries_view()).lemma_sort_by_ensures(lex_leq_fn());
            let nm = sv[j as int];
            assert(sv.contains(nm));
            assert(sv.to_multiset().count(nm) > 0);
            assert(entry_names(data.entries_view()).to_multiset().count(nm) > 0);
            assert(entry_names(data.entries_view()).contains(nm));
            let k = choose|k: int|
                0 <= k < entry_names(data.entries_view()).len() && entry_names(
                    data.entries_view(),
                )[k] == nm;
            assert(data.entries_view()[k].0 == nm);
            lemma_map_of_value(data.entries_view(), k);
            assert(data@.contains_key(nm));
        }
        let name = &sorted[j];
        let value = match data.get(name.as_str()) {
            Some(v) => v,
            None => vstd::pervasive::unreached(),
        };
        if value > 0 {
            let hms = to_hms(value);
            let ghost prevrows = rows@.map_values(|e: (String, String)| (e.0@, e.1@));
            rows.push((name.clone(), hms));
            proof {
                assert(rows@.map_values(|e: (String, String)| (e.0@, e.1@)) =~= prevrows.push(
                    (name@, to_hms_spec(data@[name@])),
                ));
            }
        }
        proof {
            let pred_s = |nm: Seq<char>| data@[nm] > 0;
            let f_s = |nm: Seq<char>| (nm, to_hms_spec(data@[nm]));
            reveal(Seq::filter);
            assert(sv.take(j + 1) =~= sv.take(j as int).push(sv[j as int]));
            assert(sv.take(j + 1).drop_last() =~= sv.take(j as int));
            if value > 0 {
                assert(pred_s(sv[j as int]));
                assert(sv.take(j + 1).filter(pred_s) =~= sv.take(j as int).filter(pred_s).push(
                    sv[j as int],
                ));
                assert(sv.take(j + 1).filter(pred_s).map_values(f_s) =~= sv.take(
                    j as int,
                ).filter(pred_s).map_values(f_s).push(f_s(sv[j as int])));
            } else {
                assert(!pred_s(sv[j as int])) by {
                    assert(data@[name@] == value);
                }
                assert(sv.take(j + 1).filter(pred_s) =~= sv.take(j as int).filter(pred_s));
            }
        }
        j = j + 1;
    }
    proof {
        assert(sv.take(m as int) =~= sv);
    }
    rows
}

} // verus!
