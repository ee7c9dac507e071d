use vstd::prelude::*;

pub mod debounce;
pub mod git;

use crate::TimeTracker;
use crate::text::{find_char, find_char_in, lemma_find_char, str_eq};

verus! {

/// The components of a path: the segments between '/' separators, empty
/// segments dropped, as the platform's path type walks them.
pub open spec fn path_components(s: Seq<char>) -> Seq<Seq<char>>
    decreases s.len(),
{
    if s.len() == 0 {
        Seq::empty()
    } else {
        let i = find_char(s, '/');
        if i >= s.len() {
            seq![s]
        } else if i == 0 {
            path_components(s.skip(1))
        } else {
            seq![s.take(i as int)] + path_components(s.skip(i as int + 1))
        }
    }
}

/// Splits a path into its components.
pub fn split_path(s: &str) -> (r: Vec<String>)
    ensures
        r.deep_view() == path_components(s@),
    decreases s@.len(),
{
    let n = s.unicode_len();
    let mut r: Vec<String> = Vec::new();
    if n == 0 {
        proof {
            assert(r.deep_view() =~= path_components(s@));
        }
        return r;
    }
    let i = find_char_in(s, '/');
    proof {
        lemma_find_char(s@, '/');
    }
    if i == n {
        r.push(String::from_str(s));
        proof {
            assert(r.deep_view() =~= path_components(s@));
        }
        return r;
    }
    if i == 0 {
        let tail = s.substring_char(1, n);
        proof {
            assert(tail@ =~= s@.skip(1));
        }
        return split_path(tail);
    }
    let head = s.substring_char(0, i);
    let tail = s.substring_char(i + 1, n);
    proof {
        assert(head@ =~= s@.take(i as int));
        assert(tail@ =~= s@.skip(i as int + 1));
    }
    r.push(String::from_str(head));
    let mut rest = split_path(tail);
    let m = rest.len();
    let mut j: usize = 0;
    while j < m
        invariant
            0 <= j <= m,
            m == rest.len(),
            rest.deep_view() == path_components(s@.skip(i as int + 1)),
            r.deep_view() =~= seq![s@.take(i as int)] + path_components(
                s@.skip(i as int + 1),
            ).take(j as int),
        decreases m - j,
    {
        let seg = rest[j].clone();
        proof {
            assert(rest.deep_view()[j as int] == rest[j as int]@);
        }
        let ghost prev = r.deep_view();
        r.push(seg);
        proof {
            assert(r.deep_view() =~= prev.push(rest.deep_view()[j as int]));
            assert(path_components(s@.skip(i as int + 1)).take(j + 1) =~= path_components(
                s@.skip(i as int + 1),
            ).take(j as int).push(path_components(s@.skip(i as int + 1))[j as int]));
        }
        j = j + 1;
    }
    proof {
        assert(path_components(s@.skip(i as int + 1)).take(m as int) =~= path_components(
            s@.skip(i as int + 1),
        ));
        assert(r.deep_view() =~= path_components(s@));
    }
    r
}

/// Component-wise equality of two component vectors.
fn components_eq(a: &Vec<String>, b: &Vec<String>) -> (r: bool)
    ensures
        r == (a.deep_view() == b.deep_view()),
{
    let n = a.len();
    if n != b.len() {
        proof {
            assert(a.deep_view().len() == n);
            assert(b.deep_view().len() == b@.len());
        }
        return false;
    }
    let mut i: usize = 0;
    while i < n
        invariant
            0 <= i <= n,
            n == a.len() && n == b.len(),
            forall|k: int| 0 <= k < i ==> a.deep_view()[k] == b.deep_view()[k],
        decreases n - i,
    {
        proof {
            assert(a.deep_view()[i as int] == a@[i as int]@);
            assert(b.deep_view()[i as int] == b@[i as int]@);
        }
        if !str_eq(a[i].as_str(), b[i].as_str()) {
            return false;
        }
        i = i + 1;
    }
    proof {
        assert(a.deep_view() =~= b.deep_view());
    }
    true
}

/// Whether `p`'s components begin `s`'s components.
fn components_prefix(p: &Vec<String>, s: &Vec<String>) -> (r: bool)
    ensures
        r == p.deep_view().is_prefix_of(s.deep_view()),
{
    let n = p.len();
    if n > s.len() {
        proof {
            assert(p.deep_view().len() == n);
            assert(s.deep_view().len() == s@.len());
        }
        return false;
    }
    let mut i: usize = 0;
    while i < n
        invariant
            0 <= i <= n,
            n == p.len(),
            n <= s.len(),
            forall|k: int| 0 <= k < i ==> p.deep_view()[k] == s.deep_view()[k],
        decreases n - i,
    {
        proof {
            assert(p.deep_view()[i as int] == p@[i as int]@);
            assert(s.deep_view()[i as int] == s@[i as int]@);
        }
        if !str_eq(p[i].as_str(), s[i].as_str()) {
            proof {
                assert(s.deep_view().subrange(0, n as int)[i as int] == s.deep_view()[i as int]);
            }
            return false;
        }
        i = i + 1;
    }
    proof {
        assert(s.deep_view().subrange(0, n as int) =~= p.deep_view());
    }
    true
}

/// The first configured root whose components begin the path's also
/// leaves something behind: the project component.
pub open spec fn attributable(roots: Seq<Seq<char>>, path: Seq<char>) -> bool
    decreases roots.len(),
{
    if roots.len() == 0 {
        false
    } else if path_components(roots[0]).is_prefix_of(path_components(path)) {
        path_components(path).len() > path_components(roots[0]).len()
    } else {
        attributable(roots.skip(1), path)
    }
}

/// The project a path belongs to: the component right after the first
/// matching root.
pub open spec fn attributed(roots: Seq<Seq<char>>, path: Seq<char>) -> Seq<char>
    decreases roots.len(),
{
    if roots.len() == 0 {
        Seq::empty()
    } else if path_components(roots[0]).is_prefix_of(path_components(path)) {
        path_components(path)[path_components(roots[0]).len() as int]
    } else {
        attributed(roots.skip(1), path)
    }
}

/// The configured roots, as component sources.
pub open spec fn root_views(c: crate::config::Configuration) -> Seq<Seq<char>> {
    c.track_paths.deep_view()
}

impl<'a> TimeTracker<'a> {
    /// Maps a changed path to its project. The raw-data file itself is
    /// never attributed (self-writes must not feed back); any other path
    /// must lie strictly under a configured root, which the caller
    /// guarantees - a watcher only delivers paths under its root.
    pub fn extract_project_name(&self, path: &str) -> (r: Option<String>)
        requires
            path_components(path@) == path_components(self.config.raw_data_path@) || attributable(
                root_views(*self.config),
                path@,
            ),
        ensures
            match r {
                Option::None => path_components(path@) == path_components(
                    self.config.raw_data_path@,
                ),
                Option::Some(p) => path_components(path@) != path_components(
                    self.config.raw_data_path@,
                ) && p@ == attributed(root_views(*self.config), path@),
            },
    {
        let pcomps = split_path(path);
        let rcomps = split_path(self.config.raw_data_path.as_str());
        if components_eq(&pcomps, &rcomps) {
            return None;
        }
        let n = self.config.track_paths.len();
        proof {
            assert(root_views(*self.config).skip(0) =~= root_views(*self.config));
        }
        let mut i: usize = 0;
        while i < n
            invariant
                0 <= i <= n,
                n == self.config.track_paths.len(),
                pcomps.deep_view() == path_components(path@),
                path_components(path@) != path_components(self.config.raw_data_path@),
                attributable(root_views(*self.config), path@),
                attributable(root_views(*self.config), path@) == attributable(
                    root_views(*self.config).skip(i as int),
                    path@,
                ),
                attributed(root_views(*self.config), path@) == attributed(
                    root_views(*self.config).skip(i as int),
                    path@,
                ),
            decreases n - i,
        {
            let tcomps = split_path(self.config.track_paths[i].as_str());
            proof {
                let rv = root_views(*self.config);
                assert(rv.skip(i as int)[0] == rv[i as int]);
                assert(rv[i as int] == self.config.track_paths@[i as int]@);
                assert(rv.skip(i as int).skip(1) =~= rv.skip(i as int + 1));
            }
            if components_prefix(&tcomps, &pcomps) {
                let k = tcomps.len();
                proof {
                    assert(path_components(path@).len() > path_components(
                        self.config.track_paths@[i as int]@,
                    ).len());
                    assert(pcomps.deep_view()[k as int] == pcomps@[k as int]@);
                }
                return Some(pcomps[k].clone());
            }
            i = i + 1;
        }
        proof {
            assert(root_views(*self.config).skip(n as int).len() == 0);
        }
        vstd::pervasive::unreached()
    }
}

/// The attributed (project, path) pairs of a batch, in event order:
/// events without a path of interest and self-writes of the raw-data
/// file drop out.
pub open spec fn batch_pairs(
    events: Seq<debounce::WatchEvent>,
    roots: Seq<Seq<char>>,
    raw: Seq<char>,
) -> Seq<(Seq<char>, Seq<char>)>
    decreases events.len(),
{
    if events.len() == 0 {
        Seq::empty()
    } else {
        let rest = batch_pairs(events.drop_last(), roots, raw);
        match debounce::path_of_interest(events.last()) {
            Option::None => rest,
            Option::Some(p) => if path_components(p) == path_components(raw) {
                rest
            } else {
                rest.push((attributed(roots, p), p))
            },
        }
    }
}

/// Every event's path is the raw-data file or lies strictly under a
/// configured root.
pub open spec fn events_attributable(
    events: Seq<debounce::WatchEvent>,
    roots: Seq<Seq<char>>,
    raw: Seq<char>,
) -> bool {
    forall|k: int|
        0 <= k < events.len() ==> match debounce::path_of_interest(#[trigger] events[k]) {
            Option::Some(p) => path_components(p) == path_components(raw) || attributable(
                roots,
                p,
            ),
            Option::None => true,
        }
}

/// The models of a group vector.
pub open spec fn group_views(g: Seq<(String, Vec<String>)>) -> Seq<(Seq<char>, Seq<Seq<char>>)> {
    g.map_values(|e: (String, Vec<String>)| (e.0@, e.1.deep_view()))
}

/// Group keys occur at most once.
pub open spec fn groups_distinct(g: Seq<(Seq<char>, Seq<Seq<char>>)>) -> bool {
    forall|i: int, j: int| 0 <= i < j < g.len() ==> (#[trigger] g[i]).0 != (#[trigger] g[j]).0
}

/// The paths a batch attributes to one project, in order.
pub open spec fn paths_for(pairs: Seq<(Seq<char>, Seq<char>)>, p: Seq<char>) -> Seq<Seq<char>> {
    pairs.filter(|q: (Seq<char>, Seq<char>)| q.0 == p).map_values(
        |q: (Seq<char>, Seq<char>)| q.1,
    )
}

/// Some pair of the batch belongs to the project.
pub open spec fn pairs_contain(pairs: Seq<(Seq<char>, Seq<char>)>, p: Seq<char>) -> bool {
    exists|k: int| 0 <= k < pairs.len() && (#[trigger] pairs[k]).0 == p
}

impl<'a> TimeTracker<'a> {
    /// Buckets a batch's events by project: each project seen gets the
    /// paths attributed to it, in event order. The caller guarantees, as
    /// in `extract_project_name`, that every delivered path lies under a
    /// configured root or is the raw-data file.
    pub fn group_events_by_project(&self, events: &Vec<debounce::WatchEvent>) -> (r: Vec<
        (String, Vec<String>),
    >)
        requires
            events_attributable(
                events@,
                root_views(*self.config),
                self.config.raw_data_path@,
            ),
        ensures
            ({
                let pairs = batch_pairs(
                    events@,
                    root_views(*self.config),
                    self.config.raw_data_path@,
                );
                let gv = group_views(r@);
                &&& groups_distinct(gv)
                &&& forall|j: int|
                    0 <= j < gv.len() ==> (#[trigger] gv[j]).1 == paths_for(pairs, gv[j].0)
                &&& forall|p: Seq<char>|
                    #[trigger] pairs_contain(pairs, p) <==> exists|j: int|
                        0 <= j < gv.len() && (#[trigger] gv[j]).0 == p
            }),
    {
        let ghost roots = root_views(*self.config);
        let ghost raw = self.config.raw_data_path@;
        let n = events.len();
        let mut groups: Vec<(String, Vec<String>)> = Vec::new();
        proof {
            assert(events@.take(0) =~= Seq::<debounce::WatchEvent>::empty());
            assert(group_views(groups@) =~= Seq::<(Seq<char>, Seq<Seq<char>>)>::empty());
        }
        let mut k: usize = 0;
        while k < n
            invariant
                0 <= k <= n,
                n == events.len(),
                roots == root_views(*self.config),
                raw == self.config.raw_data_path@,
                events_attributable(events@, roots, raw),
                groups_distinct(group_views(groups@)),
                forall|j: int|
                    0 <= j < group_views(groups@).len() ==> (#[trigger] group_views(groups@)[j]).1
                        == paths_for(
                        batch_pairs(events@.take(k as int), roots, raw),
                        group_views(groups@)[j].0,
                    ),
                forall|p: Seq<char>|
                    #[trigger] pairs_contain(batch_pairs(events@.take(k as int), roots, raw), p)
                        <==> exists|j: int|
                        0 <= j < group_views(groups@).len() && (#[trigger] group_views(
                            groups@,
                        )[j]).0 == p,
            decreases n - k,
        {
            let ghost pre_pairs = batch_pairs(events@.take(k as int), roots, raw);
            proof {
                assert(events@.take(k + 1).drop_last() =~= events@.take(k as int));
                assert(events@.take(k + 1).last() == events@[k as int]);
            }
            let path = match debounce::get_path_from_event(&events[k]) {
                Option::None => {
                    proof {
                        assert(batch_pairs(events@.take(k + 1), roots, raw) == pre_pairs);
                    }
                    k = k + 1;
                    continue ;
                },
                Option::Some(p) => p,
            };
            let project = match self.extract_project_name(path.as_str()) {
                Option::None => {
                    proof {
                        assert(batch_pairs(events@.take(k + 1), roots, raw) == pre_pairs);
                    }
                    k = k + 1;
                    continue ;
                },
                Option::Some(p) => p,
            };
            let ghost q = (project@, path@);
            let ghost post_pairs = batch_pairs(events@.take(k + 1), roots, raw);
            proof {
                assert(post_pairs == pre_pairs.push(q));
            }
            let m = groups.len();
            let mut idx: usize = 0;
            while idx < m && !str_eq(groups[idx].0.as_str(), project.as_str())
                invariant
                    0 <= idx <= m,
                    m == groups.len(),
                    project@ == q.0,
                    forall|j: int|
                        0 <= j < idx ==> (#[trigger] group_views(groups@)[j]).0 != q.0,
                decreases m - idx,
            {
                proof {
                    assert(group_views(groups@)[idx as int] == (groups@[idx as int].0@,
                    groups@[idx as int].1.deep_view()));
                }
                idx = idx + 1;
            }
            let ghost gv_pre = group_views(groups@);
            if idx < m {
                proof {
                    assert(group_views(groups@)[idx as int] == (groups@[idx as int].0@,
                    groups@[idx as int].1.deep_view()));
                    assert(gv_pre[idx as int].0 == q.0);
                }
                let ghost g0 = groups@;
                let mut entry = groups.remove(idx);
                entry.1.push(path);
                proof {
                    assert(entry.0@ == q.0);
                    assert(entry.1.deep_view() =~= gv_pre[idx as int].1.push(q.1));
                }
                let ghost e2 = entry;
                groups.insert(idx, entry);
                proof {
                    assert(groups@ =~= g0.update(idx as int, e2));
                    let gv = group_views(groups@);
                    assert(gv =~= gv_pre.update(
                        idx as int,
                        (q.0, gv_pre[idx as int].1.push(q.1)),
                    ));
                    lemma_groups_step_existing(gv_pre, pre_pairs, q, idx as int);
                }
            } else {
                let mut first: Vec<String> = Vec::new();
                first.push(path);
                proof {
                    assert(first.deep_view() =~= seq![q.1]);
                }
                let ghost g0 = groups@;
                let ghost e2 = (project, first);
                groups.push((project, first));
                proof {
                    assert(groups@ =~= g0.push(e2));
                    let gv = group_views(groups@);
                    assert(gv =~= gv_pre.push((q.0, seq![q.1])));
                    assert(forall|j: int|
                        0 <= j < gv_pre.len() ==> (#[trigger] gv_pre[j]).0 != q.0);
                    lemma_groups_step_new(gv_pre, pre_pairs, q);
                }
            }
            k = k + 1;
        }
        proof {
            assert(events@.take(n as int) =~= events@);
        }
        groups
    }
}

/// Appending a pair extends exactly its project's path list.
proof fn lemma_paths_for_push(pairs: Seq<(Seq<char>, Seq<char>)>, q: (Seq<char>, Seq<char>), p: Seq<char>)
    ensures
        p == q.0 ==> paths_for(pairs.push(q), p) == paths_for(pairs, p).push(q.1),
        p != q.0 ==> paths_for(pairs.push(q), p) == paths_for(pairs, p),
        pairs_contain(pairs.push(q), p) == (pairs_contain(pairs, p) || p == q.0),
{
    reveal(Seq::filter);
    let pred = |x: (Seq<char>, Seq<char>)| x.0 == p;
    assert(pairs.push(q).drop_last() =~= pairs);
    assert(pairs.push(q).last() == q);
    if p == q.0 {
        assert(pairs.push(q).filter(pred) =~= pairs.filter(pred).push(q));
        assert(paths_for(pairs.push(q), p) =~= paths_for(pairs, p).push(q.1));
    } else {
        assert(pairs.push(q).filter(pred) =~= pairs.filter(pred));
        assert(paths_for(pairs.push(q), p) =~= paths_for(pairs, p));
    }
    if pairs_contain(pairs.push(q), p) {
        let w = choose|w: int| 0 <= w < pairs.push(q).len() && (#[trigger] pairs.push(q)[w]).0 == p;
        if w < pairs.len() {
            assert(pairs[w].0 == p);
        }
    }
    if pairs_contain(pairs, p) {
        let w = choose|w: int| 0 <= w < pairs.len() && (#[trigger] pairs[w]).0 == p;
        assert(pairs.push(q)[w].0 == p);
    }
    if p == q.0 {
        assert(pairs.push(q)[pairs.len() as int].0 == p);
    }
}

/// A pair of a project already grouped lands in its group.
proof fn lemma_groups_step_existing(
    gv: Seq<(Seq<char>, Seq<Seq<char>>)>,
    pairs: Seq<(Seq<char>, Seq<char>)>,
    q: (Seq<char>, Seq<char>),
    jj: int,
)
    requires
        groups_distinct(gv),
        forall|j: int| 0 <= j < gv.len() ==> (#[trigger] gv[j]).1 == paths_for(pairs, gv[j].0),
        forall|p: Seq<char>|
            #[trigger] pairs_contain(pairs, p) <==> exists|j: int|
                0 <= j < gv.len() && (#[trigger] gv[j]).0 == p,
        0 <= jj < gv.len(),
        gv[jj].0 == q.0,
    ensures
        ({
            let gv2 = gv.update(jj, (q.0, gv[jj].1.push(q.1)));
            &&& groups_distinct(gv2)
            &&& forall|j: int|
                0 <= j < gv2.len() ==> (#[trigger] gv2[j]).1 == paths_for(pairs.push(q), gv2[j].0)
            &&& forall|p: Seq<char>|
                #[trigger] pairs_contain(pairs.push(q), p) <==> exists|j: int|
                    0 <= j < gv2.len() && (#[trigger] gv2[j]).0 == p
        }),
{
    let gv2 = gv.update(jj, (q.0, gv[jj].1.push(q.1)));
    assert(groups_distinct(gv2)) by {
        assert(forall|x: int| 0 <= x < gv.len() && x != jj ==> gv2[x] == #[trigger] gv[x]);
        assert(gv2[jj].0 == gv[jj].0);
    }
    assert forall|j: int| 0 <= j < gv2.len() implies (#[trigger] gv2[j]).1 == paths_for(
        pairs.push(q),
        gv2[j].0,
    ) by {
        lemma_paths_for_push(pairs, q, gv2[j].0);
        if j != jj {
            assert(gv2[j] == gv[j]);
            assert(gv[j].0 != gv[jj].0);
        }
    }
    assert forall|p: Seq<char>| #[trigger] pairs_contain(pairs.push(q), p) <==> exists|j: int|
        0 <= j < gv2.len() && (#[trigger] gv2[j]).0 == p by {
        lemma_paths_for_push(pairs, q, p);
        assert(forall|j: int| 0 <= j < gv.len() ==> (#[trigger] gv2[j]).0 == gv[j].0);
        if p == q.0 {
            assert(gv2[jj].0 == p);
        }
        if pairs_contain(pairs, p) {
            let j = choose|j: int| 0 <= j < gv.len() && (#[trigger] gv[j]).0 == p;
            assert(gv2[j].0 == p);
        }
        if exists|j: int| 0 <= j < gv2.len() && (#[trigger] gv2[j]).0 == p {
            let j = choose|j: int| 0 <= j < gv2.len() && (#[trigger] gv2[j]).0 == p;
            assert(gv[j].0 == p);
            assert(pairs_contain(pairs, p));
        }
    }
}

/// A pair of a new project opens its own group.
proof fn lemma_groups_step_new(
    gv: Seq<(Seq<char>, Seq<Seq<char>>)>,
    pairs: Seq<(Seq<char>, Seq<char>)>,
    q: (Seq<char>, Seq<char>),
)
    requires
        groups_distinct(gv),
        forall|j: int| 0 <= j < gv.len() ==> (#[trigger] gv[j]).1 == paths_for(pairs, gv[j].0),
        forall|p: Seq<char>|
            #[trigger] pairs_contain(pairs, p) <==> exists|j: int|
                0 <= j < gv.len() && (#[trigger] gv[j]).0 == p,
        forall|j: int| 0 <= j < gv.len() ==> (#[trigger] gv[j]).0 != q.0,
    ensures
        ({
            let gv2 = gv.push((q.0, seq![q.1]));
            &&& groups_distinct(gv2)
            &&& forall|j: int|
                0 <= j < gv2.len() ==> (#[trigger] gv2[j]).1 == paths_for(pairs.push(q), gv2[j].0)
            &&& forall|p: Seq<char>|
                #[trigger] pairs_contain(pairs.push(q), p) <==> exists|j: int|
                    0 <= j < gv2.len() && (#[trigger] gv2[j]).0 == p
        }),
{
    let gv2 = gv.push((q.0, seq![q.1]));
    assert(groups_distinct(gv2)) by {
        assert(forall|x: int| 0 <= x < gv.len() ==> gv2[x] == #[trigger] gv[x]);
        assert(gv2[gv.len() as int].0 == q.0);
    }
    assert(!pairs_contain(pairs, q.0));
    assert(paths_for(pairs, q.0) =~= Seq::<Seq<char>>::empty()) by {
        let pred = |x: (Seq<char>, Seq<char>)| x.0 == q.0;
        assert forall|w: int| 0 <= w < pairs.len() implies !pred(pairs[w]) by {
            assert(!((#[trigger] pairs[w]).0 == q.0));
        }
        pairs.lemma_all_neg_filter_empty(pred);
    }
    assert forall|j: int| 0 <= j < gv2.len() implies (#[trigger] gv2[j]).1 == paths_for(
        pairs.push(q),
        gv2[j].0,
    ) by {
        lemma_paths_for_push(pairs, q, gv2[j].0);
        if j < gv.len() {
            assert(gv2[j] == gv[j]);
            assert(gv[j].0 != q.0);
        } else {
            assert(gv2[j] == (q.0, seq![q.1]));
            assert(paths_for(pairs, q.0).push(q.1) =~= seq![q.1]);
        }
    }
    assert forall|p: Seq<char>| #[trigger] pairs_contain(pairs.push(q), p) <==> exists|j: int|
        0 <= j < gv2.len() && (#[trigger] gv2[j]).0 == p by {
        lemma_paths_for_push(pairs, q, p);
        assert(forall|j: int| 0 <= j < gv.len() ==> (#[trigger] gv2[j]).0 == gv[j].0);
        if p == q.0 {
            assert(gv2[gv.len() as int].0 == p);
        }
        if pairs_contain(pairs, p) {
            let j = choose|j: int| 0 <= j < gv.len() && (#[trigger] gv[j]).0 == p;
            assert(gv2[j].0 == p);
        }
        if exists|j: int| 0 <= j < gv2.len() && (#[trigger] gv2[j]).0 == p {
            let j = choose|j: int| 0 <= j < gv2.len() && (#[trigger] gv2[j]).0 == p;
            if j < gv.len() {
                assert(gv[j].0 == p);
                assert(pairs_contain(pairs, p));
            } else {
                assert(p == q.0);
            }
        }
    }
}

/// The characters of `s` before the first occurrence of `needle`; all of
/// `s` when it does not occur.
pub open spec fn split_prefix(s: Seq<char>, needle: Seq<char>) -> Seq<char>
    decreases s.len(),
{
    if needle.len() == 0 {
        Seq::empty()
    } else if s.len() < needle.len() {
        s
    } else if s.take(needle.len() as int) == needle {
        Seq::empty()
    } else if s.len() == 0 {
        s
    } else {
        seq![s[0]] + split_prefix(s.skip(1), needle)
    }
}

/// A project's working directory, recovered from one of its changed
/// paths: everything before the project name's first occurrence, then
/// the project name.
pub open spec fn project_dir_spec(project: Seq<char>, path: Seq<char>) -> Seq<char> {
    split_prefix(path, project) + project
}

/// The prefix before a first occurrence is `split_prefix`.
proof fn lemma_split_prefix_found(s: Seq<char>, needle: Seq<char>, i: int)
    requires
        needle.len() > 0,
        crate::text::occurs_at(s, needle, i),
        forall|k: int| 0 <= k < i ==> !crate::text::occurs_at(s, needle, k),
    ensures
        split_prefix(s, needle) == s.take(i),
    decreases s.len(),
{
    if i == 0 {
        assert(s.take(needle.len() as int) =~= s.subrange(0, needle.len() as int));
        assert(split_prefix(s, needle) =~= s.take(0));
    } else {
        assert(!crate::text::occurs_at(s, needle, 0));
        assert(s.take(needle.len() as int) != needle) by {
            assert(s.take(needle.len() as int) =~= s.subrange(0, needle.len() as int));
        }
        assert(crate::text::occurs_at(s.skip(1), needle, i - 1)) by {
            assert(s.skip(1).subrange(i - 1, i - 1 + needle.len()) =~= s.subrange(
                i,
                i + needle.len(),
            ));
        }
        assert forall|k: int| 0 <= k < i - 1 implies !crate::text::occurs_at(
            s.skip(1),
            needle,
            k,
        ) by {
            if crate::text::occurs_at(s.skip(1), needle, k) {
                assert(s.subrange(k + 1, k + 1 + needle.len()) =~= s.skip(1).subrange(
                    k,
                    k + needle.len(),
                ));
                assert(crate::text::occurs_at(s, needle, k + 1));
            }
        }
        lemma_split_prefix_found(s.skip(1), needle, i - 1);
        assert(split_prefix(s, needle) == seq![s[0]] + s.skip(1).take(i - 1));
        assert(seq![s[0]] + s.skip(1).take(i - 1) =~= s.take(i));
    }
}

/// When the needle does not occur, `split_prefix` is the whole string.
proof fn lemma_split_prefix_absent(s: Seq<char>, needle: Seq<char>)
    requires
        needle.len() > 0,
        !crate::text::contains_seq(s, needle),
    ensures
        split_prefix(s, needle) == s,
    decreases s.len(),
{
    if s.len() < needle.len() {
    } else {
        assert(!crate::text::occurs_at(s, needle, 0));
        assert(s.take(needle.len() as int) != needle) by {
            assert(s.take(needle.len() as int) =~= s.subrange(0, needle.len() as int));
        }
        assert(!crate::text::contains_seq(s.skip(1), needle)) by {
            if crate::text::contains_seq(s.skip(1), needle) {
                let k = choose|k: int| crate::text::occurs_at(s.skip(1), needle, k);
                assert(s.subrange(k + 1, k + 1 + needle.len()) =~= s.skip(1).subrange(
                    k,
                    k + needle.len(),
                ));
                assert(crate::text::occurs_at(s, needle, k + 1));
            }
        }
        lemma_split_prefix_absent(s.skip(1), needle);
        assert(seq![s[0]] + s.skip(1) =~= s);
    }
}

/// Recovers the project's directory from one of its changed paths.
pub fn project_dir(project: &str, path: &str) -> (r: String)
    ensures
        r@ == project_dir_spec(project@, path@),
{
    let n = path.unicode_len();
    match crate::text::find_substring(path, project) {
        Some(i) => {
            let head = path.substring_char(0, i);
            proof {
                if project@.len() == 0 {
                    assert(path@.subrange(0, 0) =~= project@);
                    assert(crate::text::occurs_at(path@, project@, 0));
                    assert(i == 0);
                    assert(head@ =~= Seq::<char>::empty());
                    assert(split_prefix(path@, project@) == Seq::<char>::empty());
                } else {
                    lemma_split_prefix_found(path@, project@, i as int);
                    assert(head@ =~= path@.take(i as int));
                }
            }
            String::from_str(head).concat(project)
        },
        None => {
            proof {
                if project@.len() == 0 {
                    assert(path@.subrange(0, 0) =~= project@);
                    assert(crate::text::occurs_at(path@, project@, 0));
                }
                lemma_split_prefix_absent(path@, project@);
            }
            String::from_str(path).concat(project)
        },
    }
}

} // verus!
