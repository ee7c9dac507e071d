use vstd::prelude::*;

use crate::text::str_eq;

verus! {

/// A mapping from project names to unsigned counters (durations or
/// timestamps), held as an association vector with pairwise-distinct keys.
/// Keys have no defined iteration order; consumers sort before display.
pub struct ProjectMap {
    pub entries: Vec<(String, u64)>,
}

/// The models of an entry vector.
pub open spec fn entry_views(v: Seq<(String, u64)>) -> Seq<(Seq<char>, u64)> {
    v.map_values(|e: (String, u64)| (e.0@, e.1))
}

/// Keys occur at most once.
pub open spec fn distinct_keys(s: Seq<(Seq<char>, u64)>) -> bool {
    forall|i: int, j: int| 0 <= i < j < s.len() ==> (#[trigger] s[i]).0 != (#[trigger] s[j]).0
}

/// The mapping an entry sequence denotes; on duplicate keys the last
/// entry wins.
pub open spec fn map_of(s: Seq<(Seq<char>, u64)>) -> Map<Seq<char>, u64>
    decreases s.len(),
{
    if s.len() == 0 {
        Map::empty()
    } else {
        map_of(s.drop_last()).insert(s.last().0, s.last().1)
    }
}

/// `map_of` holds a key exactly when some entry carries it.
pub proof fn lemma_map_of_contains(s: Seq<(Seq<char>, u64)>, k: Seq<char>)
    ensures
        map_of(s).contains_key(k) <==> exists|i: int| 0 <= i < s.len() && (#[trigger] s[i]).0 == k,
    decreases s.len(),
{
    if s.len() > 0 {
        lemma_map_of_contains(s.drop_last(), k);
        if map_of(s).contains_key(k) {
            if s.last().0 == k {
                assert(s[s.len() - 1].0 == k);
            } else {
                assert(map_of(s.drop_last()).contains_key(k));
                let i = choose|i: int| 0 <= i < s.drop_last().len() && (#[trigger] s.drop_last()[
                    i
                ]).0 == k;
                assert(s[i].0 == k);
            }
        }
        if exists|i: int| 0 <= i < s.len() && (#[trigger] s[i]).0 == k {
            let i = choose|i: int| 0 <= i < s.len() && (#[trigger] s[i]).0 == k;
            if i == s.len() - 1 {
            } else {
                assert(s.drop_last()[i].0 == k);
            }
        }
    }
}

/// With distinct keys, each entry gives its key's value.
pub proof fn lemma_map_of_value(s: Seq<(Seq<char>, u64)>, i: int)
    requires
        distinct_keys(s),
        0 <= i < s.len(),
    ensures
        map_of(s).contains_key(s[i].0),
        map_of(s)[s[i].0] == s[i].1,
    decreases s.len(),
{
    if i == s.len() - 1 {
    } else {
        assert(distinct_keys(s.drop_last())) by {
            assert(forall|x: int|
                0 <= x < s.drop_last().len() ==> s.drop_last()[x] == #[trigger] s[x]);
        }
        assert(s.drop_last()[i] == s[i]);
        lemma_map_of_value(s.drop_last(), i);
        assert(s[i].0 != s.last().0);
    }
}

/// Entry update: replaces the first entry with the given key, or appends
/// a new entry when the key is absent.
pub open spec fn upsert_entries(
    s: Seq<(Seq<char>, u64)>,
    k: Seq<char>,
    v: u64,
) -> Seq<(Seq<char>, u64)> {
    if exists|i: int| 0 <= i < s.len() && (#[trigger] s[i]).0 == k {
        s.update(choose|i: int| 0 <= i < s.len() && (#[trigger] s[i]).0 == k, (k, v))
    } else {
        s.push((k, v))
    }
}

/// Updating an entry sequence updates its mapping, and keeps keys
/// distinct.
pub proof fn lemma_upsert(s: Seq<(Seq<char>, u64)>, k: Seq<char>, v: u64)
    requires
        distinct_keys(s),
    ensures
        distinct_keys(upsert_entries(s, k, v)),
        map_of(upsert_entries(s, k, v)) == map_of(s).insert(k, v),
    decreases s.len(),
{
    let r = upsert_entries(s, k, v);
    if exists|i: int| 0 <= i < s.len() && (#[trigger] s[i]).0 == k {
        let i = choose|i: int| 0 <= i < s.len() && (#[trigger] s[i]).0 == k;
        assert(distinct_keys(r)) by {
            assert(forall|x: int| 0 <= x < r.len() && x != i ==> r[x] == #[trigger] s[x]);
            assert(r[i].0 == k);
            assert(forall|x: int| 0 <= x < s.len() && x != i ==> (#[trigger] s[x]).0 != k);
        }
        lemma_map_of_update(s, i, k, v);
    } else {
        assert(distinct_keys(r)) by {
            assert(forall|x: int| 0 <= x < s.len() ==> r[x] == #[trigger] s[x]);
            assert(forall|x: int| 0 <= x < s.len() ==> (#[trigger] s[x]).0 != k);
            assert(r[s.len() as int].0 == k);
        }
        assert(r.drop_last() =~= s);
        assert(map_of(r) == map_of(s).insert(k, v));
    }
}

/// Replacing the entry at a key's index updates the mapping at that key.
proof fn lemma_map_of_update(s: Seq<(Seq<char>, u64)>, i: int, k: Seq<char>, v: u64)
    requires
        distinct_keys(s),
        0 <= i < s.len(),
        s[i].0 == k,
    ensures
        map_of(s.update(i, (k, v))) == map_of(s).insert(k, v),
    decreases s.len(),
{
    let r = s.update(i, (k, v));
    if i == s.len() - 1 {
        assert(r.drop_last() =~= s.drop_last());
        assert(r.last() == (k, v));
        assert(map_of(r) == map_of(s.drop_last()).insert(k, v));
        assert(map_of(s) == map_of(s.drop_last()).insert(s.last().0, s.last().1));
        assert(s.last().0 == k);
        assert(map_of(s).insert(k, v) =~= map_of(s.drop_last()).insert(k, v));
    } else {
        assert(distinct_keys(s.drop_last())) by {
            assert(forall|x: int|
                0 <= x < s.drop_last().len() ==> s.drop_last()[x] == #[trigger] s[x]);
        }
        assert(s.drop_last()[i] == s[i]);
        lemma_map_of_update(s.drop_last(), i, k, v);
        assert(r.drop_last() =~= s.drop_last().update(i, (k, v)));
        assert(r.last() == s.last());
        assert(map_of(r) == map_of(s.drop_last()).insert(k, v).insert(s.last().0, s.last().1));
        assert(s.last().0 != k);
        assert(map_of(s.drop_last()).insert(k, v).insert(s.last().0, s.last().1) =~= map_of(
            s.drop_last(),
        ).insert(s.last().0, s.last().1).insert(k, v));
    }
}

/// With distinct keys, the entries carry each (key, value) pair of the
/// mapping exactly once, and nothing else.
pub proof fn lemma_entries_multiset(s: Seq<(Seq<char>, u64)>, pair: (Seq<char>, u64))
    requires
        distinct_keys(s),
    ensures
        s.to_multiset().count(pair) == if map_of(s).contains_key(pair.0) && map_of(s)[pair.0]
            == pair.1 {
            1int
        } else {
            0int
        },
    decreases s.len(),
{
    broadcast use vstd::seq_lib::group_to_multiset_ensures;
    broadcast use vstd::multiset::group_multiset_axioms;

    if s.len() == 0 {
        assert(s.to_multiset().len() == 0);
        assert(s.to_multiset().count(pair) == 0);
    } else {
        let p = s.drop_last();
        assert(distinct_keys(p)) by {
            assert(forall|x: int| 0 <= x < p.len() ==> p[x] == #[trigger] s[x]);
        }
        lemma_entries_multiset(p, pair);
        assert(s =~= p.push(s.last()));
        assert(s.to_multiset() == p.to_multiset().insert(s.last()));
        assert(map_of(s) == map_of(p).insert(s.last().0, s.last().1));
        if pair == s.last() {
            assert(!(map_of(p).contains_key(pair.0) && map_of(p)[pair.0] == pair.1)) by {
                lemma_map_of_contains(p, pair.0);
                if map_of(p).contains_key(pair.0) {
                    let i = choose|i: int| 0 <= i < p.len() && (#[trigger] p[i]).0 == pair.0;
                    assert(s[i].0 == s[s.len() - 1].0);
                    assert(false);
                }
            }
            assert(s.to_multiset().count(pair) == p.to_multiset().count(pair) + 1);
        } else {
            assert(s.to_multiset().count(pair) == p.to_multiset().count(pair));
            if pair.0 == s.last().0 {
                assert(!(map_of(p).contains_key(pair.0) && map_of(p)[pair.0] == pair.1)) by {
                    lemma_map_of_contains(p, pair.0);
                    if map_of(p).contains_key(pair.0) {
                        let i = choose|i: int| 0 <= i < p.len() && (#[trigger] p[i]).0 == pair.0;
                        assert(s[i].0 == s[s.len() - 1].0);
                        assert(false);
                    }
                }
                assert(map_of(s)[pair.0] == s.last().1);
                assert(map_of(s)[pair.0] != pair.1);
            }
        }
    }
}

impl ProjectMap {
    /// The modelled entries.
    pub open spec fn entries_view(self) -> Seq<(Seq<char>, u64)> {
        entry_views(self.entries@)
    }

    /// Keys are pairwise distinct.
    pub open spec fn wf(self) -> bool {
        distinct_keys(self.entries_view())
    }

    /// An empty mapping.
    pub fn new() -> (r: Self)
        ensures
            r.wf(),
            r@ == Map::<Seq<char>, u64>::empty(),
            r.entries_view() == Seq::<(Seq<char>, u64)>::empty(),
    {
        let r = ProjectMap { entries: Vec::new() };
        proof {
            assert(r.entries_view() =~= Seq::<(Seq<char>, u64)>::empty());
        }
        r
    }

    /// Number of projects held.
    pub fn len(&self) -> (r: usize)
        ensures
            r == self.entries_view().len(),
    {
        self.entries.len()
    }

    /// Whether no project is held.
    pub fn is_empty(&self) -> (r: bool)
        ensures
            r == (self.entries_view().len() == 0),
            self.wf() ==> r == (self@ == Map::<Seq<char>, u64>::empty()),
    {
        proof {
            if self.entries_view().len() == 0 {
                assert(self.entries_view() =~= Seq::<(Seq<char>, u64)>::empty());
                assert(self@ =~= Map::<Seq<char>, u64>::empty());
            } else {
                lemma_map_of_contains(self.entries_view(), self.entries_view()[0].0);
            }
        }
        self.entries.len() == 0
    }

    /// The counter recorded for a project, if any.
    pub fn get(&self, name: &str) -> (r: Option<u64>)
        requires
            self.wf(),
        ensures
            match r {
                Some(v) => self@.contains_key(name@) && self@[name@] == v,
                None => !self@.contains_key(name@),
            },
    {
        let n = self.entries.len();
        let mut i: usize = 0;
        while i < n
            invariant
                0 <= i <= n,
                n == self.entries.len(),
                self.wf(),
                forall|k: int| 0 <= k < i ==> (#[trigger] self.entries_view()[k]).0 != name@,
            decreases n - i,
        {
            proof {
                assert(self.entries_view()[i as int] == (self.entries@[i as int].0@,
                self.entries@[i as int].1));
            }
            if str_eq(self.entries[i].0.as_str(), name) {
                proof {
                    lemma_map_of_value(self.entries_view(), i as int);
                }
                return Some(self.entries[i].1);
            }
            i = i + 1;
        }
        proof {
            lemma_map_of_contains(self.entries_view(), name@);
        }
        None
    }

    /// Whether a project is held.
    pub fn contains_key(&self, name: &str) -> (r: bool)
        requires
            self.wf(),
        ensures
            r == self@.contains_key(name@),
    {
        match self.get(name) {
            Some(_) => true,
            None => false,
        }
    }

    /// Sets a project's counter, inserting the project when absent.
    pub fn insert(&mut self, name: &str, value: u64)
        requires
            old(self).wf(),
        ensures
            final(self).wf(),
            final(self)@ == old(self)@.insert(name@, value),
            final(self).entries_view() == upsert_entries(old(self).entries_view(), name@, value),
    {
        proof {
            lemma_upsert(old(self).entries_view(), name@, value);
        }
        let n = self.entries.len();
        let mut i: usize = 0;
        while i < n
            invariant
                0 <= i <= n,
                n == self.entries.len(),
                self == old(self),
                old(self).wf(),
                forall|k: int| 0 <= k < i ==> (#[trigger] self.entries_view()[k]).0 != name@,
            decreases n - i,
        {
            proof {
                assert(self.entries_view()[i as int] == (self.entries@[i as int].0@,
                self.entries@[i as int].1));
            }
            if str_eq(self.entries[i].0.as_str(), name) {
                self.entries[i] = (String::from_str(name), value);
                proof {
                    let ov = old(self).entries_view();
                    assert(self.entries_view() =~= ov.update(i as int, (name@, value)));
                    assert(ov[i as int].0 == name@);
                    assert(exists|x: int| 0 <= x < ov.len() && (#[trigger] ov[x]).0 == name@);
                    let c = choose|x: int| 0 <= x < ov.len() && (#[trigger] ov[x]).0 == name@;
                    if c < i as int {
                        assert(ov[c].0 != ov[i as int].0);
                        assert(false);
                    } else if c > i as int {
                        assert(ov[i as int].0 != ov[c].0);
                        assert(false);
                    }
                    assert(self.entries_view() == upsert_entries(ov, name@, value));
                    lemma_upsert(ov, name@, value);
                }
                return ;
            }
            i = i + 1;
        }
        self.entries.push((String::from_str(name), value));
        proof {
            let ov = old(self).entries_view();
            assert(self.entries_view() =~= ov.push((name@, value)));
            assert(!(exists|x: int| 0 <= x < ov.len() && (#[trigger] ov[x]).0 == name@));
        }
    }

    /// Adds to a project's counter, inserting the project with the given
    /// amount when absent. The caller rules out overflow.
    pub fn add_to(&mut self, name: &str, delta: u64)
        requires
            old(self).wf(),
            (if old(self)@.contains_key(name@) {
                old(self)@[name@] + delta
            } else {
                delta as int
            }) <= u64::MAX,
        ensures
            final(self).wf(),
            final(self)@ == old(self)@.insert(
                name@,
                if old(self)@.contains_key(name@) {
                    (old(self)@[name@] + delta) as u64
                } else {
                    delta
                },
            ),
    {
        match self.get(name) {
            Some(v) => self.insert(name, v + delta),
            None => self.insert(name, delta),
        }
    }

    /// Raises a project's counter to the given value if it is larger,
    /// inserting the project when absent.
    pub fn set_max(&mut self, name: &str, value: u64)
        requires
            old(self).wf(),
        ensures
            final(self).wf(),
            final(self)@ == old(self)@.insert(
                name@,
                if old(self)@.contains_key(name@) && old(self)@[name@] >= value {
                    old(self)@[name@]
                } else {
                    value
                },
            ),
    {
        match self.get(name) {
            Some(v) => {
                if v < value {
                    self.insert(name, value);
                } else {
                    self.insert(name, v);
                }
            },
            None => self.insert(name, value),
        }
    }
}

impl View for ProjectMap {
    type V = Map<Seq<char>, u64>;

    open spec fn view(&self) -> Map<Seq<char>, u64> {
        map_of(self.entries_view())
    }
}

} // verus!
