use vstd::prelude::*;

use crate::text::{lemma_lex_total, lemma_lex_total_ordering, lemma_lex_trans, lex_le, lex_leq_fn,
    str_le};
use vstd::relations::sorted_by;
use vstd::seq_lib::lemma_multiset_commutative;

verus! {

/// Inserting into a sequence inserts into its multiset.
pub proof fn lemma_insert_multiset<A>(s: Seq<A>, i: int, x: A)
    requires
        0 <= i <= s.len(),
    ensures
        s.insert(i, x).to_multiset() == s.to_multiset().insert(x),
{
    broadcast use vstd::seq_lib::group_to_multiset_ensures;
    broadcast use vstd::multiset::group_multiset_axioms;

    let a = s.take(i);
    let b = s.skip(i);
    assert(s.insert(i, x) =~= a.push(x) + b);
    assert(s =~= a + b);
    lemma_multiset_commutative(a.push(x), b);
    lemma_multiset_commutative(a, b);
    assert(a.push(x).to_multiset() =~= a.to_multiset().insert(x));
    assert((a.push(x) + b).to_multiset() =~= a.to_multiset().insert(x).add(b.to_multiset()));
    assert(a.to_multiset().insert(x).add(b.to_multiset()) =~= a.to_multiset().add(
        b.to_multiset(),
    ).insert(x));
}

/// Sorts strings lexicographically by code point, the order of their
/// UTF-8 byte strings.
pub fn sort_strings(v: &Vec<String>) -> (r: Vec<String>)
    ensures
        r.deep_view() == v.deep_view().sort_by(lex_leq_fn()),
{
    let n = v.len();
    let mut r: Vec<String> = Vec::new();
    proof {
        assert(r.deep_view() =~= Seq::<Seq<char>>::empty());
        assert(v.deep_view().take(0) =~= Seq::<Seq<char>>::empty());
        broadcast use vstd::seq_lib::group_to_multiset_ensures;

        assert(r.deep_view().to_multiset() =~= v.deep_view().take(0).to_multiset());
    }
    let mut i: usize = 0;
    while i < n
        invariant
            0 <= i <= n,
            n == v.len(),
            sorted_by(r.deep_view(), lex_leq_fn()),
            r.deep_view().to_multiset() == v.deep_view().take(i as int).to_multiset(),
        decreases n - i,
    {
        let x = v[i].clone();
        proof {
            assert(v.deep_view()[i as int] == v@[i as int]@);
        }
        let m = r.len();
        let mut idx: usize = 0;
        while idx < m && str_le(r[idx].as_str(), x.as_str())
            invariant
                0 <= idx <= m,
                m == r.len(),
                x@ == v.deep_view()[i as int],
                forall|k: int| 0 <= k < idx ==> lex_le(#[trigger] r.deep_view()[k], x@),
            decreases m - idx,
        {
            proof {
                assert(r.deep_view()[idx as int] == r@[idx as int]@);
            }
            idx = idx + 1;
        }
        proof {
            if idx < m {
                assert(r.deep_view()[idx as int] == r@[idx as int]@);
                assert(!lex_le(r.deep_view()[idx as int], x@));
                lemma_lex_total(r.deep_view()[idx as int], x@);
            }
        }
        let ghost prev = r.deep_view();
        r.insert(idx, x);
        proof {
            let cur = r.deep_view();
            assert(cur =~= prev.insert(idx as int, v.deep_view()[i as int]));
            let xv = v.deep_view()[i as int];
            assert(sorted_by(cur, lex_leq_fn())) by {
                assert(forall|k: int| 0 <= k < idx ==> cur[k] == #[trigger] prev[k]);
                assert(forall|k: int| idx < k < cur.len() ==> cur[k] == #[trigger] prev[k - 1]);
                assert(cur[idx as int] == xv);
                assert forall|a: int, b: int| 0 <= a < b < cur.len() implies lex_leq_fn()(
                    cur[a],
                    cur[b],
                ) by {
                    if b < idx || a > idx {
                        assert(lex_leq_fn()(prev[if a > idx as int { a - 1 } else { a }], prev[
                        if b > idx as int { b - 1 } else { b }]));
                    } else if a == idx as int {
                        // x goes before prev[idx], which bounds the rest
                        assert(!lex_le(prev[idx as int], xv));
                        lemma_lex_total(prev[idx as int], xv);
                        if b - 1 > idx as int {
                            assert(lex_leq_fn()(prev[idx as int], prev[b - 1]));
                            lemma_lex_trans(xv, prev[idx as int], prev[b - 1]);
                        }
                    } else if b == idx as int {
                        assert(lex_le(prev[a], xv));
                    } else {
                        // a < idx < b
                        assert(lex_le(prev[a], xv));
                        if b - 1 > idx as int {
                            assert(!lex_le(prev[idx as int], xv));
                            lemma_lex_total(prev[idx as int], xv);
                            assert(lex_leq_fn()(prev[idx as int], prev[b - 1]));
                            lemma_lex_trans(xv, prev[idx as int], prev[b - 1]);
                            lemma_lex_trans(prev[a], xv, prev[b - 1]);
                        } else {
                            lemma_lex_trans(prev[a], xv, prev[b - 1]);
                        }
                    }
                }
            }
            lemma_insert_multiset(prev, idx as int, xv);
            broadcast use vstd::seq_lib::group_to_multiset_ensures;

            assert(v.deep_view().take(i + 1) =~= v.deep_view().take(i as int).push(xv));
            assert(v.deep_view().take(i + 1).to_multiset() == v.deep_view().take(
                i as int,
            ).to_multiset().insert(xv));
        }
        i = i + 1;
    }
    proof {
        assert(v.deep_view().take(n as int) =~= v.deep_view());
        lemma_lex_total_ordering();
        v.deep_view().lemma_sort_by_ensures(lex_leq_fn());
        vstd::seq_lib::lemma_sorted_unique(
            r.deep_view(),
            v.deep_view().sort_by(lex_leq_fn()),
            lex_leq_fn(),
        );
    }
    r
}

} // verus!
