//! Stable sorting, written as an insertion sort whose result is pinned by
//! a specification-level fold.
//!
//! Ranked query results are (key, position) pairs ordered lexicographically;
//! since positions are distinct, this order is total and the sorted
//! sequence is unique, which also makes the sort stable with respect to
//! the original positions. Stop names are sorted by the lexicographic
//! order on their characters.
use vstd::prelude::*;
use vstd::relations::sorted_by;
use crate::text::{lex_le, str_lex_le, lemma_lex_le_connected, lemma_lex_le_transitive,
    lemma_lex_le_reflexive};

verus! {

/// Order on (key, position) pairs: by key, then by position.
pub open spec fn pair_le(a: (u64, usize), b: (u64, usize)) -> bool {
    a.0 < b.0 || (a.0 == b.0 && a.1 <= b.1)
}

/// A pair inserted at its place in a sorted sequence, after any element
/// it does not order strictly below.
pub open spec fn insert_pair(s: Seq<(u64, usize)>, x: (u64, usize)) -> Seq<(u64, usize)>
    decreases s.len(),
{
    if s.len() == 0 {
        seq![x]
    } else if pair_le(s.last(), x) {
        s.push(x)
    } else {
        insert_pair(s.drop_last(), x).push(s.last())
    }
}

/// The insertion sort of a pair sequence, as a fold.
pub open spec fn sort_pairs_seq(s: Seq<(u64, usize)>) -> Seq<(u64, usize)>
    decreases s.len(),
{
    if s.len() == 0 {
        Seq::empty()
    } else {
        insert_pair(sort_pairs_seq(s.drop_last()), s.last())
    }
}

pub proof fn lemma_insert_pair_ensures(s: Seq<(u64, usize)>, x: (u64, usize))
    requires
        sorted_by(s, |a: (u64, usize), b: (u64, usize)| pair_le(a, b)),
    ensures
        sorted_by(insert_pair(s, x), |a: (u64, usize), b: (u64, usize)| pair_le(a, b)),
        insert_pair(s, x).len() == s.len() + 1,
        insert_pair(s, x).to_multiset() == s.to_multiset().insert(x),
    decreases s.len(),
{
    broadcast use vstd::seq_lib::group_to_multiset_ensures;

    let leq = |a: (u64, usize), b: (u64, usize)| pair_le(a, b);
    if s.len() == 0 {
        assert(seq![x].drop_first() =~= Seq::<(u64, usize)>::empty());
        assert(seq![x].to_multiset() =~= s.to_multiset().insert(x));
    } else if pair_le(s.last(), x) {
        assert forall|i: int, j: int| 0 <= i < j < s.push(x).len() implies #[trigger] leq(
            s.push(x)[i],
            s.push(x)[j],
        ) by {
            if j < s.len() {
                assert(leq(s[i], s[j]));
            } else {
                if i < s.len() - 1 {
                    assert(leq(s[i], s.last()));
                }
            }
        }
        assert(s.push(x).to_multiset() =~= s.to_multiset().insert(x));
    } else {
        let d = s.drop_last();
        assert(sorted_by(d, leq)) by {
            assert forall|i: int, j: int| 0 <= i < j < d.len() implies #[trigger] leq(
                d[i],
                d[j],
            ) by {
                assert(leq(s[i], s[j]));
            }
        }
        lemma_insert_pair_ensures(d, x);
        let t = insert_pair(d, x);
        assert forall|i: int, j: int| 0 <= i < j < t.push(s.last()).len() implies #[trigger] leq(
            t.push(s.last())[i],
            t.push(s.last())[j],
        ) by {
            if j < t.len() {
                assert(leq(t[i], t[j]));
            } else {
                // every element of t is either from d, hence at most
                // s.last() in the order, or is x, which is below s.last()
                assert(t.to_multiset().contains(t[i]));
                assert(t.to_multiset() == d.to_multiset().insert(x));
                if t[i] == x {
                    assert(pair_le(x, s.last()));
                } else {
                    assert(d.to_multiset().contains(t[i]));
                    let k = choose|k: int| 0 <= k < d.len() && d[k] == t[i];
                    if k < d.len() - 1 {
                        assert(leq(d[k], d.last()));
                    }
                    assert(leq(t[i], s[s.len() - 2]));
                    assert(leq(s[s.len() - 2], s.last()));
                }
            }
        }
        assert(s =~= d.push(s.last()));
        assert(s.to_multiset() == d.to_multiset().insert(s.last()));
        assert(t.push(s.last()).to_multiset() =~= s.to_multiset().insert(x));
    }
}

pub proof fn lemma_sort_pairs_ensures(s: Seq<(u64, usize)>)
    ensures
        sorted_by(sort_pairs_seq(s), |a: (u64, usize), b: (u64, usize)| pair_le(a, b)),
        sort_pairs_seq(s).len() == s.len(),
        sort_pairs_seq(s).to_multiset() == s.to_multiset(),
    decreases s.len(),
{
    broadcast use vstd::seq_lib::group_to_multiset_ensures;

    if s.len() == 0 {
        assert(sort_pairs_seq(s).to_multiset() =~= s.to_multiset());
    } else {
        let d = s.drop_last();
        lemma_sort_pairs_ensures(d);
        lemma_insert_pair_ensures(sort_pairs_seq(d), s.last());
        assert(s =~= d.push(s.last()));
        assert(s.to_multiset() == d.to_multiset().insert(s.last()));
    }
}

/// Insert a pair into a sorted vector, keeping the order.
fn insert_pair_exec(r: Vec<(u64, usize)>, x: (u64, usize)) -> (out: Vec<(u64, usize)>)
    ensures
        out@ == insert_pair(r@, x),
    decreases r.len(),
{
    let mut r = r;
    if r.len() == 0 {
        r.push(x);
        proof {
            assert(r@ =~= seq![x]);
        }
        return r;
    }
    let last = r[r.len() - 1];
    if last.0 < x.0 || (last.0 == x.0 && last.1 <= x.1) {
        r.push(x);
        r
    } else {
        let ghost r_old = r@;
        let popped = r.pop();
        proof {
            assert(r@ =~= r_old.drop_last());
        }
        let mut out = insert_pair_exec(r, x);
        match popped {
            Some(p) => out.push(p),
            None => (),
        }
        out
    }
}

/// Sort (key, position) pairs by key, then by position.
pub fn sort_pairs(v: &Vec<(u64, usize)>) -> (r: Vec<(u64, usize)>)
    ensures
        r@ == sort_pairs_seq(v@),
{
    let mut r: Vec<(u64, usize)> = Vec::new();
    let mut k: usize = 0;
    while k < v.len()
        invariant
            k <= v.len(),
            r@ == sort_pairs_seq(v@.take(k as int)),
        decreases v.len() - k,
    {
        proof {
            assert(v@.take(k as int + 1).drop_last() =~= v@.take(k as int));
            assert(v@.take(k as int + 1).last() == v@[k as int]);
        }
        r = insert_pair_exec(r, v[k]);
        k = k + 1;
    }
    proof {
        assert(v@.take(v.len() as int) =~= v@);
    }
    r
}

/// The sorted pair sequence, element by element: ordered, of the same
/// length and with the same members as the input.
pub proof fn lemma_sort_pairs_pointwise(s: Seq<(u64, usize)>)
    ensures
        sort_pairs_seq(s).len() == s.len(),
        sort_pairs_seq(s).to_multiset() == s.to_multiset(),
        forall|i: int, j: int|
            0 <= i < j < s.len() ==> pair_le(
                #[trigger] sort_pairs_seq(s)[i],
                #[trigger] sort_pairs_seq(s)[j],
            ),
{
    lemma_sort_pairs_ensures(s);
    let leq = |a: (u64, usize), b: (u64, usize)| pair_le(a, b);
    let sorted = sort_pairs_seq(s);
    assert forall|i: int, j: int| 0 <= i < j < s.len() implies pair_le(
        #[trigger] sorted[i],
        #[trigger] sorted[j],
    ) by {
        assert(leq(sorted[i], sorted[j]));
    }
}

/// When the pairs carry their own positions, every position reappears
/// somewhere in the sorted sequence.
pub proof fn lemma_sorted_positions_complete(s: Seq<(u64, usize)>)
    ensures
        forall|g: int| #![trigger s[g]] 0 <= g < s.len() ==> sort_pairs_seq(s).contains(s[g]),
{
    broadcast use vstd::seq_lib::group_to_multiset_ensures;

    lemma_sort_pairs_ensures(s);
    let sorted = sort_pairs_seq(s);
    assert forall|g: int| #![trigger s[g]] 0 <= g < s.len() implies sorted.contains(s[g]) by {
        assert(s.contains(s[g]));
        assert(s.to_multiset().contains(s[g]));
        assert(sorted.to_multiset().contains(s[g]));
    }
}

/// A string inserted at its place in a sorted string sequence, after any
/// string it does not order strictly below.
pub open spec fn insert_string(s: Seq<String>, x: String) -> Seq<String>
    decreases s.len(),
{
    if s.len() == 0 {
        seq![x]
    } else if lex_le(s.last()@, x@) {
        s.push(x)
    } else {
        insert_string(s.drop_last(), x).push(s.last())
    }
}

/// The insertion sort of a string sequence, as a fold.
pub open spec fn sort_strings_seq(s: Seq<String>) -> Seq<String>
    decreases s.len(),
{
    if s.len() == 0 {
        Seq::empty()
    } else {
        insert_string(sort_strings_seq(s.drop_last()), s.last())
    }
}

/// Order on strings through their views.
pub open spec fn string_le(a: String, b: String) -> bool {
    lex_le(a@, b@)
}

pub proof fn lemma_insert_string_ensures(s: Seq<String>, x: String)
    requires
        sorted_by(s, |a: String, b: String| string_le(a, b)),
    ensures
        sorted_by(insert_string(s, x), |a: String, b: String| string_le(a, b)),
        insert_string(s, x).len() == s.len() + 1,
        insert_string(s, x).to_multiset() == s.to_multiset().insert(x),
    decreases s.len(),
{
    broadcast use vstd::seq_lib::group_to_multiset_ensures;

    let leq = |a: String, b: String| string_le(a, b);
    if s.len() == 0 {
        assert(seq![x].to_multiset() =~= s.to_multiset().insert(x));
    } else if lex_le(s.last()@, x@) {
        assert forall|i: int, j: int| 0 <= i < j < s.push(x).len() implies #[trigger] leq(
            s.push(x)[i],
            s.push(x)[j],
        ) by {
            if j < s.len() {
                assert(leq(s[i], s[j]));
            } else {
                if i < s.len() - 1 {
                    assert(leq(s[i], s.last()));
                    lemma_lex_le_transitive(s[i]@, s.last()@, x@);
                }
            }
        }
        assert(s.push(x).to_multiset() =~= s.to_multiset().insert(x));
    } else {
        lemma_lex_le_connected(s.last()@, x@);
        let d = s.drop_last();
        assert(sorted_by(d, leq)) by {
            assert forall|i: int, j: int| 0 <= i < j < d.len() implies #[trigger] leq(
                d[i],
                d[j],
            ) by {
                assert(leq(s[i], s[j]));
            }
        }
        lemma_insert_string_ensures(d, x);
        let t = insert_string(d, x);
        assert forall|i: int, j: int| 0 <= i < j < t.push(s.last()).len() implies #[trigger] leq(
            t.push(s.last())[i],
            t.push(s.last())[j],
        ) by {
            if j < t.len() {
                assert(leq(t[i], t[j]));
            } else {
                assert(t.to_multiset().contains(t[i]));
                assert(t.to_multiset() == d.to_multiset().insert(x));
                if t[i] == x {
                    assert(lex_le(x@, s.last()@));
                } else {
                    assert(d.to_multiset().contains(t[i]));
                    let k = choose|k: int| 0 <= k < d.len() && d[k] == t[i];
                    if k < d.len() - 1 {
                        assert(leq(d[k], d.last()));
                    } else {
                        lemma_lex_le_reflexive(t[i]@);
                    }
                    assert(leq(t[i], s[s.len() - 2]));
                    assert(leq(s[s.len() - 2], s.last()));
                    lemma_lex_le_transitive(t[i]@, s[s.len() - 2]@, s.last()@);
                }
            }
        }
        assert(s =~= d.push(s.last()));
        assert(s.to_multiset() == d.to_multiset().insert(s.last()));
        assert(t.push(s.last()).to_multiset() =~= s.to_multiset().insert(x));
    }
}

pub proof fn lemma_sort_strings_ensures(s: Seq<String>)
    ensures
        sorted_by(sort_strings_seq(s), |a: String, b: String| string_le(a, b)),
        sort_strings_seq(s).len() == s.len(),
        sort_strings_seq(s).to_multiset() == s.to_multiset(),
    decreases s.len(),
{
    broadcast use vstd::seq_lib::group_to_multiset_ensures;

    if s.len() == 0 {
        assert(sort_strings_seq(s).to_multiset() =~= s.to_multiset());
    } else {
        let d = s.drop_last();
        lemma_sort_strings_ensures(d);
        lemma_insert_string_ensures(sort_strings_seq(d), s.last());
        assert(s =~= d.push(s.last()));
        assert(s.to_multiset() == d.to_multiset().insert(s.last()));
    }
}

/// Insert a string into a sorted vector, keeping the order.
fn insert_string_exec(r: Vec<String>, x: String) -> (out: Vec<String>)
    ensures
        out@ == insert_string(r@, x),
    decreases r.len(),
{
    let mut r = r;
    if r.len() == 0 {
        r.push(x);
        proof {
            assert(r@ =~= seq![x]);
        }
        return r;
    }
    let le = str_lex_le(&r[r.len() - 1], &x);
    if le {
        r.push(x);
        r
    } else {
        let ghost r_old = r@;
        let popped = r.pop();
        proof {
            assert(r@ =~= r_old.drop_last());
        }
        let mut out = insert_string_exec(r, x);
        match popped {
            Some(p) => out.push(p),
            None => (),
        }
        out
    }
}

/// Sort strings by the lexicographic order on their characters.
pub fn sort_strings(v: Vec<String>) -> (r: Vec<String>)
    ensures
        r@ == sort_strings_seq(v@),
{
    let mut r: Vec<String> = Vec::new();
    let mut k: usize = 0;
    while k < v.len()
        invariant
            k <= v.len(),
            r@ == sort_strings_seq(v@.take(k as int)),
        decreases v.len() - k,
    {
        proof {
            assert(v@.take(k as int + 1).drop_last() =~= v@.take(k as int));
            assert(v@.take(k as int + 1).last() == v@[k as int]);
        }
        r = insert_string_exec(r, v[k].clone());
        k = k + 1;
    }
    proof {
        assert(v@.take(v.len() as int) =~= v@);
    }
    r
}

/// The sorted string sequence, element by element: ordered by the
/// lexicographic order on views, of the same length and with the same
/// members as the input.
pub proof fn lemma_sort_strings_pointwise(s: Seq<String>)
    ensures
        sort_strings_seq(s).len() == s.len(),
        sort_strings_seq(s).to_multiset() == s.to_multiset(),
        forall|i: int, j: int|
            0 <= i < j < s.len() ==> lex_le(
                (#[trigger] sort_strings_seq(s)[i])@,
                (#[trigger] sort_strings_seq(s)[j])@,
            ),
{
    lemma_sort_strings_ensures(s);
    let leq = |a: String, b: String| string_le(a, b);
    let sorted = sort_strings_seq(s);
    assert forall|i: int, j: int| 0 <= i < j < s.len() implies lex_le(
        (#[trigger] sorted[i])@,
        (#[trigger] sorted[j])@,
    ) by {
        assert(leq(sorted[i], sorted[j]));
    }
}

} // verus!
