//! The platform grouper: enumerates the distinct passenger names of a
//! feed in ascending order and collects, for each name, the platforms
//! bearing it. Platforms without a name are skipped.
use vstd::prelude::*;
use crate::feed::Platform;
use crate::sorting::{sort_strings, sort_strings_seq, lemma_sort_strings_ensures, string_le};
use crate::text::{
    lex_le,
    str_eq_string,
    lemma_lex_le_antisymmetric,
    lemma_lex_le_transitive,
};

verus! {

/// All names present among the platforms, in feed order, with repeats.
pub open spec fn all_names(platforms: Seq<Platform>) -> Seq<String>
    decreases platforms.len(),
{
    if platforms.len() == 0 {
        Seq::empty()
    } else {
        all_names(platforms.drop_last()) + match platforms.last().name {
            Some(n) => seq![n],
            None => Seq::empty(),
        }
    }
}

/// A sorted string sequence with runs of equal strings collapsed.
pub open spec fn dedup_strings(s: Seq<String>) -> Seq<String>
    decreases s.len(),
{
    if s.len() == 0 {
        Seq::empty()
    } else {
        let r = dedup_strings(s.drop_last());
        if r.len() > 0 && r.last()@ == s.last()@ {
            r
        } else {
            r.push(s.last())
        }
    }
}

/// The distinct names of the feed's platforms, ascending.
pub open spec fn names_model(platforms: Seq<Platform>) -> Seq<String> {
    dedup_strings(sort_strings_seq(all_names(platforms)))
}

/// The indices of the platforms bearing the given name, in feed order.
pub open spec fn members_of(platforms: Seq<Platform>, name: Seq<char>) -> Seq<usize>
    decreases platforms.len(),
{
    if platforms.len() == 0 {
        Seq::empty()
    } else {
        members_of(platforms.drop_last(), name) + match platforms.last().name {
            Some(n) => if n@ == name {
                seq![(platforms.len() - 1) as usize]
            } else {
                Seq::empty()
            },
            None => Seq::empty(),
        }
    }
}

/// The first position of the given name among the group names, or -1.
pub open spec fn first_name_index(names: Seq<String>, v: Seq<char>) -> int
    decreases names.len(),
{
    if names.len() == 0 {
        -1
    } else if names[0]@ == v {
        0
    } else {
        let r = first_name_index(names.drop_first(), v);
        if r == -1 {
            -1
        } else {
            r + 1
        }
    }
}

/// What `first_name_index` returns: -1 exactly when the name is absent,
/// else the first position holding it.
pub proof fn lemma_first_name_index(names: Seq<String>, v: Seq<char>)
    ensures
        first_name_index(names, v) == -1 <==> (forall|k: int|
            0 <= k < names.len() ==> (#[trigger] names[k])@ != v),
        first_name_index(names, v) != -1 ==> {
            &&& 0 <= first_name_index(names, v) < names.len()
            &&& names[first_name_index(names, v)]@ == v
            &&& forall|k: int| 0 <= k < first_name_index(names, v) ==> (#[trigger] names[k])@ != v
        },
    decreases names.len(),
{
    if names.len() > 0 && names[0]@ != v {
        let d = names.drop_first();
        lemma_first_name_index(d, v);
        assert(forall|k: int| 0 <= k < d.len() ==> #[trigger] d[k] == names[k + 1]);
        let rd = first_name_index(d, v);
        if rd == -1 {
            assert forall|k: int| 0 <= k < names.len() implies (#[trigger] names[k])@ != v by {
                if k > 0 {
                    assert(d[k - 1]@ != v);
                }
            }
        } else {
            assert(names[rd + 1]@ == v);
            assert forall|k: int| 0 <= k < rd + 1 implies (#[trigger] names[k])@ != v by {
                if k > 0 {
                    assert(d[k - 1]@ != v);
                }
            }
        }
    }
}

/// Collect the names present among the platforms, in feed order.
fn collect_names(platforms: &Vec<Platform>) -> (r: Vec<String>)
    ensures
        r@ == all_names(platforms@),
{
    let mut r: Vec<String> = Vec::new();
    let mut i: usize = 0;
    while i < platforms.len()
        invariant
            i <= platforms.len(),
            r@ == all_names(platforms@.take(i as int)),
        decreases platforms.len() - i,
    {
        proof {
            assert(platforms@.take(i as int + 1).drop_last() =~= platforms@.take(i as int));
            assert(platforms@.take(i as int + 1).last() == platforms@[i as int]);
        }
        match &platforms[i].name {
            Some(n) => {
                r.push(n.clone());
            },
            None => (),
        }
        i = i + 1;
    }
    proof {
        assert(platforms@.take(platforms.len() as int) =~= platforms@);
    }
    r
}

/// Collapse runs of equal strings in a vector.
fn dedup_sorted(v: Vec<String>) -> (r: Vec<String>)
    ensures
        r@ == dedup_strings(v@),
{
    let mut r: Vec<String> = Vec::new();
    let mut i: usize = 0;
    while i < v.len()
        invariant
            i <= v.len(),
            r@ == dedup_strings(v@.take(i as int)),
        decreases v.len() - i,
    {
        proof {
            assert(v@.take(i as int + 1).drop_last() =~= v@.take(i as int));
            assert(v@.take(i as int + 1).last() == v@[i as int]);
        }
        let keep: bool = if r.len() == 0 {
            true
        } else {
            !str_eq_string(r[r.len() - 1].as_str(), &v[i])
        };
        if keep {
            r.push(v[i].clone());
        }
        i = i + 1;
    }
    proof {
        assert(v@.take(v.len() as int) =~= v@);
    }
    r
}

/// The distinct names of the feed's platforms, ascending.
pub fn sorted_unique_names(platforms: &Vec<Platform>) -> (r: Vec<String>)
    ensures
        r@ == names_model(platforms@),
{
    let names = collect_names(platforms);
    let sorted = sort_strings(names);
    dedup_sorted(sorted)
}

/// The indices of the platforms bearing the given name, in feed order.
pub fn members_exec(platforms: &Vec<Platform>, name: &String) -> (r: Vec<usize>)
    ensures
        r@ == members_of(platforms@, name@),
{
    let mut r: Vec<usize> = Vec::new();
    let mut i: usize = 0;
    while i < platforms.len()
        invariant
            i <= platforms.len(),
            r@ == members_of(platforms@.take(i as int), name@),
        decreases platforms.len() - i,
    {
        proof {
            assert(platforms@.take(i as int + 1).drop_last() =~= platforms@.take(i as int));
            assert(platforms@.take(i as int + 1).last() == platforms@[i as int]);
        }
        match &platforms[i].name {
            Some(n) => {
                if str_eq_string(n.as_str(), name) {
                    r.push(i);
                }
            },
            None => (),
        }
        i = i + 1;
    }
    proof {
        assert(platforms@.take(platforms.len() as int) =~= platforms@);
    }
    r
}

/// The first position of the given name among the group names, if any.
pub fn find_name(names: &Vec<String>, v: &String) -> (r: Option<usize>)
    ensures
        match r {
            Some(k) => k == first_name_index(names@, v@),
            None => first_name_index(names@, v@) == -1,
        },
{
    let mut i: usize = 0;
    while i < names.len()
        invariant
            i <= names.len(),
            forall|k: int| 0 <= k < i ==> (#[trigger] names@[k])@ != v@,
        decreases names.len() - i,
    {
        if str_eq_string(names[i].as_str(), v) {
            proof {
                lemma_first_name_index(names@, v@);
                let f = first_name_index(names@, v@);
                assert(names@[i as int]@ == v@);
                assert(f != -1);
                if f < i as int {
                    assert(names@[f]@ != v@);
                }
                if f > i as int {
                    assert(names@[i as int]@ != v@);
                }
            }
            return Some(i);
        }
        i = i + 1;
    }
    proof {
        lemma_first_name_index(names@, v@);
    }
    None
}

/// Every member index lies below the number of platforms.
pub proof fn lemma_members_bounds(platforms: Seq<Platform>, name: Seq<char>)
    requires
        platforms.len() <= usize::MAX,
    ensures
        forall|a: int|
            0 <= a < members_of(platforms, name).len() ==> (#[trigger] members_of(
                platforms,
                name,
            )[a]) < platforms.len(),
    decreases platforms.len(),
{
    if platforms.len() > 0 {
        let d = platforms.drop_last();
        lemma_members_bounds(d, name);
        let m0 = members_of(d, name);
        let m = members_of(platforms, name);
        assert forall|a: int| 0 <= a < m.len() implies (#[trigger] m[a]) < platforms.len() by {
            if a < m0.len() {
                assert(m[a] == m0[a]);
            } else {
                assert(m[a] == (platforms.len() - 1) as usize);
            }
        }
    }
}

/// A name occurs among the platform names exactly when some platform
/// bears it.
pub proof fn lemma_all_names_members(platforms: Seq<Platform>, v: Seq<char>)
    ensures
        (exists|k: int| 0 <= k < all_names(platforms).len() && (#[trigger] all_names(platforms)[k])@
            == v) <==> members_of(platforms, v).len() > 0,
    decreases platforms.len(),
{
    if platforms.len() > 0 {
        let d = platforms.drop_last();
        lemma_all_names_members(d, v);
        let an0 = all_names(d);
        let an = all_names(platforms);
        let m0 = members_of(d, v);
        let m = members_of(platforms, v);
        match platforms.last().name {
            Some(n) => {
                if n@ == v {
                    assert(an[an.len() - 1]@ == v);
                    assert(m.len() > 0);
                } else {
                    assert(an =~= an0.push(n));
                    assert(m =~= m0);
                    if exists|k: int| 0 <= k < an.len() && (#[trigger] an[k])@ == v {
                        let k = choose|k: int| 0 <= k < an.len() && (#[trigger] an[k])@ == v;
                        assert(k < an0.len());
                        assert(an0[k]@ == v);
                    }
                    if exists|k: int| 0 <= k < an0.len() && (#[trigger] an0[k])@ == v {
                        let k = choose|k: int| 0 <= k < an0.len() && (#[trigger] an0[k])@ == v;
                        assert(an[k]@ == v);
                    }
                }
            },
            None => {
                assert(an =~= an0);
                assert(m =~= m0);
            },
        }
    }
}

/// Every member of a name's group is a platform bearing that name.
pub proof fn lemma_members_sound(platforms: Seq<Platform>, v: Seq<char>)
    requires
        platforms.len() <= usize::MAX,
    ensures
        forall|a: int|
            0 <= a < members_of(platforms, v).len() ==> {
                let q = #[trigger] members_of(platforms, v)[a];
                &&& q < platforms.len()
                &&& platforms[q as int].name is Some
                &&& platforms[q as int].name.unwrap()@ == v
            },
    decreases platforms.len(),
{
    if platforms.len() > 0 {
        let d = platforms.drop_last();
        lemma_members_sound(d, v);
        let m0 = members_of(d, v);
        let m = members_of(platforms, v);
        assert forall|a: int| 0 <= a < m.len() implies {
            let q = #[trigger] m[a];
            &&& q < platforms.len()
            &&& platforms[q as int].name is Some
            &&& platforms[q as int].name.unwrap()@ == v
        } by {
            if a < m0.len() {
                assert(m[a] == m0[a]);
                assert(d[m0[a] as int] == platforms[m0[a] as int]);
            } else {
                assert(m[a] == (platforms.len() - 1) as usize);
            }
        }
    }
}

/// A platform bearing a name is a member of that name's group.
pub proof fn lemma_members_complete(platforms: Seq<Platform>, p: int)
    requires
        0 <= p < platforms.len(),
        platforms[p].name is Some,
    ensures
        members_of(platforms, platforms[p].name.unwrap()@).contains(p as usize),
    decreases platforms.len(),
{
    let v = platforms[p].name.unwrap()@;
    let d = platforms.drop_last();
    let m = members_of(platforms, v);
    let m0 = members_of(d, v);
    if p == platforms.len() - 1 {
        assert(m[m.len() - 1] == (platforms.len() - 1) as usize);
        assert(m.contains(p as usize));
    } else {
        lemma_members_complete(d, p);
        let a = choose|a: int| 0 <= a < m0.len() && m0[a] == p as usize;
        assert(m[a] == m0[a]);
        assert(m.contains(p as usize));
    }
}

/// A named platform's name occurs among the platform names.
pub proof fn lemma_platform_name_listed(platforms: Seq<Platform>, p: int)
    requires
        0 <= p < platforms.len(),
        platforms[p].name is Some,
    ensures
        exists|k: int|
            0 <= k < all_names(platforms).len() && #[trigger] all_names(platforms)[k]
                == platforms[p].name.unwrap(),
    decreases platforms.len(),
{
    let d = platforms.drop_last();
    let an = all_names(platforms);
    let an0 = all_names(d);
    if p == platforms.len() - 1 {
        assert(an[an.len() - 1] == platforms[p].name.unwrap());
    } else {
        lemma_platform_name_listed(d, p);
        let k = choose|k: int|
            0 <= k < an0.len() && #[trigger] an0[k] == d[p].name.unwrap();
        assert(an[k] == an0[k]);
    }
}

/// Deduplicating a sorted sequence keeps it sorted, makes its entries
/// pairwise distinct, and keeps exactly the set of strings present.
#[verifier::rlimit(60)]
pub proof fn lemma_dedup_sorted(s: Seq<String>)
    requires
        forall|i: int, j: int| 0 <= i < j < s.len() ==> lex_le((#[trigger] s[i])@, (#[trigger] s[j])@),
    ensures
        forall|i: int, j: int|
            0 <= i < j < dedup_strings(s).len() ==> lex_le(
                (#[trigger] dedup_strings(s)[i])@,
                (#[trigger] dedup_strings(s)[j])@,
            ),
        forall|i: int, j: int|
            0 <= i < j < dedup_strings(s).len() ==> (#[trigger] dedup_strings(s)[i])@ != (
            #[trigger] dedup_strings(s)[j])@,
        forall|i: int|
            0 <= i < dedup_strings(s).len() ==> exists|j: int|
                0 <= j < s.len() && (#[trigger] dedup_strings(s)[i])@ == s[j]@,
        forall|j: int|
            0 <= j < s.len() ==> exists|i: int|
                0 <= i < dedup_strings(s).len() && (#[trigger] s[j])@ == dedup_strings(s)[i]@,
        s.len() > 0 ==> dedup_strings(s).len() > 0 && dedup_strings(s).last()@ == s.last()@,
    decreases s.len(),
{
    if s.len() > 0 {
        let d = s.drop_last();
        let r = dedup_strings(d);
        assert(forall|i: int, j: int|
            0 <= i < j < d.len() ==> lex_le((#[trigger] d[i])@, (#[trigger] d[j])@)) by {
            assert forall|i: int, j: int| 0 <= i < j < d.len() implies lex_le(
                (#[trigger] d[i])@,
                (#[trigger] d[j])@,
            ) by {
                assert(lex_le(s[i]@, s[j]@));
            }
        }
        lemma_dedup_sorted(d);
        let out = dedup_strings(s);
        if r.len() > 0 && r.last()@ == s.last()@ {
            // the last name repeats; nothing is added
            assert(out == r);
            assert forall|j: int| 0 <= j < s.len() implies exists|i: int|
                0 <= i < out.len() && (#[trigger] s[j])@ == out[i]@ by {
                if j < d.len() {
                    assert(s[j]@ == d[j]@);
                } else {
                    assert(s[j]@ == r.last()@);
                    assert(0 <= out.len() - 1 < out.len() && s[j]@ == out[out.len() - 1]@);
                }
            }
        } else {
            assert(out == r.push(s.last()));
            // the appended name is strictly above everything kept so far
            assert forall|i: int| 0 <= i < r.len() implies lex_le((#[trigger] r[i])@, s.last()@)
                && r[i]@ != s.last()@ by {
                if d.len() > 0 {
                    let j = choose|j: int| 0 <= j < d.len() && r[i]@ == d[j]@;
                    assert(lex_le(d[j]@, d.last()@) || d[j]@ == d.last()@) by {
                        if j < d.len() - 1 {
                            assert(lex_le(s[j]@, s[d.len() - 1]@));
                        }
                    }
                    assert(lex_le(d.last()@, s.last()@)) by {
                        assert(lex_le(s[d.len() - 1]@, s[s.len() - 1]@));
                    }
                    if d[j]@ == d.last()@ {
                        assert(lex_le(r[i]@, s.last()@));
                    } else {
                        lemma_lex_le_transitive(r[i]@, d.last()@, s.last()@);
                    }
                    if r[i]@ == s.last()@ {
                        // then the run condition would have held
                        assert(lex_le(s.last()@, r.last()@)) by {
                            assert(r.len() > 0);
                            if i < r.len() - 1 {
                                assert(lex_le(r[i]@, r[r.len() - 1]@));
                            }
                        }
                        assert(lex_le(r.last()@, d.last()@)) by {
                            assert(r.last()@ == d.last()@);
                            crate::text::lemma_lex_le_reflexive(r.last()@);
                        }
                        lemma_lex_le_transitive(s.last()@, r.last()@, d.last()@);
                        lemma_lex_le_antisymmetric(d.last()@, s.last()@);
                        assert(false);
                    }
                } else {
                    assert(r.len() == 0);
                }
            }
            assert forall|j: int| 0 <= j < s.len() implies exists|i: int|
                0 <= i < out.len() && (#[trigger] s[j])@ == out[i]@ by {
                if j < d.len() {
                    assert(s[j]@ == d[j]@);
                    let i = choose|i: int| 0 <= i < r.len() && d[j]@ == r[i]@;
                    assert(s[j]@ == out[i]@);
                } else {
                    assert(s[j]@ == out[out.len() - 1]@);
                }
            }
        }
    }
}

} // verus!
