//! A standalone stop-name index: the passenger stops of a feed grouped
//! by name, each carrying copies of its platforms, with fuzzy name
//! search, nearest-stop search and name lookup by platform identifier.
use vstd::prelude::*;
use crate::feed::{Feed, FeedModel, Platform, copy_platforms};
use crate::geodesy::{haversine_of, round_cents_of, haversine_rounded_bits, MAX_DISTANCE_BITS};
use crate::grouping::{names_model, members_of, sorted_unique_names, members_exec,
    lemma_members_bounds};
use crate::sorting::{sort_pairs, sort_pairs_seq, lemma_sort_pairs_pointwise};
use crate::text::{similarity_key_of, similarity_key, str_eq_string};

verus! {

/// A passenger stop: a name and copies of the platforms bearing it.
pub struct StopPlatforms {
    pub stop_name: String,
    pub platforms: Vec<Platform>,
}

impl Clone for StopPlatforms {
    fn clone(&self) -> (r: Self)
        ensures
            r.stop_name == self.stop_name,
            r.platforms@ == self.platforms@,
    {
        StopPlatforms {
            stop_name: self.stop_name.clone(),
            platforms: copy_platforms(&self.platforms),
        }
    }
}

/// The least rounded haversine distance from the query point to any of
/// the platforms; the largest finite distance when there are none.
pub open spec fn group_min_distance(plats: Seq<Platform>, qlon: Seq<char>, qlat: Seq<char>) -> u64
    decreases plats.len(),
{
    if plats.len() == 0 {
        MAX_DISTANCE_BITS
    } else {
        let rest = group_min_distance(plats.drop_last(), qlon, qlat);
        let d = round_cents_of(
            haversine_of(qlon, qlat, plats.last().lon_or_zero(), plats.last().lat_or_zero()),
        );
        if d < rest {
            d
        } else {
            rest
        }
    }
}

impl StopPlatforms {
    /// The distance from a query point to this stop: the least rounded
    /// haversine distance to any of its platforms.
    pub fn distance_to_location(&self, longitude: &str, latitude: &str) -> (r: u64)
        ensures
            r == group_min_distance(self.platforms@, longitude@, latitude@),
    {
        let mut best: u64 = MAX_DISTANCE_BITS;
        let mut k: usize = 0;
        while k < self.platforms.len()
            invariant
                k <= self.platforms@.len(),
                best == group_min_distance(self.platforms@.take(k as int), longitude@, latitude@),
            decreases self.platforms@.len() - k,
        {
            proof {
                assert(self.platforms@.take(k as int + 1).drop_last() =~= self.platforms@.take(
                    k as int,
                ));
                assert(self.platforms@.take(k as int + 1).last() == self.platforms@[k as int]);
            }
            let d = haversine_rounded_bits(
                longitude,
                latitude,
                self.platforms[k].lon_str(),
                self.platforms[k].lat_str(),
            );
            if d < best {
                best = d;
            }
            k = k + 1;
        }
        proof {
            assert(self.platforms@.take(self.platforms@.len() as int) =~= self.platforms@);
        }
        best
    }
}

/// The platforms of one group, as values.
pub open spec fn group_platforms_model(fm: FeedModel, g: int) -> Seq<Platform> {
    members_of(fm.platforms, names_model(fm.platforms)[g]@).map_values(
        |i: usize| fm.platforms[i as int],
    )
}

/// The stop-name index: one passenger stop per distinct name, ascending.
pub struct StopNamesIndex {
    pub stop_platforms: Vec<StopPlatforms>,
}

impl StopNamesIndex {
    /// The index matches the feed: one group per distinct name in
    /// ascending order, holding copies of the name's platforms.
    pub open spec fn matches(self, fm: FeedModel) -> bool {
        &&& self.stop_platforms@.len() == names_model(fm.platforms).len()
        &&& forall|g: int|
            0 <= g < self.stop_platforms@.len() ==> {
                &&& (#[trigger] self.stop_platforms@[g]).stop_name == names_model(fm.platforms)[g]
                &&& self.stop_platforms@[g].platforms@ == group_platforms_model(fm, g)
            }
    }

    /// Group the feed's platforms by passenger name.
    pub fn new(feed: &Feed) -> (r: StopNamesIndex)
        ensures
            r.matches(feed.model()),
    {
        let names = sorted_unique_names(&feed.platforms);
        let mut stop_platforms: Vec<StopPlatforms> = Vec::new();
        let mut g: usize = 0;
        proof {
            assert(feed.model().platforms =~= feed.platforms@);
        }
        while g < names.len()
            invariant
                g <= names@.len(),
                names@ == names_model(feed.platforms@),
                feed.model().platforms == feed.platforms@,
                stop_platforms@.len() == g,
                forall|k: int|
                    0 <= k < g ==> {
                        &&& (#[trigger] stop_platforms@[k]).stop_name == names@[k]
                        &&& stop_platforms@[k].platforms@ == group_platforms_model(feed.model(), k)
                    },
            decreases names@.len() - g,
        {
            let members = members_exec(&feed.platforms, &names[g]);
            proof {
                assert(feed.platforms@.len() == feed.platforms.len());
                lemma_members_bounds(feed.platforms@, names@[g as int]@);
            }
            let mut platforms: Vec<Platform> = Vec::new();
            let mut m: usize = 0;
            while m < members.len()
                invariant
                    m <= members@.len(),
                    members@ == members_of(feed.platforms@, names@[g as int]@),
                    feed.model().platforms == feed.platforms@,
                    forall|a: int|
                        0 <= a < members@.len() ==> (#[trigger] members@[a])
                            < feed.platforms@.len(),
                    platforms@.len() == m,
                    forall|a: int|
                        0 <= a < m ==> #[trigger] platforms@[a] == feed.platforms@[members@[a]
                            as int],
                decreases members@.len() - m,
            {
                let p = members[m];
                platforms.push(feed.platforms[p].clone());
                m = m + 1;
            }
            proof {
                assert(platforms@ =~= group_platforms_model(feed.model(), g as int));
            }
            stop_platforms.push(StopPlatforms { stop_name: names[g].clone(), platforms });
            g = g + 1;
        }
        StopNamesIndex { stop_platforms }
    }

    /// The first `limit` groups in the order of the sorted ranking pairs.
    fn ranked(&self, pairs: &Vec<(u64, usize)>, limit: usize) -> (r: Vec<StopPlatforms>)
        requires
            pairs@.len() == self.stop_platforms@.len(),
            forall|j: int| 0 <= j < pairs@.len() ==> (#[trigger] pairs@[j]).1 == j,
        ensures
            r@.len() == (if limit <= self.stop_platforms@.len() {
                limit as int
            } else {
                self.stop_platforms@.len() as int
            }),
            forall|k: int|
                0 <= k < r@.len() ==> (#[trigger] sort_pairs_seq(pairs@)[k]).1
                    < self.stop_platforms@.len(),
            forall|k: int|
                0 <= k < r@.len() ==> (#[trigger] r@[k]).stop_name
                    == self.stop_platforms@[sort_pairs_seq(pairs@)[k].1 as int].stop_name,
            forall|k: int|
                0 <= k < r@.len() ==> (#[trigger] r@[k]).platforms@
                    == self.stop_platforms@[sort_pairs_seq(pairs@)[k].1 as int].platforms@,
    {
        broadcast use vstd::seq_lib::group_to_multiset_ensures;

        let sorted = sort_pairs(pairs);
        proof {
            lemma_sort_pairs_pointwise(pairs@);
        }
        let mut r: Vec<StopPlatforms> = Vec::new();
        let mut k: usize = 0;
        while k < sorted.len() && k < limit
            invariant
                sorted@ == sort_pairs_seq(pairs@),
                sorted@.len() == self.stop_platforms@.len(),
                sorted@.to_multiset() == pairs@.to_multiset(),
                pairs@.len() == self.stop_platforms@.len(),
                forall|j: int| 0 <= j < pairs@.len() ==> (#[trigger] pairs@[j]).1 == j,
                k <= sorted@.len(),
                k <= limit,
                r@.len() == k,
                forall|m: int|
                    0 <= m < k ==> (#[trigger] sort_pairs_seq(pairs@)[m]).1
                        < self.stop_platforms@.len(),
                forall|m: int|
                    0 <= m < k ==> (#[trigger] r@[m]).stop_name
                        == self.stop_platforms@[sort_pairs_seq(pairs@)[m].1 as int].stop_name,
                forall|m: int|
                    0 <= m < k ==> (#[trigger] r@[m]).platforms@
                        == self.stop_platforms@[sort_pairs_seq(pairs@)[m].1 as int].platforms@,
            decreases sorted@.len() - k,
        {
            proof {
                broadcast use vstd::seq_lib::group_to_multiset_ensures;

                assert(sorted@.contains(sorted@[k as int]));
                assert(sorted@.to_multiset().contains(sorted@[k as int]));
                assert(pairs@.to_multiset().contains(sorted@[k as int]));
                assert(pairs@.contains(sorted@[k as int]));
                let j = choose|j: int|
                    0 <= j < pairs@.len() && #[trigger] pairs@[j] == sorted@[k as int];
                assert(pairs@[j].1 == j);
                assert(sort_pairs_seq(pairs@)[k as int].1 == j);
            }
            let g = sorted[k].1;
            r.push(self.stop_platforms[g].clone());
            proof {
                assert((r@[k as int]).stop_name == self.stop_platforms@[g as int].stop_name);
                assert(r@[k as int].platforms@ == self.stop_platforms@[g as int].platforms@);
                assert(sort_pairs_seq(pairs@)[k as int].1 == g);
            }
            k = k + 1;
        }
        r
    }

    /// All passenger stops, ranked by falling trigram similarity of
    /// their name to the query; ties keep the ascending name order.
    pub fn search_by_name(&self, query: &str) -> (r: Vec<StopPlatforms>)
        ensures
            r@.len() == self.stop_platforms@.len(),
            forall|k: int|
                0 <= k < r@.len() ==> {
                    let ranked = sort_pairs_seq(name_rank_pairs(self.stop_platforms@, query@));
                    &&& ranked[k].1 < self.stop_platforms@.len()
                    &&& (#[trigger] r@[k]).stop_name
                        == self.stop_platforms@[ranked[k].1 as int].stop_name
                    &&& r@[k].platforms@ == self.stop_platforms@[ranked[k].1 as int].platforms@
                },
    {
        let ghost spec_pairs = name_rank_pairs(self.stop_platforms@, query@);
        let mut pairs: Vec<(u64, usize)> = Vec::new();
        let mut g: usize = 0;
        while g < self.stop_platforms.len()
            invariant
                g <= self.stop_platforms@.len(),
                spec_pairs == name_rank_pairs(self.stop_platforms@, query@),
                pairs@.len() == g,
                forall|j: int| 0 <= j < g ==> #[trigger] pairs@[j] == spec_pairs[j],
            decreases self.stop_platforms@.len() - g,
        {
            let key = similarity_key(self.stop_platforms[g].stop_name.as_str(), query);
            pairs.push(((u32::MAX - key) as u64, g));
            g = g + 1;
        }
        proof {
            assert(pairs@ =~= spec_pairs);
        }
        self.ranked(&pairs, self.stop_platforms.len())
    }

    /// The `count` passenger stops nearest to the query point, nearest
    /// first; ties keep the ascending name order.
    pub fn find_nearest_stops(&self, longitude: &str, latitude: &str, count: usize) -> (r: Vec<
        StopPlatforms,
    >)
        ensures
            r@.len() == (if count <= self.stop_platforms@.len() {
                count as int
            } else {
                self.stop_platforms@.len() as int
            }),
            count == 0 ==> r@.len() == 0,
            forall|k: int|
                0 <= k < r@.len() ==> {
                    let ranked = sort_pairs_seq(
                        distance_rank_pairs(self.stop_platforms@, longitude@, latitude@),
                    );
                    &&& ranked[k].1 < self.stop_platforms@.len()
                    &&& (#[trigger] r@[k]).stop_name
                        == self.stop_platforms@[ranked[k].1 as int].stop_name
                    &&& r@[k].platforms@ == self.stop_platforms@[ranked[k].1 as int].platforms@
                },
    {
        let ghost spec_pairs = distance_rank_pairs(self.stop_platforms@, longitude@, latitude@);
        let mut pairs: Vec<(u64, usize)> = Vec::new();
        let mut g: usize = 0;
        while g < self.stop_platforms.len()
            invariant
                g <= self.stop_platforms@.len(),
                spec_pairs == distance_rank_pairs(self.stop_platforms@, longitude@, latitude@),
                pairs@.len() == g,
                forall|j: int| 0 <= j < g ==> #[trigger] pairs@[j] == spec_pairs[j],
            decreases self.stop_platforms@.len() - g,
        {
            let key = self.stop_platforms[g].distance_to_location(longitude, latitude);
            pairs.push((key, g));
            g = g + 1;
        }
        proof {
            assert(pairs@ =~= spec_pairs);
        }
        self.ranked(&pairs, count)
    }

    /// The name of the first group holding a platform with the given
    /// identifier.
    pub fn get_stop_name_from_id(&self, id: &str) -> (r: Option<String>)
        ensures
            match r {
                Some(n) => {
                    &&& first_group_with_id(self.stop_platforms@, id@) != -1
                    &&& n@ == self.stop_platforms@[first_group_with_id(
                        self.stop_platforms@,
                        id@,
                    )].stop_name@
                },
                None => first_group_with_id(self.stop_platforms@, id@) == -1,
            },
    {
        let mut g: usize = 0;
        while g < self.stop_platforms.len()
            invariant
                g <= self.stop_platforms@.len(),
                forall|k: int|
                    0 <= k < g ==> !group_has_id(#[trigger] self.stop_platforms@[k], id@),
            decreases self.stop_platforms@.len() - g,
        {
            let mut m: usize = 0;
            let group = &self.stop_platforms[g];
            while m < group.platforms.len()
                invariant
                    m <= group.platforms@.len(),
                    g < self.stop_platforms@.len(),
                    group == self.stop_platforms@[g as int],
                    forall|k: int|
                        0 <= k < g ==> !group_has_id(#[trigger] self.stop_platforms@[k], id@),
                    forall|a: int| 0 <= a < m ==> (#[trigger] group.platforms@[a]).id@ != id@,
                decreases group.platforms@.len() - m,
            {
                if str_eq_string(id, &group.platforms[m].id) {
                    proof {
                        assert(group_has_id(self.stop_platforms@[g as int], id@));
                        lemma_first_group_with_id(self.stop_platforms@, id@);
                        let f = first_group_with_id(self.stop_platforms@, id@);
                        assert(f != -1);
                        if f < g as int {
                            assert(!group_has_id(self.stop_platforms@[f], id@));
                        }
                        if f > g as int {
                            assert(!group_has_id(self.stop_platforms@[g as int], id@));
                        }
                    }
                    return Some(group.stop_name.clone());
                }
                m = m + 1;
            }
            proof {
                assert(!group_has_id(self.stop_platforms@[g as int], id@));
            }
            g = g + 1;
        }
        proof {
            lemma_first_group_with_id(self.stop_platforms@, id@);
        }
        None
    }
}

/// The ranking keys for a name search over given groups.
pub open spec fn name_rank_pairs(groups: Seq<StopPlatforms>, q: Seq<char>) -> Seq<(u64, usize)> {
    Seq::new(
        groups.len(),
        |g: int| (((u32::MAX - similarity_key_of(groups[g].stop_name@, q)) as u64, g as usize)),
    )
}

/// The ranking keys for a nearest-stop search over given groups.
pub open spec fn distance_rank_pairs(
    groups: Seq<StopPlatforms>,
    qlon: Seq<char>,
    qlat: Seq<char>,
) -> Seq<(u64, usize)> {
    Seq::new(
        groups.len(),
        |g: int| ((group_min_distance(groups[g].platforms@, qlon, qlat), g as usize)),
    )
}

/// Whether a group holds a platform with the given identifier.
pub open spec fn group_has_id(group: StopPlatforms, id: Seq<char>) -> bool {
    exists|a: int| 0 <= a < group.platforms@.len() && (#[trigger] group.platforms@[a]).id@ == id
}

/// The first group holding a platform with the given identifier, or -1.
pub open spec fn first_group_with_id(groups: Seq<StopPlatforms>, id: Seq<char>) -> int
    decreases groups.len(),
{
    if groups.len() == 0 {
        -1
    } else if group_has_id(groups[0], id) {
        0
    } else {
        let r = first_group_with_id(groups.drop_first(), id);
        if r == -1 {
            -1
        } else {
            r + 1
        }
    }
}

/// What `first_group_with_id` returns: -1 exactly when no group holds
/// the identifier, else the first group holding it.
pub proof fn lemma_first_group_with_id(groups: Seq<StopPlatforms>, id: Seq<char>)
    ensures
        first_group_with_id(groups, id) == -1 <==> (forall|k: int|
            0 <= k < groups.len() ==> !group_has_id(#[trigger] groups[k], id)),
        first_group_with_id(groups, id) != -1 ==> {
            &&& 0 <= first_group_with_id(groups, id) < groups.len()
            &&& group_has_id(groups[first_group_with_id(groups, id)], id)
            &&& forall|k: int|
                0 <= k < first_group_with_id(groups, id) ==> !group_has_id(
                    #[trigger] groups[k],
                    id,
                )
        },
    decreases groups.len(),
{
    if groups.len() > 0 && !group_has_id(groups[0], id) {
        let d = groups.drop_first();
        lemma_first_group_with_id(d, id);
        assert(forall|k: int| 0 <= k < d.len() ==> #[trigger] d[k] == groups[k + 1]);
        let rd = first_group_with_id(d, id);
        if rd == -1 {
            assert forall|k: int| 0 <= k < groups.len() implies !group_has_id(
                #[trigger] groups[k],
                id,
            ) by {
                if k > 0 {
                    assert(!group_has_id(d[k - 1], id));
                }
            }
        } else {
            assert(group_has_id(groups[rd + 1], id));
            assert forall|k: int| 0 <= k < rd + 1 implies !group_has_id(
                #[trigger] groups[k],
                id,
            ) by {
                if k > 0 {
                    assert(!group_has_id(d[k - 1], id));
                }
            }
        }
    }
}

} // verus!
