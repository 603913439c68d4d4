//! The transit index: platform groups, the direct-trip table, the stops
//! graph and the distance table, built once over a feed, and the queries
//! answered from them.
use vstd::prelude::*;
use crate::feed::{Feed, FeedModel, Platform};
use crate::geodesy::{haversine_of, round_cents_of, haversine_distance_bits, haversine_rounded_bits,
    MAX_DISTANCE_BITS};
use crate::grouping::{
    names_model,
    members_of,
    first_name_index,
    sorted_unique_names,
    members_exec,
    find_name,
    lemma_first_name_index,
    lemma_dedup_sorted,
};
use crate::grouping::{all_names, dedup_strings, lemma_members_bounds, lemma_all_names_members};
use crate::grouping::{lemma_members_sound, lemma_members_complete, lemma_platform_name_listed};
pub use crate::segments::DirectTrip;
use crate::segments::{first_pos, lemma_first_pos, find_first_pos};
use crate::sorting::{
    sort_pairs,
    sort_pairs_seq,
    sort_strings_seq,
    lemma_sort_pairs_pointwise,
    lemma_sort_strings_pointwise,
    lemma_sorted_positions_complete,
    pair_le,
};
use crate::text::{similarity_key_of, similarity_key, str_eq_string};

verus! {

/// A passenger stop: the name shared by a group of platforms, and the
/// indices of those platforms in the feed, in feed order.
pub struct StopPlatforms {
    pub stop_name: String,
    pub platforms: Vec<usize>,
}

impl Clone for StopPlatforms {
    fn clone(&self) -> (r: Self)
        ensures
            r.stop_name == self.stop_name,
            r.platforms@ == self.platforms@,
    {
        let mut platforms: Vec<usize> = Vec::new();
        let mut i: usize = 0;
        while i < self.platforms.len()
            invariant
                i <= self.platforms.len(),
                platforms@ == self.platforms@.take(i as int),
            decreases self.platforms.len() - i,
        {
            platforms.push(self.platforms[i]);
            i = i + 1;
            proof {
                assert(platforms@ =~= self.platforms@.take(i as int));
            }
        }
        proof {
            assert(self.platforms@.take(self.platforms.len() as int) =~= self.platforms@);
        }
        StopPlatforms { stop_name: self.stop_name.clone(), platforms }
    }
}

/// The direct segment of trip `t` from platform `f` to platform `to_`,
/// if the trip visits `f` strictly before `to_`: the slice between the
/// first positions of the two platforms.
pub open spec fn seg_of_trip(fm: FeedModel, f: int, to_: int, t: int) -> Option<DirectTrip> {
    let sts = fm.trips[t].stop_times;
    let i = first_pos(sts, f);
    let j = first_pos(sts, to_);
    if i != -1 && j != -1 && i < j {
        Some(DirectTrip { trip: t as usize, from_idx: i as usize, to_idx: j as usize })
    } else {
        None
    }
}

/// The contribution of trip `t` to the (f, to_) entry: one segment or none.
pub open spec fn seg_contrib(fm: FeedModel, f: int, to_: int, t: int) -> Seq<DirectTrip> {
    match seg_of_trip(fm, f, to_, t) {
        Some(s) => seq![s],
        None => Seq::empty(),
    }
}

/// The segments of the first `n` trips, in trip order.
pub open spec fn segs_upto(fm: FeedModel, f: int, to_: int, n: int) -> Seq<DirectTrip>
    decreases n,
{
    if n <= 0 {
        Seq::empty()
    } else {
        segs_upto(fm, f, to_, n - 1) + seg_contrib(fm, f, to_, n - 1)
    }
}

/// The direct-trip table entry for the ordered platform pair (f, to_).
pub open spec fn pair_segments(fm: FeedModel, f: int, to_: int) -> Seq<DirectTrip> {
    if f == to_ {
        Seq::empty()
    } else {
        segs_upto(fm, f, to_, fm.trips.len() as int)
    }
}

/// The trips among the first `n` whose stop times visit platform `p`.
pub open spec fn trips_with_upto(fm: FeedModel, p: int, n: int) -> Seq<usize>
    decreases n,
{
    if n <= 0 {
        Seq::empty()
    } else {
        trips_with_upto(fm, p, n - 1) + if first_pos(fm.trips[n - 1].stop_times, p) != -1 {
            seq![(n - 1) as usize]
        } else {
            Seq::empty()
        }
    }
}

/// The trips serving platform `p`, ascending.
pub open spec fn trips_with(fm: FeedModel, p: int) -> Seq<usize> {
    trips_with_upto(fm, p, fm.trips.len() as int)
}

/// The segments contributed by an explicit list of trips, in list order.
pub open spec fn segs_from_list(fm: FeedModel, f: int, to_: int, list: Seq<usize>) -> Seq<
    DirectTrip,
>
    decreases list.len(),
{
    if list.len() == 0 {
        Seq::empty()
    } else {
        segs_from_list(fm, f, to_, list.drop_last()) + seg_contrib(
            fm,
            f,
            to_,
            list.last() as int,
        )
    }
}

/// Every trip index in `trips_with_upto` lies below `n`.
pub proof fn lemma_trips_with_bounds(fm: FeedModel, p: int, n: int)
    requires
        n <= usize::MAX,
    ensures
        forall|a: int|
            0 <= a < trips_with_upto(fm, p, n).len() ==> (#[trigger] trips_with_upto(fm, p, n)[a])
                < n,
    decreases n,
{
    if n > 0 {
        lemma_trips_with_bounds(fm, p, n - 1);
        let tw0 = trips_with_upto(fm, p, n - 1);
        let tw = trips_with_upto(fm, p, n);
        assert forall|a: int| 0 <= a < tw.len() implies (#[trigger] tw[a]) < n by {
            if a < tw0.len() {
                assert(tw[a] == tw0[a]);
            } else {
                assert(tw[a] == (n - 1) as usize);
            }
        }
    }
}

/// Scanning only the trips that serve `f` yields the same segments as
/// scanning every trip: a trip without `f` contributes nothing.
pub proof fn lemma_segs_from_trips_with(fm: FeedModel, f: int, to_: int, n: int)
    requires
        n <= usize::MAX,
    ensures
        segs_from_list(fm, f, to_, trips_with_upto(fm, f, n)) == segs_upto(fm, f, to_, n),
    decreases n,
{
    if n > 0 {
        lemma_segs_from_trips_with(fm, f, to_, n - 1);
        let tw = trips_with_upto(fm, f, n);
        let tw0 = trips_with_upto(fm, f, n - 1);
        if first_pos(fm.trips[n - 1].stop_times, f) != -1 {
            assert(tw =~= tw0.push((n - 1) as usize));
            assert(tw.drop_last() =~= tw0);
            assert(tw.last() == (n - 1) as usize);
            assert((n - 1) as usize as int == n - 1);
            assert(segs_from_list(fm, f, to_, tw) == segs_from_list(fm, f, to_, tw0)
                + seg_contrib(fm, f, to_, n - 1));
        } else {
            assert(tw =~= tw0);
            assert(seg_of_trip(fm, f, to_, n - 1) is None);
            assert(seg_contrib(fm, f, to_, n - 1) =~= Seq::<DirectTrip>::empty());
            assert(segs_upto(fm, f, to_, n) =~= segs_upto(fm, f, to_, n - 1));
        }
    }
}

/// Every listed segment is a slice of a real trip that visits `f` at the
/// slice's first stop, strictly before `to_` at its last.
pub proof fn lemma_pair_segments_oriented(fm: FeedModel, f: int, to_: int, n: int)
    requires
        n <= fm.trips.len(),
        fm.bounded(),
    ensures
        forall|k: int|
            0 <= k < segs_upto(fm, f, to_, n).len() ==> {
                let s = #[trigger] segs_upto(fm, f, to_, n)[k];
                &&& s.wf(fm)
                &&& s.from_idx < s.to_idx
                &&& fm.trips[s.trip as int].stop_times[s.from_idx as int].platform == f
                &&& fm.trips[s.trip as int].stop_times[s.to_idx as int].platform == to_
            },
    decreases n,
{
    if n > 0 {
        lemma_pair_segments_oriented(fm, f, to_, n - 1);
        let sts = fm.trips[n - 1].stop_times;
        lemma_first_pos(sts, f);
        lemma_first_pos(sts, to_);
        let s0 = segs_upto(fm, f, to_, n - 1);
        let s1 = segs_upto(fm, f, to_, n);
        assert forall|k: int| 0 <= k < s1.len() implies {
            let s = #[trigger] s1[k];
            &&& s.wf(fm)
            &&& s.from_idx < s.to_idx
            &&& fm.trips[s.trip as int].stop_times[s.from_idx as int].platform == f
            &&& fm.trips[s.trip as int].stop_times[s.to_idx as int].platform == to_
        } by {
            if k < s0.len() {
                assert(s1[k] == s0[k]);
            } else {
                let i = first_pos(sts, f);
                let j = first_pos(sts, to_);
                assert(s1[k] == seg_of_trip(fm, f, to_, n - 1).unwrap());
                assert(i != -1 && j != -1 && i < j);
                assert(0 <= i < sts.len() && 0 <= j < sts.len());
                assert(sts.len() <= usize::MAX);
                assert(i as usize as int == i && j as usize as int == j);
                assert((n - 1) as usize as int == n - 1);
            }
        }
    }
}

/// The transit index: the feed it was built over and the four derived
/// tables, all read-only after construction.
pub struct TransitIndex {
    pub feed: Feed,
    /// One passenger stop per distinct name, ascending by name.
    pub groups: Vec<StopPlatforms>,
    /// For each platform, the group its name belongs to, if it has one.
    pub platform_groups: Vec<Option<usize>>,
    /// `direct_trips[f][t]`: the direct segments from platform f to t.
    pub direct_trips: Vec<Vec<Vec<DirectTrip>>>,
    /// `distances[a][b]`: the haversine distance between two distinct
    /// platforms, absent on the diagonal.
    pub distances: Vec<Vec<Option<u64>>>,
    /// The same table as `direct_trips`, viewed as a graph.
    pub stops_graph: Vec<Vec<Vec<DirectTrip>>>,
}

/// The group a platform belongs to: the position of its name among the
/// distinct names, or nothing for a nameless platform.
pub open spec fn group_of_platform(fm: FeedModel, p: int) -> Option<usize> {
    match fm.platforms[p].name {
        Some(n) => {
            let g = first_name_index(names_model(fm.platforms), n@);
            if g == -1 {
                None
            } else {
                Some(g as usize)
            }
        },
        None => None,
    }
}

/// The distance-table entry for platforms a and b: absent on the
/// diagonal, else the haversine distance computed once per unordered
/// pair, with the lower-numbered platform's coordinates first.
pub open spec fn pair_distance(fm: FeedModel, a: int, b: int) -> Option<u64> {
    if a == b {
        None
    } else if a < b {
        Some(
            haversine_of(
                fm.platforms[a].lon_or_zero(),
                fm.platforms[a].lat_or_zero(),
                fm.platforms[b].lon_or_zero(),
                fm.platforms[b].lat_or_zero(),
            ),
        )
    } else {
        Some(
            haversine_of(
                fm.platforms[b].lon_or_zero(),
                fm.platforms[b].lat_or_zero(),
                fm.platforms[a].lon_or_zero(),
                fm.platforms[a].lat_or_zero(),
            ),
        )
    }
}

impl TransitIndex {
    /// The model of the feed the index was built over.
    pub open spec fn fm(self) -> FeedModel {
        self.feed.model()
    }

    /// The groups are exactly the distinct names, ascending, each with
    /// the platforms bearing it.
    pub open spec fn groups_wf(self) -> bool {
        let names = names_model(self.fm().platforms);
        &&& self.groups@.len() == names.len()
        &&& forall|g: int|
            0 <= g < names.len() ==> {
                &&& (#[trigger] self.groups@[g]).stop_name == names[g]
                &&& self.groups@[g].platforms@ == members_of(self.fm().platforms, names[g]@)
            }
    }

    /// Each named platform is mapped to the group of its name; a
    /// nameless platform is mapped to nothing.
    pub open spec fn platform_groups_wf(self) -> bool {
        &&& self.platform_groups@.len() == self.fm().platforms.len()
        &&& forall|p: int|
            0 <= p < self.fm().platforms.len() ==> #[trigger] self.platform_groups@[p]
                == group_of_platform(self.fm(), p)
    }

    /// The direct-trip table holds, for every ordered platform pair,
    /// exactly the segments of the trips visiting the pair in order.
    pub open spec fn direct_trips_wf(self) -> bool {
        &&& self.direct_trips@.len() == self.fm().platforms.len()
        &&& forall|f: int|
            0 <= f < self.fm().platforms.len() ==> (#[trigger] self.direct_trips@[f])@.len()
                == self.fm().platforms.len()
        &&& forall|f: int, t: int|
            0 <= f < self.fm().platforms.len() && 0 <= t < self.fm().platforms.len() ==> ((
            #[trigger] self.direct_trips@[f]@[t])@ == pair_segments(self.fm(), f, t))
    }

    /// The stops graph agrees with the direct-trip table element-wise.
    pub open spec fn stops_graph_wf(self) -> bool {
        &&& self.stops_graph@.len() == self.fm().platforms.len()
        &&& forall|f: int|
            0 <= f < self.fm().platforms.len() ==> (#[trigger] self.stops_graph@[f])@.len()
                == self.fm().platforms.len()
        &&& forall|f: int, t: int|
            0 <= f < self.fm().platforms.len() && 0 <= t < self.fm().platforms.len() ==> ((
            #[trigger] self.stops_graph@[f]@[t])@ == pair_segments(self.fm(), f, t))
    }

    /// The distance table is total off the diagonal and empty on it.
    pub open spec fn distances_wf(self) -> bool {
        &&& self.distances@.len() == self.fm().platforms.len()
        &&& forall|a: int|
            0 <= a < self.fm().platforms.len() ==> (#[trigger] self.distances@[a])@.len()
                == self.fm().platforms.len()
        &&& forall|a: int, b: int|
            0 <= a < self.fm().platforms.len() && 0 <= b < self.fm().platforms.len() ==> ((
            #[trigger] self.distances@[a]@[b]) == pair_distance(self.fm(), a, b))
    }

    /// A fully built index.
    pub open spec fn wf(self) -> bool {
        &&& self.fm().wf()
        &&& self.groups_wf()
        &&& self.platform_groups_wf()
        &&& self.direct_trips_wf()
        &&& self.stops_graph_wf()
        &&& self.distances_wf()
    }
}

/// Build the passenger stops: one group per distinct name, ascending,
/// holding the indices of the platforms bearing the name.
fn build_groups(feed: &Feed, names: &Vec<String>) -> (r: Vec<StopPlatforms>)
    requires
        names@ == names_model(feed.model().platforms),
    ensures
        r@.len() == names_model(feed.model().platforms).len(),
        forall|g: int|
            0 <= g < r@.len() ==> {
                &&& (#[trigger] r@[g]).stop_name == names_model(feed.model().platforms)[g]
                &&& r@[g].platforms@ == members_of(
                    feed.model().platforms,
                    names_model(feed.model().platforms)[g]@,
                )
            },
{
    let mut r: Vec<StopPlatforms> = Vec::new();
    let mut g: usize = 0;
    proof {
        assert(feed.model().platforms =~= feed.platforms@);
    }
    while g < names.len()
        invariant
            g <= names.len(),
            names@ == names_model(feed.platforms@),
            feed.model().platforms == feed.platforms@,
            r@.len() == g,
            forall|k: int|
                0 <= k < g ==> {
                    &&& (#[trigger] r@[k]).stop_name == names@[k]
                    &&& r@[k].platforms@ == members_of(feed.platforms@, names@[k]@)
                },
        decreases names.len() - g,
    {
        let platforms = members_exec(&feed.platforms, &names[g]);
        r.push(StopPlatforms { stop_name: names[g].clone(), platforms });
        g = g + 1;
    }
    r
}

/// Map each platform to the group of its name.
fn build_platform_groups(feed: &Feed, names: &Vec<String>) -> (r: Vec<Option<usize>>)
    requires
        names@ == names_model(feed.model().platforms),
    ensures
        r@.len() == feed.model().platforms.len(),
        forall|p: int|
            0 <= p < feed.model().platforms.len() ==> #[trigger] r@[p] == group_of_platform(
                feed.model(),
                p,
            ),
{
    let mut r: Vec<Option<usize>> = Vec::new();
    let mut p: usize = 0;
    proof {
        assert(feed.model().platforms =~= feed.platforms@);
    }
    while p < feed.platforms.len()
        invariant
            p <= feed.platforms.len(),
            names@ == names_model(feed.platforms@),
            feed.model().platforms == feed.platforms@,
            r@.len() == p,
            forall|k: int|
                0 <= k < p ==> #[trigger] r@[k] == group_of_platform(feed.model(), k),
        decreases feed.platforms.len() - p,
    {
        match &feed.platforms[p].name {
            Some(n) => {
                let found = find_name(names, n);
                match found {
                    Some(k) => r.push(Some(k)),
                    None => r.push(None),
                }
            },
            None => {
                r.push(None);
            },
        }
        p = p + 1;
    }
    r
}

/// Build the platform-to-trips index: for every platform, the trips
/// whose stop times visit it, ascending.
fn build_platform_trips(feed: &Feed) -> (r: Vec<Vec<usize>>)
    ensures
        r@.len() == feed.model().platforms.len(),
        forall|p: int|
            0 <= p < r@.len() ==> (#[trigger] r@[p])@ == trips_with(feed.model(), p),
{
    let mut r: Vec<Vec<usize>> = Vec::new();
    let mut p: usize = 0;
    proof {
        assert(feed.model().platforms =~= feed.platforms@);
        assert(feed.model().trips.len() == feed.trips@.len());
    }
    while p < feed.platforms.len()
        invariant
            p <= feed.platforms.len(),
            feed.model().platforms == feed.platforms@,
            feed.model().trips.len() == feed.trips@.len(),
            r@.len() == p,
            forall|k: int| 0 <= k < p ==> (#[trigger] r@[k])@ == trips_with(feed.model(), k),
        decreases feed.platforms.len() - p,
    {
        let mut row: Vec<usize> = Vec::new();
        let mut t: usize = 0;
        while t < feed.trips.len()
            invariant
                t <= feed.trips.len(),
                feed.model().trips.len() == feed.trips@.len(),
                row@ == trips_with_upto(feed.model(), p as int, t as int),
            decreases feed.trips.len() - t,
        {
            proof {
                assert(feed.model().trips[t as int] == feed.trips@[t as int].model());
            }
            let pos = find_first_pos(&feed.trips[t].stop_times, p);
            match pos {
                Some(_) => {
                    row.push(t);
                    proof {
                        assert(row@ =~= trips_with_upto(feed.model(), p as int, t as int + 1));
                    }
                },
                None => {
                    proof {
                        assert(row@ =~= trips_with_upto(feed.model(), p as int, t as int + 1));
                    }
                },
            }
            t = t + 1;
        }
        r.push(row);
        p = p + 1;
    }
    r
}

/// Build the direct-trip table: for each ordered pair of distinct
/// platforms, the segments of the trips that visit the pair in order,
/// found by scanning only the trips that serve the first platform.
pub(crate) fn build_direct_trips(feed: &Feed) -> (r: Vec<Vec<Vec<DirectTrip>>>)
    ensures
        r@.len() == feed.model().platforms.len(),
        forall|f: int|
            0 <= f < r@.len() ==> (#[trigger] r@[f])@.len() == feed.model().platforms.len(),
        forall|f: int, t: int|
            0 <= f < r@.len() && 0 <= t < r@.len() ==> ((#[trigger] r@[f]@[t])@ == pair_segments(
                feed.model(),
                f,
                t,
            )),
{
    let platform_trips = build_platform_trips(feed);
    let mut r: Vec<Vec<Vec<DirectTrip>>> = Vec::new();
    let mut f: usize = 0;
    proof {
        assert(feed.model().platforms =~= feed.platforms@);
        assert(feed.model().trips.len() == feed.trips@.len());
    }
    while f < feed.platforms.len()
        invariant
            f <= feed.platforms.len(),
            feed.model().platforms == feed.platforms@,
            feed.model().trips.len() == feed.trips@.len(),
            platform_trips@.len() == feed.platforms@.len(),
            forall|k: int|
                0 <= k < platform_trips@.len() ==> (#[trigger] platform_trips@[k])@ == trips_with(
                    feed.model(),
                    k,
                ),
            r@.len() == f,
            forall|k: int|
                0 <= k < f ==> (#[trigger] r@[k])@.len() == feed.platforms@.len(),
            forall|k: int, t: int|
                0 <= k < f && 0 <= t < feed.platforms@.len() ==> ((#[trigger] r@[k]@[t])@
                    == pair_segments(feed.model(), k, t)),
        decreases feed.platforms.len() - f,
    {
        let mut row: Vec<Vec<DirectTrip>> = Vec::new();
        let mut t: usize = 0;
        while t < feed.platforms.len()
            invariant
                t <= feed.platforms.len(),
                f < feed.platforms.len(),
                feed.model().platforms == feed.platforms@,
                feed.model().trips.len() == feed.trips@.len(),
                platform_trips@.len() == feed.platforms@.len(),
                forall|k: int|
                    0 <= k < platform_trips@.len() ==> (
                    #[trigger] platform_trips@[k])@ == trips_with(feed.model(), k),
                row@.len() == t,
                forall|k: int|
                    0 <= k < t ==> ((#[trigger] row@[k])@ == pair_segments(feed.model(), f as int, k)),
            decreases feed.platforms.len() - t,
        {
            if t == f {
                let entry: Vec<DirectTrip> = Vec::new();
                row.push(entry);
            } else {
                let entry = pair_segments_exec(feed, &platform_trips[f], f, t);
                row.push(entry);
            }
            t = t + 1;
        }
        r.push(row);
        f = f + 1;
    }
    r
}

/// The segments from platform `f` to platform `t`, scanning the trips
/// that serve `f` in ascending order.
fn pair_segments_exec(feed: &Feed, trips_f: &Vec<usize>, f: usize, t: usize) -> (r: Vec<
    DirectTrip,
>)
    requires
        trips_f@ == trips_with(feed.model(), f as int),
        f != t,
    ensures
        r@ == pair_segments(feed.model(), f as int, t as int),
{
    let ghost fm = feed.model();
    proof {
        assert(fm.trips.len() == feed.trips@.len());
        assert(feed.trips@.len() == feed.trips.len());
        lemma_trips_with_bounds(fm, f as int, fm.trips.len() as int);
        lemma_segs_from_trips_with(fm, f as int, t as int, fm.trips.len() as int);
    }
    let mut r: Vec<DirectTrip> = Vec::new();
    let mut k: usize = 0;
    while k < trips_f.len()
        invariant
            k <= trips_f.len(),
            fm == feed.model(),
            fm.trips.len() == feed.trips@.len(),
            trips_f@ == trips_with(fm, f as int),
            forall|a: int|
                0 <= a < trips_f@.len() ==> (#[trigger] trips_f@[a]) < fm.trips.len(),
            r@ == segs_from_list(fm, f as int, t as int, trips_f@.take(k as int)),
        decreases trips_f.len() - k,
    {
        let tt = trips_f[k];
        proof {
            assert(fm.trips[tt as int] == feed.trips@[tt as int].model());
            assert(trips_f@.take(k as int + 1).drop_last() =~= trips_f@.take(k as int));
            assert(trips_f@.take(k as int + 1).last() == trips_f@[k as int]);
        }
        let i = find_first_pos(&feed.trips[tt].stop_times, f);
        let j = find_first_pos(&feed.trips[tt].stop_times, t);
        match (i, j) {
            (Some(i), Some(j)) => {
                if i < j {
                    r.push(DirectTrip { trip: tt, from_idx: i, to_idx: j });
                    proof {
                        assert(r@ =~= segs_from_list(fm, f as int, t as int, trips_f@.take(
                            k as int + 1,
                        )));
                    }
                } else {
                    proof {
                        assert(r@ =~= segs_from_list(fm, f as int, t as int, trips_f@.take(
                            k as int + 1,
                        )));
                    }
                }
            },
            _ => {
                proof {
                    assert(r@ =~= segs_from_list(fm, f as int, t as int, trips_f@.take(
                        k as int + 1,
                    )));
                }
            },
        }
        k = k + 1;
    }
    proof {
        assert(trips_f@.take(trips_f@.len() as int) =~= trips_f@);
    }
    r
}

/// Build the distance table: for every unordered pair of distinct
/// platforms the haversine distance is computed once and stored under
/// both orders; the diagonal stays empty.
pub(crate) fn build_distances(feed: &Feed) -> (r: Vec<Vec<Option<u64>>>)
    ensures
        r@.len() == feed.model().platforms.len(),
        forall|a: int|
            0 <= a < r@.len() ==> (#[trigger] r@[a])@.len() == feed.model().platforms.len(),
        forall|a: int, b: int|
            0 <= a < r@.len() && 0 <= b < r@.len() ==> ((#[trigger] r@[a]@[b]) == pair_distance(
                feed.model(),
                a,
                b,
            )),
{
    let mut r: Vec<Vec<Option<u64>>> = Vec::new();
    let mut a: usize = 0;
    proof {
        assert(feed.model().platforms =~= feed.platforms@);
    }
    while a < feed.platforms.len()
        invariant
            a <= feed.platforms.len(),
            feed.model().platforms == feed.platforms@,
            r@.len() == a,
            forall|k: int|
                0 <= k < a ==> (#[trigger] r@[k])@.len() == feed.platforms@.len(),
            forall|k: int, b: int|
                0 <= k < a && 0 <= b < feed.platforms@.len() ==> ((#[trigger] r@[k]@[b])
                    == pair_distance(feed.model(), k, b)),
        decreases feed.platforms.len() - a,
    {
        let mut row: Vec<Option<u64>> = Vec::new();
        let mut b: usize = 0;
        while b < feed.platforms.len()
            invariant
                b <= feed.platforms.len(),
                a < feed.platforms.len(),
                feed.model().platforms == feed.platforms@,
                r@.len() == a,
                forall|k: int, c: int|
                    0 <= k < a && 0 <= c < feed.platforms@.len() ==> ((#[trigger] r@[k]@[c])
                        == pair_distance(feed.model(), k, c)),
                forall|k: int|
                    0 <= k < a ==> (#[trigger] r@[k])@.len() == feed.platforms@.len(),
                row@.len() == b,
                forall|c: int|
                    0 <= c < b ==> (#[trigger] row@[c]) == pair_distance(feed.model(), a as int, c),
            decreases feed.platforms.len() - b,
        {
            if b == a {
                row.push(None);
            } else if a < b {
                let d = haversine_distance_bits(
                    feed.platforms[a].lon_str(),
                    feed.platforms[a].lat_str(),
                    feed.platforms[b].lon_str(),
                    feed.platforms[b].lat_str(),
                );
                row.push(Some(d));
            } else {
                // the unordered pair was measured in an earlier row
                let d = r[b][a];
                proof {
                    assert(pair_distance(feed.model(), b as int, a as int) == pair_distance(
                        feed.model(),
                        a as int,
                        b as int,
                    ));
                }
                row.push(d);
            }
            b = b + 1;
        }
        r.push(row);
        a = a + 1;
    }
    r
}

/// Copy the direct-trip table to serve as the stops graph.
fn copy_table(table: &Vec<Vec<Vec<DirectTrip>>>) -> (r: Vec<Vec<Vec<DirectTrip>>>)
    ensures
        r@.len() == table@.len(),
        forall|f: int| 0 <= f < r@.len() ==> (#[trigger] r@[f])@.len() == table@[f]@.len(),
        forall|f: int, t: int|
            0 <= f < r@.len() && 0 <= t < r@[f]@.len() ==> (#[trigger] r@[f]@[t])@
                == table@[f]@[t]@,
{
    let mut r: Vec<Vec<Vec<DirectTrip>>> = Vec::new();
    let mut f: usize = 0;
    while f < table.len()
        invariant
            f <= table.len(),
            r@.len() == f,
            forall|k: int| 0 <= k < f ==> (#[trigger] r@[k])@.len() == table@[k]@.len(),
            forall|k: int, t: int|
                0 <= k < f && 0 <= t < r@[k]@.len() ==> (#[trigger] r@[k]@[t])@ == table@[k]@[t]@,
        decreases table.len() - f,
    {
        let mut row: Vec<Vec<DirectTrip>> = Vec::new();
        let mut t: usize = 0;
        while t < table[f].len()
            invariant
                t <= table@[f as int]@.len(),
                f < table@.len(),
                row@.len() == t,
                forall|k: int|
                    0 <= k < t ==> (#[trigger] row@[k])@ == table@[f as int]@[k]@,
            decreases table@[f as int]@.len() - t,
        {
            let mut entry: Vec<DirectTrip> = Vec::new();
            let mut k: usize = 0;
            while k < table[f][t].len()
                invariant
                    k <= table@[f as int]@[t as int]@.len(),
                    f < table@.len(),
                    t < table@[f as int]@.len(),
                    entry@ == table@[f as int]@[t as int]@.take(k as int),
                decreases table@[f as int]@[t as int]@.len() - k,
            {
                entry.push(table[f][t][k]);
                k = k + 1;
                proof {
                    assert(entry@ =~= table@[f as int]@[t as int]@.take(k as int));
                }
            }
            proof {
                assert(table@[f as int]@[t as int]@.take(table@[f as int]@[t as int]@.len() as int)
                    =~= table@[f as int]@[t as int]@);
            }
            row.push(entry);
            t = t + 1;
        }
        r.push(row);
        f = f + 1;
    }
    r
}

/// Every group names at least one platform, and every member index is a
/// real platform of the feed.
pub proof fn lemma_groups_members(fm: FeedModel)
    requires
        fm.bounded(),
    ensures
        forall|g: int|
            0 <= g < names_model(fm.platforms).len() ==> (#[trigger] members_of(
                fm.platforms,
                names_model(fm.platforms)[g]@,
            )).len() > 0,
        forall|g: int, a: int|
            0 <= g < names_model(fm.platforms).len() && 0 <= a < members_of(
                fm.platforms,
                names_model(fm.platforms)[g]@,
            ).len() ==> (#[trigger] members_of(fm.platforms, names_model(fm.platforms)[g]@)[a])
                < fm.platforms.len(),
{
    broadcast use vstd::seq_lib::group_to_multiset_ensures;

    let an = all_names(fm.platforms);
    let sorted = sort_strings_seq(an);
    lemma_sort_strings_pointwise(an);
    lemma_dedup_sorted(sorted);
    let names = dedup_strings(sorted);
    assert forall|g: int| 0 <= g < names.len() implies (#[trigger] members_of(
        fm.platforms,
        names[g]@,
    )).len() > 0 by {
        assert(names[g]@ == names[g]@);
        let j = choose|j: int| 0 <= j < sorted.len() && (names[g])@ == sorted[j]@;
        let w = sorted[j];
        assert(sorted.contains(w));
        assert(sorted.to_multiset().contains(w));
        assert(an.to_multiset().contains(w));
        assert(an.contains(w));
        let k = choose|k: int| 0 <= k < an.len() && an[k] == w;
        assert(an[k]@ == names[g]@);
        lemma_all_names_members(fm.platforms, names[g]@);
    }
    assert forall|g: int, a: int|
        0 <= g < names.len() && 0 <= a < members_of(fm.platforms, names[g]@).len() implies (
    #[trigger] members_of(fm.platforms, names[g]@)[a]) < fm.platforms.len() by {
        lemma_members_bounds(fm.platforms, names[g]@);
    }
}

/// The least rounded haversine distance from the query point to any of
/// the listed platforms; the largest finite distance when the list is
/// empty.
pub open spec fn min_rounded_distance(
    fm: FeedModel,
    plats: Seq<usize>,
    qlon: Seq<char>,
    qlat: Seq<char>,
) -> u64
    decreases plats.len(),
{
    if plats.len() == 0 {
        MAX_DISTANCE_BITS
    } else {
        let rest = min_rounded_distance(fm, plats.drop_last(), qlon, qlat);
        let d = round_cents_of(
            haversine_of(
                qlon,
                qlat,
                fm.platforms[plats.last() as int].lon_or_zero(),
                fm.platforms[plats.last() as int].lat_or_zero(),
            ),
        );
        if d < rest {
            d
        } else {
            rest
        }
    }
}

impl StopPlatforms {
    /// The indices all point at platforms of the feed.
    pub open spec fn in_feed(self, fm: FeedModel) -> bool {
        forall|k: int|
            0 <= k < self.platforms@.len() ==> (#[trigger] self.platforms@[k])
                < fm.platforms.len()
    }

    /// The distance from a query point to this stop: the least rounded
    /// haversine distance to any of its platforms.
    pub fn distance_to_location(&self, feed: &Feed, longitude: &str, latitude: &str) -> (r: u64)
        requires
            self.in_feed(feed.model()),
        ensures
            r == min_rounded_distance(feed.model(), self.platforms@, longitude@, latitude@),
    {
        let mut best: u64 = MAX_DISTANCE_BITS;
        let mut k: usize = 0;
        proof {
            assert(feed.model().platforms =~= feed.platforms@);
        }
        while k < self.platforms.len()
            invariant
                k <= self.platforms.len(),
                self.in_feed(feed.model()),
                feed.model().platforms == feed.platforms@,
                best == min_rounded_distance(
                    feed.model(),
                    self.platforms@.take(k as int),
                    longitude@,
                    latitude@,
                ),
            decreases self.platforms.len() - k,
        {
            proof {
                assert(self.platforms@.take(k as int + 1).drop_last() =~= self.platforms@.take(
                    k as int,
                ));
                assert(self.platforms@.take(k as int + 1).last() == self.platforms@[k as int]);
            }
            let p = self.platforms[k];
            let d = haversine_rounded_bits(
                longitude,
                latitude,
                feed.platforms[p].lon_str(),
                feed.platforms[p].lat_str(),
            );
            if d < best {
                best = d;
            }
            k = k + 1;
        }
        proof {
            assert(self.platforms@.take(self.platforms.len() as int) =~= self.platforms@);
        }
        best
    }
}

/// The ranking keys for a name search: one pair per group, the key
/// falling as the trigram similarity between the group's name and the
/// query rises, so that the ascending sort ranks best first.
pub open spec fn search_rank_pairs(fm: FeedModel, q: Seq<char>) -> Seq<(u64, usize)> {
    Seq::new(
        names_model(fm.platforms).len(),
        |g: int|
            (
                (u32::MAX - similarity_key_of(names_model(fm.platforms)[g]@, q)) as u64,
                g as usize,
            ),
    )
}

/// The ranking keys for a nearest-stop search: one pair per group,
/// keyed by the group's distance to the query point.
pub open spec fn nearest_rank_pairs(fm: FeedModel, qlon: Seq<char>, qlat: Seq<char>) -> Seq<
    (u64, usize),
> {
    Seq::new(
        names_model(fm.platforms).len(),
        |g: int|
            (
                min_rounded_distance(
                    fm,
                    members_of(fm.platforms, names_model(fm.platforms)[g]@),
                    qlon,
                    qlat,
                ),
                g as usize,
            ),
    )
}

/// The first position of the platform with the given identifier, or -1.
pub open spec fn platform_by_id(fm: FeedModel, id: Seq<char>) -> int {
    first_platform_index(fm.platforms, id)
}

/// The first position of the given identifier among the platforms, or -1.
pub open spec fn first_platform_index(platforms: Seq<Platform>, id: Seq<char>) -> int
    decreases platforms.len(),
{
    if platforms.len() == 0 {
        -1
    } else if platforms[0].id@ == id {
        0
    } else {
        let r = first_platform_index(platforms.drop_first(), id);
        if r == -1 {
            -1
        } else {
            r + 1
        }
    }
}

/// What `first_platform_index` returns: -1 exactly when no platform has
/// the identifier, else the first position holding it.
pub proof fn lemma_first_platform_index(platforms: Seq<Platform>, id: Seq<char>)
    ensures
        first_platform_index(platforms, id) == -1 <==> (forall|k: int|
            0 <= k < platforms.len() ==> (#[trigger] platforms[k]).id@ != id),
        first_platform_index(platforms, id) != -1 ==> {
            &&& 0 <= first_platform_index(platforms, id) < platforms.len()
            &&& platforms[first_platform_index(platforms, id)].id@ == id
            &&& forall|k: int|
                0 <= k < first_platform_index(platforms, id) ==> (#[trigger] platforms[k]).id@
                    != id
        },
    decreases platforms.len(),
{
    if platforms.len() > 0 && platforms[0].id@ != id {
        let d = platforms.drop_first();
        lemma_first_platform_index(d, id);
        assert(forall|k: int| 0 <= k < d.len() ==> #[trigger] d[k] == platforms[k + 1]);
        let rd = first_platform_index(d, id);
        if rd == -1 {
            assert forall|k: int| 0 <= k < platforms.len() implies (#[trigger] platforms[k]).id@
                != id by {
                if k > 0 {
                    assert(d[k - 1].id@ != id);
                }
            }
        } else {
            assert(platforms[rd + 1].id@ == id);
            assert forall|k: int| 0 <= k < rd + 1 implies (#[trigger] platforms[k]).id@ != id by {
                if k > 0 {
                    assert(d[k - 1].id@ != id);
                }
            }
        }
    }
}

/// The first platform bearing the given identifier, if any.
pub(crate) fn find_platform(feed: &Feed, id: &str) -> (r: Option<usize>)
    ensures
        match r {
            Some(p) => p as int == platform_by_id(feed.model(), id@),
            None => platform_by_id(feed.model(), id@) == -1,
        },
{
    proof {
        assert(feed.model().platforms =~= feed.platforms@);
    }
    let mut p: usize = 0;
    while p < feed.platforms.len()
        invariant
            p <= feed.platforms.len(),
            feed.model().platforms == feed.platforms@,
            forall|k: int| 0 <= k < p ==> (#[trigger] feed.platforms@[k]).id@ != id@,
        decreases feed.platforms.len() - p,
    {
        if str_eq_string(id, &feed.platforms[p].id) {
            proof {
                lemma_first_platform_index(feed.platforms@, id@);
                let f = first_platform_index(feed.platforms@, id@);
                assert(f != -1);
                if f < p as int {
                    assert(feed.platforms@[f].id@ != id@);
                }
                if f > p as int {
                    assert(feed.platforms@[p as int].id@ != id@);
                }
            }
            return Some(p);
        }
        p = p + 1;
    }
    proof {
        lemma_first_platform_index(feed.platforms@, id@);
    }
    None
}

/// Copy one table entry.
fn copy_entry(entry: &Vec<DirectTrip>) -> (r: Vec<DirectTrip>)
    ensures
        r@ == entry@,
{
    let mut r: Vec<DirectTrip> = Vec::new();
    let mut k: usize = 0;
    while k < entry.len()
        invariant
            k <= entry.len(),
            r@ == entry@.take(k as int),
        decreases entry.len() - k,
    {
        r.push(entry[k]);
        k = k + 1;
        proof {
            assert(r@ =~= entry@.take(k as int));
        }
    }
    proof {
        assert(entry@.take(entry.len() as int) =~= entry@);
    }
    r
}

impl TransitIndex {
    /// The direct segments from one platform to another, by identifier:
    /// present exactly when both identifiers name platforms and some
    /// trip rides from the first to the second.
    pub fn get_direct_trips(&self, from_stop_id: &str, to_stop_id: &str) -> (r: Option<
        Vec<DirectTrip>,
    >)
        requires
            self.wf(),
        ensures
            match r {
                Some(v) => {
                    &&& platform_by_id(self.fm(), from_stop_id@) != -1
                    &&& platform_by_id(self.fm(), to_stop_id@) != -1
                    &&& v@ == pair_segments(
                        self.fm(),
                        platform_by_id(self.fm(), from_stop_id@),
                        platform_by_id(self.fm(), to_stop_id@),
                    )
                    &&& v@.len() > 0
                },
                None => platform_by_id(self.fm(), from_stop_id@) == -1 || platform_by_id(
                    self.fm(),
                    to_stop_id@,
                ) == -1 || pair_segments(
                    self.fm(),
                    platform_by_id(self.fm(), from_stop_id@),
                    platform_by_id(self.fm(), to_stop_id@),
                ).len() == 0,
            },
    {
        let f = match find_platform(&self.feed, from_stop_id) {
            Some(f) => f,
            None => {
                return None;
            },
        };
        let t = match find_platform(&self.feed, to_stop_id) {
            Some(t) => t,
            None => {
                return None;
            },
        };
        proof {
            lemma_first_platform_index(self.fm().platforms, from_stop_id@);
            lemma_first_platform_index(self.fm().platforms, to_stop_id@);
        }
        let entry = &self.direct_trips[f][t];
        if entry.len() == 0 {
            None
        } else {
            Some(copy_entry(entry))
        }
    }

    /// The passenger name of the platform with the given identifier.
    pub fn get_stop_name_from_id(&self, id: &str) -> (r: Option<String>)
        requires
            self.wf(),
        ensures
            match r {
                Some(n) => {
                    &&& platform_by_id(self.fm(), id@) != -1
                    &&& self.fm().platforms[platform_by_id(self.fm(), id@)].name is Some
                    &&& n@ == self.fm().platforms[platform_by_id(self.fm(), id@)].name.unwrap()@
                },
                None => platform_by_id(self.fm(), id@) == -1 || self.fm().platforms[platform_by_id(
                    self.fm(),
                    id@,
                )].name is None,
            },
    {
        match find_platform(&self.feed, id) {
            Some(p) => {
                proof {
                    lemma_first_platform_index(self.fm().platforms, id@);
                }
                match &self.feed.platforms[p].name {
                    Some(n) => Some(n.clone()),
                    None => None,
                }
            },
            None => None,
        }
    }

    /// The first `limit` groups in the order of the sorted ranking pairs.
    fn ranked_groups(&self, pairs: &Vec<(u64, usize)>, limit: usize) -> (r: Vec<StopPlatforms>)
        requires
            pairs@.len() == self.groups@.len(),
            forall|j: int| 0 <= j < pairs@.len() ==> (#[trigger] pairs@[j]).1 == j,
        ensures
            r@.len() == (if limit <= self.groups@.len() {
                limit as int
            } else {
                self.groups@.len() as int
            }),
            forall|k: int|
                0 <= k < r@.len() ==> (#[trigger] sort_pairs_seq(pairs@)[k]).1
                    < self.groups@.len(),
            forall|k: int|
                0 <= k < r@.len() ==> (#[trigger] r@[k]).stop_name == self.groups@[sort_pairs_seq(
                    pairs@,
                )[k].1 as int].stop_name,
            forall|k: int|
                0 <= k < r@.len() ==> (#[trigger] r@[k]).platforms@ == self.groups@[sort_pairs_seq(
                    pairs@,
                )[k].1 as int].platforms@,
    {
        broadcast use vstd::seq_lib::group_to_multiset_ensures;

        let sorted = sort_pairs(pairs);
        proof {
            lemma_sort_pairs_pointwise(pairs@);
        }
        let mut r: Vec<StopPlatforms> = Vec::new();
        let mut k: usize = 0;
        while k < sorted.len() && k < limit
            invariant
                sorted@ == sort_pairs_seq(pairs@),
                sorted@.len() == self.groups@.len(),
                sorted@.to_multiset() == pairs@.to_multiset(),
                pairs@.len() == self.groups@.len(),
                forall|j: int| 0 <= j < pairs@.len() ==> (#[trigger] pairs@[j]).1 == j,
                k <= sorted@.len(),
                k <= limit,
                r@.len() == k,
                forall|m: int|
                    0 <= m < k ==> (#[trigger] sort_pairs_seq(pairs@)[m]).1
                        < self.groups@.len(),
                forall|m: int|
                    0 <= m < k ==> (#[trigger] r@[m]).stop_name
                        == self.groups@[sort_pairs_seq(pairs@)[m].1 as int].stop_name,
                forall|m: int|
                    0 <= m < k ==> (#[trigger] r@[m]).platforms@
                        == self.groups@[sort_pairs_seq(pairs@)[m].1 as int].platforms@,
            decreases sorted.len() - k,
        {
            proof {
                broadcast use vstd::seq_lib::group_to_multiset_ensures;

                assert(sorted@.contains(sorted@[k as int]));
                assert(sorted@.to_multiset().contains(sorted@[k as int]));
                assert(pairs@.to_multiset().contains(sorted@[k as int]));
                assert(pairs@.contains(sorted@[k as int]));
                let j = choose|j: int|
                    0 <= j < pairs@.len() && #[trigger] pairs@[j] == sorted@[k as int];
                assert(pairs@[j].1 == j);
                assert(sort_pairs_seq(pairs@)[k as int].1 == j);
            }
            let g = sorted[k].1;
            r.push(self.groups[g].clone());
            proof {
                assert((r@[k as int]).stop_name == self.groups@[g as int].stop_name);
                assert(r@[k as int].platforms@ == self.groups@[g as int].platforms@);
                assert(sort_pairs_seq(pairs@)[k as int].1 == g);
            }
            k = k + 1;
        }
        r
    }

    /// All passenger stops, ranked by falling trigram similarity of
    /// their name to the query; ties keep the ascending name order.
    pub fn search_by_name(&self, query: &str) -> (r: Vec<StopPlatforms>)
        requires
            self.wf(),
        ensures
            r@.len() == self.groups@.len(),
            forall|k: int|
                0 <= k < r@.len() ==> {
                    let ranked = sort_pairs_seq(search_rank_pairs(self.fm(), query@));
                    &&& ranked[k].1 < self.groups@.len()
                    &&& (#[trigger] r@[k]).stop_name == self.groups@[ranked[k].1 as int].stop_name
                    &&& r@[k].platforms@ == self.groups@[ranked[k].1 as int].platforms@
                },
    {
        let ghost spec_pairs = search_rank_pairs(self.fm(), query@);
        let mut pairs: Vec<(u64, usize)> = Vec::new();
        let mut g: usize = 0;
        while g < self.groups.len()
            invariant
                self.wf(),
                g <= self.groups@.len(),
                spec_pairs == search_rank_pairs(self.fm(), query@),
                pairs@.len() == g,
                forall|j: int| 0 <= j < g ==> #[trigger] pairs@[j] == spec_pairs[j],
            decreases self.groups@.len() - g,
        {
            let key = similarity_key(self.groups[g].stop_name.as_str(), query);
            pairs.push(((u32::MAX - key) as u64, g));
            g = g + 1;
        }
        proof {
            assert(pairs@ =~= spec_pairs);
        }
        self.ranked_groups(&pairs, self.groups.len())
    }

    /// The `count` passenger stops nearest to the query point, nearest
    /// first; ties keep the ascending name order. A count of zero gives
    /// the empty result.
    pub fn find_nearest_stops(&self, longitude: &str, latitude: &str, count: usize) -> (r: Vec<
        StopPlatforms,
    >)
        requires
            self.wf(),
        ensures
            r@.len() == (if count <= self.groups@.len() {
                count as int
            } else {
                self.groups@.len() as int
            }),
            count == 0 ==> r@.len() == 0,
            forall|k: int|
                0 <= k < r@.len() ==> {
                    let ranked = sort_pairs_seq(
                        nearest_rank_pairs(self.fm(), longitude@, latitude@),
                    );
                    &&& ranked[k].1 < self.groups@.len()
                    &&& (#[trigger] r@[k]).stop_name == self.groups@[ranked[k].1 as int].stop_name
                    &&& r@[k].platforms@ == self.groups@[ranked[k].1 as int].platforms@
                },
    {
        proof {
            crate::feed::lemma_model_bounded(self.feed);
            lemma_groups_members(self.fm());
        }
        let ghost spec_pairs = nearest_rank_pairs(self.fm(), longitude@, latitude@);
        let mut pairs: Vec<(u64, usize)> = Vec::new();
        let mut g: usize = 0;
        while g < self.groups.len()
            invariant
                self.wf(),
                g <= self.groups@.len(),
                spec_pairs == nearest_rank_pairs(self.fm(), longitude@, latitude@),
                forall|gg: int, a: int|
                    0 <= gg < names_model(self.fm().platforms).len() && 0 <= a < members_of(
                        self.fm().platforms,
                        names_model(self.fm().platforms)[gg]@,
                    ).len() ==> (#[trigger] members_of(
                        self.fm().platforms,
                        names_model(self.fm().platforms)[gg]@,
                    )[a]) < self.fm().platforms.len(),
                pairs@.len() == g,
                forall|j: int| 0 <= j < g ==> #[trigger] pairs@[j] == spec_pairs[j],
            decreases self.groups@.len() - g,
        {
            let key = self.groups[g].distance_to_location(&self.feed, longitude, latitude);
            pairs.push((key, g));
            g = g + 1;
        }
        proof {
            assert(pairs@ =~= spec_pairs);
        }
        self.ranked_groups(&pairs, count)
    }

    /// Build the index over a feed: group the platforms by name, build
    /// the direct-trip table and its graph view, and the distance table.
    pub fn new(feed: Feed) -> (r: TransitIndex)
        requires
            feed.wf(),
        ensures
            r.wf(),
            r.fm() == feed.model(),
    {
        let names = sorted_unique_names(&feed.platforms);
        proof {
            assert(feed.model().platforms =~= feed.platforms@);
        }
        let groups = build_groups(&feed, &names);
        let platform_groups = build_platform_groups(&feed, &names);
        let direct_trips = build_direct_trips(&feed);
        let distances = build_distances(&feed);
        let stops_graph = copy_table(&direct_trips);
        TransitIndex { feed, groups, platform_groups, direct_trips, distances, stops_graph }
    }
}

/// Every listed segment of the direct-trip table cuts its trip between
/// the first visit to the row's platform and a strictly later visit to
/// the column's platform.
pub proof fn lemma_direct_trips_oriented(idx: TransitIndex)
    requires
        idx.wf(),
    ensures
        forall|f: int, t: int, k: int|
            0 <= f < idx.fm().platforms.len() && 0 <= t < idx.fm().platforms.len() && 0 <= k
                < idx.direct_trips@[f]@[t]@.len() ==> {
                let s = #[trigger] idx.direct_trips@[f]@[t]@[k];
                &&& s.wf(idx.fm())
                &&& s.from_idx < s.to_idx
                &&& idx.fm().trips[s.trip as int].stop_times[s.from_idx as int].platform == f
                &&& idx.fm().trips[s.trip as int].stop_times[s.to_idx as int].platform == t
            },
{
    let fm = idx.fm();
    crate::feed::lemma_model_bounded(idx.feed);
    assert forall|f: int, t: int, k: int|
        0 <= f < fm.platforms.len() && 0 <= t < fm.platforms.len() && 0 <= k
            < idx.direct_trips@[f]@[t]@.len() implies {
        let s = #[trigger] idx.direct_trips@[f]@[t]@[k];
        &&& s.wf(fm)
        &&& s.from_idx < s.to_idx
        &&& fm.trips[s.trip as int].stop_times[s.from_idx as int].platform == f
        &&& fm.trips[s.trip as int].stop_times[s.to_idx as int].platform == t
    } by {
        assert(idx.direct_trips@[f]@[t]@ == pair_segments(fm, f, t));
        lemma_pair_segments_oriented(fm, f, t, fm.trips.len() as int);
    }
}

/// A name borne by some platform stands among the distinct names.
proof fn lemma_borne_name_listed(fm: FeedModel, p: int)
    requires
        fm.bounded(),
        0 <= p < fm.platforms.len(),
        fm.platforms[p].name is Some,
    ensures
        first_name_index(names_model(fm.platforms), fm.platforms[p].name.unwrap()@) != -1,
{
    broadcast use vstd::seq_lib::group_to_multiset_ensures;

    let w = fm.platforms[p].name.unwrap();
    lemma_platform_name_listed(fm.platforms, p);
    let an = all_names(fm.platforms);
    let sorted = sort_strings_seq(an);
    lemma_sort_strings_pointwise(an);
    lemma_dedup_sorted(sorted);
    let names = names_model(fm.platforms);
    let k = choose|k: int| 0 <= k < an.len() && #[trigger] an[k] == w;
    assert(an.contains(w));
    assert(an.to_multiset().contains(w));
    assert(sorted.to_multiset().contains(w));
    assert(sorted.contains(w));
    let j = choose|j: int| 0 <= j < sorted.len() && #[trigger] sorted[j] == w;
    assert(sorted[j]@ == w@);
    let i = choose|i: int| 0 <= i < names.len() && (sorted[j])@ == names[i]@;
    assert(names[i]@ == w@);
    lemma_first_name_index(names, w@);
}

/// Every named platform belongs to exactly one passenger stop, the one
/// holding its name, and the platform map points at it.
pub proof fn lemma_grouper_total(idx: TransitIndex)
    requires
        idx.wf(),
    ensures
        forall|p: int|
            0 <= p < idx.fm().platforms.len() && (#[trigger] idx.fm().platforms[p]).name is Some
                ==> {
                let g = group_of_platform(idx.fm(), p);
                &&& g is Some
                &&& (g.unwrap() as int) < idx.groups@.len()
                &&& idx.platform_groups@[p] == g
                &&& idx.groups@[g.unwrap() as int].platforms@.contains(p as usize)
                &&& forall|g2: int|
                    0 <= g2 < idx.groups@.len() && g2 != g.unwrap() as int ==> !(
                    #[trigger] idx.groups@[g2]).platforms@.contains(p as usize)
            },
{
    let fm = idx.fm();
    crate::feed::lemma_model_bounded(idx.feed);
    let names = names_model(fm.platforms);
    let an = all_names(fm.platforms);
    let sorted = sort_strings_seq(an);
    lemma_sort_strings_pointwise(an);
    lemma_dedup_sorted(sorted);
    assert forall|p: int|
        0 <= p < fm.platforms.len() && (#[trigger] fm.platforms[p]).name is Some implies {
        let g = group_of_platform(fm, p);
        &&& g is Some
        &&& (g.unwrap() as int) < idx.groups@.len()
        &&& idx.platform_groups@[p] == g
        &&& idx.groups@[g.unwrap() as int].platforms@.contains(p as usize)
        &&& forall|g2: int|
            0 <= g2 < idx.groups@.len() && g2 != g.unwrap() as int ==> !(
            #[trigger] idx.groups@[g2]).platforms@.contains(p as usize)
    } by {
        let w = fm.platforms[p].name.unwrap();
        lemma_borne_name_listed(fm, p);
        lemma_first_name_index(names, w@);
        let gi = first_name_index(names, w@);
        assert(names[gi]@ == w@);
        assert(idx.groups@.len() == idx.groups.len());
        assert(idx.groups@.len() == names.len());
        assert(0 <= gi < names.len());
        assert(gi as usize as int == gi);
        assert(group_of_platform(fm, p) == Some(gi as usize));
        lemma_members_complete(fm.platforms, p);
        assert(idx.groups@[gi].platforms@ == members_of(fm.platforms, names[gi]@));
        assert(members_of(fm.platforms, w@).contains(p as usize));
        assert forall|g2: int|
            0 <= g2 < idx.groups@.len() && g2 != gi implies !(
        #[trigger] idx.groups@[g2]).platforms@.contains(p as usize) by {
            lemma_members_sound(fm.platforms, names[g2]@);
            if idx.groups@[g2].platforms@.contains(p as usize) {
                let a = choose|a: int|
                    0 <= a < members_of(fm.platforms, names[g2]@).len() && #[trigger] members_of(
                        fm.platforms,
                        names[g2]@,
                    )[a] == p as usize;
                assert(fm.platforms[p].name.unwrap()@ == names[g2]@);
                assert(names[g2]@ != names[gi]@);
                assert(false);
            }
        }
    }
}

/// The distance table is symmetric and total off the diagonal, and
/// empty on the diagonal.
pub proof fn lemma_distances_symmetric(idx: TransitIndex)
    requires
        idx.wf(),
    ensures
        forall|a: int, b: int|
            0 <= a < idx.fm().platforms.len() && 0 <= b < idx.fm().platforms.len() && a != b
                ==> #[trigger] idx.distances@[a]@[b] == idx.distances@[b]@[a]
                && idx.distances@[a]@[b] is Some,
        forall|a: int|
            0 <= a < idx.fm().platforms.len() ==> #[trigger] idx.distances@[a]@[a] is None,
{
    assert forall|a: int, b: int|
        0 <= a < idx.fm().platforms.len() && 0 <= b < idx.fm().platforms.len() && a != b
            implies #[trigger] idx.distances@[a]@[b] == idx.distances@[b]@[a]
            && idx.distances@[a]@[b] is Some by {
        assert(idx.distances@[a]@[b] == pair_distance(idx.fm(), a, b));
        assert(idx.distances@[b]@[a] == pair_distance(idx.fm(), b, a));
    }
}

/// The stops graph agrees with the direct-trip table element-wise.
pub proof fn lemma_graph_matches_table(idx: TransitIndex)
    requires
        idx.wf(),
    ensures
        idx.stops_graph@.len() == idx.direct_trips@.len(),
        forall|f: int, t: int|
            0 <= f < idx.fm().platforms.len() && 0 <= t < idx.fm().platforms.len()
                ==> #[trigger] idx.stops_graph@[f]@[t]@ == idx.direct_trips@[f]@[t]@,
{
}

/// Two indexes built over feeds with the same content carry the same
/// tables and answer every query alike.
pub proof fn lemma_rebuild_deterministic(i1: TransitIndex, i2: TransitIndex)
    requires
        i1.wf(),
        i2.wf(),
        i1.fm() == i2.fm(),
    ensures
        i1.groups@.len() == i2.groups@.len(),
        forall|g: int|
            0 <= g < i1.groups@.len() ==> (#[trigger] i1.groups@[g]).stop_name
                == i2.groups@[g].stop_name && i1.groups@[g].platforms@ == i2.groups@[g].platforms@,
        i1.platform_groups@ == i2.platform_groups@,
        forall|f: int, t: int|
            0 <= f < i1.fm().platforms.len() && 0 <= t < i1.fm().platforms.len()
                ==> #[trigger] i1.direct_trips@[f]@[t]@ == i2.direct_trips@[f]@[t]@,
        forall|a: int, b: int|
            0 <= a < i1.fm().platforms.len() && 0 <= b < i1.fm().platforms.len()
                ==> #[trigger] i1.distances@[a]@[b] == i2.distances@[a]@[b],
        forall|from_plats: Seq<usize>, to_plats: Seq<usize>, t: u32|
            #[trigger] crate::route_query::route_query(i1.fm(), from_plats, to_plats, t)
                == crate::route_query::route_query(i2.fm(), from_plats, to_plats, t),
{
    assert(i1.platform_groups@ =~= i2.platform_groups@);
}

/// A feed with a single platform yields an empty direct-trip table and
/// an empty distance table.
pub proof fn lemma_single_platform_empty(idx: TransitIndex)
    requires
        idx.wf(),
        idx.fm().platforms.len() == 1,
    ensures
        idx.direct_trips@.len() == 1,
        idx.direct_trips@[0]@.len() == 1,
        idx.direct_trips@[0]@[0]@.len() == 0,
        idx.distances@.len() == 1,
        idx.distances@[0]@.len() == 1,
        idx.distances@[0]@[0] is None,
{
    assert(idx.direct_trips@[0]@[0]@ == pair_segments(idx.fm(), 0, 0));
    assert(idx.distances@[0]@[0] == pair_distance(idx.fm(), 0, 0));
}

/// Every group reappears in a name search's ranking: the ranked pairs
/// are a permutation of one pair per group.
pub proof fn lemma_search_returns_all_groups(idx: TransitIndex, q: Seq<char>)
    requires
        idx.wf(),
    ensures
        forall|g: int|
            0 <= g < idx.groups@.len() ==> #[trigger] sort_pairs_seq(
                search_rank_pairs(idx.fm(), q),
            ).contains(search_rank_pairs(idx.fm(), q)[g]),
        forall|g: int|
            0 <= g < idx.groups@.len() ==> (#[trigger] search_rank_pairs(idx.fm(), q)[g]).1 == g,
{
    let pairs = search_rank_pairs(idx.fm(), q);
    lemma_sorted_positions_complete(pairs);
    assert(idx.groups@.len() == idx.groups.len());
    assert(pairs.len() == idx.groups@.len());
    assert forall|g: int| 0 <= g < idx.groups@.len() implies #[trigger] sort_pairs_seq(
        pairs,
    ).contains(pairs[g]) && pairs[g].1 == g by {
        assert(g as usize as int == g);
        assert(pairs[g] == pairs[g]);
    }
}

} // verus!
