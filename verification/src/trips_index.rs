//! An earlier trips index: the same direct-trip and distance tables
//! keyed by platform, a graph view, and a cost-first route search over
//! the graph, where the cost of a leg is its ride duration.
use vstd::prelude::*;
use crate::feed::{Feed, FeedModel};
use crate::segments;
use crate::segments::time_or_zero;
use crate::transit_index::{
    pair_segments,
    pair_distance,
    build_direct_trips,
    build_distances,
    platform_by_id,
    find_platform,
    lemma_first_platform_index,
    lemma_pair_segments_oriented,
};

verus! {

/// A direct segment of one trip, from its first visit of one platform
/// to a strictly later visit of another.
#[derive(Clone, Copy, PartialEq, Eq, Structural, Debug)]
pub struct DirectTrip {
    pub trip: usize,
    pub from_idx: usize,
    pub to_idx: usize,
}

/// The same slice, seen as a segment of the segments module.
pub open spec fn as_segment(s: DirectTrip) -> segments::DirectTrip {
    segments::DirectTrip { trip: s.trip, from_idx: s.from_idx, to_idx: s.to_idx }
}

/// A segment of the segments module, seen as a slice of this index.
pub open spec fn of_segment(s: segments::DirectTrip) -> DirectTrip {
    DirectTrip { trip: s.trip, from_idx: s.from_idx, to_idx: s.to_idx }
}

/// The ride duration used as the edge cost: the distance between the
/// arrival times at the slice's two ends, with a missing time read as
/// zero. Unlike the segment duration of the main index, which subtracts
/// the first stop's departure from the last stop's arrival, this cost
/// compares the two arrival times.
pub open spec fn ride_cost(fm: FeedModel, s: DirectTrip) -> u32 {
    let a = time_or_zero(fm.trips[s.trip as int].stop_times[s.from_idx as int].arrival_time);
    let b = time_or_zero(fm.trips[s.trip as int].stop_times[s.to_idx as int].arrival_time);
    if a <= b {
        (b - a) as u32
    } else {
        (a - b) as u32
    }
}

impl DirectTrip {
    pub open spec fn wf(self, fm: FeedModel) -> bool {
        as_segment(self).wf(fm)
    }

    /// The passenger names along the slice, in order, with an unnamed
    /// platform shown as the empty string.
    pub fn get_stop_names(&self, feed: &Feed) -> (r: Vec<String>)
        requires
            self.wf(feed.model()),
            feed.model().trips_wf(),
        ensures
            r@.len() == self.to_idx - self.from_idx + 1,
            forall|k: int|
                0 <= k < r@.len() ==> (#[trigger] r@[k])@ == segments::stop_name_at(
                    feed.model(),
                    as_segment(*self),
                    k,
                ),
    {
        let seg = segments::DirectTrip {
            trip: self.trip,
            from_idx: self.from_idx,
            to_idx: self.to_idx,
        };
        seg.get_stop_names(feed)
    }

    /// The edge cost of the slice: the distance between its two arrival
    /// times, not the departure-to-arrival span of the main index.
    pub fn get_duration(&self, feed: &Feed) -> (r: u32)
        requires
            self.wf(feed.model()),
        ensures
            r == ride_cost(feed.model(), *self),
    {
        let a = match feed.trips[self.trip].stop_times[self.from_idx].arrival_time {
            Some(v) => v,
            None => 0,
        };
        let b = match feed.trips[self.trip].stop_times[self.to_idx].arrival_time {
            Some(v) => v,
            None => 0,
        };
        if a <= b {
            b - a
        } else {
            a - b
        }
    }

    /// The departure time at the slice's first stop, unreduced, with a
    /// missing time read as zero.
    pub fn raw_departure(&self, feed: &Feed) -> (r: u32)
        requires
            self.wf(feed.model()),
        ensures
            r == time_or_zero(
                feed.model().trips[self.trip as int].stop_times[self.from_idx
                    as int].departure_time,
            ),
    {
        match feed.trips[self.trip].stop_times[self.from_idx].departure_time {
            Some(v) => v,
            None => 0,
        }
    }
}

/// The entry of the direct-trip table, in this index's segment type.
pub open spec fn pair_slices(fm: FeedModel, f: int, t: int) -> Seq<DirectTrip> {
    pair_segments(fm, f, t).map_values(|s: segments::DirectTrip| of_segment(s))
}

/// The earlier index: the direct-trip table and the distance table,
/// over an owned feed.
pub struct TripsIndex {
    pub feed: Feed,
    pub index: Vec<Vec<Vec<DirectTrip>>>,
    pub distances: Vec<Vec<Option<u64>>>,
}

impl TripsIndex {
    pub open spec fn fm(self) -> FeedModel {
        self.feed.model()
    }

    /// A fully built index.
    pub open spec fn wf(self) -> bool {
        &&& self.fm().wf()
        &&& self.index@.len() == self.fm().platforms.len()
        &&& forall|f: int|
            0 <= f < self.fm().platforms.len() ==> (#[trigger] self.index@[f])@.len()
                == self.fm().platforms.len()
        &&& forall|f: int, t: int|
            0 <= f < self.fm().platforms.len() && 0 <= t < self.fm().platforms.len() ==> ((
            #[trigger] self.index@[f]@[t])@ == pair_slices(self.fm(), f, t))
        &&& self.distances@.len() == self.fm().platforms.len()
        &&& forall|a: int|
            0 <= a < self.fm().platforms.len() ==> (#[trigger] self.distances@[a])@.len()
                == self.fm().platforms.len()
        &&& forall|a: int, b: int|
            0 <= a < self.fm().platforms.len() && 0 <= b < self.fm().platforms.len() ==> ((
            #[trigger] self.distances@[a]@[b]) == pair_distance(self.fm(), a, b))
    }

    /// Build the two tables over the feed.
    pub fn new(feed: Feed) -> (r: TripsIndex)
        requires
            feed.wf(),
        ensures
            r.wf(),
            r.fm() == feed.model(),
    {
        let table = build_direct_trips(&feed);
        let distances = build_distances(&feed);
        let mut index: Vec<Vec<Vec<DirectTrip>>> = Vec::new();
        let mut f: usize = 0;
        while f < table.len()
            invariant
                f <= table@.len(),
                table@.len() == feed.model().platforms.len(),
                forall|k: int|
                    0 <= k < table@.len() ==> (#[trigger] table@[k])@.len()
                        == feed.model().platforms.len(),
                forall|k: int, t: int|
                    0 <= k < table@.len() && 0 <= t < table@.len() ==> ((#[trigger] table@[k]@[t])@
                        == pair_segments(feed.model(), k, t)),
                index@.len() == f,
                forall|k: int|
                    0 <= k < f ==> (#[trigger] index@[k])@.len() == feed.model().platforms.len(),
                forall|k: int, t: int|
                    0 <= k < f && 0 <= t < table@.len() ==> ((#[trigger] index@[k]@[t])@
                        == pair_slices(feed.model(), k, t)),
            decreases table@.len() - f,
        {
            let mut row: Vec<Vec<DirectTrip>> = Vec::new();
            let mut t: usize = 0;
            while t < table[f].len()
                invariant
                    t <= table@[f as int]@.len(),
                    f < table@.len(),
                    table@.len() == feed.model().platforms.len(),
                    forall|k: int|
                        0 <= k < table@.len() ==> (#[trigger] table@[k])@.len()
                            == feed.model().platforms.len(),
                    forall|k: int, u: int|
                        0 <= k < table@.len() && 0 <= u < table@.len() ==> ((
                        #[trigger] table@[k]@[u])@ == pair_segments(feed.model(), k, u)),
                    row@.len() == t,
                    forall|u: int|
                        0 <= u < t ==> ((#[trigger] row@[u])@ == pair_slices(
                            feed.model(),
                            f as int,
                            u,
                        )),
                decreases table@[f as int]@.len() - t,
            {
                let mut entry: Vec<DirectTrip> = Vec::new();
                let mut k: usize = 0;
                while k < table[f][t].len()
                    invariant
                        k <= table@[f as int]@[t as int]@.len(),
                        f < table@.len(),
                        t < table@[f as int]@.len(),
                        entry@.len() == k,
                        forall|m: int|
                            0 <= m < k ==> #[trigger] entry@[m] == of_segment(
                                table@[f as int]@[t as int]@[m],
                            ),
                    decreases table@[f as int]@[t as int]@.len() - k,
                {
                    let s = table[f][t][k];
                    entry.push(DirectTrip { trip: s.trip, from_idx: s.from_idx, to_idx: s.to_idx });
                    k = k + 1;
                }
                proof {
                    assert(entry@ =~= pair_slices(feed.model(), f as int, t as int));
                }
                row.push(entry);
                t = t + 1;
            }
            index.push(row);
            f = f + 1;
        }
        TripsIndex { feed, index, distances }
    }

    /// The graph view: a copy of the direct-trip table.
    pub fn build_graph(&self) -> (r: Vec<Vec<Vec<DirectTrip>>>)
        requires
            self.wf(),
        ensures
            r@.len() == self.fm().platforms.len(),
            forall|f: int|
                0 <= f < r@.len() ==> (#[trigger] r@[f])@.len() == self.fm().platforms.len(),
            forall|f: int, t: int|
                0 <= f < r@.len() && 0 <= t < r@.len() ==> ((#[trigger] r@[f]@[t])@ == pair_slices(
                    self.fm(),
                    f,
                    t,
                )),
    {
        let mut r: Vec<Vec<Vec<DirectTrip>>> = Vec::new();
        let mut f: usize = 0;
        while f < self.index.len()
            invariant
                self.wf(),
                f <= self.index@.len(),
                r@.len() == f,
                forall|k: int|
                    0 <= k < f ==> (#[trigger] r@[k])@.len() == self.fm().platforms.len(),
                forall|k: int, t: int|
                    0 <= k < f && 0 <= t < self.fm().platforms.len() ==> ((#[trigger] r@[k]@[t])@
                        == pair_slices(self.fm(), k, t)),
            decreases self.index@.len() - f,
        {
            let mut row: Vec<Vec<DirectTrip>> = Vec::new();
            let mut t: usize = 0;
            while t < self.index[f].len()
                invariant
                    self.wf(),
                    f < self.index@.len(),
                    t <= self.index@[f as int]@.len(),
                    row@.len() == t,
                    forall|u: int|
                        0 <= u < t ==> ((#[trigger] row@[u])@ == pair_slices(
                            self.fm(),
                            f as int,
                            u,
                        )),
                decreases self.index@[f as int]@.len() - t,
            {
                let mut entry: Vec<DirectTrip> = Vec::new();
                let mut k: usize = 0;
                while k < self.index[f][t].len()
                    invariant
                        self.wf(),
                        f < self.index@.len(),
                        t < self.index@[f as int]@.len(),
                        k <= self.index@[f as int]@[t as int]@.len(),
                        entry@ == self.index@[f as int]@[t as int]@.take(k as int),
                    decreases self.index@[f as int]@[t as int]@.len() - k,
                {
                    entry.push(self.index[f][t][k]);
                    k = k + 1;
                    proof {
                        assert(entry@ =~= self.index@[f as int]@[t as int]@.take(k as int));
                    }
                }
                proof {
                    assert(self.index@[f as int]@[t as int]@.take(
                        self.index@[f as int]@[t as int]@.len() as int,
                    ) =~= self.index@[f as int]@[t as int]@);
                }
                row.push(entry);
                t = t + 1;
            }
            r.push(row);
            f = f + 1;
        }
        r
    }

    /// The direct slices from one platform to another, by identifier:
    /// present exactly when both identifiers name platforms and some
    /// trip rides from the first to the second.
    pub fn get_direct_trips(&self, from_stop_id: &str, to_stop_id: &str) -> (r: Option<
        &Vec<DirectTrip>,
    >)
        requires
            self.wf(),
        ensures
            match r {
                Some(v) => {
                    &&& platform_by_id(self.fm(), from_stop_id@) != -1
                    &&& platform_by_id(self.fm(), to_stop_id@) != -1
                    &&& v@ == pair_slices(
                        self.fm(),
                        platform_by_id(self.fm(), from_stop_id@),
                        platform_by_id(self.fm(), to_stop_id@),
                    )
                    &&& v@.len() > 0
                },
                None => platform_by_id(self.fm(), from_stop_id@) == -1 || platform_by_id(
                    self.fm(),
                    to_stop_id@,
                ) == -1 || pair_slices(
                    self.fm(),
                    platform_by_id(self.fm(), from_stop_id@),
                    platform_by_id(self.fm(), to_stop_id@),
                ).len() == 0,
            },
    {
        let f = match find_platform(&self.feed, from_stop_id) {
            Some(f) => f,
            None => {
                return None;
            },
        };
        let t = match find_platform(&self.feed, to_stop_id) {
            Some(t) => t,
            None => {
                return None;
            },
        };
        proof {
            lemma_first_platform_index(self.fm().platforms, from_stop_id@);
            lemma_first_platform_index(self.fm().platforms, to_stop_id@);
        }
        let entry = &self.index[f][t];
        if entry.len() == 0 {
            None
        } else {
            Some(entry)
        }
    }
}

/// One leg of a found route: the trip ridden, the two platform
/// identifiers, and its times as seconds since the epoch.
pub struct RouteSegment {
    pub trip_id: String,
    pub start_stop: String,
    pub end_stop: String,
    pub departure_time: u64,
    pub arrival_time: u64,
    pub duration: u32,
}

impl Clone for RouteSegment {
    fn clone(&self) -> (r: Self)
        ensures
            r == *self,
    {
        RouteSegment {
            trip_id: self.trip_id.clone(),
            start_stop: self.start_stop.clone(),
            end_stop: self.end_stop.clone(),
            departure_time: self.departure_time,
            arrival_time: self.arrival_time,
            duration: self.duration,
        }
    }
}

/// Copy a path element by element.
fn copy_path(v: &Vec<RouteSegment>) -> (r: Vec<RouteSegment>)
    ensures
        r@ == v@,
{
    let mut r: Vec<RouteSegment> = Vec::new();
    let mut i: usize = 0;
    while i < v.len()
        invariant
            i <= v@.len(),
            r@ == v@.take(i as int),
        decreases v@.len() - i,
    {
        r.push(v[i].clone());
        i = i + 1;
        proof {
            assert(r@ =~= v@.take(i as int));
        }
    }
    proof {
        assert(v@.take(v@.len() as int) =~= v@);
    }
    r
}

/// A leg rides a listed edge of the graph: its trip, platform
/// identifiers, departure and duration are those of a slice in the
/// direct-trip entry between two platforms of the feed.
pub open spec fn leg_rides_edge(
    fm: FeedModel,
    leg: RouteSegment,
    f: int,
    t: int,
    s: DirectTrip,
) -> bool {
    &&& leg.trip_id@ == fm.trips[s.trip as int].id
    &&& leg.start_stop@ == fm.platforms[f].id@
    &&& leg.end_stop@ == fm.platforms[t].id@
    &&& leg.departure_time == raw_departure_of(fm, s) as u64
    &&& leg.duration == ride_cost(fm, s)
}

/// A leg rides some listed edge of the graph.
pub open spec fn leg_rides_graph(fm: FeedModel, leg: RouteSegment) -> bool {
    exists|f: int, t: int, k: int|
        #![trigger pair_slices(fm, f, t)[k]]
        0 <= f < fm.platforms.len() && 0 <= t < fm.platforms.len() && 0 <= k < pair_slices(
            fm,
            f,
            t,
        ).len() && leg_rides_edge(fm, leg, f, t, pair_slices(fm, f, t)[k])
}

/// A chain of legs from the start platform to the given platform: each
/// leg rides a listed edge of the graph, begins where the one before it
/// ended, and arrives exactly its duration after it departs.
pub open spec fn path_linked(fm: FeedModel, path: Seq<RouteSegment>, start: int, pos: int) -> bool {
    if path.len() == 0 {
        pos == start
    } else {
        &&& path[0].start_stop@ == fm.platforms[start].id@
        &&& path[path.len() - 1].end_stop@ == fm.platforms[pos].id@
        &&& forall|i: int|
            0 <= i < path.len() - 1 ==> (#[trigger] path[i]).end_stop@ == path[i + 1].start_stop@
        &&& forall|i: int|
            0 <= i < path.len() ==> (#[trigger] path[i]).arrival_time == path[i].departure_time
                + path[i].duration
        &&& forall|i: int| 0 <= i < path.len() ==> leg_rides_graph(fm, #[trigger] path[i])
    }
}

/// The departure of a slice, unreduced, with a missing time read zero.
pub open spec fn raw_departure_of(fm: FeedModel, s: DirectTrip) -> u32 {
    time_or_zero(fm.trips[s.trip as int].stop_times[s.from_idx as int].departure_time)
}

/// The sum of the tentative costs; the search's termination measure
/// falls with every strict improvement.
pub open spec fn sum_costs(s: Seq<u32>) -> nat
    decreases s.len(),
{
    if s.len() == 0 {
        0
    } else {
        sum_costs(s.drop_last()) + s.last() as nat
    }
}

proof fn lemma_sum_update(s: Seq<u32>, i: int, v: u32)
    requires
        0 <= i < s.len(),
    ensures
        sum_costs(s.update(i, v)) + s[i] == sum_costs(s) + v,
    decreases s.len(),
{
    let u = s.update(i, v);
    if i == s.len() - 1 {
        assert(u.drop_last() =~= s.drop_last());
        assert(u.last() == v);
    } else {
        assert(u.drop_last() =~= s.drop_last().update(i, v));
        assert(u.last() == s.last());
        lemma_sum_update(s.drop_last(), i, v);
    }
}

/// One leg of a found route, by content.
pub ghost struct LegModel {
    pub trip_id: Seq<char>,
    pub start_stop: Seq<char>,
    pub end_stop: Seq<char>,
    pub departure_time: u64,
    pub arrival_time: u64,
    pub duration: u32,
}

/// The content of one exec leg.
pub open spec fn leg_model(s: RouteSegment) -> LegModel {
    LegModel {
        trip_id: s.trip_id@,
        start_stop: s.start_stop@,
        end_stop: s.end_stop@,
        departure_time: s.departure_time,
        arrival_time: s.arrival_time,
        duration: s.duration,
    }
}

/// One frontier entry of the search: the accumulated cost, the platform
/// reached, the arrival time there, and the path ridden so far.
pub ghost struct FrontierEntry {
    pub cost: u32,
    pub position: usize,
    pub arrival: u64,
    pub path: Seq<LegModel>,
}

/// Whether the first entry is expanded before the second: strictly
/// cheaper, or equally cheap with a later arrival.
pub open spec fn expands_before(a: FrontierEntry, b: FrontierEntry) -> bool {
    a.cost < b.cost || (a.cost == b.cost && a.arrival > b.arrival)
}

/// The entry expanded next among the first `n`: the earliest best one.
pub open spec fn pick_upto(heap: Seq<FrontierEntry>, n: int) -> int
    decreases n,
{
    if n <= 1 {
        0
    } else {
        let prev = pick_upto(heap, n - 1);
        if expands_before(heap[n - 1], heap[prev]) {
            n - 1
        } else {
            prev
        }
    }
}

/// The entry expanded next.
pub open spec fn pick(heap: Seq<FrontierEntry>) -> int {
    pick_upto(heap, heap.len() as int)
}

pub proof fn lemma_pick_bounds(heap: Seq<FrontierEntry>, n: int)
    requires
        1 <= n,
    ensures
        0 <= pick_upto(heap, n) < n,
    decreases n,
{
    if n > 1 {
        lemma_pick_bounds(heap, n - 1);
    }
}

/// The leg ridden when taking slice `s` from `position` to `nb`.
pub open spec fn leg_of_edge(fm: FeedModel, position: usize, nb: usize, s: DirectTrip) -> LegModel {
    let dep = raw_departure_of(fm, s);
    LegModel {
        trip_id: fm.trips[s.trip as int].id,
        start_stop: fm.platforms[position as int].id@,
        end_stop: fm.platforms[nb as int].id@,
        departure_time: dep as u64,
        arrival_time: (dep + ride_cost(fm, s)) as u64,
        duration: ride_cost(fm, s),
    }
}

/// Try one edge: it is taken when it departs no earlier than the
/// entry's arrival, its accumulated cost fits the machine, and it
/// strictly improves the tentative cost of the platform it reaches.
pub open spec fn relax_edge(
    fm: FeedModel,
    e: FrontierEntry,
    nb: usize,
    s: DirectTrip,
    st: (Seq<FrontierEntry>, Seq<u32>),
) -> (Seq<FrontierEntry>, Seq<u32>) {
    let dep = raw_departure_of(fm, s);
    if dep as u64 >= e.arrival && e.cost <= u32::MAX - ride_cost(fm, s) && (e.cost + ride_cost(
        fm,
        s,
    )) < st.1[nb as int] {
        (
            st.0.push(
                FrontierEntry {
                    cost: (e.cost + ride_cost(fm, s)) as u32,
                    position: nb,
                    arrival: (dep + ride_cost(fm, s)) as u64,
                    path: e.path.push(leg_of_edge(fm, e.position, nb, s)),
                },
            ),
            st.1.update(nb as int, (e.cost + ride_cost(fm, s)) as u32),
        )
    } else {
        st
    }
}

/// The state after trying the first `n` edges towards platform `nb`.
pub open spec fn relax_edges_upto(
    fm: FeedModel,
    e: FrontierEntry,
    nb: usize,
    n: int,
    st: (Seq<FrontierEntry>, Seq<u32>),
) -> (Seq<FrontierEntry>, Seq<u32>)
    decreases n,
{
    if n <= 0 {
        st
    } else {
        relax_edge(
            fm,
            e,
            nb,
            pair_slices(fm, e.position as int, nb as int)[n - 1],
            relax_edges_upto(fm, e, nb, n - 1, st),
        )
    }
}

/// The state after trying every edge towards the first `n` platforms.
pub open spec fn relax_towards_upto(
    fm: FeedModel,
    e: FrontierEntry,
    n: int,
    st: (Seq<FrontierEntry>, Seq<u32>),
) -> (Seq<FrontierEntry>, Seq<u32>)
    decreases n,
{
    if n <= 0 {
        st
    } else {
        let st2 = relax_towards_upto(fm, e, n - 1, st);
        relax_edges_upto(
            fm,
            e,
            (n - 1) as usize,
            pair_slices(fm, e.position as int, n - 1).len() as int,
            st2,
        )
    }
}

/// Expanding an entry never raises the termination measure: every push
/// is paid for by a strict fall of some tentative cost.
proof fn lemma_relax_edges_metric(
    fm: FeedModel,
    e: FrontierEntry,
    nb: usize,
    n: int,
    st: (Seq<FrontierEntry>, Seq<u32>),
)
    requires
        (nb as int) < st.1.len(),
    ensures
        relax_edges_upto(fm, e, nb, n, st).1.len() == st.1.len(),
        relax_edges_upto(fm, e, nb, n, st).0.len() + sum_costs(relax_edges_upto(fm, e, nb, n, st).1)
            <= st.0.len() + sum_costs(st.1),
    decreases n,
{
    if n > 0 {
        lemma_relax_edges_metric(fm, e, nb, n - 1, st);
        let st2 = relax_edges_upto(fm, e, nb, n - 1, st);
        let s = pair_slices(fm, e.position as int, nb as int)[n - 1];
        let dep = raw_departure_of(fm, s);
        if dep as u64 >= e.arrival && e.cost <= u32::MAX - ride_cost(fm, s) && (e.cost + ride_cost(
            fm,
            s,
        )) < st2.1[nb as int] {
            lemma_sum_update(st2.1, nb as int, (e.cost + ride_cost(fm, s)) as u32);
        }
    }
}

pub proof fn lemma_relax_towards_metric(
    fm: FeedModel,
    e: FrontierEntry,
    n: int,
    st: (Seq<FrontierEntry>, Seq<u32>),
)
    requires
        st.1.len() == fm.platforms.len(),
        fm.platforms.len() <= usize::MAX,
        n <= fm.platforms.len(),
    ensures
        relax_towards_upto(fm, e, n, st).1.len() == st.1.len(),
        relax_towards_upto(fm, e, n, st).0.len() + sum_costs(relax_towards_upto(fm, e, n, st).1)
            <= st.0.len() + sum_costs(st.1),
    decreases n,
{
    if n > 0 {
        lemma_relax_towards_metric(fm, e, n - 1, st);
        let st2 = relax_towards_upto(fm, e, n - 1, st);
        assert((n - 1) as usize as int == n - 1);
        lemma_relax_edges_metric(
            fm,
            e,
            (n - 1) as usize,
            pair_slices(fm, e.position as int, n - 1).len() as int,
            st2,
        );
    }
}

/// The whole search from a frontier and tentative costs: expand the
/// chosen entry over every platform, until an entry stands on the
/// destination or the frontier is exhausted.
pub open spec fn search_from(
    fm: FeedModel,
    end: usize,
    heap: Seq<FrontierEntry>,
    dist: Seq<u32>,
) -> Option<Seq<LegModel>>
    decreases heap.len() + sum_costs(dist),
        when dist.len() == fm.platforms.len() && fm.platforms.len() <= usize::MAX
{
    if heap.len() == 0 {
        None
    } else {
        let bi = pick(heap);
        let e = heap[bi];
        if e.position == end {
            Some(e.path)
        } else {
            proof {
                lemma_pick_bounds(heap, heap.len() as int);
                lemma_relax_towards_metric(
                    fm,
                    e,
                    fm.platforms.len() as int,
                    (heap.remove(pick(heap)), dist),
                );
            }
            let st = relax_towards_upto(fm, e, fm.platforms.len() as int, (heap.remove(bi), dist));
            search_from(fm, end, st.0, st.1)
        }
    }
}

/// The frontier the search starts from: the start platform alone, at
/// no cost, with the queried departure time and an empty path.
pub open spec fn initial_frontier(start: usize, t: u64) -> Seq<FrontierEntry> {
    seq![FrontierEntry { cost: 0u32, position: start, arrival: t, path: Seq::empty() }]
}

/// The tentative costs the search starts from: zero at the start
/// platform, unreachable everywhere else.
pub open spec fn initial_costs(fm: FeedModel, start: usize) -> Seq<u32> {
    Seq::new(
        fm.platforms.len(),
        |i: int|
            if i == start {
                0u32
            } else {
                u32::MAX
            },
    )
}

/// The content of a found route.
pub open spec fn found_model(r: Option<Vec<RouteSegment>>) -> Option<Seq<LegModel>> {
    match r {
        Some(p) => Some(p@.map_values(|s: RouteSegment| leg_model(s))),
        None => None,
    }
}

/// The exec frontier, by content.
pub open spec fn frontier_model(h: Seq<(u32, usize, u64, Vec<RouteSegment>)>) -> Seq<
    FrontierEntry,
> {
    h.map_values(
        |e: (u32, usize, u64, Vec<RouteSegment>)|
            FrontierEntry {
                cost: e.0,
                position: e.1,
                arrival: e.2,
                path: e.3@.map_values(|s: RouteSegment| leg_model(s)),
            },
    )
}

/// A cost-first route search over the graph view, pinned to the search
/// written out above: legs are ordered by accumulated ride duration, a
/// leg is taken only when it departs no earlier than the current
/// arrival and strictly improves the tentative cost, and the first
/// expanded entry standing on the destination yields its path. Among
/// equally cheap frontier entries the one with the latest arrival is
/// expanded, the earliest pushed first.
#[verifier::loop_isolation(false)]
#[verifier::rlimit(100)]
pub fn find_route(
    feed: &Feed,
    graph: &Vec<Vec<Vec<DirectTrip>>>,
    start_stop: usize,
    end_stop: usize,
    start_time: u64,
) -> (r: Option<Vec<RouteSegment>>)
    requires
        feed.wf(),
        graph@.len() == feed.model().platforms.len(),
        forall|f: int|
            0 <= f < graph@.len() ==> (#[trigger] graph@[f])@.len()
                == feed.model().platforms.len(),
        forall|f: int, t: int|
            0 <= f < graph@.len() && 0 <= t < graph@.len() ==> ((#[trigger] graph@[f]@[t])@
                == pair_slices(feed.model(), f, t)),
        start_stop < feed.model().platforms.len(),
        end_stop < feed.model().platforms.len(),
    ensures
        found_model(r) == search_from(
            feed.model(),
            end_stop,
            initial_frontier(start_stop, start_time),
            initial_costs(feed.model(), start_stop),
        ),
        match r {
            Some(path) => path_linked(feed.model(), path@, start_stop as int, end_stop as int),
            None => true,
        },
{
    let ghost fm = feed.model();
    proof {
        crate::feed::lemma_model_bounded(*feed);
        assert(fm.platforms.len() == feed.platforms@.len());
        assert(fm.trips.len() == feed.trips@.len());
    }
    let pcount = feed.platforms.len();
    let mut dist: Vec<u32> = Vec::new();
    let mut i: usize = 0;
    while i < pcount
        invariant
            i <= pcount,
            dist@.len() == i,
            forall|j: int| 0 <= j < i ==> #[trigger] dist@[j] == initial_costs(fm, start_stop)[j],
        decreases pcount - i,
    {
        if i == start_stop {
            dist.push(0);
        } else {
            dist.push(u32::MAX);
        }
        i = i + 1;
    }
    proof {
        assert(dist@ =~= initial_costs(fm, start_stop));
    }
    let mut heap: Vec<(u32, usize, u64, Vec<RouteSegment>)> = Vec::new();
    let empty_path: Vec<RouteSegment> = Vec::new();
    heap.push((0, start_stop, start_time, empty_path));
    proof {
        assert(frontier_model(heap@) =~= initial_frontier(start_stop, start_time)) by {
            assert(frontier_model(heap@)[0].path =~= Seq::<LegModel>::empty());
        }
    }
    let ghost target = search_from(
        fm,
        end_stop,
        initial_frontier(start_stop, start_time),
        initial_costs(fm, start_stop),
    );
    while heap.len() > 0
        invariant
            dist@.len() == pcount,
            forall|m: int|
                0 <= m < heap@.len() ==> {
                    let e = #[trigger] heap@[m];
                    &&& e.1 < pcount
                    &&& path_linked(fm, e.3@, start_stop as int, e.1 as int)
                },
            search_from(fm, end_stop, frontier_model(heap@), dist@) == target,
        decreases heap@.len() + sum_costs(dist@),
    {
        let ghost hm0 = frontier_model(heap@);
        let ghost d0 = dist@;
        // expand the cheapest entry; on equal cost the latest arrival
        let mut bi: usize = 0;
        let mut k: usize = 1;
        while k < heap.len()
            invariant
                heap@.len() > 0,
                bi < heap@.len(),
                k <= heap@.len(),
                hm0 == frontier_model(heap@),
                bi as int == pick_upto(hm0, k as int),
            decreases heap@.len() - k,
        {
            let better = heap[k].0 < heap[bi].0 || (heap[k].0 == heap[bi].0 && heap[k].2
                > heap[bi].2);
            proof {
                assert(hm0[k as int].cost == heap@[k as int].0);
                assert(hm0[bi as int].cost == heap@[bi as int].0);
                assert(hm0[k as int].arrival == heap@[k as int].2);
                assert(hm0[bi as int].arrival == heap@[bi as int].2);
            }
            if better {
                bi = k;
            }
            k = k + 1;
        }
        proof {
            assert(bi as int == pick(hm0));
        }
        let ghost heap_before = heap@;
        let entry = heap.remove(bi);
        proof {
            assert(entry == heap_before[bi as int]);
            assert(heap@ =~= heap_before.remove(bi as int));
            assert(frontier_model(heap@) =~= hm0.remove(bi as int)) by {
                assert forall|m: int| 0 <= m < heap@.len() implies frontier_model(heap@)[m]
                    == hm0.remove(bi as int)[m] by {
                    if m < bi as int {
                        assert(heap@[m] == heap_before[m]);
                        assert(hm0.remove(bi as int)[m] == hm0[m]);
                    } else {
                        assert(heap@[m] == heap_before[m + 1]);
                        assert(hm0.remove(bi as int)[m] == hm0[m + 1]);
                    }
                }
            }
            assert forall|m: int| 0 <= m < heap@.len() implies {
                let e = #[trigger] heap@[m];
                &&& e.1 < pcount
                &&& path_linked(fm, e.3@, start_stop as int, e.1 as int)
            } by {
                if m < bi as int {
                    assert(heap@[m] == heap_before[m]);
                } else {
                    assert(heap@[m] == heap_before[m + 1]);
                }
            }
        }
        let (cost, position, arrival_time, path) = entry;
        let ghost e_model = hm0[bi as int];
        proof {
            assert(e_model.cost == cost && e_model.position == position && e_model.arrival
                == arrival_time);
            assert(e_model.path == path@.map_values(|s: RouteSegment| leg_model(s)));
        }
        if position == end_stop {
            proof {
                assert(search_from(fm, end_stop, hm0, d0) == Some(e_model.path));
            }
            return Some(path);
        }
        let ghost st0 = (hm0.remove(bi as int), d0);
        let ghost metric_mid = heap@.len() + sum_costs(dist@);
        let mut nb: usize = 0;
        while nb < pcount
            invariant
                nb <= pcount,
                dist@.len() == pcount,
                heap@.len() + sum_costs(dist@) <= metric_mid,
                forall|m: int|
                    0 <= m < heap@.len() ==> {
                        let e = #[trigger] heap@[m];
                        &&& e.1 < pcount
                        &&& path_linked(fm, e.3@, start_stop as int, e.1 as int)
                    },
                frontier_model(heap@) == relax_towards_upto(fm, e_model, nb as int, st0).0,
                dist@ == relax_towards_upto(fm, e_model, nb as int, st0).1,
            decreases pcount - nb,
        {
            proof {
                lemma_pair_segments_oriented(fm, position as int, nb as int, fm.trips.len() as int);
            }
            let ghost st_nb = relax_towards_upto(fm, e_model, nb as int, st0);
            let mut ei: usize = 0;
            while ei < graph[position][nb].len()
                invariant
                    dist@.len() == pcount,
                    heap@.len() + sum_costs(dist@) <= metric_mid,
                    ei <= graph@[position as int]@[nb as int]@.len(),
                    forall|m: int|
                        0 <= m < heap@.len() ==> {
                            let e = #[trigger] heap@[m];
                            &&& e.1 < pcount
                            &&& path_linked(fm, e.3@, start_stop as int, e.1 as int)
                        },
                    frontier_model(heap@) == relax_edges_upto(fm, e_model, nb, ei as int, st_nb).0,
                    dist@ == relax_edges_upto(fm, e_model, nb, ei as int, st_nb).1,
                decreases graph@[position as int]@[nb as int]@.len() - ei,
            {
                let trip = graph[position][nb][ei];
                let ghost s_edge = pair_slices(fm, position as int, nb as int)[ei as int];
                proof {
                    assert(graph@[position as int]@[nb as int]@[ei as int] == of_segment(
                        pair_segments(fm, position as int, nb as int)[ei as int],
                    ));
                    assert(trip == s_edge);
                    assert(as_segment(trip) == pair_segments(
                        fm,
                        position as int,
                        nb as int,
                    )[ei as int]);
                }
                let ghost pre_state = relax_edges_upto(fm, e_model, nb, ei as int, st_nb);
                let trip_start_time = trip.raw_departure(feed) as u64;
                let mut took: bool = false;
                if trip_start_time >= arrival_time {
                    let travel_time = trip.get_duration(feed);
                    if cost <= u32::MAX - travel_time {
                        let new_cost = cost + travel_time;
                        let new_arrival = trip_start_time + travel_time as u64;
                        if new_cost < dist[nb] {
                            took = true;
                            let mut new_path = copy_path(&path);
                            let seg = RouteSegment {
                                trip_id: feed.trips[trip.trip].id.clone(),
                                start_stop: feed.platforms[position].id.clone(),
                                end_stop: feed.platforms[nb].id.clone(),
                                departure_time: trip_start_time,
                                arrival_time: new_arrival,
                                duration: travel_time,
                            };
                            new_path.push(seg);
                            proof {
                                assert(fm.platforms[position as int] == feed.platforms@[position
                                    as int]);
                                assert(fm.platforms[nb as int] == feed.platforms@[nb as int]);
                                assert(fm.trips[trip.trip as int] == feed.trips@[trip.trip
                                    as int].model());
                                assert(leg_rides_edge(
                                    fm,
                                    seg,
                                    position as int,
                                    nb as int,
                                    s_edge,
                                ));
                                assert(leg_rides_graph(fm, seg));
                                if path@.len() == 0 {
                                    assert(position == start_stop);
                                } else {
                                    assert(path@[path@.len() - 1].end_stop@
                                        == fm.platforms[position as int].id@);
                                }
                                assert(path_linked(fm, new_path@, start_stop as int, nb as int));
                            }
                            let ghost dist_before = dist@;
                            let old_cost = dist[nb];
                            dist[nb] = new_cost;
                            heap.push((new_cost, nb, new_arrival, new_path));
                            proof {
                                lemma_sum_update(dist_before, nb as int, new_cost);
                                assert(sum_costs(dist@) + old_cost == sum_costs(dist_before)
                                    + new_cost);
                                // the pushed entry is the one the search takes
                                let spec_leg = leg_of_edge(fm, e_model.position, nb, s_edge);
                                assert(leg_model(seg) == spec_leg);
                                assert(new_path@.map_values(|s: RouteSegment| leg_model(s))
                                    =~= e_model.path.push(spec_leg));
                                assert(frontier_model(heap@) =~= relax_edge(
                                    fm,
                                    e_model,
                                    nb,
                                    s_edge,
                                    pre_state,
                                ).0);
                                assert(dist@ =~= relax_edge(fm, e_model, nb, s_edge, pre_state).1);
                            }
                        }
                    }
                }
                proof {
                    if !took {
                        assert(relax_edge(fm, e_model, nb, s_edge, pre_state) == pre_state);
                    }
                    assert(frontier_model(heap@) == relax_edges_upto(
                        fm,
                        e_model,
                        nb,
                        ei as int + 1,
                        st_nb,
                    ).0);
                    assert(dist@ == relax_edges_upto(fm, e_model, nb, ei as int + 1, st_nb).1);
                }
                ei = ei + 1;
            }
            proof {
                assert(graph@[position as int]@[nb as int]@.len() == pair_slices(
                    fm,
                    position as int,
                    nb as int,
                ).len());
                assert(e_model.position == position);
                assert(relax_towards_upto(fm, e_model, nb as int + 1, st0)
                    == relax_edges_upto(
                    fm,
                    e_model,
                    nb,
                    pair_slices(fm, e_model.position as int, nb as int).len() as int,
                    st_nb,
                ));
                assert(frontier_model(heap@) == relax_towards_upto(
                    fm,
                    e_model,
                    nb as int + 1,
                    st0,
                ).0);
                assert(dist@ == relax_towards_upto(fm, e_model, nb as int + 1, st0).1);
            }
            nb = nb + 1;
        }
        proof {
            let st_final = relax_towards_upto(fm, e_model, pcount as int, st0);
            assert(frontier_model(heap@) == st_final.0 && dist@ == st_final.1);
            assert(search_from(fm, end_stop, hm0, d0) == search_from(
                fm,
                end_stop,
                st_final.0,
                st_final.1,
            ));
        }
    }
    proof {
        assert(search_from(fm, end_stop, frontier_model(heap@), dist@) == None::<Seq<LegModel>>);
    }
    None
}

} // verus!
