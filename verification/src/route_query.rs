//! The query engine: the earliest-arrival search over the direct-trip
//! table and the stops graph, with at most one transfer.
//!
//! The search enumerates ordered platform pairs of the two passenger
//! stops. For each pair it first takes the best time-feasible direct
//! segment, then every one-transfer combination through an intermediate
//! platform, keeping the route with the least real arrival time; on
//! ties the candidate seen first wins, so the result is pinned by the
//! scan order written out below.
use vstd::prelude::*;
use crate::feed::{Feed, FeedModel};
use crate::segments::{DirectTrip, seg_departure, seg_real_arrival};
use crate::transit_index::{TransitIndex, StopPlatforms, pair_segments, lemma_pair_segments_oriented};
use crate::util::local_seconds_of_day;

verus! {

/// The running state of the search: the best real arrival seen so far
/// and the route achieving it.
pub ghost struct SearchState {
    pub best_arrival: u32,
    pub route: Option<Seq<DirectTrip>>,
}

/// Before any candidate is seen: no route, unbeatable arrival bound.
pub open spec fn initial_state() -> SearchState {
    SearchState { best_arrival: u32::MAX, route: None }
}

/// The contents of a found route.
pub open spec fn route_view(r: Option<Vec<DirectTrip>>) -> Option<Seq<DirectTrip>> {
    match r {
        Some(v) => Some(v@),
        None => None,
    }
}

/// The exec search variables, seen as a search state.
pub open spec fn state_of(best_arrival: u32, best_route: Option<Vec<DirectTrip>>) -> SearchState {
    SearchState { best_arrival, route: route_view(best_route) }
}

/// The best direct segment among the first `n`: departing no earlier
/// than `t`, with the least real arrival; the earliest seen wins ties.
pub open spec fn best_direct_upto(fm: FeedModel, segs: Seq<DirectTrip>, t: u32, n: int) -> Option<
    DirectTrip,
>
    decreases n,
{
    if n <= 0 {
        None
    } else {
        let prev = best_direct_upto(fm, segs, t, n - 1);
        let s = segs[n - 1];
        if seg_departure(fm, s) >= t && (prev is None || seg_real_arrival(fm, s)
            < seg_real_arrival(fm, prev.unwrap())) {
            Some(s)
        } else {
            prev
        }
    }
}

/// Record the best direct segment if it beats the state.
pub open spec fn direct_step(fm: FeedModel, segs: Seq<DirectTrip>, t: u32, st: SearchState) -> SearchState {
    match best_direct_upto(fm, segs, t, segs.len() as int) {
        Some(s) => if seg_real_arrival(fm, s) < st.best_arrival {
            SearchState { best_arrival: seg_real_arrival(fm, s), route: Some(seq![s]) }
        } else {
            st
        },
        None => st,
    }
}

/// Record a two-leg route if the second leg departs no earlier than the
/// first leg's real arrival and beats the state.
pub open spec fn leg2_step(fm: FeedModel, s1: DirectTrip, s2: DirectTrip, st: SearchState) -> SearchState {
    if seg_departure(fm, s2) >= seg_real_arrival(fm, s1) && seg_real_arrival(fm, s2)
        < st.best_arrival {
        SearchState { best_arrival: seg_real_arrival(fm, s2), route: Some(seq![s1, s2]) }
    } else {
        st
    }
}

/// The state after trying the first `n` second-leg segments.
pub open spec fn scan_leg2_upto(
    fm: FeedModel,
    s1: DirectTrip,
    segs2: Seq<DirectTrip>,
    n: int,
    st: SearchState,
) -> SearchState
    decreases n,
{
    if n <= 0 {
        st
    } else {
        leg2_step(fm, s1, segs2[n - 1], scan_leg2_upto(fm, s1, segs2, n - 1, st))
    }
}

/// Try every second leg after a first leg that departs no earlier
/// than `t`; a first leg that departs too early is skipped whole.
pub open spec fn leg1_step(
    fm: FeedModel,
    s1: DirectTrip,
    segs2: Seq<DirectTrip>,
    t: u32,
    st: SearchState,
) -> SearchState {
    if seg_departure(fm, s1) >= t {
        scan_leg2_upto(fm, s1, segs2, segs2.len() as int, st)
    } else {
        st
    }
}

/// The state after trying the first `n` first-leg segments.
pub open spec fn scan_leg1_upto(
    fm: FeedModel,
    segs1: Seq<DirectTrip>,
    segs2: Seq<DirectTrip>,
    t: u32,
    n: int,
    st: SearchState,
) -> SearchState
    decreases n,
{
    if n <= 0 {
        st
    } else {
        leg1_step(fm, segs1[n - 1], segs2, t, scan_leg1_upto(fm, segs1, segs2, t, n - 1, st))
    }
}

/// Try one intermediate platform: both legs must exist in the tables.
pub open spec fn transfer_step(
    fm: FeedModel,
    fp: int,
    tp: int,
    x: int,
    t: u32,
    st: SearchState,
) -> SearchState {
    let segs1 = pair_segments(fm, fp, x);
    let segs2 = pair_segments(fm, x, tp);
    if segs1.len() > 0 && segs2.len() > 0 {
        scan_leg1_upto(fm, segs1, segs2, t, segs1.len() as int, st)
    } else {
        st
    }
}

/// The state after trying the first `n` intermediate platforms.
pub open spec fn scan_transfers_upto(
    fm: FeedModel,
    fp: int,
    tp: int,
    t: u32,
    n: int,
    st: SearchState,
) -> SearchState
    decreases n,
{
    if n <= 0 {
        st
    } else {
        transfer_step(fm, fp, tp, n - 1, t, scan_transfers_upto(fm, fp, tp, t, n - 1, st))
    }
}

/// One ordered platform pair: the direct candidate first, then every
/// transfer through every intermediate platform.
pub open spec fn pair_step(fm: FeedModel, fp: int, tp: int, t: u32, st: SearchState) -> SearchState {
    scan_transfers_upto(
        fm,
        fp,
        tp,
        t,
        fm.platforms.len() as int,
        direct_step(fm, pair_segments(fm, fp, tp), t, st),
    )
}

/// The state after pairing the start platform with the first `n`
/// destination platforms.
pub open spec fn scan_to_upto(
    fm: FeedModel,
    fp: int,
    to_plats: Seq<usize>,
    t: u32,
    n: int,
    st: SearchState,
) -> SearchState
    decreases n,
{
    if n <= 0 {
        st
    } else {
        pair_step(fm, fp, to_plats[n - 1] as int, t, scan_to_upto(fm, fp, to_plats, t, n - 1, st))
    }
}

/// The state after processing the first `n` start platforms.
pub open spec fn scan_from_upto(
    fm: FeedModel,
    from_plats: Seq<usize>,
    to_plats: Seq<usize>,
    t: u32,
    n: int,
    st: SearchState,
) -> SearchState
    decreases n,
{
    if n <= 0 {
        st
    } else {
        scan_to_upto(
            fm,
            from_plats[n - 1] as int,
            to_plats,
            t,
            to_plats.len() as int,
            scan_from_upto(fm, from_plats, to_plats, t, n - 1, st),
        )
    }
}

/// The route found for a query: the whole scan, started empty-handed.
pub open spec fn route_query(
    fm: FeedModel,
    from_plats: Seq<usize>,
    to_plats: Seq<usize>,
    t: u32,
) -> Option<Seq<DirectTrip>> {
    scan_from_upto(fm, from_plats, to_plats, t, from_plats.len() as int, initial_state()).route
}

/// The best direct segment: departing no earlier than `t`, with the
/// least real arrival; the earliest seen wins ties.
fn best_direct_exec(feed: &Feed, segs: &Vec<DirectTrip>, t: u32) -> (r: Option<DirectTrip>)
    requires
        forall|k: int| 0 <= k < segs@.len() ==> (#[trigger] segs@[k]).wf(feed.model()),
    ensures
        r == best_direct_upto(feed.model(), segs@, t, segs@.len() as int),
        r is Some ==> r.unwrap().wf(feed.model()),
{
    let mut best: Option<DirectTrip> = None;
    let mut k: usize = 0;
    while k < segs.len()
        invariant
            k <= segs@.len(),
            forall|m: int| 0 <= m < segs@.len() ==> (#[trigger] segs@[m]).wf(feed.model()),
            best == best_direct_upto(feed.model(), segs@, t, k as int),
            best is Some ==> best.unwrap().wf(feed.model()),
        decreases segs@.len() - k,
    {
        let s = segs[k];
        let dep = s.get_departure_time(feed);
        if dep >= t {
            let better = match &best {
                Some(b) => s.get_real_arrival_time(feed) < b.get_real_arrival_time(feed),
                None => true,
            };
            if better {
                best = Some(s);
            }
        }
        k = k + 1;
    }
    best
}

impl TransitIndex {
    /// The earliest-arrival route departing no earlier than the given
    /// time of day: no segments, one direct segment, or two segments
    /// joined at one platform, exactly as the scan order finds it.
    #[verifier::loop_isolation(false)]
    #[verifier::rlimit(100)]
    pub fn find_route_at(
        &self,
        start_platforms: &StopPlatforms,
        end_platforms: &StopPlatforms,
        start_time: u32,
    ) -> (r: Option<Vec<DirectTrip>>)
        requires
            self.wf(),
            start_platforms.in_feed(self.fm()),
            end_platforms.in_feed(self.fm()),
        ensures
            route_view(r) == route_query(
                self.fm(),
                start_platforms.platforms@,
                end_platforms.platforms@,
                start_time,
            ),
    {
        let ghost fm = self.fm();
        proof {
            crate::feed::lemma_model_bounded(self.feed);
            assert(fm.platforms.len() == self.feed.platforms@.len());
            assert(fm.trips.len() == self.feed.trips@.len());
        }
        let platform_count = self.feed.platforms.len();
        let mut best_arrival: u32 = u32::MAX;
        let mut best_route: Option<Vec<DirectTrip>> = None;
        let mut i: usize = 0;
        while i < start_platforms.platforms.len()
            invariant
                i <= start_platforms.platforms@.len(),
                state_of(best_arrival, best_route) == scan_from_upto(
                    fm,
                    start_platforms.platforms@,
                    end_platforms.platforms@,
                    start_time,
                    i as int,
                    initial_state(),
                ),
            decreases start_platforms.platforms@.len() - i,
        {
            let fp = start_platforms.platforms[i];
            let ghost st_i = scan_from_upto(
                fm,
                start_platforms.platforms@,
                end_platforms.platforms@,
                start_time,
                i as int,
                initial_state(),
            );
            let mut j: usize = 0;
            while j < end_platforms.platforms.len()
                invariant
                    j <= end_platforms.platforms@.len(),
                    state_of(best_arrival, best_route) == scan_to_upto(
                        fm,
                        fp as int,
                        end_platforms.platforms@,
                        start_time,
                        j as int,
                        st_i,
                    ),
                decreases end_platforms.platforms@.len() - j,
            {
                let tp = end_platforms.platforms[j];
                let ghost st_ij = scan_to_upto(
                    fm,
                    fp as int,
                    end_platforms.platforms@,
                    start_time,
                    j as int,
                    st_i,
                );
                proof {
                    lemma_pair_segments_oriented(fm, fp as int, tp as int, fm.trips.len() as int);
                }
                let segs_ft = &self.direct_trips[fp][tp];
                let bd = best_direct_exec(&self.feed, segs_ft, start_time);
                match bd {
                    Some(s) => {
                        let ra = s.get_real_arrival_time(&self.feed);
                        if ra < best_arrival {
                            best_arrival = ra;
                            let mut route: Vec<DirectTrip> = Vec::new();
                            route.push(s);
                            best_route = Some(route);
                            proof {
                                assert(route_view(best_route) == Some(seq![s]));
                            }
                        }
                    },
                    None => (),
                }
                proof {
                    assert(state_of(best_arrival, best_route) == direct_step(
                        fm,
                        pair_segments(fm, fp as int, tp as int),
                        start_time,
                        st_ij,
                    ));
                }
                let ghost st_d = direct_step(
                    fm,
                    pair_segments(fm, fp as int, tp as int),
                    start_time,
                    st_ij,
                );
                let mut x: usize = 0;
                while x < platform_count
                    invariant
                        x <= platform_count,
                        state_of(best_arrival, best_route) == scan_transfers_upto(
                            fm,
                            fp as int,
                            tp as int,
                            start_time,
                            x as int,
                            st_d,
                        ),
                    decreases platform_count - x,
                {
                    let has_leg1 = self.stops_graph[fp][x].len() > 0;
                    let has_leg2 = self.stops_graph[x][tp].len() > 0;
                    if has_leg1 && has_leg2 {
                        let segs1 = &self.stops_graph[fp][x];
                        let segs2 = &self.stops_graph[x][tp];
                        proof {
                            lemma_pair_segments_oriented(
                                fm,
                                fp as int,
                                x as int,
                                fm.trips.len() as int,
                            );
                            lemma_pair_segments_oriented(
                                fm,
                                x as int,
                                tp as int,
                                fm.trips.len() as int,
                            );
                        }
                        let ghost st_x = scan_transfers_upto(
                            fm,
                            fp as int,
                            tp as int,
                            start_time,
                            x as int,
                            st_d,
                        );
                        let mut a: usize = 0;
                        while a < segs1.len()
                            invariant
                                a <= segs1@.len(),
                                segs1@ == pair_segments(fm, fp as int, x as int),
                                segs2@ == pair_segments(fm, x as int, tp as int),
                                forall|m: int|
                                    0 <= m < segs1@.len() ==> (#[trigger] segs1@[m]).wf(fm),
                                forall|m: int|
                                    0 <= m < segs2@.len() ==> (#[trigger] segs2@[m]).wf(fm),
                                state_of(best_arrival, best_route) == scan_leg1_upto(
                                    fm,
                                    segs1@,
                                    segs2@,
                                    start_time,
                                    a as int,
                                    st_x,
                                ),
                            decreases segs1@.len() - a,
                        {
                            let s1 = segs1[a];
                            let dep1 = s1.get_departure_time(&self.feed);
                            if dep1 >= start_time {
                                let ghost st_a = scan_leg1_upto(
                                    fm,
                                    segs1@,
                                    segs2@,
                                    start_time,
                                    a as int,
                                    st_x,
                                );
                                let ra1 = s1.get_real_arrival_time(&self.feed);
                                let mut b: usize = 0;
                                while b < segs2.len()
                                    invariant
                                        b <= segs2@.len(),
                                        state_of(best_arrival, best_route) == scan_leg2_upto(
                                            fm,
                                            s1,
                                            segs2@,
                                            b as int,
                                            st_a,
                                        ),
                                    decreases segs2@.len() - b,
                                {
                                    let s2 = segs2[b];
                                    let dep2 = s2.get_departure_time(&self.feed);
                                    if dep2 >= ra1 {
                                        let ra2 = s2.get_real_arrival_time(&self.feed);
                                        if ra2 < best_arrival {
                                            best_arrival = ra2;
                                            let mut route: Vec<DirectTrip> = Vec::new();
                                            route.push(s1);
                                            route.push(s2);
                                            best_route = Some(route);
                                            proof {
                                                assert(route_view(best_route) == Some(
                                                    seq![s1, s2],
                                                ));
                                            }
                                        }
                                    }
                                    b = b + 1;
                                }
                                proof {
                                    assert(state_of(best_arrival, best_route) == leg1_step(
                                        fm,
                                        s1,
                                        segs2@,
                                        start_time,
                                        st_a,
                                    ));
                                }
                            }
                            a = a + 1;
                        }
                        proof {
                            assert(state_of(best_arrival, best_route) == transfer_step(
                                fm,
                                fp as int,
                                tp as int,
                                x as int,
                                start_time,
                                st_x,
                            ));
                        }
                    } else {
                        proof {
                            assert(transfer_step(
                                fm,
                                fp as int,
                                tp as int,
                                x as int,
                                start_time,
                                scan_transfers_upto(
                                    fm,
                                    fp as int,
                                    tp as int,
                                    start_time,
                                    x as int,
                                    st_d,
                                ),
                            ) == scan_transfers_upto(
                                fm,
                                fp as int,
                                tp as int,
                                start_time,
                                x as int,
                                st_d,
                            ));
                        }
                    }
                    x = x + 1;
                }
                j = j + 1;
            }
            i = i + 1;
        }
        best_route
    }

    /// The earliest-arrival route, departing no earlier than the given
    /// time of day, or than the present local time when none is given.
    pub fn find_route(
        &self,
        start_platforms: &StopPlatforms,
        end_platforms: &StopPlatforms,
        start_time_opt: Option<u32>,
    ) -> (r: Option<Vec<DirectTrip>>)
        requires
            self.wf(),
            start_platforms.in_feed(self.fm()),
            end_platforms.in_feed(self.fm()),
        ensures
            match start_time_opt {
                Some(t) => route_view(r) == route_query(
                    self.fm(),
                    start_platforms.platforms@,
                    end_platforms.platforms@,
                    t,
                ),
                None => exists|t: u32|
                    t < 86400 && route_view(r) == #[trigger] route_query(
                        self.fm(),
                        start_platforms.platforms@,
                        end_platforms.platforms@,
                        t,
                    ),
            },
    {
        let start_time = match start_time_opt {
            Some(t) => t,
            None => local_seconds_of_day(),
        };
        let r = self.find_route_at(start_platforms, end_platforms, start_time);
        proof {
            assert(route_view(r) == route_query(
                self.fm(),
                start_platforms.platforms@,
                end_platforms.platforms@,
                start_time,
            ));
        }
        r
    }
}

/// The platform at a segment's first stop.
pub open spec fn seg_first_platform(fm: FeedModel, s: DirectTrip) -> int {
    fm.trips[s.trip as int].stop_times[s.from_idx as int].platform as int
}

/// The platform at a segment's last stop.
pub open spec fn seg_last_platform(fm: FeedModel, s: DirectTrip) -> int {
    fm.trips[s.trip as int].stop_times[s.to_idx as int].platform as int
}

/// What every reachable search state satisfies: a recorded route has
/// one or two legs; each leg stands in the direct-trip table entry of
/// its own end platforms; the first leg departs no earlier than the
/// queried time; a second leg departs from the first leg's last
/// platform, no earlier than its real arrival; and the recorded best
/// arrival is the last leg's real arrival.
pub open spec fn state_sound(fm: FeedModel, t: u32, st: SearchState) -> bool {
    match st.route {
        None => true,
        Some(r) => {
            &&& (r.len() == 1 || r.len() == 2)
            &&& pair_segments(fm, seg_first_platform(fm, r[0]), seg_last_platform(fm, r[0])).contains(r[0])
            &&& seg_departure(fm, r[0]) >= t
            &&& st.best_arrival == seg_real_arrival(fm, r.last())
            &&& (r.len() == 2 ==> {
                &&& pair_segments(
                    fm,
                    seg_first_platform(fm, r[1]),
                    seg_last_platform(fm, r[1]),
                ).contains(r[1])
                &&& seg_departure(fm, r[1]) >= seg_real_arrival(fm, r[0])
                &&& seg_last_platform(fm, r[0]) == seg_first_platform(fm, r[1])
            })
        },
    }
}

/// The best direct segment is one of the listed segments and departs no
/// earlier than the queried time.
proof fn lemma_best_direct_in(fm: FeedModel, segs: Seq<DirectTrip>, t: u32, n: int)
    requires
        n <= segs.len(),
    ensures
        match best_direct_upto(fm, segs, t, n) {
            Some(s) => segs.contains(s) && seg_departure(fm, s) >= t,
            None => true,
        },
    decreases n,
{
    if n > 0 {
        lemma_best_direct_in(fm, segs, t, n - 1);
    }
}

/// Taking the direct candidate preserves soundness.
proof fn lemma_direct_step_sound(fm: FeedModel, fp: int, tp: int, t: u32, st: SearchState)
    requires
        fm.bounded(),
        state_sound(fm, t, st),
        0 <= fp,
        0 <= tp,
    ensures
        state_sound(fm, t, direct_step(fm, pair_segments(fm, fp, tp), t, st)),
{
    let segs = pair_segments(fm, fp, tp);
    lemma_best_direct_in(fm, segs, t, segs.len() as int);
    lemma_pair_segments_oriented(fm, fp, tp, fm.trips.len() as int);
    match best_direct_upto(fm, segs, t, segs.len() as int) {
        Some(s) => {
            if seg_real_arrival(fm, s) < st.best_arrival {
                let k = choose|k: int| 0 <= k < segs.len() && segs[k] == s;
                assert(seg_first_platform(fm, s) == fp);
                assert(seg_last_platform(fm, s) == tp);
                let out = SearchState {
                    best_arrival: seg_real_arrival(fm, s),
                    route: Some(seq![s]),
                };
                assert(out.route.unwrap()[0] == s);
                assert(out.route.unwrap().last() == s);
            }
        },
        None => (),
    }
}

/// Trying second legs after a sound first leg preserves soundness.
proof fn lemma_scan_leg2_sound(
    fm: FeedModel,
    fp: int,
    x: int,
    tp: int,
    s1: DirectTrip,
    t: u32,
    n: int,
    st: SearchState,
)
    requires
        fm.bounded(),
        state_sound(fm, t, st),
        0 <= fp,
        0 <= x,
        0 <= tp,
        pair_segments(fm, fp, x).contains(s1),
        seg_departure(fm, s1) >= t,
        n <= pair_segments(fm, x, tp).len(),
    ensures
        state_sound(fm, t, scan_leg2_upto(fm, s1, pair_segments(fm, x, tp), n, st)),
    decreases n,
{
    let segs2 = pair_segments(fm, x, tp);
    if n > 0 {
        lemma_scan_leg2_sound(fm, fp, x, tp, s1, t, n - 1, st);
        let prev = scan_leg2_upto(fm, s1, segs2, n - 1, st);
        let s2 = segs2[n - 1];
        if seg_departure(fm, s2) >= seg_real_arrival(fm, s1) && seg_real_arrival(fm, s2)
            < prev.best_arrival {
            lemma_pair_segments_oriented(fm, fp, x, fm.trips.len() as int);
            lemma_pair_segments_oriented(fm, x, tp, fm.trips.len() as int);
            let k = choose|k: int|
                0 <= k < pair_segments(fm, fp, x).len() && #[trigger] pair_segments(
                    fm,
                    fp,
                    x,
                )[k] == s1;
            assert(seg_first_platform(fm, s1) == fp);
            assert(seg_last_platform(fm, s1) == x);
            assert(seg_first_platform(fm, s2) == x);
            assert(seg_last_platform(fm, s2) == tp);
            assert(segs2.contains(s2));
            let out = leg2_step(fm, s1, s2, prev);
            assert(out.route.unwrap()[0] == s1);
            assert(out.route.unwrap()[1] == s2);
            assert(out.route.unwrap().last() == s2);
        }
    }
}

/// Trying first legs preserves soundness.
proof fn lemma_scan_leg1_sound(
    fm: FeedModel,
    fp: int,
    x: int,
    tp: int,
    t: u32,
    n: int,
    st: SearchState,
)
    requires
        fm.bounded(),
        state_sound(fm, t, st),
        0 <= fp,
        0 <= x,
        0 <= tp,
        n <= pair_segments(fm, fp, x).len(),
    ensures
        state_sound(
            fm,
            t,
            scan_leg1_upto(
                fm,
                pair_segments(fm, fp, x),
                pair_segments(fm, x, tp),
                t,
                n,
                st,
            ),
        ),
    decreases n,
{
    let segs1 = pair_segments(fm, fp, x);
    let segs2 = pair_segments(fm, x, tp);
    if n > 0 {
        lemma_scan_leg1_sound(fm, fp, x, tp, t, n - 1, st);
        let prev = scan_leg1_upto(fm, segs1, segs2, t, n - 1, st);
        let s1 = segs1[n - 1];
        if seg_departure(fm, s1) >= t {
            assert(segs1.contains(s1));
            lemma_scan_leg2_sound(fm, fp, x, tp, s1, t, segs2.len() as int, prev);
        }
    }
}

/// Trying intermediate platforms preserves soundness.
proof fn lemma_scan_transfers_sound(fm: FeedModel, fp: int, tp: int, t: u32, n: int, st: SearchState)
    requires
        fm.bounded(),
        state_sound(fm, t, st),
        0 <= fp,
        0 <= tp,
    ensures
        state_sound(fm, t, scan_transfers_upto(fm, fp, tp, t, n, st)),
    decreases n,
{
    if n > 0 {
        lemma_scan_transfers_sound(fm, fp, tp, t, n - 1, st);
        let prev = scan_transfers_upto(fm, fp, tp, t, n - 1, st);
        let segs1 = pair_segments(fm, fp, n - 1);
        let segs2 = pair_segments(fm, n - 1, tp);
        if n - 1 >= 0 && segs1.len() > 0 && segs2.len() > 0 {
            lemma_scan_leg1_sound(fm, fp, n - 1, tp, t, segs1.len() as int, prev);
        }
    }
}

/// Processing destination platforms preserves soundness.
proof fn lemma_scan_to_sound(
    fm: FeedModel,
    fp: int,
    to_plats: Seq<usize>,
    t: u32,
    n: int,
    st: SearchState,
)
    requires
        fm.bounded(),
        state_sound(fm, t, st),
        0 <= fp,
        n <= to_plats.len(),
    ensures
        state_sound(fm, t, scan_to_upto(fm, fp, to_plats, t, n, st)),
    decreases n,
{
    if n > 0 {
        lemma_scan_to_sound(fm, fp, to_plats, t, n - 1, st);
        let prev = scan_to_upto(fm, fp, to_plats, t, n - 1, st);
        let tp = to_plats[n - 1] as int;
        lemma_direct_step_sound(fm, fp, tp, t, prev);
        lemma_scan_transfers_sound(
            fm,
            fp,
            tp,
            t,
            fm.platforms.len() as int,
            direct_step(fm, pair_segments(fm, fp, tp), t, prev),
        );
    }
}

/// Processing start platforms preserves soundness.
proof fn lemma_scan_from_sound(
    fm: FeedModel,
    from_plats: Seq<usize>,
    to_plats: Seq<usize>,
    t: u32,
    n: int,
    st: SearchState,
)
    requires
        fm.bounded(),
        state_sound(fm, t, st),
        n <= from_plats.len(),
    ensures
        state_sound(fm, t, scan_from_upto(fm, from_plats, to_plats, t, n, st)),
    decreases n,
{
    if n > 0 {
        lemma_scan_from_sound(fm, from_plats, to_plats, t, n - 1, st);
        lemma_scan_to_sound(
            fm,
            from_plats[n - 1] as int,
            to_plats,
            t,
            to_plats.len() as int,
            scan_from_upto(fm, from_plats, to_plats, t, n - 1, st),
        );
    }
}

/// A found route is sound: each leg stands in the direct-trip table
/// entry of its own end platforms, the first leg departs no earlier
/// than the queried time, and a second leg continues from the first
/// leg's last platform no earlier than its real arrival.
pub proof fn lemma_route_query_sound(
    fm: FeedModel,
    from_plats: Seq<usize>,
    to_plats: Seq<usize>,
    t: u32,
)
    requires
        fm.bounded(),
    ensures
        match route_query(fm, from_plats, to_plats, t) {
            Some(r) => {
                &&& (r.len() == 1 || r.len() == 2)
                &&& pair_segments(
                    fm,
                    seg_first_platform(fm, r[0]),
                    seg_last_platform(fm, r[0]),
                ).contains(r[0])
                &&& seg_departure(fm, r[0]) >= t
                &&& (r.len() == 2 ==> {
                    &&& pair_segments(
                        fm,
                        seg_first_platform(fm, r[1]),
                        seg_last_platform(fm, r[1]),
                    ).contains(r[1])
                    &&& seg_departure(fm, r[1]) >= seg_real_arrival(fm, r[0])
                    &&& seg_last_platform(fm, r[0]) == seg_first_platform(fm, r[1])
                })
            },
            None => true,
        },
{
    lemma_scan_from_sound(fm, from_plats, to_plats, t, from_plats.len() as int, initial_state());
}

/// A route found over a built index is sound with respect to its own
/// tables: each leg stands in the direct-trip table entry of its end
/// platforms, the first leg departs no earlier than the queried time,
/// and a second leg continues from the first leg's last platform no
/// earlier than its real arrival.
pub proof fn lemma_found_route_in_table(
    idx: TransitIndex,
    from_plats: Seq<usize>,
    to_plats: Seq<usize>,
    t: u32,
)
    requires
        idx.wf(),
    ensures
        match route_query(idx.fm(), from_plats, to_plats, t) {
            Some(r) => {
                &&& (r.len() == 1 || r.len() == 2)
                &&& forall|i: int|
                    0 <= i < r.len() ==> {
                        let s = #[trigger] r[i];
                        &&& 0 <= seg_first_platform(idx.fm(), s) < idx.fm().platforms.len()
                        &&& 0 <= seg_last_platform(idx.fm(), s) < idx.fm().platforms.len()
                        &&& idx.direct_trips@[seg_first_platform(idx.fm(), s)]@[seg_last_platform(
                            idx.fm(),
                            s,
                        )]@.contains(s)
                    }
                &&& seg_departure(idx.fm(), r[0]) >= t
                &&& (r.len() == 2 ==> seg_departure(idx.fm(), r[1]) >= seg_real_arrival(
                    idx.fm(),
                    r[0],
                ) && seg_last_platform(idx.fm(), r[0]) == seg_first_platform(idx.fm(), r[1]))
            },
            None => true,
        },
{
    let fm = idx.fm();
    crate::feed::lemma_model_bounded(idx.feed);
    lemma_route_query_sound(fm, from_plats, to_plats, t);
    match route_query(fm, from_plats, to_plats, t) {
        Some(r) => {
            assert forall|i: int| 0 <= i < r.len() implies {
                let s = #[trigger] r[i];
                &&& 0 <= seg_first_platform(fm, s) < fm.platforms.len()
                &&& 0 <= seg_last_platform(fm, s) < fm.platforms.len()
                &&& idx.direct_trips@[seg_first_platform(fm, s)]@[seg_last_platform(
                    fm,
                    s,
                )]@.contains(s)
            } by {
                let s = r[i];
                let fp = seg_first_platform(fm, s);
                let lp = seg_last_platform(fm, s);
                assert(pair_segments(fm, fp, lp).contains(s));
                let k = choose|k: int|
                    0 <= k < pair_segments(fm, fp, lp).len() && #[trigger] pair_segments(
                        fm,
                        fp,
                        lp,
                    )[k] == s;
                lemma_pair_segments_oriented(fm, fp, lp, fm.trips.len() as int);
                assert(s.wf(fm));
                assert(fm.trips_wf());
                assert(0 <= fp < fm.platforms.len());
                assert(0 <= lp < fm.platforms.len());
                assert(idx.direct_trips@[fp]@[lp]@ == pair_segments(fm, fp, lp));
            }
        },
        None => (),
    }
}

} // verus!
