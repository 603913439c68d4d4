//! Direct segments: contiguous sub-rides of one trip between two of its
//! stops, held as indices into the feed, and their timing rules.
//!
//! Times are seconds from midnight and may exceed 86 400. A segment's
//! departure and arrival are reduced modulo the service day; the real
//! arrival adds a day back when the reduced arrival falls before the
//! reduced departure, so that a ride crossing midnight still arrives
//! after it departs.
use vstd::prelude::*;
use crate::feed::{Feed, FeedModel, StopTime};

verus! {

/// Seconds in a service day.
pub const DAY_SECONDS: u32 = 86400;

/// A direct segment: the stop times of trip `trip` from `from_idx` to
/// `to_idx` inclusive, with `from_idx < to_idx`.
#[derive(Clone, Copy, PartialEq, Eq, Structural, Debug)]
pub struct DirectTrip {
    pub trip: usize,
    pub from_idx: usize,
    pub to_idx: usize,
}

impl DirectTrip {
    /// The segment denotes a real slice of a real trip of the feed.
    pub open spec fn wf(self, fm: FeedModel) -> bool {
        &&& self.trip < fm.trips.len()
        &&& self.from_idx < self.to_idx
        &&& self.to_idx < fm.trips[self.trip as int].stop_times.len()
    }
}

/// A missing time is read as zero seconds.
pub open spec fn time_or_zero(t: Option<u32>) -> u32 {
    match t {
        Some(v) => v,
        None => 0,
    }
}

/// The departure time of the segment's first stop, modulo one day.
pub open spec fn seg_departure(fm: FeedModel, s: DirectTrip) -> u32 {
    time_or_zero(fm.trips[s.trip as int].stop_times[s.from_idx as int].departure_time)
        % DAY_SECONDS
}

/// The arrival time at the segment's last stop, modulo one day.
pub open spec fn seg_arrival(fm: FeedModel, s: DirectTrip) -> u32 {
    time_or_zero(fm.trips[s.trip as int].stop_times[s.to_idx as int].arrival_time) % DAY_SECONDS
}

/// The arrival time adjusted across midnight: a segment whose reduced
/// arrival falls before its reduced departure arrives one day later.
pub open spec fn seg_real_arrival(fm: FeedModel, s: DirectTrip) -> u32 {
    if seg_arrival(fm, s) < seg_departure(fm, s) {
        (seg_arrival(fm, s) + DAY_SECONDS) as u32
    } else {
        seg_arrival(fm, s)
    }
}

/// The ride duration: last arrival minus first departure, unreduced,
/// saturating to zero.
pub open spec fn seg_duration(fm: FeedModel, s: DirectTrip) -> u32 {
    let dep = time_or_zero(fm.trips[s.trip as int].stop_times[s.from_idx as int].departure_time);
    let arr = time_or_zero(fm.trips[s.trip as int].stop_times[s.to_idx as int].arrival_time);
    if arr >= dep {
        (arr - dep) as u32
    } else {
        0
    }
}

impl DirectTrip {
    pub fn get_departure_time(&self, feed: &Feed) -> (r: u32)
        requires
            self.wf(feed.model()),
        ensures
            r == seg_departure(feed.model(), *self),
            r < DAY_SECONDS,
    {
        let st = &feed.trips[self.trip].stop_times[self.from_idx];
        let t = match st.departure_time {
            Some(v) => v,
            None => 0,
        };
        t % DAY_SECONDS
    }

    pub fn get_arrival_time(&self, feed: &Feed) -> (r: u32)
        requires
            self.wf(feed.model()),
        ensures
            r == seg_arrival(feed.model(), *self),
            r < DAY_SECONDS,
    {
        let st = &feed.trips[self.trip].stop_times[self.to_idx];
        let t = match st.arrival_time {
            Some(v) => v,
            None => 0,
        };
        t % DAY_SECONDS
    }

    /// The arrival adjusted across midnight: equals the reduced arrival
    /// when that is not before the departure, and lies one day later
    /// otherwise.
    pub fn get_real_arrival_time(&self, feed: &Feed) -> (r: u32)
        requires
            self.wf(feed.model()),
        ensures
            r == seg_real_arrival(feed.model(), *self),
            seg_arrival(feed.model(), *self) < seg_departure(feed.model(), *self) ==> r
                == seg_arrival(feed.model(), *self) + DAY_SECONDS,
            seg_arrival(feed.model(), *self) >= seg_departure(feed.model(), *self) ==> r
                == seg_arrival(feed.model(), *self),
    {
        let arrival = self.get_arrival_time(feed);
        let departure = self.get_departure_time(feed);
        if arrival < departure {
            arrival + DAY_SECONDS
        } else {
            arrival
        }
    }

    pub fn get_duration(&self, feed: &Feed) -> (r: u32)
        requires
            self.wf(feed.model()),
        ensures
            r == seg_duration(feed.model(), *self),
    {
        let dep = match feed.trips[self.trip].stop_times[self.from_idx].departure_time {
            Some(v) => v,
            None => 0,
        };
        let arr = match feed.trips[self.trip].stop_times[self.to_idx].arrival_time {
            Some(v) => v,
            None => 0,
        };
        if arr >= dep {
            arr - dep
        } else {
            0
        }
    }

    /// The passenger names along the slice, in order, with an unnamed
    /// platform shown as the empty string.
    pub fn get_stop_names(&self, feed: &Feed) -> (r: Vec<String>)
        requires
            self.wf(feed.model()),
            feed.model().trips_wf(),
        ensures
            r@.len() == self.to_idx - self.from_idx + 1,
            forall|k: int|
                0 <= k < r@.len() ==> (#[trigger] r@[k])@ == stop_name_at(
                    feed.model(),
                    *self,
                    k,
                ),
    {
        let mut r: Vec<String> = Vec::new();
        let mut k: usize = self.from_idx;
        while k <= self.to_idx
            invariant
                self.wf(feed.model()),
                feed.model().trips_wf(),
                self.from_idx <= k <= self.to_idx + 1,
                r@.len() == k - self.from_idx,
                forall|m: int|
                    0 <= m < r@.len() ==> (#[trigger] r@[m])@ == stop_name_at(
                        feed.model(),
                        *self,
                        m,
                    ),
            decreases self.to_idx + 1 - k,
        {
            let n = feed.trips[self.trip].stop_times.len();
            proof {
                assert(feed.model().trips[self.trip as int] == feed.trips@[self.trip
                    as int].model());
                assert(k < n);
            }
            let p = feed.trips[self.trip].stop_times[k].platform;
            match &feed.platforms[p].name {
                Some(nm) => r.push(nm.clone()),
                None => r.push(String::new()),
            }
            k = k + 1;
        }
        r
    }
}

/// The name shown for the k-th stop of the slice: the platform's name,
/// or the empty string when it has none.
pub open spec fn stop_name_at(fm: FeedModel, s: DirectTrip, k: int) -> Seq<char> {
    let p = fm.trips[s.trip as int].stop_times[s.from_idx + k].platform;
    match fm.platforms[p as int].name {
        Some(n) => n@,
        None => Seq::empty(),
    }
}

/// The first position of platform `p` in the stop times, or -1.
pub open spec fn first_pos(sts: Seq<StopTime>, p: int) -> int
    decreases sts.len(),
{
    if sts.len() == 0 {
        -1
    } else if sts[0].platform == p {
        0
    } else {
        let r = first_pos(sts.drop_first(), p);
        if r == -1 {
            -1
        } else {
            r + 1
        }
    }
}

/// What `first_pos` returns: -1 exactly when the platform is absent,
/// else the first position holding it.
pub proof fn lemma_first_pos(sts: Seq<StopTime>, p: int)
    ensures
        first_pos(sts, p) == -1 <==> (forall|k: int|
            0 <= k < sts.len() ==> (#[trigger] sts[k]).platform != p),
        first_pos(sts, p) != -1 ==> {
            &&& 0 <= first_pos(sts, p) < sts.len()
            &&& sts[first_pos(sts, p)].platform == p
            &&& forall|k: int| 0 <= k < first_pos(sts, p) ==> (#[trigger] sts[k]).platform != p
        },
    decreases sts.len(),
{
    if sts.len() > 0 && sts[0].platform != p {
        let d = sts.drop_first();
        lemma_first_pos(d, p);
        assert(forall|k: int| 0 <= k < d.len() ==> #[trigger] d[k] == sts[k + 1]);
        let rd = first_pos(d, p);
        if rd == -1 {
            assert forall|k: int| 0 <= k < sts.len() implies (#[trigger] sts[k]).platform != p by {
                if k > 0 {
                    assert(d[k - 1].platform != p);
                }
            }
        } else {
            assert(sts[rd + 1].platform == p);
            assert forall|k: int| 0 <= k < rd + 1 implies (#[trigger] sts[k]).platform != p by {
                if k > 0 {
                    assert(d[k - 1].platform != p);
                }
            }
        }
    }
}

/// The first position of platform `p` in a trip's stop times.
pub fn find_first_pos(sts: &Vec<StopTime>, p: usize) -> (r: Option<usize>)
    ensures
        match r {
            Some(k) => k as int == first_pos(sts@, p as int),
            None => first_pos(sts@, p as int) == -1,
        },
{
    let mut k: usize = 0;
    while k < sts.len()
        invariant
            k <= sts.len(),
            forall|m: int| 0 <= m < k ==> (#[trigger] sts@[m]).platform != p,
        decreases sts.len() - k,
    {
        if sts[k].platform == p {
            proof {
                lemma_first_pos(sts@, p as int);
                let f = first_pos(sts@, p as int);
                assert(f != -1);
                if f < k as int {
                    assert(sts@[f].platform != p as int);
                }
                if f > k as int {
                    assert(sts@[k as int].platform != p as int);
                }
            }
            return Some(k);
        }
        k = k + 1;
    }
    proof {
        lemma_first_pos(sts@, p as int);
    }
    None
}

} // verus!
