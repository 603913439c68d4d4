//! The schedule feed that the index is built over: physical platforms,
//! trips with their stop times, and routes, all as plain values.
//!
//! Geographic coordinates are carried as decimal-degree strings; the
//! library never does arithmetic on them, it only hands them to the
//! geodesic helper. A missing coordinate stands for zero degrees.
use vstd::prelude::*;

verus! {

/// A physical platform: a stop location with a stable identifier and an
/// optional passenger-facing name shared by the platforms of one station.
pub struct Platform {
    pub id: String,
    pub name: Option<String>,
    /// Longitude in decimal degrees, written as a decimal string.
    pub longitude: Option<String>,
    /// Latitude in decimal degrees, written as a decimal string.
    pub latitude: Option<String>,
    pub platform_code: Option<String>,
    pub zone_id: Option<String>,
}

/// One scheduled call of a trip at a platform. Times are seconds from
/// midnight and may exceed 86 400 for service running past midnight.
#[derive(Clone, Copy)]
pub struct StopTime {
    /// Index of the platform in `Feed::platforms`.
    pub platform: usize,
    pub arrival_time: Option<u32>,
    pub departure_time: Option<u32>,
}

/// A trip: an ordered, non-empty sequence of stop times on one route.
pub struct Trip {
    pub id: String,
    pub route_id: String,
    pub stop_times: Vec<StopTime>,
}

/// A route, as far as the index reads it.
pub struct Route {
    pub id: String,
    pub short_name: Option<String>,
}

/// The parsed schedule feed the index is built from.
pub struct Feed {
    pub platforms: Vec<Platform>,
    pub trips: Vec<Trip>,
    pub routes: Vec<Route>,
}

/// The mathematical content of a trip: its stop times as a sequence.
pub ghost struct TripModel {
    pub id: Seq<char>,
    pub route_id: Seq<char>,
    pub stop_times: Seq<StopTime>,
}

/// The mathematical content of a feed. Two feeds with equal models are
/// indistinguishable to the index.
pub ghost struct FeedModel {
    pub platforms: Seq<Platform>,
    pub trips: Seq<TripModel>,
    pub routes: Seq<Route>,
}

impl Platform {
    /// The longitude string, with a missing coordinate read as zero degrees.
    pub open spec fn lon_or_zero(self) -> Seq<char> {
        match self.longitude {
            Some(l) => l@,
            None => "0"@,
        }
    }

    /// The latitude string, with a missing coordinate read as zero degrees.
    pub open spec fn lat_or_zero(self) -> Seq<char> {
        match self.latitude {
            Some(l) => l@,
            None => "0"@,
        }
    }

    /// The longitude string handed to the geodesic helper.
    pub fn lon_str(&self) -> (r: &str)
        ensures
            r@ == self.lon_or_zero(),
    {
        match &self.longitude {
            Some(l) => l.as_str(),
            None => "0",
        }
    }

    /// The latitude string handed to the geodesic helper.
    pub fn lat_str(&self) -> (r: &str)
        ensures
            r@ == self.lat_or_zero(),
    {
        match &self.latitude {
            Some(l) => l.as_str(),
            None => "0",
        }
    }
}

impl Trip {
    pub open spec fn model(self) -> TripModel {
        TripModel { id: self.id@, route_id: self.route_id@, stop_times: self.stop_times@ }
    }
}

impl Feed {
    pub open spec fn model(self) -> FeedModel {
        FeedModel {
            platforms: self.platforms@,
            trips: self.trips@.map_values(|t: Trip| t.model()),
            routes: self.routes@,
        }
    }

    pub open spec fn wf(self) -> bool {
        self.model().wf()
    }
}

impl FeedModel {
    /// Every stop time points at a platform of the feed, and every trip
    /// makes at least one stop.
    pub open spec fn trips_wf(self) -> bool {
        forall|t: int|
            0 <= t < self.trips.len() ==> {
                &&& (#[trigger] self.trips[t]).stop_times.len() > 0
                &&& forall|k: int|
                    0 <= k < self.trips[t].stop_times.len()
                        ==> (#[trigger] self.trips[t].stop_times[k]).platform
                        < self.platforms.len()
            }
    }

    /// Platform identifiers are distinct.
    pub open spec fn ids_unique(self) -> bool {
        forall|i: int, j: int|
            0 <= i < j < self.platforms.len()
                ==> (#[trigger] self.platforms[i]).id@ != (#[trigger] self.platforms[j]).id@
    }

    /// A well-formed feed.
    pub open spec fn wf(self) -> bool {
        self.trips_wf() && self.ids_unique()
    }

    /// The sequences fit the machine; holds of every model taken from
    /// an actual feed.
    pub open spec fn bounded(self) -> bool {
        &&& self.platforms.len() <= usize::MAX
        &&& self.trips.len() <= usize::MAX
        &&& forall|t: int|
            0 <= t < self.trips.len() ==> (#[trigger] self.trips[t]).stop_times.len()
                <= usize::MAX
    }
}

/// The model of an actual feed is bounded by the machine.
pub proof fn lemma_model_bounded(feed: Feed)
    ensures
        feed.model().bounded(),
{
    let fm = feed.model();
    assert(fm.platforms.len() == feed.platforms@.len());
    assert(feed.platforms@.len() == feed.platforms.len());
    assert(fm.trips.len() == feed.trips@.len());
    assert(feed.trips@.len() == feed.trips.len());
    assert forall|t: int| 0 <= t < fm.trips.len() implies (#[trigger] fm.trips[t]).stop_times.len()
        <= usize::MAX by {
        assert(fm.trips[t] == feed.trips@[t].model());
        assert(feed.trips@[t].stop_times@.len() == feed.trips@[t].stop_times.len());
    }
}

impl Clone for Platform {
    fn clone(&self) -> (r: Self)
        ensures
            r == *self,
    {
        Platform {
            id: self.id.clone(),
            name: clone_opt_string(&self.name),
            longitude: clone_opt_string(&self.longitude),
            latitude: clone_opt_string(&self.latitude),
            platform_code: clone_opt_string(&self.platform_code),
            zone_id: clone_opt_string(&self.zone_id),
        }
    }
}

impl Clone for Trip {
    fn clone(&self) -> (r: Self)
        ensures
            r.model() == self.model(),
    {
        Trip {
            id: self.id.clone(),
            route_id: self.route_id.clone(),
            stop_times: copy_stop_times(&self.stop_times),
        }
    }
}

impl Clone for Route {
    fn clone(&self) -> (r: Self)
        ensures
            r == *self,
    {
        Route { id: self.id.clone(), short_name: clone_opt_string(&self.short_name) }
    }
}

impl Clone for Feed {
    fn clone(&self) -> (r: Self)
        ensures
            r.model() == self.model(),
    {
        let r = Feed {
            platforms: copy_platforms(&self.platforms),
            trips: copy_trips(&self.trips),
            routes: copy_routes(&self.routes),
        };
        proof {
            assert(r.model().trips =~= self.model().trips);
        }
        r
    }
}

/// Clone an optional string, keeping the value.
pub fn clone_opt_string(o: &Option<String>) -> (r: Option<String>)
    ensures
        r == *o,
{
    match o {
        Some(s) => Some(s.clone()),
        None => None,
    }
}

/// Copy a stop-time sequence element by element.
fn copy_stop_times(v: &Vec<StopTime>) -> (r: Vec<StopTime>)
    ensures
        r@ == v@,
{
    let mut r: Vec<StopTime> = Vec::new();
    let mut i: usize = 0;
    while i < v.len()
        invariant
            i <= v.len(),
            r@ == v@.take(i as int),
        decreases v.len() - i,
    {
        r.push(v[i]);
        i = i + 1;
        proof {
            assert(r@ =~= v@.take(i as int));
        }
    }
    proof {
        assert(v@.take(v.len() as int) =~= v@);
    }
    r
}

/// Copy a platform list element by element.
pub fn copy_platforms(v: &Vec<Platform>) -> (r: Vec<Platform>)
    ensures
        r@ == v@,
{
    let mut r: Vec<Platform> = Vec::new();
    let mut i: usize = 0;
    while i < v.len()
        invariant
            i <= v.len(),
            r@ == v@.take(i as int),
        decreases v.len() - i,
    {
        r.push(v[i].clone());
        i = i + 1;
        proof {
            assert(r@ =~= v@.take(i as int));
        }
    }
    proof {
        assert(v@.take(v.len() as int) =~= v@);
    }
    r
}

/// Copy a trip list element by element, keeping each trip's model.
fn copy_trips(v: &Vec<Trip>) -> (r: Vec<Trip>)
    ensures
        r@.len() == v@.len(),
        forall|j: int| 0 <= j < v@.len() ==> (#[trigger] r@[j]).model() == v@[j].model(),
{
    let mut r: Vec<Trip> = Vec::new();
    let mut i: usize = 0;
    while i < v.len()
        invariant
            i <= v.len(),
            r@.len() == i,
            forall|j: int| 0 <= j < i ==> (#[trigger] r@[j]).model() == v@[j].model(),
        decreases v.len() - i,
    {
        r.push(v[i].clone());
        i = i + 1;
    }
    r
}

/// Copy a route list element by element.
pub fn copy_routes(v: &Vec<Route>) -> (r: Vec<Route>)
    ensures
        r@ == v@,
{
    let mut r: Vec<Route> = Vec::new();
    let mut i: usize = 0;
    while i < v.len()
        invariant
            i <= v.len(),
            r@ == v@.take(i as int),
        decreases v.len() - i,
    {
        r.push(v[i].clone());
        i = i + 1;
        proof {
            assert(r@ =~= v@.take(i as int));
        }
    }
    proof {
        assert(v@.take(v.len() as int) =~= v@);
    }
    r
}

} // verus!
