use transit_index::feed::{Feed, Platform, Route, StopTime, Trip};
use transit_index::transit_index::{StopPlatforms, TransitIndex};

fn platform(id: &str, name: &str, lon: f64, lat: f64) -> Platform {
    Platform {
        id: id.to_string(),
        name: Some(name.to_string()),
        longitude: Some(format!("{}", lon)),
        latitude: Some(format!("{}", lat)),
        platform_code: None,
        zone_id: None,
    }
}

fn stop_time(platform: usize, seconds: u32) -> StopTime {
    StopTime { platform, arrival_time: Some(seconds), departure_time: Some(seconds) }
}

fn trip(id: &str, route_id: &str, stops: Vec<StopTime>) -> Trip {
    Trip { id: id.to_string(), route_id: route_id.to_string(), stop_times: stops }
}

fn hm(h: u32, m: u32) -> u32 {
    h * 3600 + m * 60
}

fn sample_feed() -> Feed {
    Feed {
        platforms: vec![
            platform("P1", "A", 0.0, 0.0),
            platform("P2", "A", 0.0001, 0.0),
            platform("P3", "B", 0.01, 0.0),
            platform("P4", "C", 0.02, 0.0),
        ],
        trips: vec![
            trip("T1", "R1", vec![
                stop_time(0, hm(8, 0)),
                stop_time(2, hm(8, 10)),
                stop_time(3, hm(8, 25)),
            ]),
            trip("T2", "R1", vec![
                stop_time(0, hm(9, 0)),
                stop_time(2, hm(9, 10)),
                stop_time(3, hm(9, 25)),
            ]),
            trip("T3", "R2", vec![stop_time(2, hm(8, 12)), stop_time(3, hm(8, 18))]),
            trip("T4", "R3", vec![stop_time(1, hm(8, 0)), stop_time(3, hm(8, 30))]),
        ],
        routes: vec![
            Route { id: "R1".to_string(), short_name: Some("1".to_string()) },
            Route { id: "R2".to_string(), short_name: Some("2".to_string()) },
            Route { id: "R3".to_string(), short_name: None },
        ],
    }
}

fn group<'a>(idx: &'a TransitIndex, name: &str) -> &'a StopPlatforms {
    idx.groups.iter().find(|g| g.stop_name == name).expect("group")
}

#[test]
fn direct_route_from_a_to_b() {
    let idx = TransitIndex::new(sample_feed());
    let route = idx
        .find_route(group(&idx, "A"), group(&idx, "B"), Some(hm(7, 0)))
        .expect("route");
    assert_eq!(route.len(), 1);
    assert_eq!(route[0].trip, 0);
    assert_eq!(route[0].get_departure_time(&idx.feed), hm(8, 0));
    assert_eq!(route[0].get_arrival_time(&idx.feed), hm(8, 10));
}

#[test]
fn transfer_beats_the_slower_direct_ride() {
    let idx = TransitIndex::new(sample_feed());
    let route = idx
        .find_route(group(&idx, "A"), group(&idx, "C"), Some(hm(7, 0)))
        .expect("route");
    // riding T1 to B and changing to T3 arrives 08:18, before T1's own
    // 08:25 arrival at C
    assert_eq!(route.len(), 2);
    assert_eq!(route[0].trip, 0);
    assert_eq!(route[1].trip, 2);
    assert_eq!(route[1].get_real_arrival_time(&idx.feed), hm(8, 18));
}

#[test]
fn late_departure_takes_the_next_direct_trip() {
    let idx = TransitIndex::new(sample_feed());
    let route = idx
        .find_route(group(&idx, "A"), group(&idx, "C"), Some(hm(8, 20)))
        .expect("route");
    assert_eq!(route.len(), 1);
    assert_eq!(route[0].trip, 1);
    assert_eq!(route[0].get_real_arrival_time(&idx.feed), hm(9, 25));
}

#[test]
fn no_route_against_the_direction_of_travel() {
    let idx = TransitIndex::new(sample_feed());
    let route = idx.find_route(group(&idx, "B"), group(&idx, "A"), Some(hm(7, 0)));
    assert!(route.is_none());
}

#[test]
fn found_route_stands_in_the_direct_trip_table() {
    let idx = TransitIndex::new(sample_feed());
    let t = hm(7, 0);
    let route = idx
        .find_route(group(&idx, "A"), group(&idx, "B"), Some(t))
        .expect("route");
    assert_eq!(route.len(), 1);
    let seg = route[0];
    let sts = &idx.feed.trips[seg.trip].stop_times;
    let first = &idx.feed.platforms[sts[seg.from_idx].platform].id;
    let last = &idx.feed.platforms[sts[seg.to_idx].platform].id;
    let listed = idx.get_direct_trips(first, last).expect("table entry");
    assert!(listed.contains(&seg));
    assert!(seg.get_departure_time(&idx.feed) >= t);
}

#[test]
fn midnight_crossing_arrival_is_pushed_a_day_later() {
    let feed = Feed {
        platforms: vec![platform("P1", "A", 0.0, 0.0), platform("P2", "B", 0.01, 0.0)],
        trips: vec![trip("N1", "R1", vec![
            stop_time(0, 23 * 3600 + 50 * 60),
            stop_time(1, 86400 + 600),
        ])],
        routes: vec![],
    };
    let idx = TransitIndex::new(feed);
    let segs = idx.get_direct_trips("P1", "P2").expect("segment");
    let seg = segs[0];
    assert_eq!(seg.get_departure_time(&idx.feed), 23 * 3600 + 50 * 60);
    assert_eq!(seg.get_arrival_time(&idx.feed), 600);
    assert_eq!(seg.get_real_arrival_time(&idx.feed), 86400 + 600);
}

#[test]
fn segment_duration_and_stop_names() {
    let idx = TransitIndex::new(sample_feed());
    let segs = idx.get_direct_trips("P1", "P4").expect("segments");
    let seg = segs[0];
    assert_eq!(seg.get_duration(&idx.feed), 25 * 60);
    let names = seg.get_stop_names(&idx.feed);
    assert_eq!(names, vec!["A", "B", "C"]);
}

#[test]
fn duration_saturates_instead_of_failing() {
    let feed = Feed {
        platforms: vec![platform("P1", "A", 0.0, 0.0), platform("P2", "B", 0.01, 0.0)],
        trips: vec![trip("T1", "R1", vec![
            StopTime { platform: 0, arrival_time: Some(100), departure_time: Some(100) },
            StopTime { platform: 1, arrival_time: None, departure_time: None },
        ])],
        routes: vec![],
    };
    let idx = TransitIndex::new(feed);
    let segs = idx.get_direct_trips("P1", "P2").expect("segments");
    assert_eq!(segs[0].get_duration(&idx.feed), 0);
}

#[test]
fn route_lookup_by_id_and_name() {
    let feed = sample_feed();
    let routes = transit_index::routes_index::RoutesIndex::new(&feed);
    assert_eq!(routes.get_route_by_id("R2").expect("route").id, "R2");
    assert!(routes.get_route_by_id("R9").is_none());
    let by_name = routes.get_route_by_name("1").expect("route");
    assert_eq!(by_name.id, "R1");
    assert!(routes.get_route_by_name("9").is_none());
}

#[test]
fn stop_names_index_answers_like_the_transit_index() {
    let feed = sample_feed();
    let names_index = transit_index::stops_index::StopNamesIndex::new(&feed);
    assert_eq!(names_index.stop_platforms.len(), 3);
    let hits = names_index.search_by_name("B");
    assert_eq!(hits[0].stop_name, "B");
    let all = names_index.search_by_name("");
    assert_eq!(all.len(), 3);
    let nearest = names_index.find_nearest_stops("0", "0", 1);
    assert_eq!(nearest[0].stop_name, "A");
    assert!(names_index.find_nearest_stops("0", "0", 0).is_empty());
    assert_eq!(names_index.get_stop_name_from_id("P3").as_deref(), Some("B"));
    assert_eq!(names_index.get_stop_name_from_id("P9"), None);
}

#[test]
fn trips_index_tables_and_graph() {
    let feed = sample_feed();
    let tix = transit_index::trips_index::TripsIndex::new(feed);
    let segs = tix.get_direct_trips("P1", "P3").expect("segments");
    assert_eq!(segs.len(), 2);
    assert!(tix.get_direct_trips("P3", "P1").is_none());
    let graph = tix.build_graph();
    assert_eq!(graph.len(), 4);
    assert_eq!(&graph[0][2], segs);
    let names = segs[0].get_stop_names(&tix.feed);
    assert_eq!(names, vec!["A", "B"]);
    assert_eq!(segs[0].get_duration(&tix.feed), 10 * 60);
}

#[test]
fn graph_route_search_finds_a_linked_path() {
    let feed = sample_feed();
    let tix = transit_index::trips_index::TripsIndex::new(feed);
    let graph = tix.build_graph();
    let path = transit_index::trips_index::find_route(&tix.feed, &graph, 0, 3, 0)
        .expect("path");
    assert!(!path.is_empty());
    assert_eq!(path[0].start_stop, "P1");
    assert_eq!(path[path.len() - 1].end_stop, "P4");
    for w in path.windows(2) {
        assert_eq!(w[0].end_stop, w[1].start_stop);
    }
    for seg in &path {
        assert_eq!(seg.arrival_time, seg.departure_time + seg.duration as u64);
        // every leg rides an edge listed in the graph between its own
        // end platforms
        let f = tix.feed.platforms.iter().position(|p| p.id == seg.start_stop).expect("from");
        let t = tix.feed.platforms.iter().position(|p| p.id == seg.end_stop).expect("to");
        assert!(graph[f][t].iter().any(|e| tix.feed.trips[e.trip].id == seg.trip_id));
    }
}

#[test]
fn graph_route_search_from_a_stop_to_itself() {
    let feed = sample_feed();
    let tix = transit_index::trips_index::TripsIndex::new(feed);
    let graph = tix.build_graph();
    let path = transit_index::trips_index::find_route(&tix.feed, &graph, 0, 0, 0)
        .expect("path");
    assert!(path.is_empty());
}

#[test]
fn graph_route_search_reports_unreachable_stops() {
    let feed = Feed {
        platforms: vec![platform("P1", "A", 0.0, 0.0), platform("P2", "B", 0.01, 0.0)],
        trips: vec![],
        routes: vec![],
    };
    let tix = transit_index::trips_index::TripsIndex::new(feed);
    let graph = tix.build_graph();
    assert!(transit_index::trips_index::find_route(&tix.feed, &graph, 0, 1, 0).is_none());
}

#[test]
fn time_formatting() {
    assert_eq!(transit_index::util::format_u32_time(hm(8, 15)), "08:15");
    assert_eq!(transit_index::util::format_u32_time(0), "00:00");
    assert_eq!(transit_index::util::format_u32_time(86399), "23:59");
    assert_eq!(transit_index::util::format_u32_time(hm(26, 5)), "26:05");
}

#[test]
fn measure_returns_the_closure_result() {
    let (value, took) = transit_index::util::measure(|| 2 + 3);
    assert_eq!(value, 5);
    assert!(took.ends_with(" ms"));
    let digits = &took[..took.len() - 3];
    assert!(!digits.is_empty());
    assert!(digits.chars().all(|c| c.is_ascii_digit()));
}

#[test]
fn route_query_with_the_present_time_runs() {
    let idx = TransitIndex::new(sample_feed());
    // no departure time given: the wall clock decides; whatever it is,
    // the call must answer without failing
    let _ = idx.find_route(group(&idx, "A"), group(&idx, "B"), None);
}
