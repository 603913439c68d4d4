use transit_index::feed::{Feed, Platform, Route, StopTime, Trip};
use transit_index::transit_index::TransitIndex;

fn platform(id: &str, name: &str, lon: f64, lat: f64) -> Platform {
    Platform {
        id: id.to_string(),
        name: Some(name.to_string()),
        longitude: Some(format!("{}", lon)),
        latitude: Some(format!("{}", lat)),
        platform_code: None,
        zone_id: None,
    }
}

fn stop_time(platform: usize, seconds: u32) -> StopTime {
    StopTime { platform, arrival_time: Some(seconds), departure_time: Some(seconds) }
}

fn trip(id: &str, route_id: &str, stops: Vec<StopTime>) -> Trip {
    Trip { id: id.to_string(), route_id: route_id.to_string(), stop_times: stops }
}

fn hm(h: u32, m: u32) -> u32 {
    h * 3600 + m * 60
}

/// The synthetic feed: two platforms named A, one B, one C, four trips.
fn sample_feed() -> Feed {
    Feed {
        platforms: vec![
            platform("P1", "A", 0.0, 0.0),
            platform("P2", "A", 0.0001, 0.0),
            platform("P3", "B", 0.01, 0.0),
            platform("P4", "C", 0.02, 0.0),
        ],
        trips: vec![
            trip("T1", "R1", vec![
                stop_time(0, hm(8, 0)),
                stop_time(2, hm(8, 10)),
                stop_time(3, hm(8, 25)),
            ]),
            trip("T2", "R1", vec![
                stop_time(0, hm(9, 0)),
                stop_time(2, hm(9, 10)),
                stop_time(3, hm(9, 25)),
            ]),
            trip("T3", "R2", vec![stop_time(2, hm(8, 12)), stop_time(3, hm(8, 18))]),
            trip("T4", "R3", vec![stop_time(1, hm(8, 0)), stop_time(3, hm(8, 30))]),
        ],
        routes: vec![
            Route { id: "R1".to_string(), short_name: Some("1".to_string()) },
            Route { id: "R2".to_string(), short_name: Some("2".to_string()) },
            Route { id: "R3".to_string(), short_name: None },
        ],
    }
}

#[test]
fn groups_are_distinct_names_ascending() {
    let idx = TransitIndex::new(sample_feed());
    let names: Vec<&str> = idx.groups.iter().map(|g| g.stop_name.as_str()).collect();
    assert_eq!(names, vec!["A", "B", "C"]);
    assert_eq!(idx.groups[0].platforms, vec![0, 1]);
    assert_eq!(idx.groups[1].platforms, vec![2]);
    assert_eq!(idx.groups[2].platforms, vec![3]);
}

#[test]
fn every_platform_maps_to_exactly_one_group() {
    let idx = TransitIndex::new(sample_feed());
    assert_eq!(idx.platform_groups, vec![Some(0), Some(0), Some(1), Some(2)]);
    for (p, g) in idx.platform_groups.iter().enumerate() {
        let g = g.unwrap();
        let holders: Vec<usize> = (0..idx.groups.len())
            .filter(|k| idx.groups[*k].platforms.contains(&p))
            .collect();
        assert_eq!(holders, vec![g]);
    }
}

#[test]
fn direct_trip_segments_are_oriented() {
    let idx = TransitIndex::new(sample_feed());
    for row in &idx.direct_trips {
        for entry in row {
            for seg in entry {
                assert!(seg.from_idx < seg.to_idx);
                let sts = &idx.feed.trips[seg.trip].stop_times;
                assert!(seg.to_idx < sts.len());
            }
        }
    }
}

#[test]
fn direct_trips_between_a_and_b() {
    let idx = TransitIndex::new(sample_feed());
    let segs = idx.get_direct_trips("P1", "P3").expect("trips from P1 to P3");
    assert_eq!(segs.len(), 2);
    assert_eq!(segs[0].trip, 0);
    assert_eq!(segs[1].trip, 1);
    assert_eq!(segs[0].from_idx, 0);
    assert_eq!(segs[0].to_idx, 1);
    assert!(idx.get_direct_trips("P3", "P1").is_none());
    assert!(idx.get_direct_trips("P9", "P3").is_none());
}

#[test]
fn distances_are_symmetric_and_absent_on_diagonal() {
    let idx = TransitIndex::new(sample_feed());
    let n = idx.distances.len();
    assert_eq!(n, 4);
    for a in 0..n {
        assert!(idx.distances[a][a].is_none());
        for b in 0..n {
            if a != b {
                assert_eq!(idx.distances[a][b], idx.distances[b][a]);
                assert!(idx.distances[a][b].is_some());
            }
        }
    }
}

#[test]
fn distance_values_match_the_haversine() {
    let idx = TransitIndex::new(sample_feed());
    let p1 = geo::Point::new(0.0, 0.0);
    let p3 = geo::Point::new(0.01, 0.0);
    let expected = geo::Distance::distance(&geo::Haversine, p1, p3);
    let stored = f64::from_bits(idx.distances[0][2].unwrap());
    assert_eq!(stored, expected);
}

#[test]
fn stops_graph_equals_direct_trips() {
    let idx = TransitIndex::new(sample_feed());
    assert_eq!(idx.stops_graph.len(), idx.direct_trips.len());
    for f in 0..idx.direct_trips.len() {
        for t in 0..idx.direct_trips.len() {
            assert_eq!(idx.stops_graph[f][t], idx.direct_trips[f][t]);
        }
    }
}

#[test]
fn one_platform_feed_has_empty_tables() {
    let feed = Feed {
        platforms: vec![platform("P1", "A", 0.0, 0.0)],
        trips: vec![],
        routes: vec![],
    };
    let idx = TransitIndex::new(feed);
    assert_eq!(idx.direct_trips.len(), 1);
    assert!(idx.direct_trips[0][0].is_empty());
    assert_eq!(idx.distances.len(), 1);
    assert!(idx.distances[0][0].is_none());
    assert!(idx.get_direct_trips("P1", "P1").is_none());
}

#[test]
fn search_by_empty_query_returns_all_groups() {
    let idx = TransitIndex::new(sample_feed());
    let all = idx.search_by_name("");
    assert_eq!(all.len(), 3);
    let mut names: Vec<String> = all.iter().map(|g| g.stop_name.clone()).collect();
    names.sort();
    assert_eq!(names, vec!["A", "B", "C"]);
    // determinism: the same query ranks the same way again
    let again = idx.search_by_name("");
    let names1: Vec<&str> = all.iter().map(|g| g.stop_name.as_str()).collect();
    let names2: Vec<&str> = again.iter().map(|g| g.stop_name.as_str()).collect();
    assert_eq!(names1, names2);
}

#[test]
fn search_by_name_ranks_the_matching_stop_first() {
    let idx = TransitIndex::new(sample_feed());
    let hits = idx.search_by_name("A");
    assert_eq!(hits[0].stop_name, "A");
    // a query matching a later name must beat the insertion order
    let hits_b = idx.search_by_name("B");
    assert_eq!(hits_b[0].stop_name, "B");
}

#[test]
fn nearest_stops_with_zero_count_is_empty() {
    let idx = TransitIndex::new(sample_feed());
    let none = idx.find_nearest_stops("0", "0", 0);
    assert!(none.is_empty());
}

#[test]
fn nearest_stop_to_the_origin_is_group_a() {
    let idx = TransitIndex::new(sample_feed());
    let nearest = idx.find_nearest_stops("0", "0", 1);
    assert_eq!(nearest.len(), 1);
    assert_eq!(nearest[0].stop_name, "A");
    assert!(nearest[0].platforms.contains(&0));
    let d = idx.groups[0].distance_to_location(&idx.feed, "0", "0");
    assert_eq!(f64::from_bits(d), 0.0);
}

#[test]
fn nearest_stop_beats_insertion_order() {
    let idx = TransitIndex::new(sample_feed());
    // query next to C, the last group in name order
    let nearest = idx.find_nearest_stops("0.02", "0", 2);
    assert_eq!(nearest[0].stop_name, "C");
    assert_eq!(nearest[1].stop_name, "B");
}

#[test]
fn group_distance_is_the_minimum_over_platforms() {
    let idx = TransitIndex::new(sample_feed());
    // group A holds P1 at the origin and P2 slightly east; queries near
    // P2 must use P2's distance, not P1's
    let near_p2 = idx.groups[0].distance_to_location(&idx.feed, "0.0001", "0");
    assert_eq!(f64::from_bits(near_p2), 0.0);
}

#[test]
fn rounding_merges_nearly_equal_distances() {
    // two stops whose raw distances to the origin differ only in the
    // third decimal: the rounded keys tie, and the name order decides
    let metres_per_degree = 111319.49079327358;
    let lon_x = 11.0664 / metres_per_degree;
    let lon_y = 11.0661 / metres_per_degree;
    let dx = geo::Distance::distance(
        &geo::Haversine,
        geo::Point::new(0.0, 0.0),
        geo::Point::new(format!("{}", lon_x).parse::<f64>().unwrap(), 0.0),
    );
    let dy = geo::Distance::distance(
        &geo::Haversine,
        geo::Point::new(0.0, 0.0),
        geo::Point::new(format!("{}", lon_y).parse::<f64>().unwrap(), 0.0),
    );
    assert!(dx > dy);
    assert_eq!(format!("{:.2}", dx), format!("{:.2}", dy));
    let feed = Feed {
        platforms: vec![
            platform("PX", "X", lon_x, 0.0),
            platform("PY", "Y", lon_y, 0.0),
        ],
        trips: vec![],
        routes: vec![],
    };
    let idx = TransitIndex::new(feed);
    let nearest = idx.find_nearest_stops("0", "0", 2);
    assert_eq!(nearest[0].stop_name, "X");
    assert_eq!(nearest[1].stop_name, "Y");
}

#[test]
fn missing_coordinates_stand_for_zero_degrees() {
    let mut feed = sample_feed();
    feed.platforms.push(Platform {
        id: "P5".to_string(),
        name: Some("D".to_string()),
        longitude: None,
        latitude: None,
        platform_code: None,
        zone_id: None,
    });
    let idx = TransitIndex::new(feed);
    // P5 sits at the prime meridian with P1, so their distance is zero
    let d = idx.distances[0][4].unwrap();
    assert_eq!(f64::from_bits(d), 0.0);
}

#[test]
fn stop_name_lookup_by_platform_id() {
    let idx = TransitIndex::new(sample_feed());
    assert_eq!(idx.get_stop_name_from_id("P2").as_deref(), Some("A"));
    assert_eq!(idx.get_stop_name_from_id("P4").as_deref(), Some("C"));
    assert_eq!(idx.get_stop_name_from_id("P9"), None);
}

#[test]
fn rebuilding_over_the_same_feed_answers_alike() {
    let feed = sample_feed();
    let i1 = TransitIndex::new(feed.clone());
    let i2 = TransitIndex::new(feed);
    let n1: Vec<String> = i1.search_by_name("A").iter().map(|g| g.stop_name.clone()).collect();
    let n2: Vec<String> = i2.search_by_name("A").iter().map(|g| g.stop_name.clone()).collect();
    assert_eq!(n1, n2);
    for f in 0..i1.direct_trips.len() {
        for t in 0..i1.direct_trips.len() {
            assert_eq!(i1.direct_trips[f][t], i2.direct_trips[f][t]);
            assert_eq!(i1.distances[f][t], i2.distances[f][t]);
        }
    }
    let a1 = i1.groups[0].clone();
    let c1 = i1.groups[2].clone();
    let a2 = i2.groups[0].clone();
    let c2 = i2.groups[2].clone();
    let r1 = i1.find_route(&a1, &c1, Some(7 * 3600));
    let r2 = i2.find_route(&a2, &c2, Some(7 * 3600));
    assert_eq!(r1, r2);
}

#[test]
fn nameless_platforms_are_skipped_by_the_grouper() {
    let feed = Feed {
        platforms: vec![
            platform("P1", "A", 0.0, 0.0),
            Platform {
                id: "P0".to_string(),
                name: None,
                longitude: None,
                latitude: None,
                platform_code: None,
                zone_id: None,
            },
        ],
        trips: vec![],
        routes: vec![],
    };
    let idx = TransitIndex::new(feed);
    assert_eq!(idx.groups.len(), 1);
    assert_eq!(idx.platform_groups, vec![Some(0), None]);
    assert_eq!(idx.get_stop_name_from_id("P0"), None);
}

#[test]
fn equal_similarity_keys_keep_the_name_order() {
    // an empty query is equally dissimilar to every single-letter name,
    // so the ranking falls back to the ascending name order
    let idx = TransitIndex::new(sample_feed());
    assert_eq!(trigram::similarity("A", ""), trigram::similarity("B", ""));
    let all = idx.search_by_name("");
    let names: Vec<&str> = all.iter().map(|g| g.stop_name.as_str()).collect();
    assert_eq!(names, vec!["A", "B", "C"]);
}

#[test]
fn a_stop_without_platforms_is_infinitely_far() {
    let idx = TransitIndex::new(sample_feed());
    let empty = transit_index::transit_index::StopPlatforms {
        stop_name: "nowhere".to_string(),
        platforms: vec![],
    };
    let d = empty.distance_to_location(&idx.feed, "0", "0");
    assert_eq!(f64::from_bits(d), f64::MAX);
    let standalone = transit_index::stops_index::StopPlatforms {
        stop_name: "nowhere".to_string(),
        platforms: vec![],
    };
    let d2 = standalone.distance_to_location("0", "0");
    assert_eq!(f64::from_bits(d2), f64::MAX);
}
