//! An in-memory transit index over a static schedule feed.
//!
//! The index groups physical platforms into passenger stops by shared name,
//! pre-computes a direct-trip table, a stops graph and a pairwise distance
//! table, and answers earliest-arrival queries with at most one transfer,
//! plus fuzzy stop-name search and nearest-stop search.
pub mod feed;
pub mod geodesy;
pub mod grouping;
pub mod route_query;
pub mod routes_index;
pub mod segments;
pub mod sorting;
pub mod stops_index;
pub mod text;
pub mod transit_index;
pub mod trips_index;
pub mod util;
