//! Pedestrian severance analysis on street networks.

pub mod builder;
pub mod create;
pub mod decimal;
pub mod disconnected;
pub mod error;
pub mod fix_osm;
pub mod geometry;
pub mod graph;
pub mod isochrone;
pub mod join_lines;
pub mod mercator;
pub mod model;
pub mod osm;
pub mod osm_reader;
pub mod profiles;
pub mod route;
pub mod router;
pub mod scores;
pub mod settings;
pub mod severance;
pub mod tags;
