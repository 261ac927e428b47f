//! Offline map and routing library for a racing-game style minimap.
//!
//! The crate is organised in three parts:
//! - `map_core`: feature classification shared by the renderers;
//! - `tiles`: the compact map tile format (roads, POIs, areas, waterways);
//! - `routing`: the hierarchical routing graph, its tile format and the
//!   A* search over it.
pub mod map_core;
pub mod osm;
pub mod partition;
pub mod routing;
pub mod text;
pub mod tile_build;
pub mod tiles;
