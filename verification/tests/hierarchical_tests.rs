use std::collections::HashMap;

use minimap::routing::cache::{CacheConfig, CacheLookup, TileCache};
use minimap::routing::hierarchical::{
    path_step_edge, HierarchicalRoute, HierarchicalRouter, HierarchicalSearch, SearchStep,
};
use minimap::routing::hierarchy::GlobalNodeId;
use minimap::routing::tile::TileLoader;
use minimap::routing::types::{
    CrossTileEdge, HierarchyLevel, RoadClass, RoutingEdge, RoutingNode, RoutingTile,
};

type Store = HashMap<(HierarchyLevel, i32, i32), RoutingTile>;

fn tile_size_micro(level: HierarchyLevel) -> i64 {
    match level {
        HierarchyLevel::Highway => 1_000_000,
        HierarchyLevel::Arterial => 100_000,
        HierarchyLevel::Local => 10_000,
    }
}

fn tile_of(lat: i32, lon: i32, level: HierarchyLevel) -> (i32, i32) {
    let s = tile_size_micro(level);
    ((lon as i64).div_euclid(s) as i32, (lat as i64).div_euclid(s) as i32)
}

/// Runs a search to the end, loading tiles from `store` on demand.
fn run(search: &mut HierarchicalSearch, cache: &mut TileCache, store: &Store) -> Option<HierarchicalRoute> {
    for _ in 0..10_000 {
        match search.advance(cache) {
            SearchStep::Continue => {}
            SearchStep::NeedTile(l, x, y) => {
                if cache.lookup(l, x, y) == CacheLookup::Load {
                    if let Some(t) = store.get(&(l, x, y)) {
                        cache.store(l, x, y, t.clone());
                    }
                }
            }
            SearchStep::NeedNodeTiles(lat, lon) => {
                let tiles = vec![
                    tile_of(lat, lon, HierarchyLevel::Highway),
                    tile_of(lat, lon, HierarchyLevel::Arterial),
                    tile_of(lat, lon, HierarchyLevel::Local),
                ];
                search.set_node_tiles(tiles);
            }
            SearchStep::NeedHeuristics => {
                let n = search.heuristic_points().len();
                search.set_heuristics(vec![0; n]);
            }
            SearchStep::Found(route) => return Some(route),
            SearchStep::NotFound => return None,
        }
    }
    panic!("search did not finish");
}

/// Two local tiles side by side: tile (0, 0) holds nodes A(0) -> B(1),
/// and B has a cross-tile edge to node C(0) of tile (1, 0). An arterial
/// tile holds a node at C's location.
fn world() -> (TileCache, Store) {
    let mut t0 = RoutingTile::new(HierarchyLevel::Local, 0, 0);
    t0.nodes.push(RoutingNode::new(5_000, 1_000));
    t0.nodes.push(RoutingNode::new(5_000, 9_000));
    t0.nodes[0].first_edge = 0;
    t0.nodes[0].edge_count = 1;
    t0.nodes[1].first_edge = 1;
    t0.nodes[1].edge_count = 0;
    t0.edges.push(RoutingEdge::new(1, 80_000, RoadClass::Residential));
    t0.cross_tile_edges.push(CrossTileEdge::new(1, 1, 0, 0, 30_000, RoadClass::Residential));
    let mut t1 = RoutingTile::new(HierarchyLevel::Local, 1, 0);
    t1.nodes.push(RoutingNode::new(5_000, 12_000));
    let mut a = RoutingTile::new(HierarchyLevel::Arterial, 0, 0);
    a.nodes.push(RoutingNode::new(5_000, 12_000));
    let mut store = Store::new();
    store.insert((HierarchyLevel::Local, 0, 0), t0);
    store.insert((HierarchyLevel::Local, 1, 0), t1);
    store.insert((HierarchyLevel::Arterial, 0, 0), a);
    let mut loader = TileLoader::new("mem".to_string());
    loader.add_available(HierarchyLevel::Local, &vec![(0, 0), (1, 0)]);
    loader.add_available(HierarchyLevel::Arterial, &vec![(0, 0)]);
    (TileCache::new(loader, CacheConfig::default()), store)
}

fn node(level: HierarchyLevel, tx: i32, ty: i32, idx: u32, lat: i32, lon: i32) -> GlobalNodeId {
    GlobalNodeId::with_coords(level, tx, ty, idx, lat, lon)
}

#[test]
fn single_level_route_across_tiles() {
    let (mut cache, store) = world();
    let router = HierarchicalRouter::new();
    assert_eq!(router.max_nodes, 500_000);
    let start = node(HierarchyLevel::Local, 0, 0, 0, 5_000, 1_000);
    let end = node(HierarchyLevel::Local, 1, 0, 0, 5_000, 12_000);
    let mut search = router.astar(start, end, HierarchyLevel::Local);
    let route = run(&mut search, &mut cache, &store).expect("route");
    assert_eq!(route.path.len(), 3);
    assert_eq!(route.path[0].node_idx, 0);
    assert_eq!(route.path[1].node_idx, 1);
    assert_eq!((route.path[2].tile_x, route.path[2].node_idx), (1, 0));
    assert_eq!(route.levels_used, vec![HierarchyLevel::Local]);
    assert!(route.nodes_explored >= 3);
}

#[test]
fn no_route_against_the_edges() {
    let (mut cache, store) = world();
    let router = HierarchicalRouter::new();
    let start = node(HierarchyLevel::Local, 1, 0, 0, 5_000, 12_000);
    let end = node(HierarchyLevel::Local, 0, 0, 0, 5_000, 1_000);
    let mut search = router.astar(start, end, HierarchyLevel::Local);
    assert!(run(&mut search, &mut cache, &store).is_none());
}

#[test]
fn missing_end_tile_gives_no_route() {
    let (mut cache, store) = world();
    let router = HierarchicalRouter::new();
    let start = node(HierarchyLevel::Local, 0, 0, 0, 5_000, 1_000);
    let end = node(HierarchyLevel::Local, 7, 7, 0, 0, 0);
    let mut search = router.astar(start, end, HierarchyLevel::Local);
    assert!(run(&mut search, &mut cache, &store).is_none());
}

#[test]
fn multi_level_route_reaches_the_location_on_another_level() {
    let (mut cache, store) = world();
    let router = HierarchicalRouter::new();
    let start = node(HierarchyLevel::Local, 0, 0, 0, 5_000, 1_000);
    // The goal is the arterial node at C's location; any node there counts.
    let end = node(HierarchyLevel::Arterial, 0, 0, 0, 5_000, 12_000);
    let mut search = router.astar_multi_level(start, end);
    let route = run(&mut search, &mut cache, &store).expect("route");
    let last = route.path.last().unwrap();
    assert_eq!((last.lat_micro, last.lon_micro), (5_000, 12_000));
    assert!(route.levels_used.contains(&last.level));
}

#[test]
fn node_limit_stops_the_search() {
    let (mut cache, store) = world();
    let router = HierarchicalRouter::new().with_max_nodes(2);
    let start = node(HierarchyLevel::Local, 0, 0, 0, 5_000, 1_000);
    let end = node(HierarchyLevel::Local, 1, 0, 0, 5_000, 12_000);
    let mut search = router.astar(start, end, HierarchyLevel::Local);
    assert!(run(&mut search, &mut cache, &store).is_none());
}

#[test]
fn route_step_edges() {
    let (_, store) = world();
    let t0 = &store[&(HierarchyLevel::Local, 0, 0)];
    let a = node(HierarchyLevel::Local, 0, 0, 0, 5_000, 1_000);
    let b = node(HierarchyLevel::Local, 0, 0, 1, 5_000, 9_000);
    let c = node(HierarchyLevel::Local, 1, 0, 0, 5_000, 12_000);
    assert_eq!(path_step_edge(t0, a, b, false), Some((80_000, 30)));
    assert_eq!(path_step_edge(t0, b, c, false), Some((30_000, 30)));
    assert_eq!(path_step_edge(t0, b, a, false), None);
    let c_art = node(HierarchyLevel::Arterial, 1, 0, 0, 5_000, 12_000);
    assert_eq!(path_step_edge(t0, b, c_art, true), None);
    assert_eq!(path_step_edge(t0, b, c_art, false), Some((30_000, 30)));
}
