use minimap::routing::algorithm::SingleTileRouter;
use minimap::routing::cache::{estimate_tile_memory, CacheConfig, CacheLookup, TileCache, TileKey};
use minimap::routing::hierarchy::{
    connect_to_local, levels_to_try, other_levels, select_level, GlobalNodeId,
};
use minimap::routing::router::{build_segments, get_road_name_from_tile, TurnInstruction};
use minimap::routing::search::{
    decode_index_value, encode_index_value, normalize_name, score_for, PlaceCategory,
};
use minimap::routing::tile::{
    parse_index_text, parse_tile_coords, parse_tile_filename, tile_coords_from_names, TileLoader,
    TileLoaderError,
};
use minimap::routing::turn::TurnType;
use minimap::routing::types::{
    HierarchyLevel, RoadClass, RoutingEdge, RoutingNode, RoutingTile, TileError,
};

/// A 3x3 grid of nodes 0.001 degrees apart, with two-way edges of 111 m
/// between horizontal and vertical neighbours.
fn create_test_tile() -> RoutingTile {
    let mut tile = RoutingTile::new(HierarchyLevel::Local, 0, 0);
    let base_lat = 47.0;
    let base_lon = 8.0;
    let spacing = 0.001;
    for row in 0..3 {
        for col in 0..3 {
            let lat = base_lat + row as f64 * spacing;
            let lon = base_lon + col as f64 * spacing;
            tile.nodes.push(RoutingNode::new(
                (lat * 1_000_000.0) as i32,
                (lon * 1_000_000.0) as i32,
            ));
        }
    }
    let mut edges = Vec::new();
    let add_edge = |edges: &mut Vec<(u32, u32)>, from: u32, to: u32| {
        edges.push((from, to));
        edges.push((to, from));
    };
    add_edge(&mut edges, 0, 1);
    add_edge(&mut edges, 1, 2);
    add_edge(&mut edges, 3, 4);
    add_edge(&mut edges, 4, 5);
    add_edge(&mut edges, 6, 7);
    add_edge(&mut edges, 7, 8);
    add_edge(&mut edges, 0, 3);
    add_edge(&mut edges, 3, 6);
    add_edge(&mut edges, 1, 4);
    add_edge(&mut edges, 4, 7);
    add_edge(&mut edges, 2, 5);
    add_edge(&mut edges, 5, 8);
    edges.sort_by_key(|(from, _)| *from);
    let mut current_node = 0u32;
    let mut edge_start = 0u32;
    for (i, (from, to)) in edges.iter().enumerate() {
        if *from != current_node {
            if current_node < tile.nodes.len() as u32 {
                tile.nodes[current_node as usize].first_edge = edge_start;
                tile.nodes[current_node as usize].edge_count = (i as u32 - edge_start) as u8;
            }
            edge_start = i as u32;
            current_node = *from;
        }
        tile.edges.push(RoutingEdge::new(*to, (111.0f64 * 100.0) as u32, RoadClass::Residential));
    }
    if current_node < tile.nodes.len() as u32 {
        tile.nodes[current_node as usize].first_edge = edge_start;
        tile.nodes[current_node as usize].edge_count =
            (tile.edges.len() as u32 - edge_start) as u8;
    }
    tile
}

fn route_distance_m(edges: &[RoutingEdge]) -> f64 {
    edges.iter().map(|e| e.distance_cm as f64 / 100.0).sum()
}

#[test]
fn test_find_path_simple() {
    let tile = create_test_tile();
    let router = SingleTileRouter::new(&tile);
    let heuristic = vec![0u32; tile.nodes.len()];
    let result = router.find_path(0, 8, &heuristic).expect("should find path");
    assert!(!result.path.is_empty());
    let total_distance_m = route_distance_m(&result.step_edges);
    assert!(total_distance_m > 400.0 && total_distance_m < 500.0);
}

#[test]
fn test_find_path_adjacent() {
    let tile = create_test_tile();
    let router = SingleTileRouter::new(&tile);
    let heuristic = vec![0u32; tile.nodes.len()];
    let result = router.find_path(0, 1, &heuristic).expect("should find path");
    assert_eq!(result.path.len(), 2);
    let total_distance_m = route_distance_m(&result.step_edges);
    assert!((total_distance_m - 111.0).abs() < 5.0);
}

#[test]
fn find_path_unreachable_and_missing_nodes() {
    let mut tile = create_test_tile();
    // An isolated tenth node.
    tile.nodes.push(RoutingNode::new(47_010_000, 8_010_000));
    let router = SingleTileRouter::new(&tile);
    let heuristic = vec![0u32; tile.nodes.len()];
    assert!(router.find_path(0, 9, &heuristic).is_none());
    assert!(router.find_path(0, 42, &heuristic).is_none());
    let same = router.find_path(4, 4, &heuristic).expect("a node reaches itself");
    assert_eq!(same.path.len(), 1);
    assert!(same.step_edges.is_empty());
}

#[test]
fn find_path_walks_along_edges() {
    let tile = create_test_tile();
    let router = SingleTileRouter::new(&tile);
    let heuristic = vec![0u32; tile.nodes.len()];
    let result = router.find_path(2, 6, &heuristic).expect("should find path");
    assert_eq!(result.path.len(), 5);
    assert_eq!(result.step_edges.len(), 4);
    assert_eq!(result.path[0].node_idx, 2);
    assert_eq!(result.path[4].node_idx, 6);
    for i in 0..4 {
        assert_eq!(result.step_edges[i].target, result.path[i + 1].node_idx);
    }
}

#[test]
fn test_create_test_tile_structure() {
    let tile = create_test_tile();
    assert_eq!(tile.nodes.len(), 9);
    assert_eq!(tile.level, HierarchyLevel::Local);
    assert_eq!(tile.tile_x, 0);
    assert_eq!(tile.tile_y, 0);
    assert!(!tile.edges.is_empty());
    let node0 = &tile.nodes[0];
    assert!(node0.edge_count > 0);
    let node4 = &tile.nodes[4];
    assert_eq!(node4.edge_count, 4);
}

#[test]
fn edges_and_weights_of_a_tile() {
    let tile = create_test_tile();
    assert!(tile.edge_blocks_valid());
    let edges = tile.edges_for_node(4);
    assert_eq!(edges.len(), 4);
    assert!(tile.edges_for_node(99).is_empty());
    // 111 m at 30 km/h: 18 * 11100 / 150 = 1332 centiseconds.
    assert_eq!(edges[0].weight(), 1332);
    assert!(tile.node(8).is_some());
    assert!(tile.node(9).is_none());
}

#[test]
fn test_cache_config_default() {
    let config = CacheConfig::default();
    assert_eq!(config.level1_capacity, 400);
    assert_eq!(config.level2_capacity, 400);
}

#[test]
fn cache_lookup_and_store() {
    let mut loader = TileLoader::new("tiles".to_string());
    loader.add_available(HierarchyLevel::Local, &vec![(1, 2)]);
    let mut cache = TileCache::new(
        loader,
        CacheConfig { level1_capacity: 1, level2_capacity: 1 },
    );
    assert_eq!(cache.lookup(HierarchyLevel::Local, 1, 2), CacheLookup::Load);
    assert_eq!(cache.lookup(HierarchyLevel::Local, 5, 5), CacheLookup::Unavailable);
    cache.store(HierarchyLevel::Local, 1, 2, RoutingTile::new(HierarchyLevel::Local, 1, 2));
    assert_eq!(cache.lookup(HierarchyLevel::Local, 1, 2), CacheLookup::Ready);
    assert!(cache.cached(HierarchyLevel::Local, 1, 2).is_some());
    assert_eq!(cache.stats().hits, 1);
    assert_eq!(cache.stats().misses, 2);
    assert_eq!(cache.stats().loads, 1);
    assert_eq!(cache.stats().evictions, 0);
    // A second local tile evicts the first one from a cache of one.
    cache.store(HierarchyLevel::Local, 3, 3, RoutingTile::new(HierarchyLevel::Local, 3, 3));
    assert_eq!(cache.stats().evictions, 1);
    assert_eq!(cache.cached_count(), (0, 1));
    assert!(cache.cached(HierarchyLevel::Local, 1, 2).is_none());
    cache.clear();
    assert_eq!(cache.cached_count(), (0, 0));
}

#[test]
fn cache_highway_graph() {
    let mut cache = TileCache::new(TileLoader::new("t".to_string()), CacheConfig::default());
    assert!(cache.needs_highway_graph());
    let missing = cache.initialize_with(Err(TileLoaderError::FileNotFound("g".to_string())));
    assert!(missing.is_ok());
    assert!(cache.highway_graph().is_none());
    let failed = cache.initialize_with(Err(TileLoaderError::IoError("disk".to_string())));
    assert!(failed.is_err());
    let ok = cache.initialize_with(Ok(RoutingTile::new(HierarchyLevel::Highway, 0, 0)));
    assert!(ok.is_ok());
    assert!(cache.highway_graph().is_some());
    assert_eq!(cache.lookup(HierarchyLevel::Highway, 7, 7), CacheLookup::Ready);
    assert!(cache.cached(HierarchyLevel::Highway, 7, 7).is_some());
    assert_eq!(cache.stats().hits, 0);
    assert_eq!(cache.stats().misses, 0);
}

#[test]
fn tile_memory_estimate() {
    let mut tile = create_test_tile();
    tile.boundary_nodes.push(3);
    tile.names.push("Main Street".to_string());
    // 9 nodes * 16 + 24 edges * 12 + 1 * 2 + 11 name bytes + 64.
    assert_eq!(estimate_tile_memory(&tile), 144 + 288 + 2 + 11 + 64);
    let mut cache = TileCache::new(TileLoader::new("t".to_string()), CacheConfig::default());
    let _ = cache.initialize_with(Ok(tile));
    assert_eq!(cache.memory_usage_estimate(), 509);
    // Cached tiles add their own estimates: an empty tile is 64 bytes.
    cache.store(HierarchyLevel::Local, 0, 0, RoutingTile::new(HierarchyLevel::Local, 0, 0));
    cache.store(HierarchyLevel::Arterial, 0, 0, RoutingTile::new(HierarchyLevel::Arterial, 0, 0));
    assert_eq!(cache.memory_usage_estimate(), 509 + 64 + 64);
}

#[test]
fn cache_evicts_least_recently_used() {
    let mut loader = TileLoader::new("tiles".to_string());
    loader.add_available(HierarchyLevel::Local, &vec![(0, 0), (1, 0), (2, 0)]);
    let mut cache = TileCache::new(loader, CacheConfig { level1_capacity: 2, level2_capacity: 2 });
    cache.store(HierarchyLevel::Local, 0, 0, RoutingTile::new(HierarchyLevel::Local, 0, 0));
    cache.store(HierarchyLevel::Local, 1, 0, RoutingTile::new(HierarchyLevel::Local, 1, 0));
    // Using (0, 0) makes (1, 0) the least recently used tile.
    assert_eq!(cache.lookup(HierarchyLevel::Local, 0, 0), CacheLookup::Ready);
    cache.store(HierarchyLevel::Local, 2, 0, RoutingTile::new(HierarchyLevel::Local, 2, 0));
    assert!(cache.cached(HierarchyLevel::Local, 1, 0).is_none());
    assert!(cache.cached(HierarchyLevel::Local, 0, 0).is_some());
    assert_eq!(cache.cached(HierarchyLevel::Local, 2, 0).unwrap().tile_x, 2);
    assert_eq!(cache.stats().evictions, 1);
    // Storing a cached position again replaces its tile without eviction.
    cache.store(HierarchyLevel::Local, 0, 0, RoutingTile::new(HierarchyLevel::Local, 9, 9));
    assert_eq!(cache.cached(HierarchyLevel::Local, 0, 0).unwrap().tile_x, 9);
    assert_eq!(cache.cached_count(), (0, 2));
}

#[test]
fn test_global_node_id() {
    let id = GlobalNodeId::new(HierarchyLevel::Local, 10, 20, 5);
    assert_eq!(id.level, HierarchyLevel::Local);
    assert_eq!(id.tile_x, 10);
    assert_eq!(id.tile_y, 20);
    assert_eq!(id.node_idx, 5);
}

#[test]
fn global_node_id_equality_is_by_location() {
    let id1 = GlobalNodeId::with_coords(HierarchyLevel::Local, 10, 20, 5, 47000000, 8000000);
    let id2 = GlobalNodeId::with_coords(HierarchyLevel::Local, 10, 20, 5, 47000000, 8000000);
    let id3 = GlobalNodeId::with_coords(HierarchyLevel::Local, 10, 20, 6, 47000100, 8000000);
    let id4 = GlobalNodeId::with_coords(HierarchyLevel::Arterial, 10, 20, 5, 47000000, 8000000);
    let id5 = GlobalNodeId::with_coords(HierarchyLevel::Local, 11, 20, 99, 47000000, 8000000);
    assert!(id1 == id2);
    assert!(id1 != id3);
    assert!(id1 != id4);
    assert!(id1 == id5);
    assert_eq!(id1.key(), id5.key());
}

#[test]
fn test_level_selection_short() {
    assert_eq!(select_level(4_000), HierarchyLevel::Local);
}

#[test]
fn test_level_selection_medium() {
    assert_eq!(select_level(25_000), HierarchyLevel::Arterial);
}

#[test]
fn test_level_selection_long() {
    assert_eq!(select_level(100_000), HierarchyLevel::Highway);
}

#[test]
fn level_selection_boundaries() {
    assert_eq!(select_level(4_999), HierarchyLevel::Local);
    assert_eq!(select_level(5_000), HierarchyLevel::Arterial);
    assert_eq!(select_level(49_999), HierarchyLevel::Arterial);
    assert_eq!(select_level(50_000), HierarchyLevel::Highway);
}

#[test]
fn levels_tried_and_transitions() {
    assert_eq!(
        levels_to_try(HierarchyLevel::Local),
        vec![HierarchyLevel::Local, HierarchyLevel::Arterial, HierarchyLevel::Highway]
    );
    assert_eq!(levels_to_try(HierarchyLevel::Highway), vec![HierarchyLevel::Highway]);
    assert_eq!(other_levels(HierarchyLevel::Local), vec![HierarchyLevel::Arterial]);
    assert_eq!(
        other_levels(HierarchyLevel::Arterial),
        vec![HierarchyLevel::Local, HierarchyLevel::Highway]
    );
}

#[test]
fn connecting_a_higher_level_route() {
    let ls = GlobalNodeId::with_coords(HierarchyLevel::Local, 0, 0, 0, 1, 1);
    let a = GlobalNodeId::with_coords(HierarchyLevel::Arterial, 0, 0, 3, 2, 2);
    let b = GlobalNodeId::with_coords(HierarchyLevel::Arterial, 0, 0, 4, 3, 3);
    let le_far = GlobalNodeId::with_coords(HierarchyLevel::Local, 0, 0, 7, 4, 4);
    let le_same = GlobalNodeId::with_coords(HierarchyLevel::Local, 0, 0, 8, 3, 3);
    let (path, levels) = connect_to_local(ls, &vec![a, b], b, le_far, HierarchyLevel::Arterial);
    assert_eq!(path.len(), 4);
    assert_eq!(levels, vec![HierarchyLevel::Local, HierarchyLevel::Arterial]);
    let (path2, _) = connect_to_local(ls, &vec![a, b], b, le_same, HierarchyLevel::Arterial);
    assert_eq!(path2.len(), 3);
}

#[test]
fn test_turn_instruction() {
    assert_eq!(TurnInstruction::Start, TurnInstruction::Start);
    assert_ne!(TurnInstruction::Start, TurnInstruction::Arrive);
}

#[test]
fn road_names_and_segments() {
    let mut tile = create_test_tile();
    tile.names.push("Bahnhofstrasse".to_string());
    tile.edges[0].name_id = 1;
    let to = tile.edges[0].target;
    assert_eq!(get_road_name_from_tile(&tile, 0, to), Some("Bahnhofstrasse".to_string()));
    assert_eq!(get_road_name_from_tile(&tile, 4, 5), None);
    let names = vec![Some("A".to_string()), None, Some("C".to_string())];
    let segs = build_segments(4, &names);
    assert_eq!(segs.len(), 3);
    assert_eq!(segs[0].instruction, TurnInstruction::Start);
    assert_eq!(segs[1].instruction, TurnInstruction::Continue);
    assert_eq!(segs[2].instruction, TurnInstruction::Arrive);
    assert_eq!(segs[2].road_name, Some("C".to_string()));
}

#[test]
fn test_normalize_name() {
    assert_eq!(normalize_name("Zürich"), "zürich");
    assert_eq!(normalize_name("New York"), "new york");
    assert_eq!(normalize_name("St. Gallen"), "st gallen");
    assert_eq!(normalize_name("  Hello  "), "hello");
}

#[test]
fn normalize_name_edge_cases() {
    assert_eq!(normalize_name(""), "");
    assert_eq!(normalize_name("!!!"), "");
    assert_eq!(normalize_name("ÄÖÜ-12"), "äöü12");
}

#[test]
fn test_place_category() {
    assert_eq!(PlaceCategory::from_u8(0), PlaceCategory::Settlement);
    assert_eq!(PlaceCategory::from_u8(1), PlaceCategory::Street);
    assert_eq!(PlaceCategory::from_u8(255), PlaceCategory::Other);
    assert_eq!(PlaceCategory::from_u8(99), PlaceCategory::Other);
}

#[test]
fn place_category_byte_roundtrip() {
    for c in [
        PlaceCategory::Settlement,
        PlaceCategory::Street,
        PlaceCategory::Poi,
        PlaceCategory::Transport,
        PlaceCategory::Natural,
        PlaceCategory::Other,
    ] {
        assert_eq!(PlaceCategory::from_u8(c.to_u8()), c);
    }
    assert_eq!(PlaceCategory::Other.to_u8(), 255);
}

#[test]
fn index_value_packing() {
    let v = encode_index_value(3, 42);
    assert_eq!(v, (3u64 << 40) | 42);
    assert_eq!(decode_index_value(v), (3, 42));
    // Counts are capped at 2^24 - 1, ids keep their low 40 bits.
    let big = encode_index_value(1 << 30, (1 << 41) + 7);
    assert_eq!(decode_index_value(big), (0xFF_FFFF, 7));
    assert_eq!(score_for(7, 3), 4);
    assert_eq!(score_for(3, 7), 4);
    assert_eq!(score_for(5, 5), 0);
}

#[test]
fn test_parse_tile_coords() {
    assert_eq!(parse_tile_coords("843,4714"), Some((843, 4714)));
    assert_eq!(parse_tile_coords("-10, 20"), Some((-10, 20)));
    assert_eq!(parse_tile_coords("invalid"), None);
}

#[test]
fn test_parse_tile_filename() {
    assert_eq!(parse_tile_filename("tile_843_4714.bin"), Some((843, 4714)));
    assert_eq!(parse_tile_filename("tile_-10_20.bin"), Some((-10, 20)));
    assert_eq!(parse_tile_filename("invalid.bin"), None);
}

#[test]
fn tile_index_and_directory_listing() {
    let coords = parse_index_text("843,4714\n\n-1,2\nbad\n843,4714\n");
    assert_eq!(coords, vec![(843, 4714), (-1, 2)]);
    let names = vec![
        "tile_1_2.bin".to_string(),
        "readme.txt".to_string(),
        "tile_3_-4.bin".to_string(),
    ];
    assert_eq!(tile_coords_from_names(&names), vec![(1, 2), (3, -4)]);
    let mut loader = TileLoader::new("/data/tiles".to_string());
    loader.add_available(HierarchyLevel::Arterial, &coords);
    assert!(loader.has_tile(HierarchyLevel::Arterial, -1, 2));
    assert!(!loader.has_tile(HierarchyLevel::Local, -1, 2));
    assert_eq!(loader.available_tiles(HierarchyLevel::Arterial).len(), 2);
    assert_eq!(TileLoader::level_dir_name(HierarchyLevel::Highway), "level0");
}

#[test]
fn routing_tile_frame() {
    let framed = RoutingTile::encode_frame(&[9, 8]);
    assert_eq!(&framed[0..4], b"RTIL");
    assert_eq!(framed[4], 2);
    assert_eq!(&framed[5..], &[9, 8]);
    assert_eq!(RoutingTile::decode_header(&framed).ok(), Some(2));
    assert!(matches!(RoutingTile::decode_header(&[1, 2]), Err(TileError::TooShort)));
    assert!(matches!(
        RoutingTile::decode_header(b"XXXX\x02"),
        Err(TileError::InvalidMagic)
    ));
    assert!(matches!(
        RoutingTile::decode_header(b"RTIL\x07"),
        Err(TileError::UnsupportedVersion(7))
    ));
}

#[test]
fn test_turn_type_roundtrip() {
    for i in 0..=9 {
        let turn = TurnType::from_int(i).unwrap();
        assert_eq!(turn.to_int(), i);
    }
}

#[test]
fn test_invalid_turn_type() {
    assert!(TurnType::from_int(-1).is_none());
    assert!(TurnType::from_int(100).is_none());
}

#[test]
fn test_routing_node_size() {
    assert_eq!(std::mem::size_of::<RoutingNode>(), 16);
}

#[test]
fn test_routing_edge_size() {
    assert_eq!(std::mem::size_of::<RoutingEdge>(), 12);
}

#[test]
fn test_hierarchy_levels() {
    assert_eq!(RoadClass::Motorway.hierarchy_level(), HierarchyLevel::Highway);
    assert_eq!(RoadClass::Secondary.hierarchy_level(), HierarchyLevel::Arterial);
    assert_eq!(RoadClass::Residential.hierarchy_level(), HierarchyLevel::Local);
}

#[test]
fn tile_key_and_speeds() {
    let k = TileKey::new(HierarchyLevel::Local, 1, 2);
    assert_eq!(k, TileKey::new(HierarchyLevel::Local, 1, 2));
    assert_eq!(RoadClass::Motorway.default_speed_kmh(), 120);
    assert_eq!(RoadClass::Service.default_speed_kmh(), 20);
}

#[test]
fn loader_paths() {
    let loader = TileLoader::new("tiles".to_string());
    assert_eq!(loader.level_dir(HierarchyLevel::Arterial), "tiles/routing/level1");
    assert_eq!(loader.tile_path(HierarchyLevel::Local, 843, -4714), "tiles/routing/level2/tile_843_-4714.bin");
}
