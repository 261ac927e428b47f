use minimap::routing::algorithm::NodeRef;
use minimap::routing::lanes::{compute_recommended_lanes, LaneGuidance, LaneInfo, LaneTurn};
use minimap::routing::router::path_road_names;
use minimap::routing::search::{encode_index_value, PlaceCategory};
use minimap::routing::search_index::{
    collect_results, exact_result, push_entry, read_entry, read_record, EntryRecord, PlaceInput,
    SearchIndexBuilder,
};
use minimap::routing::turn::TurnType;
use minimap::routing::types::{HierarchyLevel, RoadClass};
use minimap::tile_build::{build_routing_tile, TileEdgeInput};

fn lanes(turns: &[LaneTurn]) -> LaneGuidance {
    LaneGuidance {
        total_lanes: turns.len() as u8,
        lanes: turns
            .iter()
            .map(|t| LaneInfo { turn: *t, is_recommended: false })
            .collect(),
        recommended_lane: 7,
        destination: Some("Zurich".to_string()),
    }
}

#[test]
fn test_lanes_left_turn() {
    let mut g = lanes(&[LaneTurn::Left, LaneTurn::Through, LaneTurn::Through, LaneTurn::Right]);
    compute_recommended_lanes(&mut g, TurnType::Left);
    let rec: Vec<bool> = g.lanes.iter().map(|l| l.is_recommended).collect();
    assert_eq!(rec, vec![true, false, false, false]);
    assert_eq!(g.recommended_lane, 0);
    assert_eq!(g.total_lanes, 4);
    assert_eq!(g.destination.as_deref(), Some("Zurich"));
}

#[test]
fn test_lanes_slight_right_takes_through_and_right() {
    let mut g = lanes(&[LaneTurn::Left, LaneTurn::Through, LaneTurn::Right, LaneTurn::UTurn]);
    compute_recommended_lanes(&mut g, TurnType::SlightRight);
    let rec: Vec<bool> = g.lanes.iter().map(|l| l.is_recommended).collect();
    assert_eq!(rec, vec![false, true, true, false]);
    assert_eq!(g.recommended_lane, 1);
}

#[test]
fn test_lanes_straight_accepts_unmarked() {
    let mut g = lanes(&[LaneTurn::Left, LaneTurn::Unmarked, LaneTurn::Through]);
    compute_recommended_lanes(&mut g, TurnType::Straight);
    let rec: Vec<bool> = g.lanes.iter().map(|l| l.is_recommended).collect();
    assert_eq!(rec, vec![false, true, true]);
    assert_eq!(g.recommended_lane, 1);
}

#[test]
fn test_lanes_no_suitable_lane_keeps_recommendation() {
    let mut g = lanes(&[LaneTurn::Through, LaneTurn::Right]);
    compute_recommended_lanes(&mut g, TurnType::UTurn);
    assert!(g.lanes.iter().all(|l| !l.is_recommended));
    assert_eq!(g.recommended_lane, 7);
}

fn edge(from: u32, tx: i32, ty: i32, to: u32, name: Option<&str>) -> TileEdgeInput {
    TileEdgeInput {
        from,
        to_tile_x: tx,
        to_tile_y: ty,
        to_idx: to,
        distance_cm: 1000 + from * 10 + to,
        road_class: RoadClass::Secondary,
        speed_kmh: 50,
        oneway: from == 2,
        name: name.map(|s| s.to_string()),
    }
}

#[test]
fn test_build_routing_tile_layout() {
    let nodes = vec![(47_000_000, 8_000_000), (47_001_000, 8_000_000), (47_002_000, 8_000_000)];
    let edges = vec![
        edge(1, 3, 4, 0, Some("Main")),
        edge(0, 3, 4, 1, Some("Main")),
        edge(1, 4, 4, 9, Some("Side")),
        edge(2, 3, 4, 1, None),
        edge(1, 3, 4, 2, Some("Hill")),
    ];
    let t = build_routing_tile(HierarchyLevel::Local, 3, 4, &nodes, &edges);
    assert_eq!(t.level, HierarchyLevel::Local);
    assert_eq!((t.tile_x, t.tile_y), (3, 4));
    assert_eq!(t.nodes.len(), 3);
    assert_eq!((t.nodes[1].lat, t.nodes[1].lon), (47_001_000, 8_000_000));
    // Edges grouped by source node, in input order within a node.
    assert_eq!((t.nodes[0].first_edge, t.nodes[0].edge_count), (0, 1));
    assert_eq!((t.nodes[1].first_edge, t.nodes[1].edge_count), (1, 2));
    assert_eq!((t.nodes[2].first_edge, t.nodes[2].edge_count), (3, 1));
    let targets: Vec<u32> = t.edges.iter().map(|e| e.target).collect();
    assert_eq!(targets, vec![1, 0, 2, 1]);
    // Cross-tile edges are named first.
    assert_eq!(t.names, vec!["Side".to_string(), "Main".to_string(), "Hill".to_string()]);
    let ids: Vec<u8> = t.edges.iter().map(|e| e.name_id).collect();
    assert_eq!(ids, vec![2, 2, 3, 0]);
    assert_eq!(t.edges[3].flags.0 & 1, 1);
    assert_eq!(t.edges[0].flags.0 & 1, 0);
    assert_eq!(t.cross_tile_edges.len(), 1);
    let c = t.cross_tile_edges[0];
    assert_eq!((c.source, c.target_tile_x, c.target_tile_y, c.target_node), (1, 4, 4, 9));
    assert_eq!(c.name_id, 1);
    assert_eq!(t.boundary_nodes, vec![1u16]);
    assert!(t.nodes[1].flags.is_boundary());
    assert!(!t.nodes[0].flags.is_boundary());
    assert!(t.edge_blocks_valid());
    // Path 0 -> 1 -> 2 is on "Main", then "Hill".
    let path: Vec<NodeRef> =
        [0u32, 1, 2].iter().map(|i| NodeRef::new(HierarchyLevel::Local, 3, 4, *i)).collect();
    let names = path_road_names(&t, &path);
    assert_eq!(names, vec![Some("Main".to_string()), Some("Hill".to_string())]);
}

#[test]
fn test_build_routing_tile_caps_edges_per_node() {
    let nodes = vec![(0, 0), (0, 1)];
    let mut edges = Vec::new();
    for _ in 0..300 {
        edges.push(edge(0, 0, 0, 1, None));
    }
    edges.push(edge(1, 0, 0, 0, None));
    let t = build_routing_tile(HierarchyLevel::Arterial, 0, 0, &nodes, &edges);
    assert_eq!(t.nodes[0].edge_count, 255);
    assert_eq!(t.nodes[1].first_edge, 255);
    assert_eq!(t.nodes[1].edge_count, 1);
    assert_eq!(t.edges.len(), 256);
    assert!(t.boundary_nodes.is_empty());
    assert!(t.names.is_empty());
}

#[test]
fn test_build_routing_tile_name_table_limit() {
    let nodes = vec![(0, 0), (0, 1)];
    let mut edges = Vec::new();
    let names: Vec<String> = (0..260).map(|i| format!("Street {}", i)).collect();
    for (i, n) in names.iter().enumerate() {
        let from = if i < 130 { 0 } else { 1 };
        edges.push(edge(from, 0, 0, 1 - from, Some(n)));
    }
    let t = build_routing_tile(HierarchyLevel::Local, 0, 0, &nodes, &edges);
    assert_eq!(t.edges.len(), 260);
    assert_eq!(t.names.len(), 255);
    assert_eq!(t.names[254], "Street 254");
    assert_eq!(t.edges[0].name_id, 1);
    assert_eq!(t.edges[254].name_id, 255);
    assert_eq!(t.edges[255].name_id, 0);
    assert_eq!(t.edges[259].name_id, 0);
}

fn record(lat: f64, lon: f64, cat: PlaceCategory, off: u32, len: u16) -> EntryRecord {
    EntryRecord {
        lat_bits: lat.to_bits(),
        lon_bits: lon.to_bits(),
        category: cat,
        name_offset: off,
        name_len: len,
    }
}

#[test]
fn test_entry_record_roundtrip() {
    let a = record(47.3769, 8.5417, PlaceCategory::Settlement, 0, 6);
    let b = record(-33.9, 151.2, PlaceCategory::Transport, 6, 13);
    let mut data = Vec::new();
    push_entry(&mut data, a);
    push_entry(&mut data, b);
    assert_eq!(data.len(), 46);
    assert_eq!(&data[0..8], &47.3769f64.to_le_bytes());
    assert_eq!(data[16], 0);
    assert_eq!(data[39], 3);
    assert_eq!(read_record(&data, 0), Some(a));
    assert_eq!(read_record(&data, 1), Some(b));
    assert_eq!(read_record(&data, 2), None);
    assert_eq!(f64::from_bits(read_record(&data, 1).unwrap().lat_bits), -33.9);
}

#[test]
fn test_read_entry_names() {
    let mut entries = Vec::new();
    push_entry(&mut entries, record(1.0, 2.0, PlaceCategory::Poi, 0, 4));
    push_entry(&mut entries, record(3.0, 4.0, PlaceCategory::Street, 4, 5));
    push_entry(&mut entries, record(5.0, 6.0, PlaceCategory::Street, 9, 10));
    let names = b"CafeBahnh".to_vec();
    let p = read_entry(&entries, &names, 0).unwrap();
    assert_eq!(p.name, "Cafe");
    assert_eq!(p.record.category, PlaceCategory::Poi);
    assert_eq!(read_entry(&entries, &names, 1).unwrap().name, "Bahnh");
    // Name runs past the end of the name file.
    assert!(read_entry(&entries, &names, 2).is_none());
    assert!(read_entry(&entries, &names, 3).is_none());
}

#[test]
fn test_read_entry_rejects_invalid_utf8() {
    let mut entries = Vec::new();
    push_entry(&mut entries, record(1.0, 2.0, PlaceCategory::Poi, 0, 2));
    let names = vec![0xff, 0xfe];
    assert!(read_entry(&entries, &names, 0).is_none());
}

fn three_place_files() -> (Vec<u8>, Vec<u8>) {
    let mut entries = Vec::new();
    let mut names = Vec::new();
    for (i, n) in ["Bern", "Bernina", "Berneck"].iter().enumerate() {
        push_entry(
            &mut entries,
            record(i as f64, 0.0, PlaceCategory::Settlement, names.len() as u32, n.len() as u16),
        );
        names.extend_from_slice(n.as_bytes());
    }
    (entries, names)
}

#[test]
fn test_collect_results_sorted_by_score() {
    let (entries, names) = three_place_files();
    let matches = vec![
        (b"berneck".to_vec(), encode_index_value(1, 2)),
        (b"bern".to_vec(), encode_index_value(1, 0)),
        (b"bernina".to_vec(), encode_index_value(1, 1)),
    ];
    let r = collect_results(&matches, 4, 10, &entries, &names);
    let got: Vec<(&str, u32)> = r.iter().map(|x| (x.name.as_str(), x.score)).collect();
    assert_eq!(got, vec![("Bern", 0), ("Berneck", 3), ("Bernina", 3)]);
}

#[test]
fn test_collect_results_limit() {
    let (entries, names) = three_place_files();
    let matches = vec![
        (b"bern".to_vec(), encode_index_value(3, 0)),
        (b"berneck".to_vec(), encode_index_value(1, 2)),
    ];
    let r = collect_results(&matches, 4, 2, &entries, &names);
    let got: Vec<&str> = r.iter().map(|x| x.name.as_str()).collect();
    assert_eq!(got, vec!["Bern", "Bernina"]);
    assert!(collect_results(&matches, 4, 0, &entries, &names).is_empty());
}

#[test]
fn test_exact_result() {
    let (entries, names) = three_place_files();
    let r = exact_result(encode_index_value(2, 1), &entries, &names).unwrap();
    assert_eq!(r.name, "Bernina");
    assert_eq!(r.score, 0);
    assert!(exact_result(encode_index_value(1, 5), &entries, &names).is_none());
}

fn place(name: &str, lat: f64, cat: PlaceCategory) -> PlaceInput {
    PlaceInput { name: name.to_string(), lat_bits: lat.to_bits(), lon_bits: 0f64.to_bits(), category: cat }
}

#[test]
fn test_builder_groups_and_reads_back() {
    let mut b = SearchIndexBuilder::new();
    assert!(b.is_empty());
    b.add(place("Zürich HB", 47.378, PlaceCategory::Transport));
    b.add(place("Bern", 46.948, PlaceCategory::Settlement));
    b.add(place("BERN", 46.9, PlaceCategory::Other));
    b.add(place("  ", 0.0, PlaceCategory::Other));
    assert_eq!(b.len(), 3);
    let f = b.index_files();
    let keys: Vec<(String, u64)> =
        f.keys.iter().map(|(k, v)| (String::from_utf8(k.clone()).unwrap(), *v)).collect();
    assert_eq!(
        keys,
        vec![("bern".to_string(), (2u64 << 40) | 0), ("zürich hb".to_string(), (1u64 << 40) | 2)]
    );
    assert_eq!(f.entries.len(), 3 * 23);
    assert_eq!(f.names, "BernBERNZürich HB".as_bytes().to_vec());
    let p = read_entry(&f.entries, &f.names, 1).unwrap();
    assert_eq!(p.name, "BERN");
    assert_eq!(p.record.category, PlaceCategory::Other);
    assert_eq!(f64::from_bits(p.record.lat_bits), 46.9);
    let hb = read_entry(&f.entries, &f.names, 2).unwrap();
    assert_eq!(hb.name, "Zürich HB");
    let r = collect_results(&f.keys, 4, 10, &f.entries, &f.names);
    let got: Vec<&str> = r.iter().map(|x| x.name.as_str()).collect();
    assert_eq!(got, vec!["Bern", "BERN", "Zürich HB"]);
}

use minimap::partition::{
    encode_tile_index, partition_by_level, way_edges, GraphEdgeInput, NodePlace, WayInfo,
};

fn gedge(from: i64, to: i64, class: RoadClass, name: &str) -> GraphEdgeInput {
    GraphEdgeInput {
        from,
        to,
        distance_cm: 5000,
        road_class: class,
        speed_kmh: 30,
        oneway: false,
        name: Some(name.to_string()),
    }
}

fn nplace(tx: i32, ty: i32, lat: i32, lon: i32) -> NodePlace {
    NodePlace { tile_x: tx, tile_y: ty, lat, lon }
}

#[test]
fn test_partition_by_level_canonical_tiles() {
    let places = vec![
        (1, nplace(0, 0, 100, 200)),
        (2, nplace(0, 0, 110, 210)),
        (3, nplace(1, 0, 120, 10_220)),
        (1, nplace(5, 5, 0, 0)),
    ];
    let edges = vec![
        gedge(1, 2, RoadClass::Residential, "A"),
        gedge(2, 1, RoadClass::Residential, "A"),
        gedge(2, 3, RoadClass::Service, "B"),
        gedge(3, 2, RoadClass::Service, "B"),
        gedge(3, 4, RoadClass::Residential, "C"),
        gedge(1, 3, RoadClass::Motorway, "M"),
    ];
    let tiles = partition_by_level(&edges, &places, HierarchyLevel::Local);
    assert_eq!(tiles.len(), 2);
    let a = &tiles[0];
    assert_eq!((a.tile_x, a.tile_y), (0, 0));
    assert_eq!(a.level, HierarchyLevel::Local);
    let coords: Vec<(i32, i32)> = a.nodes.iter().map(|n| (n.lat, n.lon)).collect();
    assert_eq!(coords, vec![(100, 200), (110, 210)]);
    let targets: Vec<u32> = a.edges.iter().map(|e| e.target).collect();
    assert_eq!(targets, vec![1, 0]);
    assert_eq!(a.cross_tile_edges.len(), 1);
    let c = a.cross_tile_edges[0];
    assert_eq!((c.source, c.target_tile_x, c.target_tile_y, c.target_node), (1, 1, 0, 0));
    assert_eq!(a.names, vec!["B".to_string(), "A".to_string()]);
    assert_eq!(a.boundary_nodes, vec![1u16]);
    let b = &tiles[1];
    assert_eq!((b.tile_x, b.tile_y), (1, 0));
    assert_eq!(b.nodes.len(), 1);
    assert_eq!((b.nodes[0].lat, b.nodes[0].lon), (120, 10_220));
    assert!(b.edges.is_empty());
    assert_eq!(b.cross_tile_edges.len(), 1);
    let c = b.cross_tile_edges[0];
    assert_eq!((c.source, c.target_tile_x, c.target_tile_y, c.target_node), (0, 0, 0, 1));
    assert_eq!(b.boundary_nodes, vec![0u16]);
    // The highway level only sees the motorway edge.
    let hw = partition_by_level(&edges, &places, HierarchyLevel::Highway);
    assert_eq!(hw.len(), 2);
    assert_eq!(hw[0].nodes.len(), 1);
    assert_eq!(hw[0].cross_tile_edges.len(), 1);
    // No edges at the arterial level: no tiles.
    assert!(partition_by_level(&edges, &places, HierarchyLevel::Arterial).is_empty());
}

#[test]
fn test_way_edges_two_way_and_one_way() {
    let mut way = WayInfo {
        nodes: vec![10, 11, 12],
        road_class: RoadClass::Tertiary,
        oneway: false,
        speed_kmh: 50,
        name: Some("Ring".to_string()),
    };
    let lengths = vec![Some(500), None];
    let e = way_edges(&way, &lengths);
    let got: Vec<(i64, i64, u32, bool)> =
        e.iter().map(|g| (g.from, g.to, g.distance_cm, g.oneway)).collect();
    assert_eq!(got, vec![(10, 11, 500, false), (11, 10, 500, false)]);
    assert_eq!(e[1].name.as_deref(), Some("Ring"));
    way.oneway = true;
    let e = way_edges(&way, &vec![Some(500), Some(700)]);
    let got: Vec<(i64, i64, u32, bool)> =
        e.iter().map(|g| (g.from, g.to, g.distance_cm, g.oneway)).collect();
    assert_eq!(got, vec![(10, 11, 500, true), (11, 12, 700, true)]);
}

#[test]
fn test_encode_tile_index() {
    let bytes = encode_tile_index(&vec![(1, -1), (-2, 300)]);
    assert_eq!(
        bytes,
        vec![2, 0, 0, 0, 1, 0, 0, 0, 255, 255, 255, 255, 254, 255, 255, 255, 44, 1, 0, 0]
    );
    assert_eq!(encode_tile_index(&Vec::new()), vec![0, 0, 0, 0]);
}

#[test]
fn partition_tiles_layout() {
    let places = vec![
        (1, nplace(0, 0, 100, 200)),
        (2, nplace(0, 0, 110, 210)),
        (3, nplace(1, 0, 120, 10_220)),
        (5, nplace(0, 0, 130, 230)),
    ];
    let edges = vec![
        gedge(1, 2, RoadClass::Residential, "A"),
        gedge(5, 1, RoadClass::Residential, "D"),
        gedge(2, 1, RoadClass::Residential, "A"),
        gedge(2, 3, RoadClass::Service, "B"),
        gedge(1, 5, RoadClass::Residential, "D"),
    ];
    let tiles = partition_by_level(&edges, &places, HierarchyLevel::Local);
    for t in &tiles {
        let n = t.nodes.len();
        if n > 0 {
            assert_eq!(t.nodes[0].first_edge, 0);
            let last = &t.nodes[n - 1];
            assert_eq!(last.first_edge as usize + last.edge_count as usize, t.edges.len());
        }
        for i in 1..n {
            assert_eq!(t.nodes[i].first_edge, t.nodes[i - 1].first_edge + t.nodes[i - 1].edge_count as u32);
        }
        assert!(t.edges.iter().all(|e| (e.target as usize) < n));
        for c in &t.cross_tile_edges {
            assert!((c.source as usize) < n);
            assert_ne!((c.target_tile_x, c.target_tile_y), (t.tile_x, t.tile_y));
        }
        let mut sources: Vec<u16> = t.cross_tile_edges.iter().map(|c| c.source as u16).collect();
        sources.sort();
        sources.dedup();
        assert_eq!(t.boundary_nodes, sources);
    }
    // node 1 has edges to 2 and 5: its block holds two edges
    let a = &tiles[0];
    assert_eq!((a.nodes[0].first_edge, a.nodes[0].edge_count), (0, 2));
}
