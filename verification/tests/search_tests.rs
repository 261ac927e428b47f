use minimap::routing::search::{PlaceCategory, SearchIndex};
use minimap::routing::search_fst::name_map_bytes;
use minimap::routing::search_index::{PlaceInput, SearchIndexBuilder};

fn add(builder: &mut SearchIndexBuilder, name: &str, lat: f64, lon: f64, category: PlaceCategory) {
    builder.add(PlaceInput { name: name.to_string(), lat_bits: lat.to_bits(), lon_bits: lon.to_bits(), category });
}

fn sample_index() -> SearchIndex {
    let mut builder = SearchIndexBuilder::new();
    add(&mut builder, "Zurich", 47.3769, 8.5417, PlaceCategory::Settlement);
    add(&mut builder, "Zurich Airport", 47.4647, 8.5492, PlaceCategory::Transport);
    add(&mut builder, "Zug", 47.1724, 8.5172, PlaceCategory::Settlement);
    add(&mut builder, "Bern", 46.9481, 7.4474, PlaceCategory::Settlement);
    assert_eq!(builder.len(), 4);
    SearchIndex::from_builder(&builder).expect("keys in order")
}

#[test]
fn index_from_written_parts() {
    let mut builder = SearchIndexBuilder::new();
    add(&mut builder, "Bern", 46.9481, 7.4474, PlaceCategory::Settlement);
    add(&mut builder, "Basel", 47.5596, 7.5886, PlaceCategory::Settlement);
    let files = builder.index_files();
    let map = name_map_bytes(&files.keys).expect("keys in order");
    let index = SearchIndex::from_parts(map, files.entries, files.names).expect("readable name map");
    assert_eq!(index.entry_count(), 2);
    let results = index.prefix_search("b", 10);
    assert_eq!(results.len(), 2);
    assert_eq!(index.exact_search("basel").map(|r| r.name), Some("Basel".to_string()));
}

#[test]
fn test_search_index_roundtrip() {
    let index = sample_index();
    assert_eq!(index.entry_count(), 4);

    let results = index.prefix_search("zur", 10);
    assert_eq!(results.len(), 2);
    assert!(results.iter().any(|r| r.name == "Zurich"));
    assert!(results.iter().any(|r| r.name == "Zurich Airport"));

    let results = index.prefix_search("z", 10);
    assert_eq!(results.len(), 3);

    let result = index.exact_search("Bern").unwrap();
    assert_eq!(result.name, "Bern");
    assert!((f64::from_bits(result.record.lat_bits) - 46.9481).abs() < 0.0001);
}

#[test]
fn search_scores_limit_and_empty_query() {
    let index = sample_index();
    // "zurich" matches "zurich" (score 0) and "zurich airport" (score 8)
    let results = index.prefix_search("Zurich", 10);
    assert_eq!(results.len(), 2);
    assert_eq!(results[0].name, "Zurich");
    assert_eq!(results[0].score, 0);
    assert_eq!(results[1].score, 8);
    assert_eq!(index.prefix_search("z", 1).len(), 1);
    assert!(index.prefix_search("   ", 10).is_empty());
    assert!(index.prefix_search("x", 10).is_empty());
    assert!(index.exact_search("zur").is_none());
    assert!(index.exact_search("").is_none());
    assert_eq!(index.read_entry(0).map(|p| p.name), Some("Bern".to_string()));
    assert!(index.read_entry(4).is_none());
}

#[test]
fn name_map_needs_increasing_keys() {
    let keys = vec![(b"b".to_vec(), 1u64), (b"a".to_vec(), 2u64)];
    assert!(name_map_bytes(&keys).is_none());
    let keys = vec![(b"a".to_vec(), 1u64), (b"a".to_vec(), 2u64)];
    assert!(name_map_bytes(&keys).is_none());
    assert!(SearchIndex::from_parts(vec![1, 2, 3], Vec::new(), Vec::new()).is_none());
}
