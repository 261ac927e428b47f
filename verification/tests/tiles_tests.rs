use minimap::partition::{decode_tile_index, encode_tile_index};
use minimap::routing::tile::level_tiles;
use minimap::tiles::{tile_filename, Tile, TileError, TileLoader};

#[test]
fn tile_file_names() {
    assert_eq!(tile_filename(843, 4714), "tile_843_4714.bin");
    assert_eq!(tile_filename(-10, 20), "tile_-10_20.bin");
}

#[test]
fn tile_frame_and_header() {
    let framed = Tile::encode_frame(&[1, 2, 3]);
    assert_eq!(&framed[0..4], b"MMAP");
    assert_eq!(framed[4], 3);
    assert!(Tile::decode_header(&framed).is_ok());
    assert!(matches!(Tile::decode_header(&[0]), Err(TileError::DataTooShort)));
    assert!(matches!(Tile::decode_header(b"NOPE\x03"), Err(TileError::InvalidMagic)));
    assert!(matches!(Tile::decode_header(b"MMAP\x04"), Err(TileError::UnsupportedVersion(4))));
}

#[test]
fn new_tile_and_loader() {
    let t = Tile::new(3, -4);
    assert_eq!((t.tile_x, t.tile_y), (3, -4));
    assert!(t.roads.is_empty());
    let loader = TileLoader::new("tiles".to_string(), vec![(3, -4)]);
    assert_eq!(loader.loaded_count(), 0);
}

#[test]
fn test_map_loader_visible_tiles() {
    let mut loader = minimap::tiles::TileLoader::new("tiles".to_string(), vec![(0, 0), (1, 0)]);
    assert_eq!(loader.tile_dir(), "tiles");
    let visible = vec![(0, 0), (2, 0), (1, 0)];
    assert_eq!(loader.tiles_to_load(&visible), vec![(0, 0), (1, 0)]);
    loader.insert_loaded((0, 0), minimap::tiles::Tile::new(0, 0));
    assert_eq!(loader.loaded_count(), 1);
    assert!(loader.is_loaded(0, 0));
    assert_eq!(loader.tiles_to_load(&visible), vec![(1, 0)]);
    loader.insert_loaded((0, 0), minimap::tiles::Tile::new(0, 0));
    assert_eq!(loader.loaded_count(), 1);
    loader.insert_loaded((1, 0), minimap::tiles::Tile::new(1, 0));
    loader.retain_visible(&vec![(1, 0), (5, 5)]);
    assert_eq!(loader.loaded_count(), 1);
    assert_eq!(loader.loaded_tiles()[0].0, (1, 0));
    assert!(!loader.is_available(2, 0));
}

#[test]
fn test_parse_map_index() {
    let idx = minimap::routing::tile::parse_map_index("3,4\n-1,2\r\n1, 2\n5,6,7\n#x\n3,4\n+7,8");
    assert_eq!(idx, vec![(3, 4), (-1, 2), (7, 8)]);
    assert!(minimap::routing::tile::parse_map_index("").is_empty());
    // A carriage return belongs to the line break that follows it only.
    assert_eq!(minimap::routing::tile::parse_map_index("3,4\r\n"), vec![(3, 4)]);
    assert!(minimap::routing::tile::parse_map_index("3,4\r").is_empty());
}

#[test]
fn test_index_text_reads_back() {
    let coords = vec![(3, 4), (-1, 2), (0, -70)];
    let text = minimap::routing::tile::write_index_text(&coords);
    assert_eq!(text, "3,4\n-1,2\n0,-70\n");
    assert_eq!(minimap::routing::tile::parse_map_index(&text), coords);
    assert_eq!(minimap::routing::tile::parse_index_text(&text), coords);
    assert_eq!(minimap::routing::tile::write_index_text(&Vec::new()), "");
}

#[test]
fn tile_index_bin_roundtrip_and_level_tiles() {
    let coords = vec![(3, -4), (-2147483648, 2147483647), (0, 0)];
    let bytes = encode_tile_index(&coords);
    assert_eq!(bytes.len(), 4 + 8 * 3);
    assert_eq!(decode_tile_index(&bytes), Some(coords.clone()));
    assert_eq!(decode_tile_index(&bytes[..bytes.len() - 1]), None);
    assert_eq!(decode_tile_index(&[1, 0]), None);
    // index.bin wins over index.txt and the file names
    let names = vec!["tile_7_8.bin".to_string()];
    assert_eq!(level_tiles(Some(bytes.clone()), Some("1,2\n".to_string()), &names), coords);
    // an unreadable index.bin falls back to index.txt, then to the file names
    assert_eq!(level_tiles(Some(vec![9]), Some("1,2\n".to_string()), &names), vec![(1, 2)]);
    assert_eq!(level_tiles(None, None, &names), vec![(7, 8)]);
}
