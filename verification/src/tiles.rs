//! Tile-based map data for offline use: the compact tile format that stores
//! roads, POIs, areas and waterways relative to a 0.01 degree tile.
use vstd::prelude::*;

use crate::text::{int_decimal, push_decimal, string_from_chars};

verus! {

/// Errors that can occur when working with tiles.
#[derive(Debug, Clone)]
pub enum TileError {
    /// The data is shorter than the 5-byte header.
    DataTooShort,
    /// The data does not start with `MMAP`.
    InvalidMagic,
    /// The header names a version other than `TILE_VERSION`.
    UnsupportedVersion(u8),
    /// Encoding the tile body failed.
    SerializationFailed(String),
    /// Decoding the tile body failed.
    DeserializationFailed(String),
}

/// Errors that can occur when loading tiles from the filesystem.
#[derive(Debug, Clone)]
pub enum TileLoaderError {
    /// The tile directory does not exist.
    DirectoryNotFound(String),
    /// The tile index could not be read.
    IndexReadError(String),
    /// A tile file could not be read.
    TileReadError(String),
    /// A tile file could not be decoded.
    TileError(TileError),
}

/// Current tile format version.
pub const TILE_VERSION: u8 = 3;

/// Road types (match the renderer's road types).
#[derive(Debug, Clone, Copy, PartialEq, Eq, Structural)]
pub enum RoadType {
    Primary,
    Secondary,
}

/// POI types (match the renderer's POI types).
#[derive(Debug, Clone, Copy, PartialEq, Eq, Structural)]
pub enum PoiType {
    GasStation,
    Parking,
    ShoppingMall,
    CarWash,
    FastFood,
}

/// Area types for natural features.
#[derive(Debug, Clone, Copy, PartialEq, Eq, Structural)]
pub enum AreaType {
    /// Lakes, rivers, ponds
    Water,
    /// Forests, woods
    Forest,
    /// Parks, gardens
    Park,
    /// Meadows, grassland
    Grass,
}

/// Waterway types for linear water features.
#[derive(Debug, Clone, Copy, PartialEq, Eq, Structural)]
pub enum WaterwayType {
    /// Major rivers
    River,
    /// Streams, creeks
    Stream,
    /// Canals
    Canal,
}

/// A road stored in a tile (coordinates relative to tile origin).
#[derive(Debug, Clone)]
pub struct TileRoad {
    pub road_type: RoadType,
    /// Points as (x, y) offsets from tile origin, scaled by the coordinate scale.
    pub points: Vec<(i16, i16)>,
}

/// A POI stored in a tile.
#[derive(Debug, Clone)]
pub struct TilePoi {
    pub poi_type: PoiType,
    /// Position as (x, y) offset from tile origin, scaled by the coordinate scale.
    pub x: i16,
    pub y: i16,
}

/// An area (polygon) stored in a tile; the polygon is implicitly closed.
#[derive(Debug, Clone)]
pub struct TileArea {
    pub area_type: AreaType,
    /// Polygon points as (x, y) offsets from tile origin.
    pub points: Vec<(i16, i16)>,
}

/// A waterway (linear water feature) stored in a tile.
#[derive(Debug, Clone)]
pub struct TileWaterway {
    pub waterway_type: WaterwayType,
    /// Points as (x, y) offsets from tile origin.
    pub points: Vec<(i16, i16)>,
}

/// A complete tile with roads, POIs, areas, and waterways.
#[derive(Debug, Clone)]
pub struct Tile {
    /// Tile X coordinate (longitude / tile size, floored)
    pub tile_x: i32,
    /// Tile Y coordinate (latitude / tile size, floored)
    pub tile_y: i32,
    /// Roads in this tile
    pub roads: Vec<TileRoad>,
    /// POIs in this tile
    pub pois: Vec<TilePoi>,
    /// Areas (polygons) in this tile
    pub areas: Vec<TileArea>,
    /// Waterways (linear water features) in this tile
    pub waterways: Vec<TileWaterway>,
}

/// The magic bytes `MMAP` that open every tile file.
pub open spec fn tile_magic() -> Seq<u8> {
    seq![77u8, 77u8, 65u8, 80u8]
}

/// The encoded form of a tile: magic, version, then the body.
pub open spec fn tile_frame(body: Seq<u8>) -> Seq<u8> {
    tile_magic() + seq![TILE_VERSION] + body
}

/// The verdict on the header of an encoded tile: accepted (the body starts
/// at byte 5), or why it is refused.
pub open spec fn tile_header(data: Seq<u8>) -> Result<(), TileError> {
    if data.len() < 5 {
        Err(TileError::DataTooShort)
    } else if data.subrange(0, 4) != tile_magic() {
        Err(TileError::InvalidMagic)
    } else if data[4] != TILE_VERSION {
        Err(TileError::UnsupportedVersion(data[4]))
    } else {
        Ok(())
    }
}

impl Tile {
    /// Create a new empty tile.
    pub fn new(tile_x: i32, tile_y: i32) -> (r: Self)
        ensures
            r.tile_x == tile_x,
            r.tile_y == tile_y,
            r.roads@.len() == 0,
            r.pois@.len() == 0,
            r.areas@.len() == 0,
            r.waterways@.len() == 0,
    {
        Tile {
            tile_x,
            tile_y,
            roads: Vec::new(),
            pois: Vec::new(),
            areas: Vec::new(),
            waterways: Vec::new(),
        }
    }

    /// Frames an encoded tile body for storage: magic, version, body.
    pub fn encode_frame(body: &[u8]) -> (r: Vec<u8>)
        ensures
            r@ == tile_frame(body@),
    {
        let mut data: Vec<u8> = Vec::new();
        data.push(77u8);
        data.push(77u8);
        data.push(65u8);
        data.push(80u8);
        data.push(TILE_VERSION);
        let mut i: usize = 0;
        while i < body.len()
            invariant
                i <= body@.len(),
                data@ == tile_magic() + seq![TILE_VERSION] + body@.subrange(0, i as int),
            decreases body@.len() - i,
        {
            data.push(body[i]);
            i = i + 1;
            assert(data@ =~= tile_magic() + seq![TILE_VERSION] + body@.subrange(0, i as int));
        }
        assert(body@.subrange(0, i as int) =~= body@);
        data
    }

    /// Checks the header of an encoded tile; the body starts at byte 5.
    pub fn decode_header(data: &[u8]) -> (r: Result<(), TileError>)
        ensures
            r == tile_header(data@),
    {
        if data.len() < 5 {
            return Err(TileError::DataTooShort);
        }
        if !(data[0] == 77u8 && data[1] == 77u8 && data[2] == 65u8 && data[3] == 80u8) {
            proof {
                if data@.subrange(0, 4) == tile_magic() {
                    assert(data@[0] == data@.subrange(0, 4)[0]);
                    assert(data@[1] == data@.subrange(0, 4)[1]);
                    assert(data@[2] == data@.subrange(0, 4)[2]);
                    assert(data@[3] == data@.subrange(0, 4)[3]);
                }
            }
            return Err(TileError::InvalidMagic);
        }
        assert(data@.subrange(0, 4) =~= tile_magic());
        if data[4] != TILE_VERSION {
            return Err(TileError::UnsupportedVersion(data[4]));
        }
        Ok(())
    }
}

/// Decoding the header of a framed tile succeeds, and the body follows the
/// header unchanged.
pub proof fn lemma_tile_frame_roundtrip(body: Seq<u8>)
    ensures
        tile_header(tile_frame(body)) == Ok::<(), TileError>(()),
        tile_frame(body).subrange(5, tile_frame(body).len() as int) == body,
{
    let f = tile_frame(body);
    assert(f.subrange(0, 4) =~= tile_magic());
    assert(f.subrange(5, f.len() as int) =~= body);
}

/// The file name of a tile: `tile_{x}_{y}.bin`.
pub open spec fn tile_filename_chars(tile_x: i32, tile_y: i32) -> Seq<char> {
    seq!['t', 'i', 'l', 'e', '_'] + int_decimal(tile_x as int) + seq!['_'] + int_decimal(
        tile_y as int,
    ) + seq!['.', 'b', 'i', 'n']
}

/// Get the tile filename for the given coordinates.
pub fn tile_filename(tile_x: i32, tile_y: i32) -> (r: String)
    ensures
        r@ == tile_filename_chars(tile_x, tile_y),
{
    let mut v: Vec<char> = Vec::new();
    v.push('t');
    v.push('i');
    v.push('l');
    v.push('e');
    v.push('_');
    push_decimal(&mut v, tile_x);
    v.push('_');
    push_decimal(&mut v, tile_y);
    v.push('.');
    v.push('b');
    v.push('i');
    v.push('n');
    assert(v@ =~= tile_filename_chars(tile_x, tile_y));
    string_from_chars(&v)
}

/// The tiles held in memory at runtime, keyed by tile coordinates.
pub struct TileLoader {
    tile_dir: String,
    loaded_tiles: Vec<((i32, i32), Tile)>,
    available_tiles: Vec<(i32, i32)>,
}

impl TileLoader {
    /// Directory that holds the tile files.
    pub closed spec fn dir(&self) -> Seq<char> {
        self.tile_dir@
    }

    /// The loaded tiles with their coordinates, in loading order.
    pub closed spec fn entries(&self) -> Seq<((i32, i32), Tile)> {
        self.loaded_tiles@
    }

    /// The coordinates of the loaded tiles.
    pub open spec fn loaded_keys(&self) -> Seq<(i32, i32)> {
        self.entries().map_values(|e: ((i32, i32), Tile)| e.0)
    }

    /// The coordinates listed as available in the tile index.
    pub closed spec fn available(&self) -> Set<(i32, i32)> {
        self.available_tiles@.to_set()
    }

    /// A loader for `tile_dir` with the given available tiles and nothing
    /// loaded yet.
    pub fn new(tile_dir: String, available_tiles: Vec<(i32, i32)>) -> (r: Self)
        ensures
            r.dir() == tile_dir@,
            r.available() == available_tiles@.to_set(),
            r.loaded_keys().len() == 0,
    {
        let r = TileLoader { tile_dir, loaded_tiles: Vec::new(), available_tiles };
        assert(r.loaded_keys() =~= Seq::<(i32, i32)>::empty());
        r
    }

    /// Number of loaded tiles.
    pub fn loaded_count(&self) -> (r: usize)
        ensures
            r == self.loaded_keys().len(),
    {
        self.loaded_tiles.len()
    }

    /// Directory that holds the tile files.
    pub fn tile_dir(&self) -> (r: &str)
        ensures
            r@ == self.dir(),
    {
        self.tile_dir.as_str()
    }

    /// The loaded tiles with their coordinates.
    pub fn loaded_tiles(&self) -> (r: &Vec<((i32, i32), Tile)>)
        ensures
            r@ == self.entries(),
    {
        &self.loaded_tiles
    }

    /// Whether the index lists the tile.
    pub fn is_available(&self, tile_x: i32, tile_y: i32) -> (r: bool)
        ensures
            r == self.available().contains((tile_x, tile_y)),
    {
        let mut i: usize = 0;
        while i < self.available_tiles.len()
            invariant
                i <= self.available_tiles@.len(),
                forall|j: int| 0 <= j < i ==> self.available_tiles@[j] != (tile_x, tile_y),
            decreases self.available_tiles@.len() - i,
        {
            if self.available_tiles[i].0 == tile_x && self.available_tiles[i].1 == tile_y {
                assert(self.available_tiles@.to_set().contains(self.available_tiles@[i as int]));
                return true;
            }
            i = i + 1;
        }
        assert(!self.available_tiles@.contains((tile_x, tile_y)));
        false
    }

    /// Whether a tile is loaded.
    pub fn is_loaded(&self, tile_x: i32, tile_y: i32) -> (r: bool)
        ensures
            r == self.loaded_keys().contains((tile_x, tile_y)),
    {
        let mut i: usize = 0;
        while i < self.loaded_tiles.len()
            invariant
                i <= self.loaded_tiles@.len(),
                forall|j: int| 0 <= j < i ==> self.loaded_tiles@[j].0 != (tile_x, tile_y),
            decreases self.loaded_tiles@.len() - i,
        {
            if self.loaded_tiles[i].0.0 == tile_x && self.loaded_tiles[i].0.1 == tile_y {
                assert(self.loaded_keys()[i as int] == (tile_x, tile_y));
                return true;
            }
            i = i + 1;
        }
        assert(!self.loaded_keys().contains((tile_x, tile_y))) by {
            if self.loaded_keys().contains((tile_x, tile_y)) {
                let j = choose|j: int|
                    0 <= j < self.loaded_keys().len() && self.loaded_keys()[j] == (tile_x, tile_y);
                assert(self.loaded_tiles@[j].0 == (tile_x, tile_y));
            }
        }
        false
    }

    /// Drops the loaded tiles that are not among `visible`.
    pub fn retain_visible(&mut self, visible: &Vec<(i32, i32)>)
        ensures
            final(self).dir() == old(self).dir(),
            final(self).available() == old(self).available(),
            final(self).entries() == keep_visible(old(self).entries(), visible@),
    {
        let mut kept: Vec<((i32, i32), Tile)> = Vec::new();
        let ghost before = self.loaded_tiles@;
        let mut rest: Vec<((i32, i32), Tile)> = Vec::new();
        std::mem::swap(&mut rest, &mut self.loaded_tiles);
        assert(rest@ == before);
        let n = rest.len();
        let mut i: usize = 0;
        while i < n
            invariant
                i <= n,
                n == before.len(),
                rest@.len() == n - i,
                forall|j: int| 0 <= j < rest@.len() ==> rest@[j] == before[i + j],
                kept@ == keep_visible(before.subrange(0, i as int), visible@),
            decreases n - i,
        {
            let e = rest.remove(0);
            assert(e == before[i as int]);
            assert(before.subrange(0, i + 1).drop_last() =~= before.subrange(0, i as int));
            if contains_coord(visible, e.0) {
                kept.push(e);
            }
            i = i + 1;
        }
        assert(before.subrange(0, n as int) =~= before);
        self.loaded_tiles = kept;
    }

    /// The visible tiles to read: those the index lists and that are not
    /// loaded, in the order given.
    pub fn tiles_to_load(&self, visible: &Vec<(i32, i32)>) -> (r: Vec<(i32, i32)>)
        ensures
            r@ == to_load(visible@, self.available(), self.loaded_keys()),
    {
        let mut r: Vec<(i32, i32)> = Vec::new();
        let mut i: usize = 0;
        while i < visible.len()
            invariant
                i <= visible@.len(),
                r@ == to_load(visible@.subrange(0, i as int), self.available(), self.loaded_keys()),
            decreases visible@.len() - i,
        {
            let c = visible[i];
            assert(visible@.subrange(0, i + 1).drop_last() =~= visible@.subrange(0, i as int));
            if self.is_available(c.0, c.1) && !self.is_loaded(c.0, c.1) {
                r.push(c);
            }
            i = i + 1;
        }
        assert(visible@.subrange(0, visible@.len() as int) =~= visible@);
        r
    }

    /// Keeps a tile read from disk under its coordinates (replacing a tile
    /// loaded there before).
    pub fn insert_loaded(&mut self, key: (i32, i32), tile: Tile)
        ensures
            final(self).dir() == old(self).dir(),
            final(self).available() == old(self).available(),
            final(self).entries() == put_tile(old(self).entries(), key, tile),
    {
        let mut i: usize = 0;
        while i < self.loaded_tiles.len()
            invariant
                i <= self.loaded_tiles@.len(),
                self.loaded_tiles@ == old(self).loaded_tiles@,
                self.tile_dir == old(self).tile_dir,
                self.available_tiles == old(self).available_tiles,
                forall|j: int| 0 <= j < i ==> self.loaded_tiles@[j].0 != key,
            decreases self.loaded_tiles@.len() - i,
        {
            if self.loaded_tiles[i].0.0 == key.0 && self.loaded_tiles[i].0.1 == key.1 {
                let ghost pos = i as int;
                self.loaded_tiles.set(i, (key, tile));
                assert(first_with_key(old(self).loaded_tiles@, key) == pos) by {
                    lemma_first_with_key(old(self).loaded_tiles@, key, pos);
                }
                return;
            }
            i = i + 1;
        }
        proof {
            lemma_no_key(old(self).loaded_tiles@, key);
        }
        self.loaded_tiles.push((key, tile));
    }
}

/// Whether the list holds the coordinates.
fn contains_coord(v: &Vec<(i32, i32)>, c: (i32, i32)) -> (r: bool)
    ensures
        r == v@.contains(c),
{
    let mut i: usize = 0;
    while i < v.len()
        invariant
            i <= v@.len(),
            forall|j: int| 0 <= j < i ==> v@[j] != c,
        decreases v@.len() - i,
    {
        if v[i].0 == c.0 && v[i].1 == c.1 {
            assert(v@[i as int] == c);
            return true;
        }
        i = i + 1;
    }
    false
}

/// The loaded tiles whose coordinates are visible, in order.
pub open spec fn keep_visible(es: Seq<((i32, i32), Tile)>, visible: Seq<(i32, i32)>) -> Seq<
    ((i32, i32), Tile),
>
    decreases es.len(),
{
    if es.len() == 0 {
        Seq::empty()
    } else {
        let r = keep_visible(es.drop_last(), visible);
        if visible.contains(es.last().0) {
            r.push(es.last())
        } else {
            r
        }
    }
}

/// The coordinates to read: listed as available and not loaded, in order.
pub open spec fn to_load(
    visible: Seq<(i32, i32)>,
    available: Set<(i32, i32)>,
    loaded: Seq<(i32, i32)>,
) -> Seq<(i32, i32)>
    decreases visible.len(),
{
    if visible.len() == 0 {
        Seq::empty()
    } else {
        let r = to_load(visible.drop_last(), available, loaded);
        let c = visible.last();
        if available.contains(c) && !loaded.contains(c) {
            r.push(c)
        } else {
            r
        }
    }
}

/// Position of the first entry with the key (the length when none has it).
pub open spec fn first_with_key(es: Seq<((i32, i32), Tile)>, key: (i32, i32)) -> int
    decreases es.len(),
{
    if es.len() == 0 {
        0
    } else if es[0].0 == key {
        0
    } else {
        1 + first_with_key(es.drop_first(), key)
    }
}

/// The entries with a tile put under `key`: the first entry with that key
/// is replaced, or the tile is appended.
pub open spec fn put_tile(es: Seq<((i32, i32), Tile)>, key: (i32, i32), tile: Tile) -> Seq<
    ((i32, i32), Tile),
> {
    let i = first_with_key(es, key);
    if i < es.len() {
        es.update(i, (key, tile))
    } else {
        es.push((key, tile))
    }
}

proof fn lemma_first_with_key(es: Seq<((i32, i32), Tile)>, key: (i32, i32), pos: int)
    requires
        0 <= pos < es.len(),
        es[pos].0 == key,
        forall|j: int| 0 <= j < pos ==> es[j].0 != key,
    ensures
        first_with_key(es, key) == pos,
    decreases pos,
{
    if pos > 0 {
        lemma_first_with_key(es.drop_first(), key, pos - 1);
    }
}

proof fn lemma_no_key(es: Seq<((i32, i32), Tile)>, key: (i32, i32))
    requires
        forall|j: int| 0 <= j < es.len() ==> es[j].0 != key,
    ensures
        first_with_key(es, key) == es.len(),
    decreases es.len(),
{
    if es.len() > 0 {
        lemma_no_key(es.drop_first(), key);
    }
}

} // verus!
