//! LRU tile cache for memory-constrained routing.
//!
//! - Level 0 (Highway): the merged highway graph stays in memory; without
//!   it, highway tiles share the arterial cache
//! - Level 1 (Arterial): LRU cache with configurable capacity
//! - Level 2 (Local): LRU cache with configurable capacity
//!
//! Reading tile files is left to the caller: `lookup` decides whether a tile
//! is cached, missing, or must be read, and `store` takes a tile read from
//! disk.
use vstd::prelude::*;

use lru::LruCache;

use crate::routing::tile::{TileLoader, TileLoaderError};
use crate::routing::types::{HierarchyLevel, RoutingTile};

verus! {

#[verifier::external_type_specification]
#[verifier::external_body]
#[verifier::reject_recursive_types(K)]
#[verifier::reject_recursive_types(V)]
#[verifier::reject_recursive_types(S)]
pub struct ExLruCache<K, V, S>(lru::LruCache<K, V, S>);

#[verifier::external_type_specification]
#[verifier::external_body]
pub struct ExLruDefaultHasher(lru::DefaultHasher);

/// The tiles held by an LRU tile cache, by tile coordinates.
pub uninterp spec fn lru_entries(cache: LruCache<(i32, i32), RoutingTile>) -> Map<
    (i32, i32),
    RoutingTile,
>;

/// The capacity an LRU tile cache was made with.
pub uninterp spec fn lru_capacity(cache: LruCache<(i32, i32), RoutingTile>) -> nat;

/// The keys of an LRU tile cache from the most to the least recently
/// used.
pub uninterp spec fn lru_recency(cache: LruCache<(i32, i32), RoutingTile>) -> Seq<(i32, i32)>;

/// The keys of `r` other than `k`, in order.
pub open spec fn drop_key(r: Seq<(i32, i32)>, k: (i32, i32)) -> Seq<(i32, i32)>
    decreases r.len(),
{
    if r.len() == 0 {
        Seq::empty()
    } else if r[0] == k {
        drop_key(r.drop_first(), k)
    } else {
        seq![r[0]] + drop_key(r.drop_first(), k)
    }
}

/// The recency order after `k` is used: it moves to the front.
pub open spec fn to_front(r: Seq<(i32, i32)>, k: (i32, i32)) -> Seq<(i32, i32)> {
    seq![k] + drop_key(r, k)
}

/// `LruCache::new`: an empty cache of capacity `cap`.
#[verifier::external_body]
fn lru_new(cap: usize) -> (r: LruCache<(i32, i32), RoutingTile>)
    requires
        cap > 0,
    ensures
        lru_entries(r).dom() == Set::<(i32, i32)>::empty(),
        lru_recency(r) == Seq::<(i32, i32)>::empty(),
        lru_capacity(r) == cap,
{
    LruCache::new(std::num::NonZeroUsize::new(cap).unwrap())
}

/// `LruCache::get`, for its effect only: a cached key becomes the most
/// recently used; the cached tiles and the capacity do not change.
#[verifier::external_body]
fn lru_touch(cache: &mut LruCache<(i32, i32), RoutingTile>, key: (i32, i32)) -> (r: bool)
    ensures
        r == lru_entries(*old(cache)).contains_key(key),
        lru_entries(*final(cache)) == lru_entries(*old(cache)),
        lru_capacity(*final(cache)) == lru_capacity(*old(cache)),
        lru_recency(*final(cache)) == (if r {
            to_front(lru_recency(*old(cache)), key)
        } else {
            lru_recency(*old(cache))
        }),
{
    cache.get(&key).is_some()
}

/// `LruCache::peek`: the cached tile, if any (recency unchanged).
#[verifier::external_body]
fn lru_peek<'a>(cache: &'a LruCache<(i32, i32), RoutingTile>, key: (i32, i32)) -> (r: Option<
    &'a RoutingTile,
>)
    ensures
        match r {
            Some(t) => lru_entries(*cache).contains_key(key) && *t == lru_entries(*cache)[key],
            None => !lru_entries(*cache).contains_key(key),
        },
{
    cache.peek(&key)
}

/// `LruCache::put`: stores the tile under `key`, replacing a tile cached
/// under it, and makes `key` the most recently used. A new key in a full
/// cache evicts the least recently used key.
#[verifier::external_body]
fn lru_put(cache: &mut LruCache<(i32, i32), RoutingTile>, key: (i32, i32), tile: RoutingTile)
    ensures
        lru_capacity(*final(cache)) == lru_capacity(*old(cache)),
        (lru_entries(*old(cache)).contains_key(key) || lru_entries(*old(cache)).len()
            < lru_capacity(*old(cache))) ==> lru_entries(*final(cache)) == lru_entries(
            *old(cache),
        ).insert(key, tile),
        lru_entries(*old(cache)).contains_key(key) ==> lru_recency(*final(cache)) == to_front(
            lru_recency(*old(cache)),
            key,
        ),
        (!lru_entries(*old(cache)).contains_key(key) && lru_entries(*old(cache)).len()
            < lru_capacity(*old(cache))) ==> lru_recency(*final(cache)) == seq![key]
            + lru_recency(*old(cache)),
        (!lru_entries(*old(cache)).contains_key(key) && lru_entries(*old(cache)).len()
            >= lru_capacity(*old(cache))) ==> lru_entries(*old(cache)).contains_key(
            lru_recency(*old(cache)).last(),
        ) && lru_entries(*final(cache)) == lru_entries(*old(cache)).insert(key, tile).remove(
            lru_recency(*old(cache)).last(),
        ) && lru_recency(*final(cache)) == seq![key] + lru_recency(*old(cache)).drop_last(),
{
    cache.put(key, tile);
}

/// `LruCache::len`: the number of cached tiles.
#[verifier::external_body]
fn lru_len(cache: &LruCache<(i32, i32), RoutingTile>) -> (r: usize)
    ensures
        r == lru_entries(*cache).len(),
{
    cache.len()
}

/// `LruCache::clear`: drops every cached tile.
#[verifier::external_body]
fn lru_clear(cache: &mut LruCache<(i32, i32), RoutingTile>)
    ensures
        lru_entries(*final(cache)).dom() == Set::<(i32, i32)>::empty(),
        lru_recency(*final(cache)) == Seq::<(i32, i32)>::empty(),
        lru_capacity(*final(cache)) == lru_capacity(*old(cache)),
{
    cache.clear();
}

/// `LruCache::iter`, keeping the tiles: the tile of each cached key, from
/// the most to the least recently used.
#[verifier::external_body]
fn lru_tiles<'a>(cache: &'a LruCache<(i32, i32), RoutingTile>) -> (r: Vec<&'a RoutingTile>)
    ensures
        r@.len() == lru_recency(*cache).len(),
        forall|i: int|
            0 <= i < r@.len() ==> *(#[trigger] r@[i]) == lru_entries(*cache)[lru_recency(*cache)[i]],
{
    cache.iter().map(|(_, tile)| tile).collect()
}

/// Configuration for the tile cache.
#[derive(Debug, Clone)]
pub struct CacheConfig {
    /// Maximum number of Level 1 (arterial) tiles to cache.
    pub level1_capacity: usize,
    /// Maximum number of Level 2 (local) tiles to cache.
    pub level2_capacity: usize,
}

impl Default for CacheConfig {
    /// 400 arterial tiles (~12 MB at ~30 KB each) and 400 local tiles
    /// (~2 MB at ~5 KB each).
    fn default() -> (r: Self)
        ensures
            r.level1_capacity == 400,
            r.level2_capacity == 400,
    {
        CacheConfig { level1_capacity: 400, level2_capacity: 400 }
    }
}

/// Tile cache key.
#[derive(Debug, Clone, Copy, PartialEq, Eq, Hash, Structural)]
pub struct TileKey {
    pub level: HierarchyLevel,
    pub tile_x: i32,
    pub tile_y: i32,
}

impl TileKey {
    pub fn new(level: HierarchyLevel, tile_x: i32, tile_y: i32) -> (r: Self)
        ensures
            r.level == level,
            r.tile_x == tile_x,
            r.tile_y == tile_y,
    {
        TileKey { level, tile_x, tile_y }
    }
}

/// Cache statistics for monitoring.
#[derive(Debug, Clone, Copy)]
pub struct CacheStats {
    pub hits: u64,
    pub misses: u64,
    pub loads: u64,
    pub evictions: u64,
}

impl Default for CacheStats {
    fn default() -> (r: Self)
        ensures
            r.hits == 0 && r.misses == 0 && r.loads == 0 && r.evictions == 0,
    {
        CacheStats { hits: 0, misses: 0, loads: 0, evictions: 0 }
    }
}

/// What a cache lookup found.
#[derive(Debug, Clone, Copy, PartialEq, Eq, Structural)]
pub enum CacheLookup {
    /// The tile is in memory; `cached` returns it.
    Ready,
    /// The tile exists on disk and is not cached: read it and `store` it.
    Load,
    /// No such tile exists.
    Unavailable,
}

/// Which cache holds the tiles of a level (1 = arterial cache, 2 = local
/// cache); highway tiles share the arterial cache.
pub open spec fn cache_slot(level: HierarchyLevel) -> int {
    match level {
        HierarchyLevel::Local => 2,
        _ => 1,
    }
}

/// Memory estimate of one tile: 16 bytes per node, 12 per edge, 2 per
/// boundary node, the bytes of the road names, and 64 bytes of overhead.
pub open spec fn tile_memory(tile: &RoutingTile) -> int {
    tile.nodes@.len() * 16 + tile.edges@.len() * 12 + tile.boundary_nodes@.len() * 2
        + names_bytes(tile.names@) + 64
}

/// The length in bytes of a name, as `str::len` reports it.
pub open spec fn name_bytes(name: String) -> int {
    (vstd::utf8::encode_utf8(name@).len() as usize) as int
}

/// Total UTF-8 length in bytes of a list of names.
pub open spec fn names_bytes(names: Seq<String>) -> int
    decreases names.len(),
{
    if names.len() == 0 {
        0
    } else {
        names_bytes(names.drop_last()) + name_bytes(names.last())
    }
}

/// Estimate memory usage of a tile, in bytes.
pub fn estimate_tile_memory(tile: &RoutingTile) -> (r: usize)
    requires
        tile_memory(tile) <= usize::MAX,
    ensures
        r == tile_memory(tile),
{
    let mut total: usize = 0;
    let mut i: usize = 0;
    while i < tile.names.len()
        invariant
            i <= tile.names@.len(),
            total == names_bytes(tile.names@.subrange(0, i as int)),
            tile_memory(tile) <= usize::MAX,
        decreases tile.names@.len() - i,
    {
        let ghost pre = tile.names@.subrange(0, i as int);
        assert(tile.names@.subrange(0, i + 1).drop_last() =~= pre);
        proof {
            lemma_names_bytes_prefix(tile.names@, i + 1);
            lemma_names_bytes_len(tile.names@, i + 1);
        }
        let n = tile.names[i].as_str().len();
        total = total + n;
        i = i + 1;
    }
    assert(tile.names@.subrange(0, i as int) =~= tile.names@);
    tile.nodes.len() * 16 + tile.edges.len() * 12 + tile.boundary_nodes.len() * 2 + total + 64
}

proof fn lemma_names_bytes_prefix(names: Seq<String>, k: int)
    requires
        0 <= k <= names.len(),
    ensures
        names_bytes(names.subrange(0, k)) <= names_bytes(names),
    decreases names.len(),
{
    if k < names.len() {
        assert(names.drop_last().subrange(0, k) =~= names.subrange(0, k));
        lemma_names_bytes_prefix(names.drop_last(), k);
    } else {
        assert(names.subrange(0, k) =~= names);
    }
}

proof fn lemma_names_bytes_len(names: Seq<String>, k: int)
    requires
        0 < k <= names.len(),
    ensures
        names_bytes(names.subrange(0, k)) == names_bytes(names.subrange(0, k - 1))
            + name_bytes(names[k - 1]),
        names_bytes(names.subrange(0, k - 1)) >= 0,
{
    assert(names.subrange(0, k).drop_last() =~= names.subrange(0, k - 1));
    lemma_names_bytes_nonneg(names.subrange(0, k - 1));
}

proof fn lemma_names_bytes_nonneg(names: Seq<String>)
    ensures
        names_bytes(names) >= 0,
    decreases names.len(),
{
    if names.len() > 0 {
        lemma_names_bytes_nonneg(names.drop_last());
    }
}

/// LRU cache for routing tiles.
pub struct TileCache {
    loader: TileLoader,
    config: CacheConfig,
    /// Highway graph, kept in memory once loaded.
    highway_graph: Option<RoutingTile>,
    /// LRU cache for arterial tiles (and highway tiles without the graph).
    level1_cache: LruCache<(i32, i32), RoutingTile>,
    /// LRU cache for local tiles.
    level2_cache: LruCache<(i32, i32), RoutingTile>,
    /// Statistics.
    stats: CacheStats,
}

impl TileCache {
    /// The index of available tiles.
    pub closed spec fn index(&self) -> TileLoader {
        self.loader
    }

    /// Tiles held by the cache that serves `level`, by tile coordinates.
    pub closed spec fn tiles(&self, level: HierarchyLevel) -> Map<(i32, i32), RoutingTile> {
        if cache_slot(level) == 1 {
            lru_entries(self.level1_cache)
        } else {
            lru_entries(self.level2_cache)
        }
    }

    /// Keys of the cache that serves `level`, from the most to the least
    /// recently used.
    pub closed spec fn recency(&self, level: HierarchyLevel) -> Seq<(i32, i32)> {
        if cache_slot(level) == 1 {
            lru_recency(self.level1_cache)
        } else {
            lru_recency(self.level2_cache)
        }
    }

    /// Keys held by the cache that serves `level`.
    pub open spec fn keys(&self, level: HierarchyLevel) -> Set<(i32, i32)> {
        self.tiles(level).dom()
    }

    /// The highway graph, when it is in memory.
    pub closed spec fn graph(&self) -> Option<RoutingTile> {
        self.highway_graph
    }

    /// The tile in memory for a level and position: the highway graph
    /// answers every highway position once loaded.
    pub open spec fn tile_at(&self, level: HierarchyLevel, tile_x: i32, tile_y: i32) -> Option<
        RoutingTile,
    > {
        if level == HierarchyLevel::Highway && self.graph() is Some {
            self.graph()
        } else if self.tiles(level).contains_key((tile_x, tile_y)) {
            Some(self.tiles(level)[(tile_x, tile_y)])
        } else {
            None
        }
    }

    /// The capacity of the cache that serves `level`.
    pub closed spec fn capacity(&self, level: HierarchyLevel) -> nat {
        if cache_slot(level) == 1 {
            lru_capacity(self.level1_cache)
        } else {
            lru_capacity(self.level2_cache)
        }
    }

    /// The configured capacity of the cache that serves `level`.
    pub closed spec fn configured(&self, level: HierarchyLevel) -> usize {
        if cache_slot(level) == 1 {
            self.config.level1_capacity
        } else {
            self.config.level2_capacity
        }
    }

    /// Whether the merged highway graph is in memory.
    pub open spec fn has_graph(&self) -> bool {
        self.graph() is Some
    }

    /// The memory estimate of the highway graph (0 when not loaded).
    pub closed spec fn graph_memory(&self) -> int {
        match self.highway_graph {
            Some(g) => tile_memory(&g),
            None => 0,
        }
    }

    /// The statistics so far.
    pub closed spec fn stats_view(&self) -> CacheStats {
        self.stats
    }

    /// Create a new tile cache; a capacity of 0 is raised to 1.
    pub fn new(loader: TileLoader, config: CacheConfig) -> (r: Self)
        ensures
            r.index() == loader,
            !r.has_graph(),
            forall|l: HierarchyLevel| r.keys(l) == Set::<(i32, i32)>::empty(),
            forall|l: HierarchyLevel| r.recency(l) == Seq::<(i32, i32)>::empty(),
            r.capacity(HierarchyLevel::Arterial) == (if config.level1_capacity == 0 {
                1
            } else {
                config.level1_capacity as nat
            }),
            r.capacity(HierarchyLevel::Local) == (if config.level2_capacity == 0 {
                1
            } else {
                config.level2_capacity as nat
            }),
            r.configured(HierarchyLevel::Arterial) == config.level1_capacity,
            r.configured(HierarchyLevel::Local) == config.level2_capacity,
            r.stats_view() == (CacheStats { hits: 0, misses: 0, loads: 0, evictions: 0 }),
    {
        let cap1 = if config.level1_capacity == 0 {
            1
        } else {
            config.level1_capacity
        };
        let cap2 = if config.level2_capacity == 0 {
            1
        } else {
            config.level2_capacity
        };
        let level1_cache = lru_new(cap1);
        let level2_cache = lru_new(cap2);
        TileCache {
            loader,
            config,
            highway_graph: None,
            level1_cache,
            level2_cache,
            stats: CacheStats { hits: 0, misses: 0, loads: 0, evictions: 0 },
        }
    }

    /// Whether `initialize_with` still needs the highway graph.
    pub fn needs_highway_graph(&self) -> (r: bool)
        ensures
            r == !self.has_graph(),
    {
        self.highway_graph.is_none()
    }

    /// Initializes the cache with the result of reading the highway graph:
    /// a graph is kept, a missing file leaves tiles to be loaded on demand,
    /// any other error is returned. A graph already in memory is kept.
    pub fn initialize_with(&mut self, loaded: Result<RoutingTile, TileLoaderError>) -> (r: Result<
        (),
        TileLoaderError,
    >)
        ensures
            old(self).has_graph() ==> r is Ok && final(self).has_graph(),
            !old(self).has_graph() ==> match loaded {
                Ok(_) => r is Ok && final(self).has_graph(),
                Err(TileLoaderError::FileNotFound(_)) => r is Ok && !final(self).has_graph(),
                Err(e) => r == Err::<(), TileLoaderError>(e) && !final(self).has_graph(),
            },
            final(self).index() == old(self).index(),
            forall|l: HierarchyLevel| final(self).tiles(l) == old(self).tiles(l),
            forall|l: HierarchyLevel| final(self).recency(l) == old(self).recency(l),
            forall|l: HierarchyLevel| final(self).capacity(l) == old(self).capacity(l),
            forall|l: HierarchyLevel| final(self).configured(l) == old(self).configured(l),
            final(self).stats_view() == old(self).stats_view(),
            old(self).has_graph() ==> final(self).graph() == old(self).graph(),
            !old(self).has_graph() && loaded is Ok ==> final(self).graph() == Some(
                loaded->Ok_0,
            ),
    {
        if self.highway_graph.is_none() {
            match loaded {
                Ok(graph) => {
                    self.highway_graph = Some(graph);
                },
                Err(TileLoaderError::FileNotFound(_)) => {},
                Err(e) => {
                    return Err(e);
                },
            }
        }
        Ok(())
    }

    /// The highway graph (Level 0), if loaded.
    pub fn highway_graph(&self) -> (r: Option<&RoutingTile>)
        ensures
            match r {
                Some(t) => self.graph() == Some(*t),
                None => self.graph() is None,
            },
    {
        match &self.highway_graph {
            Some(g) => Some(g),
            None => None,
        }
    }

    /// Looks a tile up: a cached tile counts a hit and becomes the most
    /// recently used; otherwise it counts a miss, and the tile is to be
    /// loaded when the index lists it. With the highway graph in memory,
    /// highway lookups are answered by it and not counted.
    pub fn lookup(&mut self, level: HierarchyLevel, tile_x: i32, tile_y: i32) -> (r: CacheLookup)
        requires
            old(self).stats_view().hits < u64::MAX,
            old(self).stats_view().misses < u64::MAX,
        ensures
            final(self).index() == old(self).index(),
            final(self).graph() == old(self).graph(),
            forall|l: HierarchyLevel| final(self).tiles(l) == old(self).tiles(l),
            forall|l: HierarchyLevel| final(self).capacity(l) == old(self).capacity(l),
            forall|l: HierarchyLevel| final(self).configured(l) == old(self).configured(l),
            final(self).stats_view().loads == old(self).stats_view().loads,
            final(self).stats_view().evictions == old(self).stats_view().evictions,
            forall|l: HierarchyLevel|
                cache_slot(l) != cache_slot(level) ==> final(self).recency(l) == old(self).recency(l),
            if level == HierarchyLevel::Highway && old(self).has_graph() {
                &&& r == CacheLookup::Ready
                &&& final(self).stats_view() == old(self).stats_view()
                &&& final(self).recency(level) == old(self).recency(level)
            } else if old(self).keys(level).contains((tile_x, tile_y)) {
                &&& r == CacheLookup::Ready
                &&& final(self).stats_view().hits == old(self).stats_view().hits + 1
                &&& final(self).stats_view().misses == old(self).stats_view().misses
                &&& final(self).recency(level) == to_front(old(self).recency(level), (tile_x, tile_y))
            } else {
                &&& final(self).recency(level) == old(self).recency(level)
                &&& final(self).stats_view().hits == old(self).stats_view().hits
                &&& final(self).stats_view().misses == old(self).stats_view().misses + 1
                &&& r == (if old(self).index().available(level).contains((tile_x, tile_y)) {
                    CacheLookup::Load
                } else {
                    CacheLookup::Unavailable
                })
            },
    {
        if level == HierarchyLevel::Highway && self.highway_graph.is_some() {
            return CacheLookup::Ready;
        }
        let key = (tile_x, tile_y);
        let cached = if level == HierarchyLevel::Local {
            lru_touch(&mut self.level2_cache, key)
        } else {
            lru_touch(&mut self.level1_cache, key)
        };
        if cached {
            self.stats.hits = self.stats.hits + 1;
            return CacheLookup::Ready;
        }
        self.stats.misses = self.stats.misses + 1;
        if self.loader.has_tile(level, tile_x, tile_y) {
            CacheLookup::Load
        } else {
            CacheLookup::Unavailable
        }
    }

    /// Stores a tile read from disk: counts a load, and an eviction when
    /// the cache already holds its configured number of tiles.
    pub fn store(&mut self, level: HierarchyLevel, tile_x: i32, tile_y: i32, tile: RoutingTile)
        requires
            old(self).stats_view().loads < u64::MAX,
            old(self).stats_view().evictions < u64::MAX,
        ensures
            final(self).index() == old(self).index(),
            final(self).graph() == old(self).graph(),
            final(self).tiles(level).contains_key((tile_x, tile_y)),
            final(self).tiles(level)[(tile_x, tile_y)] == tile,
            forall|k: (i32, i32)|
                final(self).tiles(level).contains_key(k) && k != (tile_x, tile_y) ==> old(
                    self,
                ).tiles(level).contains_key(k) && final(self).tiles(level)[k] == old(
                    self,
                ).tiles(level)[k],
            final(self).keys(level).subset_of(old(self).keys(level).insert((tile_x, tile_y))),
            (old(self).keys(level).contains((tile_x, tile_y)) || old(self).keys(level).len()
                < old(self).capacity(level)) ==> final(self).keys(level) == old(self).keys(
                level,
            ).insert((tile_x, tile_y)),
            old(self).keys(level).contains((tile_x, tile_y)) ==> final(self).recency(level)
                == to_front(old(self).recency(level), (tile_x, tile_y)),
            (!old(self).keys(level).contains((tile_x, tile_y)) && old(self).keys(level).len()
                < old(self).capacity(level)) ==> final(self).recency(level) == seq![(tile_x, tile_y)]
                + old(self).recency(level),
            (!old(self).keys(level).contains((tile_x, tile_y)) && old(self).keys(level).len()
                >= old(self).capacity(level)) ==> final(self).keys(level) == old(self).keys(
                level,
            ).insert((tile_x, tile_y)).remove(old(self).recency(level).last())
                && final(self).recency(level) == seq![(tile_x, tile_y)] + old(self).recency(
                level,
            ).drop_last(),
            forall|l: HierarchyLevel|
                cache_slot(l) != cache_slot(level) ==> final(self).tiles(l) == old(self).tiles(l),
            forall|l: HierarchyLevel|
                cache_slot(l) != cache_slot(level) ==> final(self).recency(l) == old(self).recency(l),
            forall|l: HierarchyLevel| final(self).capacity(l) == old(self).capacity(l),
            forall|l: HierarchyLevel| final(self).configured(l) == old(self).configured(l),
            final(self).stats_view().hits == old(self).stats_view().hits,
            final(self).stats_view().misses == old(self).stats_view().misses,
            final(self).stats_view().loads == old(self).stats_view().loads + 1,
            final(self).stats_view().evictions == old(self).stats_view().evictions + (if old(
                self,
            ).keys(level).len() >= old(self).configured(level) {
                1int
            } else {
                0int
            }),
    {
        let key = (tile_x, tile_y);
        self.stats.loads = self.stats.loads + 1;
        if level == HierarchyLevel::Local {
            if lru_len(&self.level2_cache) >= self.config.level2_capacity {
                self.stats.evictions = self.stats.evictions + 1;
            }
            lru_put(&mut self.level2_cache, key, tile);
        } else {
            if lru_len(&self.level1_cache) >= self.config.level1_capacity {
                self.stats.evictions = self.stats.evictions + 1;
            }
            lru_put(&mut self.level1_cache, key, tile);
        }
        proof {
            let old_keys = old(self).keys(level);
            let new_keys = self.keys(level);
            if !old_keys.contains(key) && old_keys.len() >= old(self).capacity(level) {
                let ev = old(self).recency(level).last();
                assert(new_keys =~= old_keys.insert(key).remove(ev));
                assert(new_keys.contains(key));
                assert(new_keys.subset_of(old_keys.insert(key)));
            }
        }
    }

    /// The tile in memory for a level and position, if any.
    pub fn cached(&self, level: HierarchyLevel, tile_x: i32, tile_y: i32) -> (r: Option<
        &RoutingTile,
    >)
        ensures
            match r {
                Some(t) => self.tile_at(level, tile_x, tile_y) == Some(*t),
                None => self.tile_at(level, tile_x, tile_y) is None,
            },
    {
        if level == HierarchyLevel::Highway {
            if let Some(g) = &self.highway_graph {
                return Some(g);
            }
        }
        if level == HierarchyLevel::Local {
            lru_peek(&self.level2_cache, (tile_x, tile_y))
        } else {
            lru_peek(&self.level1_cache, (tile_x, tile_y))
        }
    }

    /// Clear all cached tiles (keeps the highway graph).
    pub fn clear(&mut self)
        ensures
            forall|l: HierarchyLevel| final(self).keys(l) == Set::<(i32, i32)>::empty(),
            forall|l: HierarchyLevel| final(self).recency(l) == Seq::<(i32, i32)>::empty(),
            final(self).graph() == old(self).graph(),
            final(self).index() == old(self).index(),
            forall|l: HierarchyLevel| final(self).capacity(l) == old(self).capacity(l),
            forall|l: HierarchyLevel| final(self).configured(l) == old(self).configured(l),
            final(self).stats_view() == old(self).stats_view(),
    {
        lru_clear(&mut self.level1_cache);
        lru_clear(&mut self.level2_cache);
    }

    /// The index of available tiles.
    pub fn loader(&self) -> (r: &TileLoader)
        ensures
            *r == self.index(),
    {
        &self.loader
    }

    /// Cache statistics.
    pub fn stats(&self) -> (r: &CacheStats)
        ensures
            *r == self.stats_view(),
    {
        &self.stats
    }

    /// The number of cached tiles (arterial cache, local cache).
    pub fn cached_count(&self) -> (r: (usize, usize))
        ensures
            r.0 == self.keys(HierarchyLevel::Arterial).len(),
            r.1 == self.keys(HierarchyLevel::Local).len(),
    {
        (lru_len(&self.level1_cache), lru_len(&self.level2_cache))
    }

    /// The memory estimate of the highway graph and of the tiles of both
    /// caches (by recency order).
    pub closed spec fn cache_memory(&self) -> int {
        self.graph_memory() + cached_memory(
            lru_entries(self.level1_cache),
            lru_recency(self.level1_cache),
        ) + cached_memory(lru_entries(self.level2_cache), lru_recency(self.level2_cache))
    }

    /// Current memory usage estimate in bytes: the highway graph and every
    /// cached tile, each estimated as by `estimate_tile_memory`; the sum
    /// saturates at `usize::MAX`.
    pub fn memory_usage_estimate(&self) -> (r: usize)
        ensures
            r == saturate(self.cache_memory()),
    {
        let mut total: usize = 0;
        if let Some(graph) = &self.highway_graph {
            total = add_estimate(total, graph);
        }
        let ghost base = self.graph_memory();
        proof {
            if self.highway_graph is Some {
                lemma_tile_memory_nonneg(&self.highway_graph->Some_0);
            }
        }
        assert(total == saturate(base));
        let l1 = lru_tiles(&self.level1_cache);
        let ghost e1 = lru_entries(self.level1_cache);
        let ghost r1 = lru_recency(self.level1_cache);
        let mut i: usize = 0;
        while i < l1.len()
            invariant
                i <= l1@.len(),
                l1@.len() == r1.len(),
                forall|k: int| 0 <= k < l1@.len() ==> *(#[trigger] l1@[k]) == e1[r1[k]],
                base >= 0,
                total == saturate(base + cached_memory(e1, r1.subrange(0, i as int))),
            decreases l1@.len() - i,
        {
            proof {
                assert(r1.subrange(0, i + 1).drop_last() =~= r1.subrange(0, i as int));
                lemma_cached_memory_nonneg(e1, r1.subrange(0, i as int));
                lemma_tile_memory_nonneg(l1@[i as int]);
            }
            total = add_estimate(total, l1[i]);
            i = i + 1;
        }
        assert(r1.subrange(0, i as int) =~= r1);
        let ghost mid = base + cached_memory(e1, r1);
        proof {
            lemma_cached_memory_nonneg(e1, r1);
        }
        let l2 = lru_tiles(&self.level2_cache);
        let ghost e2 = lru_entries(self.level2_cache);
        let ghost r2 = lru_recency(self.level2_cache);
        let mut j: usize = 0;
        while j < l2.len()
            invariant
                j <= l2@.len(),
                l2@.len() == r2.len(),
                forall|k: int| 0 <= k < l2@.len() ==> *(#[trigger] l2@[k]) == e2[r2[k]],
                mid >= 0,
                total == saturate(mid + cached_memory(e2, r2.subrange(0, j as int))),
            decreases l2@.len() - j,
        {
            proof {
                assert(r2.subrange(0, j + 1).drop_last() =~= r2.subrange(0, j as int));
                lemma_cached_memory_nonneg(e2, r2.subrange(0, j as int));
                lemma_tile_memory_nonneg(l2@[j as int]);
            }
            total = add_estimate(total, l2[j]);
            j = j + 1;
        }
        assert(r2.subrange(0, j as int) =~= r2);
        total
    }
}

/// A tile stored in the cache is what the cache gives back for its
/// position, except that the highway graph, once loaded, answers every
/// highway position.
pub proof fn lemma_read_after_store(
    cache: TileCache,
    level: HierarchyLevel,
    tile_x: i32,
    tile_y: i32,
    tile: RoutingTile,
)
    requires
        cache.tiles(level).contains_key((tile_x, tile_y)),
        cache.tiles(level)[(tile_x, tile_y)] == tile,
        !(level == HierarchyLevel::Highway && cache.has_graph()),
    ensures
        cache.tile_at(level, tile_x, tile_y) == Some(tile),
{
}

/// A sum in bytes, saturating at `usize::MAX`.
pub open spec fn saturate(x: int) -> int {
    if x > usize::MAX {
        usize::MAX as int
    } else {
        x
    }
}

/// The memory estimates of the tiles cached under the keys of `rec`,
/// summed.
pub open spec fn cached_memory(entries: Map<(i32, i32), RoutingTile>, rec: Seq<(i32, i32)>) -> int
    decreases rec.len(),
{
    if rec.len() == 0 {
        0
    } else {
        cached_memory(entries, rec.drop_last()) + tile_memory(&entries[rec.last()])
    }
}

proof fn lemma_tile_memory_nonneg(tile: &RoutingTile)
    ensures
        tile_memory(tile) >= 0,
{
    lemma_names_bytes_nonneg(tile.names@);
}

proof fn lemma_cached_memory_nonneg(entries: Map<(i32, i32), RoutingTile>, rec: Seq<(i32, i32)>)
    ensures
        cached_memory(entries, rec) >= 0,
    decreases rec.len(),
{
    if rec.len() > 0 {
        lemma_cached_memory_nonneg(entries, rec.drop_last());
        lemma_tile_memory_nonneg(&entries[rec.last()]);
    }
}

/// `total` plus the estimate of `tile`, saturating at `usize::MAX`.
fn add_estimate(total: usize, tile: &RoutingTile) -> (r: usize)
    ensures
        r == (if total + tile_memory(tile) > usize::MAX {
            usize::MAX as int
        } else {
            total + tile_memory(tile)
        }),
        r >= total,
{
    proof {
        lemma_names_bytes_nonneg(tile.names@);
    }
    let cap: u128 = 0x1_0000_0000_0000_0000;
    let nodes = tile.nodes.len() as u128;
    let edges = tile.edges.len() as u128;
    let bounds = tile.boundary_nodes.len() as u128;
    let mut names: u128 = 0;
    let mut i: usize = 0;
    while i < tile.names.len()
        invariant
            i <= tile.names@.len(),
            cap == 0x1_0000_0000_0000_0000,
            names == (if names_bytes(tile.names@.subrange(0, i as int)) > cap {
                cap as int
            } else {
                names_bytes(tile.names@.subrange(0, i as int))
            }),
        decreases tile.names@.len() - i,
    {
        proof {
            lemma_names_bytes_len(tile.names@, i + 1);
        }
        let n = tile.names[i].as_str().len() as u128;
        names = if names + n > cap {
            cap
        } else {
            names + n
        };
        i = i + 1;
    }
    assert(tile.names@.subrange(0, i as int) =~= tile.names@);
    let est: u128 = nodes * 16 + edges * 12 + bounds * 2 + names + 64;
    let sum: u128 = total as u128 + est;
    if sum > usize::MAX as u128 {
        usize::MAX
    } else {
        sum as usize
    }
}

} // verus!
