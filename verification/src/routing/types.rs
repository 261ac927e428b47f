//! Core routing data structures.
//!
//! These types are compact for embedded use: a `RoutingNode` takes 16 bytes
//! and a `RoutingEdge` 12 bytes.
use vstd::prelude::*;
use vstd::slice::slice_subrange;

verus! {

/// Routing hierarchy levels.
#[derive(Debug, Clone, Copy, PartialEq, Eq, Hash, Structural)]
pub enum HierarchyLevel {
    /// Highway level: motorway, trunk, primary roads (1.0 degree tiles).
    Highway,
    /// Arterial level: secondary, tertiary roads (0.1 degree tiles).
    Arterial,
    /// Local level: residential, service, other roads (0.01 degree tiles).
    Local,
}

/// Index of a hierarchy level (0 = highway, 1 = arterial, 2 = local).
pub open spec fn level_index(level: HierarchyLevel) -> int {
    match level {
        HierarchyLevel::Highway => 0,
        HierarchyLevel::Arterial => 1,
        HierarchyLevel::Local => 2,
    }
}

impl HierarchyLevel {
    /// Index of this level (0 = highway, 1 = arterial, 2 = local).
    pub fn index(&self) -> (r: usize)
        ensures
            r == level_index(*self),
            r < 3,
    {
        match self {
            HierarchyLevel::Highway => 0,
            HierarchyLevel::Arterial => 1,
            HierarchyLevel::Local => 2,
        }
    }
}

/// Road classification for routing.
#[derive(Debug, Clone, Copy, PartialEq, Eq, Structural)]
pub enum RoadClass {
    Motorway,
    Trunk,
    Primary,
    Secondary,
    Tertiary,
    Residential,
    Service,
    Other,
}

/// The hierarchy level that carries each road class.
pub open spec fn class_level(c: RoadClass) -> HierarchyLevel {
    match c {
        RoadClass::Motorway | RoadClass::Trunk | RoadClass::Primary => HierarchyLevel::Highway,
        RoadClass::Secondary | RoadClass::Tertiary => HierarchyLevel::Arterial,
        RoadClass::Residential | RoadClass::Service | RoadClass::Other => HierarchyLevel::Local,
    }
}

/// Default speed in km/h of each road class.
pub open spec fn class_speed(c: RoadClass) -> u8 {
    match c {
        RoadClass::Motorway => 120,
        RoadClass::Trunk => 100,
        RoadClass::Primary => 80,
        RoadClass::Secondary => 60,
        RoadClass::Tertiary => 50,
        RoadClass::Residential => 30,
        RoadClass::Service => 20,
        RoadClass::Other => 30,
    }
}

impl RoadClass {
    /// The hierarchy level this road class belongs to.
    pub fn hierarchy_level(&self) -> (r: HierarchyLevel)
        ensures
            r == class_level(*self),
    {
        match self {
            RoadClass::Motorway | RoadClass::Trunk | RoadClass::Primary => HierarchyLevel::Highway,
            RoadClass::Secondary | RoadClass::Tertiary => HierarchyLevel::Arterial,
            RoadClass::Residential | RoadClass::Service | RoadClass::Other => HierarchyLevel::Local,
        }
    }

    /// Default speed in km/h for this road class.
    pub fn default_speed_kmh(&self) -> (r: u8)
        ensures
            r == class_speed(*self),
            r > 0,
    {
        match self {
            RoadClass::Motorway => 120,
            RoadClass::Trunk => 100,
            RoadClass::Primary => 80,
            RoadClass::Secondary => 60,
            RoadClass::Tertiary => 50,
            RoadClass::Residential => 30,
            RoadClass::Service => 20,
            RoadClass::Other => 30,
        }
    }
}

/// Bit of `NodeFlags` marking a node at a tile boundary.
pub const NODE_BOUNDARY: u8 = 1;

/// Bit of `NodeFlags` marking a traffic signal.
pub const NODE_TRAFFIC_SIGNAL: u8 = 2;

/// Bit of `NodeFlags` marking a barrier.
pub const NODE_BARRIER: u8 = 4;

/// Flags for routing nodes.
#[derive(Debug, Clone, Copy, Default)]
pub struct NodeFlags(pub u8);

impl NodeFlags {
    pub fn is_boundary(&self) -> (r: bool)
        ensures
            r == (self.0 & NODE_BOUNDARY != 0),
    {
        self.0 & NODE_BOUNDARY != 0
    }

    pub fn is_traffic_signal(&self) -> (r: bool)
        ensures
            r == (self.0 & NODE_TRAFFIC_SIGNAL != 0),
    {
        self.0 & NODE_TRAFFIC_SIGNAL != 0
    }

    pub fn is_barrier(&self) -> (r: bool)
        ensures
            r == (self.0 & NODE_BARRIER != 0),
    {
        self.0 & NODE_BARRIER != 0
    }

    /// Sets or clears the boundary bit; the other bits keep their values.
    pub fn set_boundary(&mut self, value: bool)
        ensures
            (final(self).0 & NODE_BOUNDARY != 0) == value,
            final(self).0 & !NODE_BOUNDARY == old(self).0 & !NODE_BOUNDARY,
    {
        let old_bits = self.0;
        if value {
            self.0 = old_bits | NODE_BOUNDARY;
            assert((old_bits | 1u8) & 1u8 != 0u8) by (bit_vector);
            assert((old_bits | 1u8) & !1u8 == old_bits & !1u8) by (bit_vector);
        } else {
            self.0 = old_bits & !NODE_BOUNDARY;
            assert((old_bits & !1u8) & 1u8 == 0u8) by (bit_vector);
            assert((old_bits & !1u8) & !1u8 == old_bits & !1u8) by (bit_vector);
        }
    }
}

/// Bit of `EdgeFlags` marking a one-way edge.
pub const EDGE_ONEWAY: u8 = 1;

/// Bit of `EdgeFlags` marking a tunnel.
pub const EDGE_TUNNEL: u8 = 2;

/// Bit of `EdgeFlags` marking a bridge.
pub const EDGE_BRIDGE: u8 = 4;

/// Bit of `EdgeFlags` marking a toll road.
pub const EDGE_TOLL: u8 = 8;

/// Flags for routing edges.
#[derive(Debug, Clone, Copy, Default)]
pub struct EdgeFlags(pub u8);

impl EdgeFlags {
    pub fn is_oneway(&self) -> (r: bool)
        ensures
            r == (self.0 & EDGE_ONEWAY != 0),
    {
        self.0 & EDGE_ONEWAY != 0
    }

    pub fn is_tunnel(&self) -> (r: bool)
        ensures
            r == (self.0 & EDGE_TUNNEL != 0),
    {
        self.0 & EDGE_TUNNEL != 0
    }

    pub fn is_bridge(&self) -> (r: bool)
        ensures
            r == (self.0 & EDGE_BRIDGE != 0),
    {
        self.0 & EDGE_BRIDGE != 0
    }

    pub fn is_toll(&self) -> (r: bool)
        ensures
            r == (self.0 & EDGE_TOLL != 0),
    {
        self.0 & EDGE_TOLL != 0
    }

    /// Sets or clears the one-way bit; the other bits keep their values.
    pub fn set_oneway(&mut self, value: bool)
        ensures
            (final(self).0 & EDGE_ONEWAY != 0) == value,
            final(self).0 & !EDGE_ONEWAY == old(self).0 & !EDGE_ONEWAY,
    {
        let old_bits = self.0;
        if value {
            self.0 = old_bits | EDGE_ONEWAY;
            assert((old_bits | 1u8) & 1u8 != 0u8) by (bit_vector);
            assert((old_bits | 1u8) & !1u8 == old_bits & !1u8) by (bit_vector);
        } else {
            self.0 = old_bits & !EDGE_ONEWAY;
            assert((old_bits & !1u8) & 1u8 == 0u8) by (bit_vector);
            assert((old_bits & !1u8) & !1u8 == old_bits & !1u8) by (bit_vector);
        }
    }
}

/// A routing node in the graph (16 bytes with padding).
#[derive(Debug, Clone, Copy)]
pub struct RoutingNode {
    /// Latitude in microdegrees (value / 1_000_000 = degrees).
    pub lat: i32,
    /// Longitude in microdegrees (value / 1_000_000 = degrees).
    pub lon: i32,
    /// Index of first outgoing edge in the edge array.
    pub first_edge: u32,
    /// Number of outgoing edges (max 255).
    pub edge_count: u8,
    /// Node flags (boundary, traffic signal, etc.).
    pub flags: NodeFlags,
}

/// A routing edge in the graph (12 bytes).
#[derive(Debug, Clone, Copy)]
pub struct RoutingEdge {
    /// Target node index (within the same tile).
    pub target: u32,
    /// Distance in centimeters (max ~42 km per edge).
    pub distance_cm: u32,
    /// Speed limit in km/h.
    pub speed_kmh: u8,
    /// Road classification.
    pub road_class: RoadClass,
    /// Edge flags (oneway, tunnel, etc.).
    pub flags: EdgeFlags,
    /// Name index (0 = unnamed, references name table in tile).
    pub name_id: u8,
}

/// A cross-tile edge referencing a node in another tile.
#[derive(Debug, Clone, Copy)]
pub struct CrossTileEdge {
    /// Source node index (within this tile).
    pub source: u32,
    /// Target tile X coordinate.
    pub target_tile_x: i32,
    /// Target tile Y coordinate.
    pub target_tile_y: i32,
    /// Target node index within the target tile.
    pub target_node: u32,
    /// Distance in centimeters.
    pub distance_cm: u32,
    /// Speed limit in km/h.
    pub speed_kmh: u8,
    /// Road classification.
    pub road_class: RoadClass,
    /// Edge flags (oneway, tunnel, etc.).
    pub flags: EdgeFlags,
    /// Name index (0 = unnamed, references name table in tile).
    pub name_id: u8,
}

/// Routing weight of an edge: its travel time in centiseconds,
/// `distance_cm / 100_000 km / speed_kmh * 3600 s * 100`, i.e.
/// `18 * distance_cm / (5 * speed_kmh)` rounded down, saturating at
/// `u32::MAX`; an edge with speed 0 is impassable and weighs `u32::MAX`.
pub open spec fn travel_weight(distance_cm: u32, speed_kmh: u8) -> u32 {
    if speed_kmh == 0 {
        u32::MAX
    } else {
        let w = (18 * distance_cm) / (5 * speed_kmh);
        if w > u32::MAX {
            u32::MAX
        } else {
            w as u32
        }
    }
}

fn compute_weight(distance_cm: u32, speed_kmh: u8) -> (r: u32)
    ensures
        r == travel_weight(distance_cm, speed_kmh),
{
    if speed_kmh == 0 {
        return u32::MAX;
    }
    let num: u64 = 18 * (distance_cm as u64);
    let den: u64 = 5 * (speed_kmh as u64);
    let w = num / den;
    if w > 0xFFFF_FFFFu64 {
        u32::MAX
    } else {
        w as u32
    }
}

impl RoutingNode {
    /// A node at the given position (microdegrees), with no edges and no
    /// flags.
    pub fn new(lat: i32, lon: i32) -> (r: Self)
        ensures
            r.lat == lat,
            r.lon == lon,
            r.first_edge == 0,
            r.edge_count == 0,
            r.flags.0 == 0,
    {
        RoutingNode { lat, lon, first_edge: 0, edge_count: 0, flags: NodeFlags(0) }
    }
}

impl CrossTileEdge {
    /// An edge to a node of another tile, with the default speed of its
    /// road class, no flags and no name.
    pub fn new(
        source: u32,
        target_tile_x: i32,
        target_tile_y: i32,
        target_node: u32,
        distance_cm: u32,
        road_class: RoadClass,
    ) -> (r: Self)
        ensures
            r.source == source,
            r.target_tile_x == target_tile_x,
            r.target_tile_y == target_tile_y,
            r.target_node == target_node,
            r.distance_cm == distance_cm,
            r.speed_kmh == class_speed(road_class),
            r.road_class == road_class,
            r.flags.0 == 0,
            r.name_id == 0,
    {
        CrossTileEdge {
            source,
            target_tile_x,
            target_tile_y,
            target_node,
            distance_cm,
            speed_kmh: road_class.default_speed_kmh(),
            road_class,
            flags: EdgeFlags(0),
            name_id: 0,
        }
    }

    /// The weight for routing (travel time in centiseconds).
    pub fn weight(&self) -> (r: u32)
        ensures
            r == travel_weight(self.distance_cm, self.speed_kmh),
    {
        compute_weight(self.distance_cm, self.speed_kmh)
    }
}

impl RoutingEdge {
    /// An edge to a node of the same tile, with the default speed of its
    /// road class, no flags and no name.
    pub fn new(target: u32, distance_cm: u32, road_class: RoadClass) -> (r: Self)
        ensures
            r.target == target,
            r.distance_cm == distance_cm,
            r.speed_kmh == class_speed(road_class),
            r.road_class == road_class,
            r.flags.0 == 0,
            r.name_id == 0,
    {
        RoutingEdge {
            target,
            distance_cm,
            speed_kmh: road_class.default_speed_kmh(),
            road_class,
            flags: EdgeFlags(0),
            name_id: 0,
        }
    }

    /// The weight for routing (travel time in centiseconds).
    pub fn weight(&self) -> (r: u32)
        ensures
            r == travel_weight(self.distance_cm, self.speed_kmh),
    {
        compute_weight(self.distance_cm, self.speed_kmh)
    }
}

/// A routing tile containing nodes and edges for a region.
#[derive(Debug, Clone)]
pub struct RoutingTile {
    /// Hierarchy level of this tile.
    pub level: HierarchyLevel,
    /// Tile X coordinate (lon / tile_size, floored).
    pub tile_x: i32,
    /// Tile Y coordinate (lat / tile_size, floored).
    pub tile_y: i32,
    /// All nodes in this tile (each node belongs to exactly one canonical tile).
    pub nodes: Vec<RoutingNode>,
    /// All edges within this tile (source and target nodes both in this tile).
    pub edges: Vec<RoutingEdge>,
    /// Edges that cross tile boundaries (source in this tile, target in another).
    pub cross_tile_edges: Vec<CrossTileEdge>,
    /// Indices of boundary nodes (nodes at tile edges).
    pub boundary_nodes: Vec<u16>,
    /// Road names referenced by edges (indexed by name_id - 1).
    pub names: Vec<String>,
}

/// The edges of `edges` whose source is `source`, in their order.
pub open spec fn cross_edges_from(edges: Seq<CrossTileEdge>, source: u32) -> Seq<CrossTileEdge>
    decreases edges.len(),
{
    if edges.len() == 0 {
        Seq::empty()
    } else {
        let rest = cross_edges_from(edges.drop_last(), source);
        if edges.last().source == source {
            rest.push(edges.last())
        } else {
            rest
        }
    }
}

impl RoutingTile {
    /// Every node's edge block starts inside the edge array.
    pub open spec fn edge_blocks_wf(&self) -> bool {
        forall|i: int|
            0 <= i < self.nodes@.len() ==> #[trigger] self.nodes@[i].first_edge <= self.edges@.len()
    }

    /// Start of the edge block of node `u`.
    pub open spec fn block_start(&self, u: int) -> int {
        self.nodes@[u].first_edge as int
    }

    /// End of the edge block of node `u`, cut at the end of the edge array.
    pub open spec fn block_end(&self, u: int) -> int {
        let e = self.nodes@[u].first_edge + self.nodes@[u].edge_count;
        if e < self.edges@.len() {
            e
        } else {
            self.edges@.len() as int
        }
    }

    /// The edges leaving node `u` inside this tile (none for an unknown node).
    pub open spec fn out_edges(&self, u: int) -> Seq<RoutingEdge> {
        if 0 <= u < self.nodes@.len() {
            self.edges@.subrange(self.block_start(u), self.block_end(u))
        } else {
            Seq::empty()
        }
    }

    /// Create a new empty routing tile.
    pub fn new(level: HierarchyLevel, tile_x: i32, tile_y: i32) -> (r: Self)
        ensures
            r.level == level,
            r.tile_x == tile_x,
            r.tile_y == tile_y,
            r.nodes@.len() == 0,
            r.edges@.len() == 0,
            r.cross_tile_edges@.len() == 0,
            r.boundary_nodes@.len() == 0,
            r.names@.len() == 0,
    {
        RoutingTile {
            level,
            tile_x,
            tile_y,
            nodes: Vec::new(),
            edges: Vec::new(),
            cross_tile_edges: Vec::new(),
            boundary_nodes: Vec::new(),
            names: Vec::new(),
        }
    }

    /// Get a node by index.
    pub fn node(&self, index: u32) -> (r: Option<&RoutingNode>)
        ensures
            r is Some <==> index < self.nodes@.len(),
            r matches Some(n) ==> *n == self.nodes@[index as int],
    {
        if (index as usize) < self.nodes.len() {
            Some(&self.nodes[index as usize])
        } else {
            None
        }
    }

    /// Whether every node's edge block starts inside the edge array.
    pub fn edge_blocks_valid(&self) -> (r: bool)
        ensures
            r == self.edge_blocks_wf(),
    {
        let mut i: usize = 0;
        while i < self.nodes.len()
            invariant
                i <= self.nodes@.len(),
                forall|j: int| 0 <= j < i ==> #[trigger] self.nodes@[j].first_edge <= self.edges@.len(),
            decreases self.nodes@.len() - i,
        {
            if self.nodes[i].first_edge as usize > self.edges.len() {
                return false;
            }
            i = i + 1;
        }
        true
    }

    /// Get the edges leaving a node (within this tile).
    pub fn edges_for_node(&self, node_idx: u32) -> (r: &[RoutingEdge])
        requires
            node_idx < self.nodes@.len() ==> self.nodes@[node_idx as int].first_edge
                <= self.edges@.len(),
        ensures
            r@ == self.out_edges(node_idx as int),
    {
        if (node_idx as usize) < self.nodes.len() {
            let node = &self.nodes[node_idx as usize];
            let start = node.first_edge as usize;
            let len = self.edges.len();
            let end: usize = if (node.first_edge as u64) + (node.edge_count as u64) < len as u64 {
                start + node.edge_count as usize
            } else {
                len
            };
            slice_subrange(self.edges.as_slice(), start, end)
        } else {
            assert(self.out_edges(node_idx as int) =~= Seq::<RoutingEdge>::empty());
            &[]
        }
    }

    /// Get the cross-tile edges leaving a node (edges going to other tiles).
    pub fn cross_tile_edges_for_node(&self, node_idx: u32) -> (r: Vec<CrossTileEdge>)
        ensures
            r@ == cross_edges_from(self.cross_tile_edges@, node_idx),
    {
        let mut out: Vec<CrossTileEdge> = Vec::new();
        let mut i: usize = 0;
        while i < self.cross_tile_edges.len()
            invariant
                i <= self.cross_tile_edges@.len(),
                out@ == cross_edges_from(self.cross_tile_edges@.subrange(0, i as int), node_idx),
            decreases self.cross_tile_edges@.len() - i,
        {
            let e = self.cross_tile_edges[i];
            let ghost pre = self.cross_tile_edges@.subrange(0, i as int);
            assert(self.cross_tile_edges@.subrange(0, i + 1).drop_last() =~= pre);
            if e.source == node_idx {
                out.push(e);
            }
            i = i + 1;
        }
        assert(self.cross_tile_edges@.subrange(0, i as int) =~= self.cross_tile_edges@);
        out
    }

    /// Get a road name by index (`name_id` 0 means unnamed).
    pub fn name(&self, name_id: u8) -> (r: Option<&str>)
        ensures
            r is Some <==> (name_id > 0 && name_id - 1 < self.names@.len()),
            r matches Some(s) ==> s@ == self.names@[name_id - 1]@,
    {
        if name_id == 0 {
            None
        } else {
            let i = (name_id - 1) as usize;
            if i < self.names.len() {
                Some(self.names[i].as_str())
            } else {
                None
            }
        }
    }
}

/// Errors that can occur when decoding routing tiles.
#[derive(Debug, Clone)]
pub enum TileError {
    TooShort,
    InvalidMagic,
    UnsupportedVersion(u8),
    DeserializationFailed(String),
}

/// Current routing tile format version (canonical tile ownership with
/// cross-tile edges).
pub const ROUTING_TILE_VERSION: u8 = 2;

/// The magic bytes `RTIL` that open every routing tile.
pub open spec fn routing_magic() -> Seq<u8> {
    seq![82u8, 84u8, 73u8, 76u8]
}

/// The encoded form of a routing tile: magic, version, then the body.
pub open spec fn routing_frame(body: Seq<u8>) -> Seq<u8> {
    routing_magic() + seq![ROUTING_TILE_VERSION] + body
}

/// The verdict on the five header bytes of an encoded routing tile: the
/// format version (1 without cross-tile edges, 2 with them), or why the
/// data is refused.
pub open spec fn routing_header(data: Seq<u8>) -> Result<u8, TileError> {
    if data.len() < 5 {
        Err(TileError::TooShort)
    } else if data.subrange(0, 4) != routing_magic() {
        Err(TileError::InvalidMagic)
    } else if data[4] == 1 || data[4] == 2 {
        Ok(data[4])
    } else {
        Err(TileError::UnsupportedVersion(data[4]))
    }
}

impl RoutingTile {
    /// Frames an encoded tile body for storage: magic bytes, the current
    /// version, then the body.
    pub fn encode_frame(body: &[u8]) -> (r: Vec<u8>)
        ensures
            r@ == routing_frame(body@),
    {
        let mut data: Vec<u8> = Vec::new();
        data.push(82u8);
        data.push(84u8);
        data.push(73u8);
        data.push(76u8);
        data.push(ROUTING_TILE_VERSION);
        let mut i: usize = 0;
        while i < body.len()
            invariant
                i <= body@.len(),
                data@ == routing_magic() + seq![ROUTING_TILE_VERSION] + body@.subrange(0, i as int),
            decreases body@.len() - i,
        {
            data.push(body[i]);
            i = i + 1;
            assert(data@ =~= routing_magic() + seq![ROUTING_TILE_VERSION] + body@.subrange(
                0,
                i as int,
            ));
        }
        assert(body@.subrange(0, i as int) =~= body@);
        data
    }

    /// Checks the header of an encoded tile and returns its format version;
    /// the body starts at byte 5.
    pub fn decode_header(data: &[u8]) -> (r: Result<u8, TileError>)
        ensures
            r == routing_header(data@),
    {
        if data.len() < 5 {
            return Err(TileError::TooShort);
        }
        if !(data[0] == 82u8 && data[1] == 84u8 && data[2] == 73u8 && data[3] == 76u8) {
            proof {
                if data@.subrange(0, 4) == routing_magic() {
                    assert(data@[0] == data@.subrange(0, 4)[0]);
                    assert(data@[1] == data@.subrange(0, 4)[1]);
                    assert(data@[2] == data@.subrange(0, 4)[2]);
                    assert(data@[3] == data@.subrange(0, 4)[3]);
                }
            }
            return Err(TileError::InvalidMagic);
        }
        assert(data@.subrange(0, 4) =~= routing_magic());
        let version = data[4];
        if version == 1 || version == 2 {
            Ok(version)
        } else {
            Err(TileError::UnsupportedVersion(version))
        }
    }
}

/// Decoding the header of a framed tile gives the current version, and the
/// body follows the header unchanged.
pub proof fn lemma_routing_frame_roundtrip(body: Seq<u8>)
    ensures
        routing_header(routing_frame(body)) == Ok::<u8, TileError>(ROUTING_TILE_VERSION),
        routing_frame(body).subrange(5, routing_frame(body).len() as int) == body,
{
    let f = routing_frame(body);
    assert(f.subrange(0, 4) =~= routing_magic());
    assert(f.subrange(5, f.len() as int) =~= body);
}

} // verus!
