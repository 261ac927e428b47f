# minimap

Offline map and routing library for a racing-game style minimap, with its
behaviour stated in contracts and proved with Verus.

- `src/` is the verified library:
  - `map_core`, `osm`: classification of OpenStreetMap features (roads,
    POIs, areas, waterways, routable ways, place categories);
  - `tiles`: the compact map tile format and the runtime set of loaded map
    tiles;
  - `tile_build`, `partition`: building routing tiles from the road graph,
    with canonical tile ownership of nodes;
  - `routing`: routing tile format, tile index parsing, the LRU tile cache,
    single-tile A*, the hierarchical multi-level search (a state machine
    that asks its caller for tiles and heuristics), route segments, lane
    guidance and the place search index (its layout, and the name map
    kept in an `fst` map, built and queried here);
  - `text`: decimal and string helpers shared by the parsers.
- `tests/` exercises the library on concrete values.
- `app/` holds what the library leaves to its caller: floating-point
  geometry and rendering, file and directory access, serialization with
  serde/bincode, reading and writing the search index files, and the
  drivers that answer the routing search's requests.
