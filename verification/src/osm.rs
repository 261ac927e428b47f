//! Classification of OpenStreetMap elements for the tile build tools: which
//! ways become map roads, waterways, areas or POIs, and which ways enter the
//! routing graph with what class, direction and speed.
//!
//! Geometry (reading the PBF file, coordinates, clipping) stays with the
//! tools; these functions take the tags of an element, as `(key, value)`
//! pairs, and decide what the element is.
use vstd::prelude::*;

use crate::map_core::{get_tag, tag_value};
use crate::routing::search::PlaceCategory;
use crate::routing::types::{class_level, class_speed, HierarchyLevel, RoadClass};
use crate::text::{parse_i32, parse_int_spec, str_chars, str_eq};
use crate::tiles::{AreaType, PoiType, RoadType, WaterwayType};

verus! {

/// Whether the tags have the key (at any position).
pub open spec fn has_key(tags: Seq<(String, String)>, key: Seq<char>) -> bool {
    tag_value(tags, key) is Some
}

/// Whether the first tag with `key` has the value `value`.
pub open spec fn tag_is(tags: Seq<(String, String)>, key: Seq<char>, value: Seq<char>) -> bool {
    tag_value(tags, key) == Some(value)
}

/// Whether some tag (not only the first with that key) is `key=value`.
pub open spec fn has_pair(tags: Seq<(String, String)>, key: Seq<char>, value: Seq<char>) -> bool {
    exists|i: int| 0 <= i < tags.len() && #[trigger] tags[i].0@ == key && tags[i].1@ == value
}

proof fn lemma_tag_value_some(tags: Seq<(String, String)>, key: Seq<char>)
    ensures
        tag_value(tags, key) is Some <==> exists|i: int|
            0 <= i < tags.len() && #[trigger] tags[i].0@ == key,
    decreases tags.len(),
{
    if tags.len() > 0 {
        lemma_tag_value_some(tags.drop_first(), key);
        if tags[0].0@ != key {
            if exists|i: int| 0 <= i < tags.len() && #[trigger] tags[i].0@ == key {
                let i = choose|i: int| 0 <= i < tags.len() && #[trigger] tags[i].0@ == key;
                assert(tags.drop_first()[i - 1].0@ == key);
            }
            if exists|i: int| 0 <= i < tags.len() - 1 && #[trigger] tags.drop_first()[i].0@ == key {
                let i = choose|i: int|
                    0 <= i < tags.len() - 1 && #[trigger] tags.drop_first()[i].0@ == key;
                assert(tags[i + 1].0@ == key);
            }
        }
    }
}

/// Whether the tags have the key.
pub fn has_tag(tags: &Vec<(String, String)>, key: &str) -> (r: bool)
    ensures
        r == has_key(tags@, key@),
{
    get_tag(tags, key).is_some()
}

/// Whether the first tag with `key` has the value `value`.
pub fn tag_equals(tags: &Vec<(String, String)>, key: &str, value: &str) -> (r: bool)
    ensures
        r == tag_is(tags@, key@, value@),
{
    match get_tag(tags, key) {
        Some(v) => str_eq(v.as_str(), value),
        None => false,
    }
}

/// Whether some tag is `key=value`.
pub fn has_tag_pair(tags: &Vec<(String, String)>, key: &str, value: &str) -> (r: bool)
    ensures
        r == has_pair(tags@, key@, value@),
{
    let mut i: usize = 0;
    while i < tags.len()
        invariant
            i <= tags@.len(),
            forall|j: int| 0 <= j < i ==> !(#[trigger] tags@[j].0@ == key@ && tags@[j].1@ == value@),
        decreases tags@.len() - i,
    {
        if str_eq(tags[i].0.as_str(), key) && str_eq(tags[i].1.as_str(), value) {
            return true;
        }
        i = i + 1;
    }
    false
}

// ---------------------------------------------------------------------------
// Map tiles
// ---------------------------------------------------------------------------

/// What a way becomes on the map.
#[derive(Debug, Clone, Copy, PartialEq, Eq, Structural)]
pub enum WayFeature {
    Road(RoadType),
    Waterway(WaterwayType),
    Area(AreaType),
    Poi(PoiType),
}

/// Map road type of a `highway` value; `None` for values not drawn.
pub open spec fn map_road_type(h: Seq<char>) -> Option<RoadType> {
    if h == "motorway"@ || h == "motorway_link"@ || h == "trunk"@ || h == "trunk_link"@ || h
        == "primary"@ || h == "primary_link"@ {
        Some(RoadType::Primary)
    } else if h == "secondary"@ || h == "secondary_link"@ || h == "tertiary"@ || h
        == "tertiary_link"@ || h == "residential"@ || h == "unclassified"@ || h
        == "living_street"@ || h == "service"@ {
        Some(RoadType::Secondary)
    } else {
        None
    }
}

/// Map road type of a `highway` value.
pub fn road_type_for_highway(h: &str) -> (r: Option<RoadType>)
    ensures
        r == map_road_type(h@),
        r == match highway_class(h@) {
            Some(c) => Some(
                if class_level(c) == HierarchyLevel::Highway {
                    RoadType::Primary
                } else {
                    RoadType::Secondary
                },
            ),
            None => None,
        },
        h@ == "residential"@ ==> r == Some(RoadType::Secondary),
{
    proof {
        lemma_map_follows_routing(h@);
        lemma_residential_drawn(h@);
        reveal_strlit("residential");
        reveal_strlit("motorway");
        reveal_strlit("motorway_link");
        reveal_strlit("trunk");
        reveal_strlit("trunk_link");
        reveal_strlit("primary");
        reveal_strlit("primary_link");
        reveal_strlit("secondary");
        reveal_strlit("secondary_link");
        reveal_strlit("tertiary");
        reveal_strlit("tertiary_link");
    }
    if str_eq(h, "motorway") || str_eq(h, "motorway_link") || str_eq(h, "trunk") || str_eq(
        h,
        "trunk_link",
    ) || str_eq(h, "primary") || str_eq(h, "primary_link") {
        Some(RoadType::Primary)
    } else if str_eq(h, "secondary") || str_eq(h, "secondary_link") || str_eq(h, "tertiary")
        || str_eq(h, "tertiary_link") || str_eq(h, "residential") || str_eq(h, "unclassified")
        || str_eq(h, "living_street") || str_eq(h, "service") {
        Some(RoadType::Secondary)
    } else {
        None
    }
}

/// Waterway type of a `waterway` value.
pub open spec fn map_waterway_type(w: Seq<char>) -> Option<WaterwayType> {
    if w == "river"@ {
        Some(WaterwayType::River)
    } else if w == "stream"@ {
        Some(WaterwayType::Stream)
    } else if w == "canal"@ {
        Some(WaterwayType::Canal)
    } else {
        None
    }
}

/// Waterway type of a `waterway` value.
pub fn waterway_type_for(w: &str) -> (r: Option<WaterwayType>)
    ensures
        r == map_waterway_type(w@),
{
    if str_eq(w, "river") {
        Some(WaterwayType::River)
    } else if str_eq(w, "stream") {
        Some(WaterwayType::Stream)
    } else if str_eq(w, "canal") {
        Some(WaterwayType::Canal)
    } else {
        None
    }
}

/// Area type of the tags of a closed way.
pub open spec fn map_area_type(t: Seq<(String, String)>) -> Option<AreaType> {
    if tag_is(t, "natural"@, "water"@) || tag_is(t, "waterway"@, "riverbank"@) || tag_is(
        t,
        "landuse"@,
        "reservoir"@,
    ) || has_key(t, "water"@) {
        Some(AreaType::Water)
    } else if tag_is(t, "natural"@, "wood"@) || tag_is(t, "landuse"@, "forest"@) {
        Some(AreaType::Forest)
    } else if tag_is(t, "leisure"@, "park"@) {
        Some(AreaType::Park)
    } else if tag_is(t, "landuse"@, "grass"@) || tag_is(t, "landuse"@, "meadow"@) || tag_is(
        t,
        "natural"@,
        "grassland"@,
    ) {
        Some(AreaType::Grass)
    } else {
        None
    }
}

/// Area type of the tags of a closed way.
pub fn area_type_for(tags: &Vec<(String, String)>) -> (r: Option<AreaType>)
    ensures
        r == map_area_type(tags@),
{
    if tag_equals(tags, "natural", "water") || tag_equals(tags, "waterway", "riverbank")
        || tag_equals(tags, "landuse", "reservoir") || has_tag(tags, "water") {
        Some(AreaType::Water)
    } else if tag_equals(tags, "natural", "wood") || tag_equals(tags, "landuse", "forest") {
        Some(AreaType::Forest)
    } else if tag_equals(tags, "leisure", "park") {
        Some(AreaType::Park)
    } else if tag_equals(tags, "landuse", "grass") || tag_equals(tags, "landuse", "meadow")
        || tag_equals(tags, "natural", "grassland") {
        Some(AreaType::Grass)
    } else {
        None
    }
}

/// POI type of the tags of a way or node: fuel, car wash and fast food
/// amenities; car parks that are multi-storey or underground and not for
/// bicycles; otherwise a shopping mall.
pub open spec fn map_poi_type(t: Seq<(String, String)>) -> Option<PoiType> {
    let by_amenity = if tag_is(t, "amenity"@, "fuel"@) {
        Some(PoiType::GasStation)
    } else if tag_is(t, "amenity"@, "car_wash"@) {
        Some(PoiType::CarWash)
    } else if tag_is(t, "amenity"@, "fast_food"@) {
        Some(PoiType::FastFood)
    } else if tag_is(t, "amenity"@, "parking"@) && !has_key(t, "bicycle"@) && (tag_is(
        t,
        "parking"@,
        "multi-storey"@,
    ) || tag_is(t, "parking"@, "underground"@)) {
        Some(PoiType::Parking)
    } else {
        None
    };
    match by_amenity {
        Some(p) => Some(p),
        None => if tag_is(t, "shop"@, "mall"@) {
            Some(PoiType::ShoppingMall)
        } else {
            None
        },
    }
}

/// POI type of the tags of a way or node.
pub fn poi_type_for(tags: &Vec<(String, String)>) -> (r: Option<PoiType>)
    ensures
        r == map_poi_type(tags@),
{
    let by_amenity = if tag_equals(tags, "amenity", "fuel") {
        Some(PoiType::GasStation)
    } else if tag_equals(tags, "amenity", "car_wash") {
        Some(PoiType::CarWash)
    } else if tag_equals(tags, "amenity", "fast_food") {
        Some(PoiType::FastFood)
    } else if tag_equals(tags, "amenity", "parking") && !has_tag(tags, "bicycle") && (tag_equals(
        tags,
        "parking",
        "multi-storey",
    ) || tag_equals(tags, "parking", "underground")) {
        Some(PoiType::Parking)
    } else {
        None
    };
    match by_amenity {
        Some(p) => Some(p),
        None => if tag_equals(tags, "shop", "mall") {
            Some(PoiType::ShoppingMall)
        } else {
            None
        },
    }
}

/// What a way with these tags becomes. A way with a `highway` tag is a
/// road or nothing; then a known waterway; then, when the way is closed,
/// an area; then a POI.
pub open spec fn way_feature(t: Seq<(String, String)>, is_closed: bool) -> Option<WayFeature> {
    match tag_value(t, "highway"@) {
        Some(h) => match map_road_type(h) {
            Some(rt) => Some(WayFeature::Road(rt)),
            None => None,
        },
        None => {
            let ww = match tag_value(t, "waterway"@) {
                Some(w) => map_waterway_type(w),
                None => None,
            };
            match ww {
                Some(wt) => Some(WayFeature::Waterway(wt)),
                None => {
                    let area = if is_closed {
                        map_area_type(t)
                    } else {
                        None
                    };
                    match area {
                        Some(at) => Some(WayFeature::Area(at)),
                        None => match map_poi_type(t) {
                            Some(pt) => Some(WayFeature::Poi(pt)),
                            None => None,
                        },
                    }
                },
            }
        },
    }
}

/// What a way with these tags becomes on the map; `is_closed` says whether
/// its first and last points coincide.
pub fn classify_way(tags: &Vec<(String, String)>, is_closed: bool) -> (r: Option<WayFeature>)
    ensures
        r == way_feature(tags@, is_closed),
{
    if let Some(h) = get_tag(tags, "highway") {
        return match road_type_for_highway(h.as_str()) {
            Some(rt) => Some(WayFeature::Road(rt)),
            None => None,
        };
    }
    let ww = match get_tag(tags, "waterway") {
        Some(w) => waterway_type_for(w.as_str()),
        None => None,
    };
    if let Some(wt) = ww {
        return Some(WayFeature::Waterway(wt));
    }
    if is_closed {
        if let Some(at) = area_type_for(tags) {
            return Some(WayFeature::Area(at));
        }
    }
    match poi_type_for(tags) {
        Some(pt) => Some(WayFeature::Poi(pt)),
        None => None,
    }
}

/// Some tag is `highway` with a value drawn as a road.
pub open spec fn has_road_tag(t: Seq<(String, String)>) -> bool {
    exists|i: int| 0 <= i < t.len() && #[trigger] t[i].0@ == "highway"@ && map_road_type(t[i].1@) is Some
}

/// Some tag is `waterway` with a value drawn as a waterway.
pub open spec fn has_waterway_tag(t: Seq<(String, String)>) -> bool {
    exists|i: int|
        0 <= i < t.len() && #[trigger] t[i].0@ == "waterway"@ && map_waterway_type(t[i].1@) is Some
}

/// Some tag is `key`, whatever its value.
pub open spec fn any_key(t: Seq<(String, String)>, key: Seq<char>) -> bool {
    exists|i: int| 0 <= i < t.len() && #[trigger] t[i].0@ == key
}

/// The tags mark water: `natural=water`, `waterway=riverbank`,
/// `landuse=reservoir` or any `water` tag.
pub open spec fn marks_water(t: Seq<(String, String)>) -> bool {
    has_pair(t, "natural"@, "water"@) || has_pair(t, "waterway"@, "riverbank"@) || has_pair(
        t,
        "landuse"@,
        "reservoir"@,
    ) || any_key(t, "water"@)
}

/// A way whose nodes the map build needs: a road, a fuel station,
/// multi-storey or underground car parking (not for bicycles), a mall, a
/// car wash, fast food, water, forest, park, grass, a river, stream or
/// canal, or a way of a water relation.
pub open spec fn way_needs_nodes_spec(t: Seq<(String, String)>, in_water_relation: bool) -> bool {
    ||| has_road_tag(t)
    ||| has_pair(t, "amenity"@, "fuel"@)
    ||| (has_pair(t, "amenity"@, "parking"@) && (has_pair(t, "parking"@, "multi-storey"@) || has_pair(
        t,
        "parking"@,
        "underground"@,
    )) && !any_key(t, "bicycle"@))
    ||| has_pair(t, "shop"@, "mall"@)
    ||| has_pair(t, "amenity"@, "car_wash"@)
    ||| has_pair(t, "amenity"@, "fast_food"@)
    ||| marks_water(t)
    ||| has_pair(t, "natural"@, "wood"@)
    ||| has_pair(t, "landuse"@, "forest"@)
    ||| has_pair(t, "leisure"@, "park"@)
    ||| has_pair(t, "landuse"@, "grass"@)
    ||| has_pair(t, "landuse"@, "meadow"@)
    ||| has_pair(t, "natural"@, "grassland"@)
    ||| has_waterway_tag(t)
    ||| in_water_relation
}

fn any_tag_key(tags: &Vec<(String, String)>, key: &str) -> (r: bool)
    ensures
        r == any_key(tags@, key@),
{
    let mut i: usize = 0;
    while i < tags.len()
        invariant
            i <= tags@.len(),
            forall|j: int| 0 <= j < i ==> !(#[trigger] tags@[j].0@ == key@),
        decreases tags@.len() - i,
    {
        if str_eq(tags[i].0.as_str(), key) {
            return true;
        }
        i = i + 1;
    }
    false
}

fn any_road_tag(tags: &Vec<(String, String)>) -> (r: bool)
    ensures
        r == has_road_tag(tags@),
{
    let mut i: usize = 0;
    while i < tags.len()
        invariant
            i <= tags@.len(),
            forall|j: int|
                0 <= j < i ==> !(#[trigger] tags@[j].0@ == "highway"@ && map_road_type(tags@[j].1@) is Some),
        decreases tags@.len() - i,
    {
        if str_eq(tags[i].0.as_str(), "highway") && road_type_for_highway(tags[i].1.as_str()).is_some() {
            return true;
        }
        i = i + 1;
    }
    false
}

fn any_waterway_tag(tags: &Vec<(String, String)>) -> (r: bool)
    ensures
        r == has_waterway_tag(tags@),
{
    let mut i: usize = 0;
    while i < tags.len()
        invariant
            i <= tags@.len(),
            forall|j: int|
                0 <= j < i ==> !(#[trigger] tags@[j].0@ == "waterway"@ && map_waterway_type(tags@[j].1@) is Some),
        decreases tags@.len() - i,
    {
        if str_eq(tags[i].0.as_str(), "waterway") && waterway_type_for(tags[i].1.as_str()).is_some() {
            return true;
        }
        i = i + 1;
    }
    false
}

/// Whether the tags mark water.
pub fn is_water(tags: &Vec<(String, String)>) -> (r: bool)
    ensures
        r == marks_water(tags@),
{
    has_tag_pair(tags, "natural", "water") || has_tag_pair(tags, "waterway", "riverbank")
        || has_tag_pair(tags, "landuse", "reservoir") || any_tag_key(tags, "water")
}

/// Whether the map build needs the nodes of a way with these tags;
/// `in_water_relation` says whether the way belongs to a water relation.
pub fn way_needs_nodes(tags: &Vec<(String, String)>, in_water_relation: bool) -> (r: bool)
    ensures
        r == way_needs_nodes_spec(tags@, in_water_relation),
{
    let parking = has_tag_pair(tags, "amenity", "parking") && (has_tag_pair(
        tags,
        "parking",
        "multi-storey",
    ) || has_tag_pair(tags, "parking", "underground")) && !any_tag_key(tags, "bicycle");
    any_road_tag(tags) || has_tag_pair(tags, "amenity", "fuel") || parking || has_tag_pair(
        tags,
        "shop",
        "mall",
    ) || has_tag_pair(tags, "amenity", "car_wash") || has_tag_pair(tags, "amenity", "fast_food")
        || is_water(tags) || has_tag_pair(tags, "natural", "wood") || has_tag_pair(
        tags,
        "landuse",
        "forest",
    ) || has_tag_pair(tags, "leisure", "park") || has_tag_pair(tags, "landuse", "grass")
        || has_tag_pair(tags, "landuse", "meadow") || has_tag_pair(tags, "natural", "grassland")
        || any_waterway_tag(tags) || in_water_relation
}

/// A member of a relation: whether it is a way, its id and its role.
#[derive(Debug, Clone)]
pub struct RelationMember {
    pub is_way: bool,
    pub id: i64,
    pub role: Option<String>,
}

/// Whether a relation with these tags is a water multipolygon.
pub fn is_water_multipolygon(tags: &Vec<(String, String)>) -> (r: bool)
    ensures
        r == (has_pair(tags@, "type"@, "multipolygon"@) && marks_water(tags@)),
{
    has_tag_pair(tags, "type", "multipolygon") && is_water(tags)
}

/// The member is an outer way: a way with role `outer` or no role.
pub open spec fn is_outer_way(m: RelationMember) -> bool {
    m.is_way && match m.role {
        Some(r) => r@ == "outer"@ || r@.len() == 0,
        None => true,
    }
}

/// The ids of the outer ways among the first `k` members, in order.
pub open spec fn outer_way_ids(ms: Seq<RelationMember>, k: int) -> Seq<i64>
    decreases k,
{
    if k <= 0 {
        Seq::empty()
    } else if is_outer_way(ms[k - 1]) {
        outer_way_ids(ms, k - 1).push(ms[k - 1].id)
    } else {
        outer_way_ids(ms, k - 1)
    }
}

/// The ids of the outer ways of a relation, in member order.
pub fn outer_ways(members: &Vec<RelationMember>) -> (r: Vec<i64>)
    ensures
        r@ == outer_way_ids(members@, members@.len() as int),
{
    let mut r: Vec<i64> = Vec::new();
    let mut k: usize = 0;
    while k < members.len()
        invariant
            k <= members@.len(),
            r@ == outer_way_ids(members@, k as int),
        decreases members@.len() - k,
    {
        let m = &members[k];
        let outer = m.is_way && match &m.role {
            Some(role) => str_eq(role.as_str(), "outer") || role.as_str().unicode_len() == 0,
            None => true,
        };
        if outer {
            r.push(m.id);
        }
        k = k + 1;
    }
    r
}

// ---------------------------------------------------------------------------
// Routing graph
// ---------------------------------------------------------------------------

/// Road class of a `highway` value; `None` for ways that are not routable.
pub open spec fn highway_class(h: Seq<char>) -> Option<RoadClass> {
    if h == "motorway"@ || h == "motorway_link"@ {
        Some(RoadClass::Motorway)
    } else if h == "trunk"@ || h == "trunk_link"@ {
        Some(RoadClass::Trunk)
    } else if h == "primary"@ || h == "primary_link"@ {
        Some(RoadClass::Primary)
    } else if h == "secondary"@ || h == "secondary_link"@ {
        Some(RoadClass::Secondary)
    } else if h == "tertiary"@ || h == "tertiary_link"@ {
        Some(RoadClass::Tertiary)
    } else if h == "residential"@ {
        Some(RoadClass::Residential)
    } else if h == "unclassified"@ || h == "living_street"@ {
        Some(RoadClass::Other)
    } else if h == "service"@ {
        Some(RoadClass::Service)
    } else {
        None
    }
}

/// Road class of a way from its first `highway` tag.
pub open spec fn way_road_class(t: Seq<(String, String)>) -> Option<RoadClass> {
    match tag_value(t, "highway"@) {
        Some(h) => highway_class(h),
        None => None,
    }
}

/// A primary road, or its link, is of class `Primary`.
proof fn lemma_primary_class(h: Seq<char>)
    ensures
        (h == "primary"@ || h == "primary_link"@) ==> highway_class(h) == Some(RoadClass::Primary),
{
    reveal_strlit("motorway");
    reveal_strlit("motorway_link");
    reveal_strlit("trunk");
    reveal_strlit("trunk_link");
    reveal_strlit("primary");
    reveal_strlit("primary_link");
    assert("motorway"@.len() == 8);
    assert("motorway_link"@.len() == 13);
    assert("trunk"@.len() == 5);
    assert("trunk_link"@.len() == 10);
    assert("primary"@.len() == 7);
    assert("primary_link"@.len() == 12);
    if h == "primary"@ || h == "primary_link"@ {
        assert(h != "motorway"@ && h != "motorway_link"@ && h != "trunk"@ && h != "trunk_link"@);
    }
}

/// A residential road is drawn as a secondary road.
proof fn lemma_residential_drawn(h: Seq<char>)
    ensures
        h == "residential"@ ==> map_road_type(h) == Some(RoadType::Secondary),
{
    reveal_strlit("motorway");
    reveal_strlit("motorway_link");
    reveal_strlit("trunk");
    reveal_strlit("trunk_link");
    reveal_strlit("primary");
    reveal_strlit("primary_link");
    reveal_strlit("secondary");
    reveal_strlit("secondary_link");
    reveal_strlit("tertiary");
    reveal_strlit("tertiary_link");
    reveal_strlit("residential");
    assert("motorway"@.len() == 8);
    assert("motorway_link"@.len() == 13);
    assert("trunk"@.len() == 5);
    assert("trunk_link"@.len() == 10);
    assert("primary"@.len() == 7);
    assert("primary_link"@.len() == 12);
    assert("residential"@.len() == 11);
    if h == "residential"@ {
        assert(h != "motorway"@ && h != "motorway_link"@ && h != "trunk"@ && h != "trunk_link"@
            && h != "primary"@ && h != "primary_link"@);
    }
}

/// Road classes rank the `highway` values: motorway, trunk, primary,
/// secondary, tertiary, residential and service roads get classes with
/// strictly decreasing default speeds, and each link road gets the class of
/// its road.
pub proof fn lemma_highway_ranks()
    ensures
        ({
            let v = seq![
                "motorway"@,
                "trunk"@,
                "primary"@,
                "secondary"@,
                "tertiary"@,
                "residential"@,
                "service"@,
            ];
            forall|i: int, j: int|
                0 <= i < j < v.len() ==> highway_class(#[trigger] v[i]) is Some && highway_class(
                    #[trigger] v[j],
                ) is Some && class_speed(highway_class(v[i]).unwrap()) > class_speed(
                    highway_class(v[j]).unwrap(),
                )
        }),
        highway_class("motorway_link"@) == highway_class("motorway"@),
        highway_class("trunk_link"@) == highway_class("trunk"@),
        highway_class("primary_link"@) == highway_class("primary"@),
        highway_class("secondary_link"@) == highway_class("secondary"@),
        highway_class("tertiary_link"@) == highway_class("tertiary"@),
{
    reveal_strlit("motorway");
    reveal_strlit("motorway_link");
    reveal_strlit("trunk");
    reveal_strlit("trunk_link");
    reveal_strlit("primary");
    reveal_strlit("primary_link");
    reveal_strlit("secondary");
    reveal_strlit("secondary_link");
    reveal_strlit("tertiary");
    reveal_strlit("tertiary_link");
    reveal_strlit("residential");
    reveal_strlit("unclassified");
    reveal_strlit("living_street");
    reveal_strlit("service");
    assert("motorway"@.len() == 8 && "motorway"@[0] == 'm');
    assert("motorway_link"@.len() == 13 && "motorway_link"@[0] == 'm');
    assert("trunk"@.len() == 5 && "trunk"@[0] == 't');
    assert("trunk_link"@.len() == 10 && "trunk_link"@[0] == 't');
    assert("primary"@.len() == 7 && "primary"@[0] == 'p');
    assert("primary_link"@.len() == 12 && "primary_link"@[0] == 'p');
    assert("secondary"@.len() == 9 && "secondary"@[0] == 's');
    assert("secondary_link"@.len() == 14 && "secondary_link"@[0] == 's');
    assert("tertiary"@.len() == 8 && "tertiary"@[0] == 't');
    assert("tertiary_link"@.len() == 13 && "tertiary_link"@[0] == 't');
    assert("residential"@.len() == 11 && "residential"@[0] == 'r');
    assert("unclassified"@.len() == 12 && "unclassified"@[0] == 'u');
    assert("living_street"@.len() == 13 && "living_street"@[0] == 'l');
    assert("service"@.len() == 7 && "service"@[0] == 's');
    assert(highway_class("motorway"@) == Some(RoadClass::Motorway));
    assert(highway_class("motorway_link"@) == Some(RoadClass::Motorway));
    assert(highway_class("trunk"@) == Some(RoadClass::Trunk));
    assert(highway_class("trunk_link"@) == Some(RoadClass::Trunk));
    assert(highway_class("primary"@) == Some(RoadClass::Primary));
    assert(highway_class("primary_link"@) == Some(RoadClass::Primary));
    assert(highway_class("secondary"@) == Some(RoadClass::Secondary));
    assert(highway_class("secondary_link"@) == Some(RoadClass::Secondary));
    assert(highway_class("tertiary"@) == Some(RoadClass::Tertiary));
    assert(highway_class("tertiary_link"@) == Some(RoadClass::Tertiary));
    assert(highway_class("residential"@) == Some(RoadClass::Residential));
    assert(highway_class("service"@) == Some(RoadClass::Service));
}

/// The map draws exactly the routable `highway` values: those carried by
/// the highway level as primary roads, the others as secondary roads.
pub proof fn lemma_map_follows_routing(h: Seq<char>)
    ensures
        map_road_type(h) == match highway_class(h) {
            Some(c) => Some(
                if class_level(c) == HierarchyLevel::Highway {
                    RoadType::Primary
                } else {
                    RoadType::Secondary
                },
            ),
            None => None,
        },
{
    reveal_strlit("motorway");
    reveal_strlit("motorway_link");
    reveal_strlit("trunk");
    reveal_strlit("trunk_link");
    reveal_strlit("primary");
    reveal_strlit("primary_link");
    reveal_strlit("secondary");
    reveal_strlit("secondary_link");
    reveal_strlit("tertiary");
    reveal_strlit("tertiary_link");
    reveal_strlit("residential");
    reveal_strlit("unclassified");
    reveal_strlit("living_street");
    reveal_strlit("service");
}

/// Road class of a routable way; `None` when the way is not routable.
pub fn road_class_for_way(tags: &Vec<(String, String)>) -> (r: Option<RoadClass>)
    ensures
        r == way_road_class(tags@),
        match tag_value(tags@, "highway"@) {
            Some(h) => {
                &&& (h == "primary"@ || h == "primary_link"@) ==> r == Some(RoadClass::Primary)
                &&& map_road_type(h) == match r {
                    Some(c) => Some(
                        if class_level(c) == HierarchyLevel::Highway {
                            RoadType::Primary
                        } else {
                            RoadType::Secondary
                        },
                    ),
                    None => None,
                }
            },
            None => r is None,
        },
{
    proof {
        if let Some(h) = tag_value(tags@, "highway"@) {
            lemma_map_follows_routing(h);
            reveal_strlit("primary");
            reveal_strlit("primary_link");
            reveal_strlit("motorway");
            reveal_strlit("motorway_link");
            reveal_strlit("trunk");
            reveal_strlit("trunk_link");
            lemma_primary_class(h);
        }
    }
    match get_tag(tags, "highway") {
        None => None,
        Some(hs) => {
            let h = hs.as_str();
            if str_eq(h, "motorway") || str_eq(h, "motorway_link") {
                Some(RoadClass::Motorway)
            } else if str_eq(h, "trunk") || str_eq(h, "trunk_link") {
                Some(RoadClass::Trunk)
            } else if str_eq(h, "primary") || str_eq(h, "primary_link") {
                Some(RoadClass::Primary)
            } else if str_eq(h, "secondary") || str_eq(h, "secondary_link") {
                Some(RoadClass::Secondary)
            } else if str_eq(h, "tertiary") || str_eq(h, "tertiary_link") {
                Some(RoadClass::Tertiary)
            } else if str_eq(h, "residential") {
                Some(RoadClass::Residential)
            } else if str_eq(h, "unclassified") || str_eq(h, "living_street") {
                Some(RoadClass::Other)
            } else if str_eq(h, "service") {
                Some(RoadClass::Service)
            } else {
                None
            }
        },
    }
}

/// A way is one-way when tagged `oneway=yes|1|true`, when it is a motorway,
/// or when it is a roundabout (any matching tag counts).
pub open spec fn way_is_oneway(t: Seq<(String, String)>) -> bool {
    ||| has_pair(t, "oneway"@, "yes"@)
    ||| has_pair(t, "oneway"@, "1"@)
    ||| has_pair(t, "oneway"@, "true"@)
    ||| has_pair(t, "highway"@, "motorway"@)
    ||| has_pair(t, "junction"@, "roundabout"@)
}

/// Whether a way is one-way.
pub fn is_oneway(tags: &Vec<(String, String)>) -> (r: bool)
    ensures
        r == way_is_oneway(tags@),
{
    has_tag_pair(tags, "oneway", "yes") || has_tag_pair(tags, "oneway", "1") || has_tag_pair(
        tags,
        "oneway",
        "true",
    ) || has_tag_pair(tags, "highway", "motorway") || has_tag_pair(tags, "junction", "roundabout")
}

/// `s` with every trailing copy of `suffix` removed, as `str::trim_end_matches`.
pub open spec fn trim_suffix(s: Seq<char>, suffix: Seq<char>) -> Seq<char>
    decreases s.len(),
{
    if suffix.len() > 0 && s.len() >= suffix.len() && s.subrange(
        s.len() - suffix.len(),
        s.len() as int,
    ) == suffix {
        trim_suffix(s.subrange(0, s.len() - suffix.len()), suffix)
    } else {
        s
    }
}

/// `str::parse::<u8>`: an optional `+` and at least one decimal digit, with
/// a value of at most 255.
pub open spec fn parse_u8_spec(s: Seq<char>) -> Option<u8> {
    if s.len() > 0 && s[0] != '-' {
        match parse_int_spec(s) {
            Some(v) => if v <= 255 {
                Some(v as u8)
            } else {
                None
            },
            None => None,
        }
    } else {
        None
    }
}

/// A `maxspeed` value in km/h: the number before any trailing `" km/h"`.
pub open spec fn maxspeed_value(v: Seq<char>) -> Option<u8> {
    parse_u8_spec(trim_suffix(v, " km/h"@))
}

/// Parses a `maxspeed` value in km/h.
pub fn parse_maxspeed(v: &str) -> (r: Option<u8>)
    ensures
        r == maxspeed_value(v@),
{
    let chars = str_chars(v);
    let suffix = str_chars(" km/h");
    let mut end: usize = chars.len();
    assert(chars@.subrange(0, end as int) =~= chars@);
    proof {
        reveal_strlit(" km/h");
    }
    while end >= suffix.len() && suffix.len() > 0
        invariant
            end <= chars@.len(),
            suffix@ == " km/h"@,
            trim_suffix(chars@.subrange(0, end as int), suffix@) == trim_suffix(v@, " km/h"@),
        ensures
            end <= chars@.len(),
            trim_suffix(chars@.subrange(0, end as int), suffix@) == trim_suffix(v@, " km/h"@),
            trim_suffix(chars@.subrange(0, end as int), suffix@) == chars@.subrange(0, end as int),
        decreases end,
    {
        let start = end - suffix.len();
        let mut k: usize = 0;
        let mut same = true;
        while k < suffix.len()
            invariant
                start + suffix@.len() == end,
                end <= chars@.len(),
                k <= suffix@.len(),
                same == forall|j: int| 0 <= j < k ==> chars@[start + j] == suffix@[j],
            decreases suffix@.len() - k,
        {
            if chars[start + k] != suffix[k] {
                same = false;
            }
            k = k + 1;
        }
        let ghost s = chars@.subrange(0, end as int);
        if !same {
            assert(s.subrange(s.len() - suffix@.len(), s.len() as int) != suffix@) by {
                let j = choose|j: int| 0 <= j < suffix@.len() && chars@[start + j] != suffix@[j];
                assert(s.subrange(s.len() - suffix@.len(), s.len() as int)[j] == chars@[start + j]);
            }
            break;
        }
        assert(s.subrange(s.len() - suffix@.len(), s.len() as int) =~= suffix@);
        assert(s.subrange(0, s.len() - suffix@.len()) =~= chars@.subrange(0, start as int));
        end = start;
    }
    let ghost body = chars@.subrange(0, end as int);
    assert(trim_suffix(body, suffix@) == body);
    if end == 0 || chars[0] == '-' {
        return None;
    }
    match parse_i32(&chars, 0, end) {
        Some(n) => if 0 <= n && n <= 255 {
            Some(n as u8)
        } else {
            None
        },
        None => {
            proof {
                if parse_int_spec(body) is Some {
                    assert(parse_int_spec(body).unwrap() > 255);
                }
            }
            None
        },
    }
}

/// Speed of a way: its `maxspeed` when that parses, else the default speed
/// of its class.
pub open spec fn way_speed(t: Seq<(String, String)>, c: RoadClass) -> u8 {
    match tag_value(t, "maxspeed"@) {
        Some(v) => match maxspeed_value(v) {
            Some(s) => s,
            None => crate::routing::types::class_speed(c),
        },
        None => crate::routing::types::class_speed(c),
    }
}

/// Speed of a way in km/h.
pub fn speed_for_way(tags: &Vec<(String, String)>, road_class: RoadClass) -> (r: u8)
    ensures
        r == way_speed(tags@, road_class),
{
    match get_tag(tags, "maxspeed") {
        Some(v) => match parse_maxspeed(v.as_str()) {
            Some(s) => s,
            None => road_class.default_speed_kmh(),
        },
        None => road_class.default_speed_kmh(),
    }
}

/// Check if a road class belongs to a hierarchy level.
pub fn road_class_for_level(road_class: RoadClass, level: HierarchyLevel) -> (r: bool)
    ensures
        r == (class_level(road_class) == level),
{
    match level {
        HierarchyLevel::Highway => match road_class {
            RoadClass::Motorway | RoadClass::Trunk | RoadClass::Primary => true,
            _ => false,
        },
        HierarchyLevel::Arterial => match road_class {
            RoadClass::Secondary | RoadClass::Tertiary => true,
            _ => false,
        },
        HierarchyLevel::Local => match road_class {
            RoadClass::Residential | RoadClass::Service | RoadClass::Other => true,
            _ => false,
        },
    }
}

// ---------------------------------------------------------------------------
// Search index
// ---------------------------------------------------------------------------

/// `place` values of settlements.
pub open spec fn is_settlement(v: Seq<char>) -> bool {
    v == "city"@ || v == "town"@ || v == "village"@ || v == "hamlet"@ || v == "suburb"@ || v
        == "neighbourhood"@
}

/// `amenity` values of searchable POIs.
pub open spec fn is_poi_amenity(v: Seq<char>) -> bool {
    v == "fuel"@ || v == "restaurant"@ || v == "cafe"@ || v == "fast_food"@ || v == "parking"@
        || v == "hospital"@ || v == "pharmacy"@ || v == "bank"@ || v == "atm"@ || v == "police"@
        || v == "post_office"@ || v == "school"@ || v == "university"@ || v == "library"@ || v
        == "cinema"@ || v == "theatre"@
}

/// `natural` values of searchable natural features.
pub open spec fn is_natural_feature(v: Seq<char>) -> bool {
    v == "peak"@ || v == "volcano"@ || v == "water"@ || v == "bay"@ || v == "beach"@ || v
        == "glacier"@
}

/// Place category from OSM tags, checking in turn the `place`, `highway`,
/// `amenity`, `shop`, `tourism`, transport, `natural` and `waterway` tags.
pub open spec fn place_category(t: Seq<(String, String)>) -> PlaceCategory {
    match tag_value(t, "place"@) {
        Some(v) => if is_settlement(v) {
            PlaceCategory::Settlement
        } else {
            PlaceCategory::Other
        },
        None => if has_key(t, "highway"@) {
            PlaceCategory::Street
        } else {
            match tag_value(t, "amenity"@) {
                Some(v) => if is_poi_amenity(v) {
                    PlaceCategory::Poi
                } else {
                    PlaceCategory::Other
                },
                None => if has_key(t, "shop"@) || has_key(t, "tourism"@) {
                    PlaceCategory::Poi
                } else if tag_is(t, "aeroway"@, "aerodrome"@) || tag_is(t, "railway"@, "station"@)
                    || tag_is(t, "railway"@, "halt"@) || tag_is(
                    t,
                    "public_transport"@,
                    "station"@,
                ) {
                    PlaceCategory::Transport
                } else {
                    match tag_value(t, "natural"@) {
                        Some(v) => if is_natural_feature(v) {
                            PlaceCategory::Natural
                        } else {
                            PlaceCategory::Other
                        },
                        None => if tag_is(t, "waterway"@, "river"@) || tag_is(
                            t,
                            "waterway"@,
                            "stream"@,
                        ) {
                            PlaceCategory::Natural
                        } else {
                            PlaceCategory::Other
                        },
                    }
                },
            }
        },
    }
}

/// Determine place category from OSM tags.
pub fn determine_category(tags: &Vec<(String, String)>) -> (r: PlaceCategory)
    ensures
        r == place_category(tags@),
{
    if let Some(vs) = get_tag(tags, "place") {
        let v = vs.as_str();
        return if str_eq(v, "city") || str_eq(v, "town") || str_eq(v, "village") || str_eq(
            v,
            "hamlet",
        ) || str_eq(v, "suburb") || str_eq(v, "neighbourhood") {
            PlaceCategory::Settlement
        } else {
            PlaceCategory::Other
        };
    }
    if has_tag(tags, "highway") {
        return PlaceCategory::Street;
    }
    if let Some(vs) = get_tag(tags, "amenity") {
        let v = vs.as_str();
        return if str_eq(v, "fuel") || str_eq(v, "restaurant") || str_eq(v, "cafe") || str_eq(
            v,
            "fast_food",
        ) || str_eq(v, "parking") || str_eq(v, "hospital") || str_eq(v, "pharmacy") || str_eq(
            v,
            "bank",
        ) || str_eq(v, "atm") || str_eq(v, "police") || str_eq(v, "post_office") || str_eq(
            v,
            "school",
        ) || str_eq(v, "university") || str_eq(v, "library") || str_eq(v, "cinema") || str_eq(
            v,
            "theatre",
        ) {
            PlaceCategory::Poi
        } else {
            PlaceCategory::Other
        };
    }
    if has_tag(tags, "shop") || has_tag(tags, "tourism") {
        return PlaceCategory::Poi;
    }
    if tag_equals(tags, "aeroway", "aerodrome") || tag_equals(tags, "railway", "station")
        || tag_equals(tags, "railway", "halt") || tag_equals(tags, "public_transport", "station") {
        return PlaceCategory::Transport;
    }
    if let Some(vs) = get_tag(tags, "natural") {
        let v = vs.as_str();
        return if str_eq(v, "peak") || str_eq(v, "volcano") || str_eq(v, "water") || str_eq(
            v,
            "bay",
        ) || str_eq(v, "beach") || str_eq(v, "glacier") {
            PlaceCategory::Natural
        } else {
            PlaceCategory::Other
        };
    }
    if tag_equals(tags, "waterway", "river") || tag_equals(tags, "waterway", "stream") {
        return PlaceCategory::Natural;
    }
    PlaceCategory::Other
}

/// The searchable name and category of an element: its first `name` tag,
/// when that is not empty.
pub open spec fn place_entry(t: Seq<(String, String)>) -> Option<(Seq<char>, PlaceCategory)> {
    match tag_value(t, "name"@) {
        Some(n) => if n.len() == 0 {
            None
        } else {
            Some((n, place_category(t)))
        },
        None => None,
    }
}

/// Name and category of an element to add to the search index.
pub fn extract_place_from_tags(tags: &Vec<(String, String)>) -> (r: Option<(String, PlaceCategory)>)
    ensures
        match r {
            Some(e) => place_entry(tags@) == Some((e.0@, e.1)),
            None => place_entry(tags@) is None,
        },
{
    match get_tag(tags, "name") {
        None => None,
        Some(n) => {
            if n.as_str().unicode_len() == 0 {
                None
            } else {
                Some((n.clone(), determine_category(tags)))
            }
        },
    }
}

} // verus!
