//! Map feature types shared by the renderers, and the classification of
//! OpenStreetMap tags into them.
//!
//! Tag sets are lists of `(key, value)` pairs; a key is looked up by its
//! first occurrence.
use vstd::prelude::*;

use crate::text::str_eq;

verus! {

/// Point of interest types.
#[derive(Debug, Clone, Copy, PartialEq, Eq, Structural)]
pub enum PoiType {
    GasStation,
    Parking,
    ShoppingMall,
    CarWash,
    FastFood,
}

/// The number the renderer uses for a POI type.
pub open spec fn poi_code(t: PoiType) -> i32 {
    match t {
        PoiType::GasStation => 0,
        PoiType::Parking => 1,
        PoiType::ShoppingMall => 2,
        PoiType::CarWash => 3,
        PoiType::FastFood => 4,
    }
}

impl PoiType {
    pub fn to_int(&self) -> (r: i32)
        ensures
            r == poi_code(*self),
    {
        match self {
            PoiType::GasStation => 0,
            PoiType::Parking => 1,
            PoiType::ShoppingMall => 2,
            PoiType::CarWash => 3,
            PoiType::FastFood => 4,
        }
    }
}

/// Area types for natural features.
#[derive(Debug, Clone, Copy, PartialEq, Eq, Structural)]
pub enum AreaType {
    /// Lakes, rivers, ponds
    Water,
    /// Forests, woods
    Forest,
    /// Parks, gardens
    Park,
    /// Meadows, grassland
    Grass,
}

/// The number the renderer uses for an area type.
pub open spec fn area_code(t: AreaType) -> i32 {
    match t {
        AreaType::Water => 0,
        AreaType::Forest => 1,
        AreaType::Park => 2,
        AreaType::Grass => 3,
    }
}

impl AreaType {
    pub fn to_int(&self) -> (r: i32)
        ensures
            r == area_code(*self),
    {
        match self {
            AreaType::Water => 0,
            AreaType::Forest => 1,
            AreaType::Park => 2,
            AreaType::Grass => 3,
        }
    }
}

/// Waterway types for linear water features.
#[derive(Debug, Clone, Copy, PartialEq, Eq, Structural)]
pub enum WaterwayType {
    /// Major rivers
    River,
    /// Streams, creeks
    Stream,
    /// Canals
    Canal,
}

/// The number the renderer uses for a waterway type.
pub open spec fn waterway_code(t: WaterwayType) -> i32 {
    match t {
        WaterwayType::River => 0,
        WaterwayType::Stream => 1,
        WaterwayType::Canal => 2,
    }
}

impl WaterwayType {
    pub fn to_int(&self) -> (r: i32)
        ensures
            r == waterway_code(*self),
    {
        match self {
            WaterwayType::River => 0,
            WaterwayType::Stream => 1,
            WaterwayType::Canal => 2,
        }
    }
}

/// Road types for styling.
#[derive(Debug, Clone, Copy, PartialEq, Eq, Structural)]
pub enum RoadType {
    /// Major roads, highways
    Primary,
    /// Regular streets
    Secondary,
    /// Route/navigation highlight
    Highlight,
}

/// The number the renderer uses for a road type.
pub open spec fn road_code(t: RoadType) -> i32 {
    match t {
        RoadType::Primary => 0,
        RoadType::Secondary => 1,
        RoadType::Highlight => 2,
    }
}

impl RoadType {
    pub fn to_int(&self) -> (r: i32)
        ensures
            r == road_code(*self),
    {
        match self {
            RoadType::Primary => 0,
            RoadType::Secondary => 1,
            RoadType::Highlight => 2,
        }
    }
}

/// Distinct feature types have distinct renderer numbers, so a number
/// names its type.
pub proof fn lemma_codes_injective()
    ensures
        forall|a: PoiType, b: PoiType| poi_code(a) == poi_code(b) ==> a == b,
        forall|a: AreaType, b: AreaType| area_code(a) == area_code(b) ==> a == b,
        forall|a: WaterwayType, b: WaterwayType| waterway_code(a) == waterway_code(b) ==> a == b,
        forall|a: RoadType, b: RoadType| road_code(a) == road_code(b) ==> a == b,
{
}

/// Highway tag values drawn as major roads.
pub open spec fn is_major_highway(h: Seq<char>) -> bool {
    ||| h == "motorway"@
    ||| h == "trunk"@
    ||| h == "primary"@
    ||| h == "motorway_link"@
    ||| h == "trunk_link"@
    ||| h == "primary_link"@
}

/// The road type of an OSM `highway` tag value: major roads are primary,
/// every other value (also the empty one) is secondary.
pub open spec fn highway_road_type(h: Seq<char>) -> RoadType {
    if is_major_highway(h) {
        RoadType::Primary
    } else {
        RoadType::Secondary
    }
}

/// Road type from a `highway` tag value.
pub fn classify_highway(highway: &str) -> (r: RoadType)
    ensures
        r == highway_road_type(highway@),
{
    if str_eq(highway, "motorway") || str_eq(highway, "trunk") || str_eq(highway, "primary")
        || str_eq(highway, "motorway_link") || str_eq(highway, "trunk_link") || str_eq(
        highway,
        "primary_link",
    ) {
        RoadType::Primary
    } else {
        RoadType::Secondary
    }
}

/// The value of the first tag with the given key, if any.
pub open spec fn tag_value(tags: Seq<(String, String)>, key: Seq<char>) -> Option<Seq<char>>
    decreases tags.len(),
{
    if tags.len() == 0 {
        None
    } else if tags[0].0@ == key {
        Some(tags[0].1@)
    } else {
        tag_value(tags.drop_first(), key)
    }
}

/// Position of the first tag with the given key in `tags[from..]`, or
/// `tags.len()` when there is none.
fn find_tag(tags: &Vec<(String, String)>, key: &str) -> (r: usize)
    ensures
        r <= tags@.len(),
        r < tags@.len() ==> tags@[r as int].0@ == key@ && tag_value(tags@, key@) == Some(
            tags@[r as int].1@,
        ),
        r == tags@.len() ==> tag_value(tags@, key@) is None,
{
    let mut i: usize = 0;
    assert(tags@.subrange(0, tags@.len() as int) =~= tags@);
    while i < tags.len()
        invariant
            i <= tags@.len(),
            tag_value(tags@, key@) == tag_value(tags@.subrange(i as int, tags@.len() as int), key@),
        decreases tags@.len() - i,
    {
        if str_eq(tags[i].0.as_str(), key) {
            return i;
        }
        assert(tags@.subrange(i as int, tags@.len() as int).drop_first() =~= tags@.subrange(
            i + 1,
            tags@.len() as int,
        ));
        i = i + 1;
    }
    i
}

/// The value of a tag, if the list has it.
pub fn get_tag<'a>(tags: &'a Vec<(String, String)>, key: &str) -> (r: Option<&'a String>)
    ensures
        match r {
            Some(v) => tag_value(tags@, key@) == Some(v@),
            None => tag_value(tags@, key@) is None,
        },
{
    let i = find_tag(tags, key);
    if i < tags.len() {
        Some(&tags[i].1)
    } else {
        None
    }
}

/// The `highway` value of an optional tag set, `""` when absent.
pub open spec fn highway_of(tags: Option<Seq<(String, String)>>) -> Seq<char> {
    match tags {
        Some(t) => match tag_value(t, "highway"@) {
            Some(v) => v,
            None => ""@,
        },
        None => ""@,
    }
}

/// Classify road type from OSM tags: no tags, or no major `highway`
/// value, gives a secondary road.
pub fn classify_road_from_tags(tags: &Option<Vec<(String, String)>>) -> (r: RoadType)
    ensures
        r == highway_road_type(
            highway_of(
                match tags {
                    Some(t) => Some(t@),
                    None => None,
                },
            ),
        ),
{
    match tags {
        None => classify_highway(""),
        Some(t) => match get_tag(t, "highway") {
            Some(h) => classify_highway(h.as_str()),
            None => classify_highway(""),
        },
    }
}

/// The POI type of an area fetched from Overpass: fuel stations and car
/// parks by their first `amenity` tag.
pub open spec fn amenity_poi_type(tags: Seq<(String, String)>) -> Option<PoiType> {
    match tag_value(tags, "amenity"@) {
        Some(a) => if a == "fuel"@ {
            Some(PoiType::GasStation)
        } else if a == "parking"@ {
            Some(PoiType::Parking)
        } else {
            None
        },
        None => None,
    }
}

/// POI type of an Overpass way from its tags.
pub fn classify_poi_from_tags(tags: &Vec<(String, String)>) -> (r: Option<PoiType>)
    ensures
        r == amenity_poi_type(tags@),
{
    match get_tag(tags, "amenity") {
        Some(a) => if str_eq(a.as_str(), "fuel") {
            Some(PoiType::GasStation)
        } else if str_eq(a.as_str(), "parking") {
            Some(PoiType::Parking)
        } else {
            None
        },
        None => None,
    }
}

} // verus!
