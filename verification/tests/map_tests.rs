use minimap::map_core::{
    classify_highway, classify_poi_from_tags, classify_road_from_tags, get_tag, AreaType, PoiType,
    RoadType, WaterwayType,
};
use minimap::osm::{
    classify_way, determine_category, extract_place_from_tags, is_oneway, parse_maxspeed,
    road_class_for_level, road_class_for_way, speed_for_way, WayFeature,
};
use minimap::routing::search::PlaceCategory;
use minimap::routing::types::{HierarchyLevel, RoadClass};
use minimap::tiles;

fn tags(pairs: &[(&str, &str)]) -> Vec<(String, String)> {
    pairs.iter().map(|(k, v)| (k.to_string(), v.to_string())).collect()
}

#[test]
fn test_road_type_to_int() {
    assert_eq!(RoadType::Primary.to_int(), 0);
    assert_eq!(RoadType::Secondary.to_int(), 1);
    assert_eq!(RoadType::Highlight.to_int(), 2);
}

#[test]
fn feature_type_numbers() {
    assert_eq!(PoiType::GasStation.to_int(), 0);
    assert_eq!(PoiType::FastFood.to_int(), 4);
    assert_eq!(AreaType::Water.to_int(), 0);
    assert_eq!(AreaType::Grass.to_int(), 3);
    assert_eq!(WaterwayType::Canal.to_int(), 2);
}

#[test]
fn road_classification_from_tags() {
    assert_eq!(classify_highway("motorway"), RoadType::Primary);
    assert_eq!(classify_highway("primary_link"), RoadType::Primary);
    assert_eq!(classify_highway("residential"), RoadType::Secondary);
    assert_eq!(classify_highway(""), RoadType::Secondary);
    assert_eq!(classify_road_from_tags(&None), RoadType::Secondary);
    assert_eq!(
        classify_road_from_tags(&Some(tags(&[("name", "A1"), ("highway", "trunk")]))),
        RoadType::Primary
    );
    assert_eq!(classify_road_from_tags(&Some(tags(&[("name", "x")]))), RoadType::Secondary);
    // The first highway tag decides.
    assert_eq!(
        classify_road_from_tags(&Some(tags(&[("highway", "service"), ("highway", "motorway")]))),
        RoadType::Secondary
    );
    assert_eq!(get_tag(&tags(&[("a", "1"), ("a", "2")]), "a"), Some(&"1".to_string()));
}

#[test]
fn overpass_poi_classification() {
    assert_eq!(classify_poi_from_tags(&tags(&[("amenity", "fuel")])), Some(PoiType::GasStation));
    assert_eq!(classify_poi_from_tags(&tags(&[("amenity", "parking")])), Some(PoiType::Parking));
    assert_eq!(classify_poi_from_tags(&tags(&[("amenity", "cafe")])), None);
    assert_eq!(classify_poi_from_tags(&tags(&[])), None);
}

#[test]
fn way_classification_for_map_tiles() {
    assert_eq!(
        classify_way(&tags(&[("highway", "motorway_link")]), false),
        Some(WayFeature::Road(tiles::RoadType::Primary))
    );
    assert_eq!(
        classify_way(&tags(&[("highway", "service")]), true),
        Some(WayFeature::Road(tiles::RoadType::Secondary))
    );
    // A highway that is not drawn is nothing, whatever else it has.
    assert_eq!(classify_way(&tags(&[("highway", "footway"), ("amenity", "fuel")]), false), None);
    assert_eq!(
        classify_way(&tags(&[("waterway", "stream")]), false),
        Some(WayFeature::Waterway(tiles::WaterwayType::Stream))
    );
    assert_eq!(
        classify_way(&tags(&[("waterway", "riverbank")]), true),
        Some(WayFeature::Area(tiles::AreaType::Water))
    );
    assert_eq!(classify_way(&tags(&[("natural", "wood")]), false), None);
    assert_eq!(
        classify_way(&tags(&[("natural", "wood")]), true),
        Some(WayFeature::Area(tiles::AreaType::Forest))
    );
    assert_eq!(
        classify_way(&tags(&[("leisure", "park")]), true),
        Some(WayFeature::Area(tiles::AreaType::Park))
    );
    assert_eq!(
        classify_way(&tags(&[("landuse", "meadow")]), true),
        Some(WayFeature::Area(tiles::AreaType::Grass))
    );
    assert_eq!(
        classify_way(&tags(&[("amenity", "parking"), ("parking", "underground")]), false),
        Some(WayFeature::Poi(tiles::PoiType::Parking))
    );
    assert_eq!(
        classify_way(
            &tags(&[("amenity", "parking"), ("parking", "underground"), ("bicycle", "yes")]),
            false
        ),
        None
    );
    assert_eq!(classify_way(&tags(&[("amenity", "parking")]), false), None);
    assert_eq!(
        classify_way(&tags(&[("shop", "mall")]), false),
        Some(WayFeature::Poi(tiles::PoiType::ShoppingMall))
    );
}

#[test]
fn routable_way_attributes() {
    assert_eq!(road_class_for_way(&tags(&[("highway", "trunk_link")])), Some(RoadClass::Trunk));
    assert_eq!(road_class_for_way(&tags(&[("highway", "living_street")])), Some(RoadClass::Other));
    assert_eq!(road_class_for_way(&tags(&[("highway", "footway")])), None);
    assert_eq!(road_class_for_way(&tags(&[])), None);
    assert!(is_oneway(&tags(&[("oneway", "yes")])));
    assert!(is_oneway(&tags(&[("highway", "motorway")])));
    assert!(is_oneway(&tags(&[("junction", "roundabout")])));
    assert!(!is_oneway(&tags(&[("oneway", "no")])));
    assert_eq!(parse_maxspeed("50"), Some(50));
    assert_eq!(parse_maxspeed("80 km/h"), Some(80));
    assert_eq!(parse_maxspeed("+30"), Some(30));
    assert_eq!(parse_maxspeed("300"), None);
    assert_eq!(parse_maxspeed("-5"), None);
    assert_eq!(parse_maxspeed("signals"), None);
    assert_eq!(parse_maxspeed(""), None);
    assert_eq!(speed_for_way(&tags(&[("maxspeed", "70")]), RoadClass::Primary), 70);
    assert_eq!(speed_for_way(&tags(&[("maxspeed", "none")]), RoadClass::Primary), 80);
    assert_eq!(speed_for_way(&tags(&[]), RoadClass::Service), 20);
    assert!(road_class_for_level(RoadClass::Primary, HierarchyLevel::Highway));
    assert!(road_class_for_level(RoadClass::Tertiary, HierarchyLevel::Arterial));
    assert!(!road_class_for_level(RoadClass::Tertiary, HierarchyLevel::Local));
}

#[test]
fn place_categories_for_search() {
    assert_eq!(determine_category(&tags(&[("place", "town")])), PlaceCategory::Settlement);
    assert_eq!(determine_category(&tags(&[("place", "island")])), PlaceCategory::Other);
    assert_eq!(determine_category(&tags(&[("highway", "primary")])), PlaceCategory::Street);
    assert_eq!(determine_category(&tags(&[("amenity", "cafe")])), PlaceCategory::Poi);
    assert_eq!(determine_category(&tags(&[("amenity", "bench")])), PlaceCategory::Other);
    assert_eq!(determine_category(&tags(&[("tourism", "hotel")])), PlaceCategory::Poi);
    assert_eq!(determine_category(&tags(&[("railway", "halt")])), PlaceCategory::Transport);
    assert_eq!(determine_category(&tags(&[("natural", "peak")])), PlaceCategory::Natural);
    assert_eq!(determine_category(&tags(&[("waterway", "river")])), PlaceCategory::Natural);
    assert_eq!(determine_category(&tags(&[("name", "x")])), PlaceCategory::Other);
    let e = extract_place_from_tags(&tags(&[("name", "Zug"), ("place", "town")]));
    assert_eq!(e, Some(("Zug".to_string(), PlaceCategory::Settlement)));
    assert_eq!(extract_place_from_tags(&tags(&[("name", ""), ("place", "town")])), None);
    assert_eq!(extract_place_from_tags(&tags(&[("place", "town")])), None);
}

use minimap::osm::{is_water_multipolygon, outer_ways, way_needs_nodes, RelationMember};

#[test]
fn test_way_needs_nodes() {
    assert!(way_needs_nodes(&tags(&[("highway", "living_street")]), false));
    assert!(!way_needs_nodes(&tags(&[("highway", "footway")]), false));
    // A later highway tag with a drawn value also counts.
    assert!(way_needs_nodes(&tags(&[("highway", "path"), ("highway", "service")]), false));
    assert!(way_needs_nodes(&tags(&[("amenity", "fuel")]), false));
    assert!(way_needs_nodes(
        &tags(&[("amenity", "parking"), ("parking", "underground")]),
        false
    ));
    assert!(!way_needs_nodes(
        &tags(&[("amenity", "parking"), ("parking", "surface")]),
        false
    ));
    assert!(!way_needs_nodes(
        &tags(&[("amenity", "parking"), ("parking", "multi-storey"), ("bicycle", "yes")]),
        false
    ));
    assert!(way_needs_nodes(&tags(&[("water", "lake")]), false));
    assert!(way_needs_nodes(&tags(&[("landuse", "meadow")]), false));
    assert!(way_needs_nodes(&tags(&[("waterway", "canal")]), false));
    assert!(!way_needs_nodes(&tags(&[("waterway", "ditch")]), false));
    assert!(!way_needs_nodes(&tags(&[("building", "yes")]), false));
    assert!(way_needs_nodes(&tags(&[("building", "yes")]), true));
}

#[test]
fn test_water_relations() {
    assert!(is_water_multipolygon(&tags(&[("type", "multipolygon"), ("natural", "water")])));
    assert!(is_water_multipolygon(&tags(&[("landuse", "reservoir"), ("type", "multipolygon")])));
    assert!(!is_water_multipolygon(&tags(&[("type", "multipolygon"), ("natural", "wood")])));
    assert!(!is_water_multipolygon(&tags(&[("type", "route"), ("natural", "water")])));
    let members = vec![
        RelationMember { is_way: true, id: 1, role: Some("outer".to_string()) },
        RelationMember { is_way: true, id: 2, role: Some("inner".to_string()) },
        RelationMember { is_way: false, id: 3, role: Some("outer".to_string()) },
        RelationMember { is_way: true, id: 4, role: Some(String::new()) },
        RelationMember { is_way: true, id: 5, role: None },
    ];
    assert_eq!(outer_ways(&members), vec![1, 4, 5]);
}
