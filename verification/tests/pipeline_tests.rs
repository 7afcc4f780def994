//! Hierarchy building over real geometry, typing rules, merging, and the
//! file-format detection.

use cosmogony::additional_zones::{apply_voronoi_cells, compute_additional_places, group_places, read_places};
use cosmogony::file_format::{FormatError, OutputFormat};
use cosmogony::geometry::{Coord, PolygonCoords, Shape};
use cosmogony::hierarchy_builder::{build_hierarchy, find_inclusions};
use cosmogony::merger::CosmogonyMerger;
use cosmogony::osm::{OsmMemberType, OsmNodeData, OsmObjData, OsmRef, OsmRelationData};
use cosmogony::tags::Tags;
use cosmogony::zone::{Zone, ZoneIndex, ZoneType};
use cosmogony::zone_typer::{CountryAdminTypeRules, RulesOverrides, ZoneTyper, ZoneTyperError};
use cosmogony::ztree::ZonesTree;

/// a closed square ring, coordinates in whole degrees
fn square(min_deg: i64, max_deg: i64) -> Shape {
    let d = 10_000_000i64; // one degree in 1e-7 degree units
    let ring = vec![
        Coord { lon: min_deg * d, lat: min_deg * d },
        Coord { lon: min_deg * d, lat: max_deg * d },
        Coord { lon: max_deg * d, lat: max_deg * d },
        Coord { lon: max_deg * d, lat: min_deg * d },
        Coord { lon: min_deg * d, lat: min_deg * d },
    ];
    Shape::from_rings(&vec![PolygonCoords { exterior: ring, interiors: vec![] }])
}

fn zone_factory(idx: usize, min_deg: i64, max_deg: i64, zone_type: Option<ZoneType>) -> Zone {
    let mut z = Zone::default();
    z.id = ZoneIndex { index: idx };
    z.name = format!("z{}", idx);
    z.boundary = Some(square(min_deg, max_deg));
    z.bbox = z.boundary.as_ref().and_then(|b| b.bounding_rect());
    z.zone_type = zone_type;
    z.is_generated = false;
    z
}

/// nested squares: z0 holds z1 holds z2; z3 overlaps z0's lower half
fn create_zones() -> Vec<Zone> {
    vec![
        zone_factory(0, 0, 10, Some(ZoneType::Country)),
        zone_factory(1, 1, 9, Some(ZoneType::State)),
        zone_factory(2, 2, 8, Some(ZoneType::City)),
        zone_factory(3, 0, 5, Some(ZoneType::State)),
    ]
}

fn assert_parent(zones: &[Zone], idx: usize, expected_parent: Option<usize>) {
    match (expected_parent, zones[idx].parent) {
        (None, None) => (),
        (Some(_), None) => panic!("zone {} should have a parent", idx),
        (None, Some(_)) => panic!("zone {} should not have a parent", idx),
        (Some(i), Some(zi)) => assert_eq!(i, zi.index),
    }
}

#[test]
fn hierarchy_test() {
    let mut zones = create_zones();
    let inclusions = find_inclusions(&zones);
    build_hierarchy(&mut zones, inclusions.0);
    assert_parent(&zones, 0, None);
    assert_parent(&zones, 1, Some(0));
    assert_parent(&zones, 2, Some(1));
    assert_parent(&zones, 3, Some(0));
}

#[test]
fn hierarchy_test_parent_only_admin() {
    let mut zones = create_zones();
    // a non-administrative zone may not be a parent any more
    zones[1].zone_type = Some(ZoneType::NonAdministrative);
    let inclusions = find_inclusions(&zones);
    build_hierarchy(&mut zones, inclusions.0);
    assert_parent(&zones, 0, None);
    assert_parent(&zones, 1, Some(0));
    assert_parent(&zones, 2, Some(0));
    assert_parent(&zones, 3, Some(0));
}

#[test]
fn hierarchy_test_parent_parent_respect_hierarchy_equals() {
    let mut zones = create_zones();
    // a state cannot hang under another state
    zones[2].zone_type = Some(ZoneType::State);
    let inclusions = find_inclusions(&zones);
    build_hierarchy(&mut zones, inclusions.0);
    assert_parent(&zones, 0, None);
    assert_parent(&zones, 1, Some(0));
    assert_parent(&zones, 2, Some(0));
    assert_parent(&zones, 3, Some(0));
}

#[test]
fn hierarchy_test_parent_parent_respect_hierarchy() {
    let mut zones = create_zones();
    // a country region cannot hang under a state
    zones[2].zone_type = Some(ZoneType::CountryRegion);
    let inclusions = find_inclusions(&zones);
    build_hierarchy(&mut zones, inclusions.0);
    assert_parent(&zones, 0, None);
    assert_parent(&zones, 1, Some(0));
    assert_parent(&zones, 2, Some(0));
    assert_parent(&zones, 3, Some(0));
}

#[test]
fn hierarchy_test_parent_parent_respect_hierarchy_no_type() {
    let mut zones = create_zones();
    // a zone without a kind may not be a parent, but gets one
    zones[1].zone_type = None;
    let inclusions = find_inclusions(&zones);
    build_hierarchy(&mut zones, inclusions.0);
    assert_parent(&zones, 0, None);
    assert_parent(&zones, 1, Some(0));
    assert_parent(&zones, 2, Some(0));
    assert_parent(&zones, 3, Some(0));
}

fn complex_rules() -> CountryAdminTypeRules {
    let nested = CountryAdminTypeRules {
        type_by_level: vec![("9".to_string(), ZoneType::Suburb)],
        overrides: RulesOverrides { contained_by: vec![], id_rules: vec![] },
    };
    CountryAdminTypeRules {
        type_by_level: vec![
            ("2".to_string(), ZoneType::Country),
            ("4".to_string(), ZoneType::State),
            ("5".to_string(), ZoneType::StateDistrict),
            ("6".to_string(), ZoneType::StateDistrict),
            ("8".to_string(), ZoneType::City),
            ("9".to_string(), ZoneType::Suburb),
        ],
        overrides: RulesOverrides {
            contained_by: vec![("relation:big_zone".to_string(), Box::new(nested))],
            id_rules: vec![
                ("relation:z1".to_string(), Some(ZoneType::CityDistrict)),
                // explicitly no kind: the corpus's way to drop a zone
                ("relation:z4".to_string(), None),
                ("relation:z5".to_string(), Some(ZoneType::CityDistrict)),
            ],
        },
    }
}

#[test]
fn simple_get_zone_type_test() {
    let rules = complex_rules();
    let get = |id: &str, level: Option<u32>, ancestors: Vec<&str>| -> Option<ZoneType> {
        let ancestors: Vec<String> = ancestors
            .into_iter()
            .map(|a| format!("relation:{}", a))
            .collect();
        rules.get_zone_type(&format!("relation:{}", id), &level, &ancestors)
    };
    // an explicit override wins even without an admin level
    assert_eq!(get("z1", None, vec!["big_zone"]), Some(ZoneType::CityDistrict));
    // the container's overrides say nothing of level five: the default
    assert_eq!(get("z2", Some(5), vec!["big_zone"]), Some(ZoneType::StateDistrict));
    // the container has a special rule for level nine
    assert_eq!(
        get("z3", Some(9), vec!["very_big_zone", "big_zone"]),
        Some(ZoneType::Suburb)
    );
    // the id rule beats the container rule
    assert_eq!(get("z4", Some(9), vec!["big_zone"]), None);
    // a plain override by id
    assert_eq!(get("z5", Some(7), vec![]), Some(ZoneType::CityDistrict));
    // no override, and the level is not mapped
    assert_eq!(get("z6", Some(7), vec![]), None);
    // nothing special for the containers themselves
    assert_eq!(get("big_zone", Some(4), vec![]), Some(ZoneType::State));
    assert_eq!(get("very_big_zone", Some(2), vec![]), Some(ZoneType::Country));
}

#[test]
fn typer_reports_both_errors() {
    let typer = ZoneTyper::new(vec![("LU".to_string(), complex_rules())]).unwrap();
    assert!(typer.contains_rule("LU"));
    assert!(!typer.contains_rule("FR"));
    let mut z = Zone::default();
    z.osm_id = "relation:77".to_string();
    z.admin_level = Some(3);
    let zones: Vec<Zone> = Vec::new();
    match typer.get_zone_type(&z, "FR", &Vec::new(), &zones) {
        Err(ZoneTyperError::InvalidCountry(c)) => assert_eq!(c.as_str(), "FR"),
        _ => panic!("an unknown country must be reported"),
    }
    match typer.get_zone_type(&z, "LU", &Vec::new(), &zones) {
        Err(ZoneTyperError::UnkownLevel(l, c)) => {
            assert_eq!(l, Some(3));
            assert_eq!(c.as_str(), "LU");
        },
        _ => panic!("an unmapped level must be reported"),
    }
    let mut city = Zone::default();
    city.osm_id = "relation:88".to_string();
    city.admin_level = Some(8);
    assert_eq!(
        typer.get_zone_type(&city, "LU", &Vec::new(), &zones),
        Ok(ZoneType::City)
    );
    // an empty corpus gives no typer at all
    assert!(ZoneTyper::new(vec![]).is_none());
}

fn merger_zone(id: usize, parent: Option<usize>) -> Zone {
    let mut z = Zone::default();
    z.id = ZoneIndex { index: id };
    z.parent = parent.map(|p| ZoneIndex { index: p });
    z.name = format!("m{}", id);
    z
}

#[test]
fn merging_one_input_alone_changes_nothing() {
    // the first input flows through with offset zero
    let mut merger = CosmogonyMerger::new();
    let zones = vec![merger_zone(0, None), merger_zone(1, Some(0))];
    let out = merger.process_zones(zones);
    assert_eq!(out.len(), 2);
    assert_eq!(out[0].id.index, 0);
    assert_eq!(out[1].id.index, 1);
    assert_eq!(out[1].parent, Some(ZoneIndex { index: 0 }));
    assert_eq!(merger.id_offset, 2);
}

#[test]
fn merging_two_inputs_keeps_parent_links() {
    let mut merger = CosmogonyMerger::new();
    assert_eq!(merger.get_updated_id(ZoneIndex { index: 4 }).index, 4);
    let first = vec![merger_zone(0, None), merger_zone(1, Some(0))];
    let second = vec![merger_zone(0, Some(1)), merger_zone(1, None)];
    let out1 = merger.process_zones(first);
    let out2 = merger.process_zones(second);
    assert_eq!(out1[1].parent, Some(out1[0].id));
    // the second input moved by two: its links still point inside itself
    assert_eq!(out2[0].id.index, 2);
    assert_eq!(out2[1].id.index, 3);
    assert_eq!(out2[0].parent, Some(out2[1].id));
    assert_eq!(merger.id_offset, 4);
}

#[test]
fn from_filename_detects_the_four_formats() {
    assert_eq!(
        OutputFormat::from_filename("cosmogony.json"),
        Ok(OutputFormat::Json)
    );
    assert_eq!(
        OutputFormat::from_filename("cosmogony.jsonl"),
        Ok(OutputFormat::JsonStream)
    );
    assert_eq!(
        OutputFormat::from_filename("cosmogony.json.gz"),
        Ok(OutputFormat::JsonGz)
    );
    assert_eq!(
        OutputFormat::from_filename("cosmogony.jsonl.gz"),
        Ok(OutputFormat::JsonStreamGz)
    );
    assert_eq!(
        OutputFormat::from_filename("cosmogony.bad"),
        Err(FormatError::UnknownExtension)
    );
}

fn place_node(id: i64, name: &str, lon_deg: i64, lat_deg: i64) -> OsmObjData {
    let d = 10_000_000i64;
    let mut tags = Tags::new();
    tags.push_pair("place".to_string(), "town".to_string());
    if !name.is_empty() {
        tags.push_pair("name".to_string(), name.to_string());
    }
    OsmObjData::Node(OsmNodeData {
        id,
        decimicro_lat: lat_deg * d,
        decimicro_lon: lon_deg * d,
        tags,
    })
}

#[test]
fn place_nodes_without_names_are_discarded() {
    let objs = vec![
        place_node(1, "ville", 3, 3),
        place_node(2, "", 4, 4),
        place_node(3, "bourg", 5, 5),
    ];
    let places = read_places(&objs);
    assert_eq!(places.len(), 2);
    assert_eq!(places[0].name.as_str(), "ville");
    assert_eq!(places[1].name.as_str(), "bourg");
    assert!(places.iter().all(|p| p.zone_type == Some(ZoneType::City)));
    assert!(places.iter().all(|p| p.is_generated));
}

#[test]
fn single_place_seed_becomes_one_city() {
    // one state-like region with a single place seed inside it
    let mut zones = vec![zone_factory(0, 0, 10, Some(ZoneType::State))];
    let objs = vec![place_node(1, "ville", 5, 5)];
    let ztree = ZonesTree::from_zones(&zones);
    let tasks = compute_additional_places(&mut zones, &objs, &ztree);
    assert_eq!(tasks.len(), 0);
    assert_eq!(zones.len(), 2);
    let city = &zones[1];
    assert_eq!(city.zone_type, Some(ZoneType::City));
    assert!(city.is_generated);
    assert_eq!(city.parent, Some(ZoneIndex { index: 0 }));
    assert_eq!(city.id.index, 1);
}

#[test]
fn a_country_never_clips_a_place() {
    // the only enclosing zone is a country: the place is dropped
    let mut zones = vec![zone_factory(0, 0, 10, Some(ZoneType::Country))];
    let objs = vec![place_node(1, "ville", 5, 5)];
    let ztree = ZonesTree::from_zones(&zones);
    let tasks = compute_additional_places(&mut zones, &objs, &ztree);
    assert_eq!(tasks.len(), 0);
    assert_eq!(zones.len(), 1);
}

#[test]
fn multi_place_groups_become_engine_tasks() {
    let mut zones = vec![zone_factory(0, 0, 10, Some(ZoneType::State))];
    let objs = vec![place_node(1, "ville", 2, 2), place_node(2, "bourg", 7, 7)];
    let ztree = ZonesTree::from_zones(&zones);
    let tasks = compute_additional_places(&mut zones, &objs, &ztree);
    assert_eq!(zones.len(), 1);
    assert_eq!(tasks.len(), 1);
    assert_eq!(tasks[0].parent, 0);
    assert_eq!(tasks[0].places.len(), 2);
}

#[test]
fn engine_cells_are_matched_back_to_their_seeds() {
    // hand-made cells stand in for the engine's partition: each one must
    // find the seed it holds, whatever order the cells come in
    let mut zones = vec![zone_factory(0, 0, 10, Some(ZoneType::State))];
    let objs = vec![place_node(1, "ville", 2, 2), place_node(2, "bourg", 7, 7)];
    let ztree = ZonesTree::from_zones(&zones);
    let tasks = compute_additional_places(&mut zones, &objs, &ztree);
    let cells = vec![square(5, 10), square(0, 5)];
    let published = apply_voronoi_cells(&mut zones, &ztree, &tasks[0], cells);
    assert_eq!(published, 2);
    assert_eq!(zones.len(), 3);
    for city in &zones[1..] {
        assert_eq!(city.zone_type, Some(ZoneType::City));
        assert!(city.is_generated);
        assert_eq!(city.parent, Some(ZoneIndex { index: 0 }));
    }
    let names: Vec<&str> = zones[1..].iter().map(|z| z.name.as_str()).collect();
    assert!(names.contains(&"ville"));
    assert!(names.contains(&"bourg"));
}

#[test]
fn tree_insert_and_hierarchy_walk() {
    let mut zones = create_zones();
    let inclusions = find_inclusions(&zones);
    build_hierarchy(&mut zones, inclusions.0);
    // a fresh tree accepts late zones one by one
    let mut tree = ZonesTree::new();
    for z in &zones {
        tree.insert_zone(z);
    }
    let hits = tree.fetch_zone_bbox(&zones[2]);
    assert!(hits.contains(&0) && hits.contains(&1) && hits.contains(&2));
    // the upward walk starts at the zone itself and ends at the root
    let chain = zones[2].iter_hierarchy(&zones);
    assert_eq!(chain, vec![2, 1, 0]);
    // a parent link can be replaced by hand
    let mut z = zone_factory(9, 0, 1, Some(ZoneType::Suburb));
    z.set_parent(Some(ZoneIndex { index: 2 }));
    assert_eq!(z.parent, Some(ZoneIndex { index: 2 }));
}

fn node_with(id: i64, lon_deg: i64, lat_deg: i64, pairs: Vec<(&str, &str)>) -> OsmNodeData {
    let d = 10_000_000i64;
    let mut tags = Tags::new();
    for (k, v) in pairs {
        tags.push_pair(k.to_string(), v.to_string());
    }
    OsmNodeData { id, decimicro_lat: lat_deg * d, decimicro_lon: lon_deg * d, tags }
}

#[test]
fn a_zone_out_of_a_relation() {
    let mut tags = Tags::new();
    tags.push_pair("boundary".to_string(), "administrative".to_string());
    tags.push_pair("admin_level".to_string(), "8".to_string());
    tags.push_pair("name".to_string(), "Bobville".to_string());
    tags.push_pair("addr:postcode".to_string(), "75020;75011".to_string());
    tags.push_pair("wikidata".to_string(), "Q42".to_string());
    let relation = OsmRelationData {
        id: 123,
        tags,
        refs: vec![OsmRef {
            role: "admin_centre".to_string(),
            member_type: OsmMemberType::Node,
            member_id: 7,
        }],
    };
    let nodes = vec![node_with(7, 3, 4, vec![
        ("name:br", "Bobville br"),
        ("population", "103641"),
    ])];
    let store = cosmogony::postcode::PostcodeStore::bulk_load(Vec::new());
    let zone = cosmogony::zone::Zone::from_osm_relation(
        &relation,
        &nodes,
        ZoneIndex { index: 0 },
        &store,
        Some(square(0, 10)),
    )
    .expect("a named relation with a boundary must give a zone");
    assert_eq!(zone.osm_id.as_str(), "relation:123");
    assert_eq!(zone.name.as_str(), "Bobville");
    assert_eq!(zone.admin_level, Some(8));
    assert_eq!(zone.wikidata.as_deref(), Some("Q42"));
    let zips: Vec<&str> = zone.zip_codes.iter().map(|s| s.as_str()).collect();
    assert_eq!(zips, vec!["75011", "75020"]);
    // the centre comes from the admin-centre node, not the centroid
    let d = 10_000_000i64;
    assert_eq!(zone.center, Some(Coord { lon: 3 * d, lat: 4 * d }));
    assert_eq!(
        zone.center_tags.get("population").map(|s| s.as_str()),
        Some("103641")
    );
    assert!(zone.boundary.is_some());
    assert!(zone.bbox.is_some());
    assert!(!zone.is_generated);

    // without a name nothing comes out
    let unnamed = OsmRelationData { id: 5, tags: Tags::new(), refs: vec![] };
    assert!(cosmogony::zone::Zone::from_osm_relation(
        &unnamed,
        &nodes,
        ZoneIndex { index: 1 },
        &store,
        Some(square(0, 1)),
    )
    .is_none());
}

#[test]
fn a_seed_out_of_a_node() {
    let node = node_with(45, 6, 7, vec![
        ("place", "town"),
        ("name", "bourg"),
        ("name:fr", "le bourg"),
    ]);
    let zone = cosmogony::zone::Zone::from_osm_node(&node, ZoneIndex { index: 3 })
        .expect("a named node must give a zone");
    assert_eq!(zone.osm_id.as_str(), "node:45");
    assert_eq!(zone.name.as_str(), "bourg");
    assert!(zone.is_generated);
    assert!(zone.boundary.is_none());
    assert_eq!(
        zone.international_names.get("fr").map(|s| s.as_str()),
        Some("le bourg")
    );
}

#[test]
fn the_engine_partitions_sites_into_cells() {
    let d = 10_000_000i64;
    let sites = vec![
        Coord { lon: 2 * d, lat: 2 * d },
        Coord { lon: 7 * d, lat: 7 * d },
        Coord { lon: 2 * d, lat: 7 * d },
    ];
    let cells = cosmogony::geometry::voronoi_cells(&sites, 100).expect("three sites partition");
    assert_eq!(cells.len(), 3);
    // one seed is refused
    assert!(cosmogony::geometry::voronoi_cells(&vec![Coord { lon: 0, lat: 0 }], 100).is_none());
}

#[test]
fn grouping_accounts_for_every_qualifying_seed() {
    // two disjoint state-like regions: one holds a single seed, the other
    // holds two; one more seed floats outside both
    let mut zones = vec![
        zone_factory(0, 0, 10, Some(ZoneType::State)),
        zone_factory(1, 20, 30, Some(ZoneType::State)),
    ];
    let objs = vec![
        place_node(1, "ville", 5, 5),
        place_node(2, "bourg", 22, 22),
        place_node(3, "hameau", 27, 27),
        place_node(4, "nulle part", 50, 50),
    ];
    let seeds = read_places(&objs);
    assert_eq!(seeds.len(), 4);
    let ztree = ZonesTree::from_zones(&zones);
    let tasks = group_places(&mut zones, seeds, &ztree);
    // the single seed became a city, the pair became one task, the
    // stray seed vanished: two appended plus two task places equals the
    // three qualifying seeds plus the one synthesized city
    assert_eq!(zones.len(), 3);
    assert_eq!(zones[2].name.as_str(), "ville");
    assert_eq!(zones[2].parent, Some(ZoneIndex { index: 0 }));
    assert_eq!(tasks.len(), 1);
    assert_eq!(tasks[0].parent, 1);
    assert_eq!(tasks[0].places.len(), 2);
}
