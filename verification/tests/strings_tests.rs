//! The string helpers, the zip summary, parsing and printing, sorting,
//! and the postcode assignment.

use cosmogony::admin_type::AdminType;
use cosmogony::cosmogony::CosmogonyStats;
use cosmogony::geometry::{Coord, PolygonCoords, RectI, Shape};
use cosmogony::labels::format_zip_code;
use cosmogony::osm::{is_admin, is_place, is_postal_code, OsmNodeData, OsmObjData, OsmRelationData};
use cosmogony::postcode::{assign_postcodes_to_zones, Postcode, PostcodeBbox, PostcodeStore};
use cosmogony::pipeline::filter_langs;
use cosmogony::strings::{parse_u32, sort_dedup, split_nonempty, str_ends_with, str_lex_le};
use cosmogony::tags::Tags;
use cosmogony::zone::{Zone, ZoneIndex, ZoneType};
use cosmogony::zone_ext::zips_from_tags;

fn square(min_deg: i64, max_deg: i64) -> Shape {
    let d = 10_000_000i64;
    let ring = vec![
        Coord { lon: min_deg * d, lat: min_deg * d },
        Coord { lon: min_deg * d, lat: max_deg * d },
        Coord { lon: max_deg * d, lat: max_deg * d },
        Coord { lon: max_deg * d, lat: min_deg * d },
        Coord { lon: min_deg * d, lat: min_deg * d },
    ];
    Shape::from_rings(&vec![PolygonCoords { exterior: ring, interiors: vec![] }])
}

#[test]
fn format_zip_code_summaries() {
    let none: Vec<String> = vec![];
    assert_eq!(format_zip_code(&none).as_str(), "");
    let one = vec!["75000".to_string()];
    assert_eq!(format_zip_code(&one).as_str(), " (75000)");
    let many = vec!["75000".to_string(), "75116".to_string()];
    assert_eq!(format_zip_code(&many).as_str(), " (75000-75116)");
}

#[test]
fn zip_codes_are_sorted_and_unique() {
    let mut tags = Tags::new();
    tags.push_pair("addr:postcode".to_string(), "75020;75;75020;;75011".to_string());
    let zips = zips_from_tags(&tags);
    let got: Vec<&str> = zips.iter().map(|s| s.as_str()).collect();
    assert_eq!(got, vec!["75", "75011", "75020"]);
}

#[test]
fn splitting_drops_empty_pieces() {
    let pieces = split_nonempty(";a;;b;", ';');
    let got: Vec<&str> = pieces.iter().map(|s| s.as_str()).collect();
    assert_eq!(got, vec!["a", "b"]);
}

#[test]
fn parsing_levels_like_the_standard_library() {
    assert_eq!(parse_u32("8"), Some(8));
    assert_eq!(parse_u32("+8"), Some(8));
    assert_eq!(parse_u32(""), None);
    assert_eq!(parse_u32("+"), None);
    assert_eq!(parse_u32("8a"), None);
    assert_eq!(parse_u32("4294967295"), Some(u32::MAX));
    assert_eq!(parse_u32("4294967296"), None);
    assert_eq!("8".parse::<u32>().ok(), parse_u32("8"));
    assert_eq!("+8".parse::<u32>().ok(), parse_u32("+8"));
    assert_eq!("1e3".parse::<u32>().ok(), parse_u32("1e3"));
}

#[test]
fn sorting_strings_matches_the_standard_order() {
    let v = vec![
        "b".to_string(),
        "a".to_string(),
        "ab".to_string(),
        "a".to_string(),
    ];
    let sorted = sort_dedup(v);
    let got: Vec<&str> = sorted.iter().map(|s| s.as_str()).collect();
    assert_eq!(got, vec!["a", "ab", "b"]);
    assert!(str_lex_le("a", "ab") == ("a" <= "ab"));
    assert!(str_lex_le("ab", "a") == ("ab" <= "a"));
    assert!(str_lex_le("Lëtzebuerg", "Luxembourg") == ("Lëtzebuerg" <= "Luxembourg"));
}

#[test]
fn suffix_test_matches_the_standard_library() {
    assert!(str_ends_with("cosmogony.json", ".json"));
    assert!(!str_ends_with("cosmogony.jsonl", ".json"));
    assert!(!str_ends_with("a", ".json"));
}

#[test]
fn filter_langs_flattens_comma_values() {
    let raw = vec!["fr,de".to_string(), "es".to_string()];
    let langs = filter_langs(&raw);
    let got: Vec<&str> = langs.iter().map(|s| s.as_str()).collect();
    assert_eq!(got, vec!["fr", "de", "es"]);
}

fn rel(id: i64, pairs: Vec<(&str, &str)>) -> OsmObjData {
    let mut tags = Tags::new();
    for (k, v) in pairs {
        tags.push_pair(k.to_string(), v.to_string());
    }
    OsmObjData::Relation(OsmRelationData { id, tags, refs: Vec::new() })
}

#[test]
fn classifiers_follow_the_tags() {
    let admin = rel(1, vec![("boundary", "administrative"), ("admin_level", "8")]);
    let postal = rel(2, vec![("boundary", "postal_code"), ("postal_code", "75")]);
    let neither = rel(3, vec![("boundary", "administrative")]);
    assert!(is_admin(&admin));
    assert!(!is_admin(&postal));
    assert!(!is_admin(&neither));
    assert!(is_postal_code(&postal));
    assert!(!is_postal_code(&admin));
    let mut tags = Tags::new();
    tags.push_pair("place".to_string(), "village".to_string());
    let node = OsmObjData::Node(OsmNodeData { id: 4, decimicro_lat: 0, decimicro_lon: 0, tags });
    assert!(is_place(&node));
    assert!(!is_place(&admin));
}

#[test]
fn postcodes_cover_zones_by_area() {
    // a postcode inside the zone qualifies; a distant one does not
    let inside = Postcode {
        osm_id: "relation:10".to_string(),
        zipcode: "75020".to_string(),
        boundary: square(1, 4),
        area: square(1, 4).area_unit2(),
    };
    let far = Postcode {
        osm_id: "relation:11".to_string(),
        zipcode: "99999".to_string(),
        boundary: square(50, 60),
        area: square(50, 60).area_unit2(),
    };
    let items = vec![
        PostcodeBbox::new(inside, &RectI {
            min_lon: 10_000_000,
            min_lat: 10_000_000,
            max_lon: 40_000_000,
            max_lat: 40_000_000,
        }),
        PostcodeBbox::new(far, &RectI {
            min_lon: 500_000_000,
            min_lat: 500_000_000,
            max_lon: 600_000_000,
            max_lat: 600_000_000,
        }),
    ];
    let store = PostcodeStore::bulk_load(items);
    let mut z = Zone::default();
    z.id = ZoneIndex { index: 0 };
    z.name = "ville".to_string();
    z.boundary = Some(square(0, 10));
    z.bbox = z.boundary.as_ref().and_then(|b| b.bounding_rect());
    let mut zones = vec![z];
    assign_postcodes_to_zones(&mut zones, &store);
    let got: Vec<&str> = zones[0].zip_codes.iter().map(|s| s.as_str()).collect();
    assert_eq!(got, vec!["75020"]);
}

#[test]
fn stats_count_levels_and_kinds() {
    let mut zones: Vec<Zone> = Vec::new();
    for (i, (level, t)) in [
        (Some(2), Some(ZoneType::Country)),
        (Some(8), Some(ZoneType::City)),
        (Some(8), Some(ZoneType::City)),
        (None, None),
    ]
    .into_iter()
    .enumerate()
    {
        let mut z = Zone::default();
        z.id = ZoneIndex { index: i };
        z.admin_level = level;
        z.zone_type = t;
        if i == 0 {
            z.wikidata = Some("Q32".to_string());
        }
        zones.push(z);
    }
    let mut stats = CosmogonyStats::default();
    stats.compute(&zones);
    let count_of = |key: &str| -> u64 {
        stats
            .zone_type_counts
            .iter()
            .find(|(k, _)| k == key)
            .map(|(_, c)| *c)
            .unwrap_or(0)
    };
    assert_eq!(count_of("Country"), 1);
    assert_eq!(count_of("City"), 2);
    assert_eq!(count_of("None"), 1);
    assert_eq!(count_of("Suburb"), 0);
    let level_of = |key: u32| -> u64 {
        stats
            .level_counts
            .iter()
            .find(|(k, _)| *k == key)
            .map(|(_, c)| *c)
            .unwrap_or(0)
    };
    assert_eq!(level_of(8), 2);
    assert_eq!(level_of(2), 1);
    assert_eq!(level_of(0), 1);
}

#[test]
fn admin_type_reads_rule_names() {
    assert_eq!(AdminType::from_str("country"), Ok(AdminType::Country));
    assert_eq!(AdminType::from_str("suburb"), Ok(AdminType::Suburb));
    assert_eq!(AdminType::from_str("nonsense"), Err(()));
}
