//! Labels, name harvesting, and zone basics.

use cosmogony::labels::get_international_names;
use cosmogony::tags::Tags;
use cosmogony::zone::{Zone, ZoneIndex, ZoneType};

fn make_zone(name: &str, id: usize) -> Zone {
    make_zone_and_zip(name, id, vec![], None)
}

fn make_zone_and_zip(name: &str, id: usize, zips: Vec<&str>, parent: Option<usize>) -> Zone {
    let mut z = Zone::default();
    z.id = ZoneIndex { index: id };
    z.zone_type = Some(ZoneType::City);
    z.name = name.to_string();
    z.parent = parent.map(|p| ZoneIndex { index: p });
    z.zip_codes = zips.iter().map(|s| s.to_string()).collect();
    z.is_generated = false;
    z
}

fn tags_of(pairs: Vec<(&str, &str)>) -> Tags {
    let mut t = Tags::new();
    for (k, v) in pairs {
        t.push_pair(k.to_string(), v.to_string());
    }
    t
}

#[test]
fn zone_simple_label_test() {
    let mut zones = vec![make_zone("toto", 0)];
    Zone::compute_labels(&mut zones, 0, &Vec::new());
    assert_eq!(zones[0].label.as_str(), "toto");
}

#[test]
fn zone_label_with_zip_and_parent() {
    let mut zones = vec![
        make_zone_and_zip("bob", 0, vec!["75020", "75021", "75022"], Some(1)),
        make_zone_and_zip("bob sur mer", 1, vec!["75"], Some(2)), // its zip code must not be used
        make_zone("bobette's land", 2),
    ];
    Zone::compute_labels(&mut zones, 0, &Vec::new());
    assert_eq!(
        zones[0].label.as_str(),
        "bob (75020-75022), bob sur mer, bobette's land"
    );
}

#[test]
fn zone_label_with_zip_and_double_parent() {
    // no repeated part may stay in the label
    let mut zones = vec![
        make_zone_and_zip("bob", 0, vec!["75020"], Some(1)),
        make_zone_and_zip("bob", 1, vec![], Some(2)),
        make_zone_and_zip("bob", 2, vec![], Some(3)),
        make_zone_and_zip("bob sur mer", 3, vec!["75"], Some(4)),
        make_zone_and_zip("bob sur mer", 4, vec!["75"], Some(5)),
        make_zone("bobette's land", 5),
    ];
    Zone::compute_labels(&mut zones, 0, &Vec::new());
    assert_eq!(
        zones[0].label.as_str(),
        "bob (75020), bob sur mer, bobette's land"
    );
}

#[test]
fn zone_label_with_zip_and_parent_named_as_zone() {
    // only consecutive repeats collapse; a distant repeat stays
    let mut zones = vec![
        make_zone_and_zip("bob", 0, vec!["75020"], Some(1)),
        make_zone_and_zip("bob sur mer", 1, vec!["75"], Some(2)),
        make_zone("bob", 2),
    ];
    Zone::compute_labels(&mut zones, 0, &Vec::new());
    assert_eq!(zones[0].label.as_str(), "bob (75020), bob sur mer, bob");
}

#[test]
fn zone_test_international_names() {
    let tags = tags_of(vec![
        ("another_tag", "useless"),
        ("name:fr", "bob"),
        ("name:es", "bobito"),
        ("name", "bobito"),
        ("name:a_strange_lang_name", "bibi"),
    ]);
    let names = get_international_names(&tags, "bob");
    assert_eq!(names.len(), 2);
    assert_eq!(names.get("es").map(|s| s.as_str()), Some("bobito"));
    assert_eq!(
        names.get("a_strange_lang_name").map(|s| s.as_str()),
        Some("bibi")
    );
    assert!(names.get("fr").is_none());
}

#[test]
fn zone_ext_simple_label_test() {
    let mut zones = vec![make_zone("toto", 0)];
    Zone::compute_labels(&mut zones, 0, &Vec::new());
    assert_eq!(zones[0].label.as_str(), "toto");
}

#[test]
fn zone_ext_label_with_zip_and_parent() {
    let mut zones = vec![
        make_zone_and_zip("bob", 0, vec!["75020", "75021", "75022"], Some(1)),
        make_zone_and_zip("bob sur mer", 1, vec!["75"], Some(2)),
        make_zone("bobette's land", 2),
    ];
    Zone::compute_labels(&mut zones, 0, &Vec::new());
    assert_eq!(
        zones[0].label.as_str(),
        "bob (75020-75022), bob sur mer, bobette's land"
    );
}

#[test]
fn zone_ext_label_with_zip_and_double_parent() {
    let mut zones = vec![
        make_zone_and_zip("bob", 0, vec!["75020"], Some(1)),
        make_zone_and_zip("bob", 1, vec![], Some(2)),
        make_zone_and_zip("bob", 2, vec![], Some(3)),
        make_zone_and_zip("bob sur mer", 3, vec!["75"], Some(4)),
        make_zone_and_zip("bob sur mer", 4, vec!["75"], Some(5)),
        make_zone("bobette's land", 5),
    ];
    Zone::compute_labels(&mut zones, 0, &Vec::new());
    assert_eq!(
        zones[0].label.as_str(),
        "bob (75020), bob sur mer, bobette's land"
    );
}

#[test]
fn zone_ext_label_with_zip_and_parent_named_as_zone() {
    let mut zones = vec![
        make_zone_and_zip("bob", 0, vec!["75020"], Some(1)),
        make_zone_and_zip("bob sur mer", 1, vec!["75"], Some(2)),
        make_zone("bob", 2),
    ];
    Zone::compute_labels(&mut zones, 0, &Vec::new());
    assert_eq!(zones[0].label.as_str(), "bob (75020), bob sur mer, bob");
}

#[test]
fn zone_ext_test_international_names() {
    let tags = tags_of(vec![
        ("another_tag", "useless"),
        ("name:fr", "bob"),
        ("name:es", "bobito"),
        ("name", "bobito"),
        ("name:a_strange_lang_name", "bibi"),
    ]);
    let names = get_international_names(&tags, "bob");
    assert_eq!(names.len(), 2);
    assert_eq!(names.get("es").map(|s| s.as_str()), Some("bobito"));
    assert_eq!(
        names.get("a_strange_lang_name").map(|s| s.as_str()),
        Some("bibi")
    );
}

#[test]
fn international_labels_follow_ancestor_languages() {
    // the per-language labels exist exactly for the languages named along
    // the chain, filtered when a filter is given
    let mut zones = vec![
        make_zone_and_zip("bob", 0, vec!["75020"], Some(1)),
        make_zone("bobland", 1),
    ];
    zones[1].zone_type = Some(ZoneType::Country);
    zones[0].international_names = tags_of(vec![("fr", "robert")]);
    zones[1].international_names = tags_of(vec![("fr", "pays de robert"), ("es", "boblandia")]);
    Zone::compute_labels(&mut zones, 0, &Vec::new());
    assert_eq!(
        zones[0].international_labels.get("fr").map(|s| s.as_str()),
        Some("robert (75020), pays de robert")
    );
    assert_eq!(
        zones[0].international_labels.get("es").map(|s| s.as_str()),
        Some("bob (75020), boblandia")
    );
    assert!(zones[0].international_labels.get("de").is_none());

    // the same chain under a filter keeps only the listed language
    let mut filtered = vec![
        make_zone_and_zip("bob", 0, vec!["75020"], Some(1)),
        make_zone("bobland", 1),
    ];
    filtered[1].zone_type = Some(ZoneType::Country);
    filtered[0].international_names = tags_of(vec![("fr", "robert")]);
    filtered[1].international_names = tags_of(vec![("fr", "pays de robert"), ("es", "boblandia")]);
    Zone::compute_labels(&mut filtered, 0, &vec!["es".to_string()]);
    assert!(filtered[0].international_labels.get("fr").is_none());
    assert_eq!(
        filtered[0].international_labels.get("es").map(|s| s.as_str()),
        Some("bob (75020), boblandia")
    );
}

#[test]
fn compute_names_inherits_center_names_for_cities() {
    let mut z = Zone::default();
    z.name = "bob".to_string();
    z.zone_type = Some(ZoneType::City);
    z.tags = tags_of(vec![("name:fr", "bob le fr")]);
    z.center_tags = tags_of(vec![("name:br", "bob br"), ("population", "7")]);
    z.compute_names();
    assert_eq!(
        z.international_names.get("fr").map(|s| s.as_str()),
        Some("bob le fr")
    );
    assert_eq!(
        z.international_names.get("br").map(|s| s.as_str()),
        Some("bob br")
    );
}

#[test]
fn zone_type_order_and_names() {
    assert!(ZoneType::Suburb.rank() < ZoneType::City.rank());
    assert!(ZoneType::City.rank() < ZoneType::Country.rank());
    assert!(ZoneType::Country.rank() < ZoneType::NonAdministrative.rank());
    assert_eq!(ZoneType::CityDistrict.as_str(), "city_district");
    assert_eq!(ZoneType::Country.as_str(), "country");
}

#[test]
fn is_admin_and_admin_type() {
    let mut z = Zone::default();
    assert!(!z.is_admin());
    assert_eq!(z.admin_type(), None);
    z.zone_type = Some(ZoneType::NonAdministrative);
    assert!(!z.is_admin());
    z.zone_type = Some(ZoneType::State);
    assert!(z.is_admin());
    assert_eq!(z.admin_type(), Some(ZoneType::State));
}
