//! The orchestration of one run: raw zones out of the parsed objects,
//! typing, hierarchy, synthesis, names, labels, pruning, and the final
//! record.

use vstd::prelude::*;
use crate::additional_zones::{apply_voronoi_cells, compute_additional_places, good_voronoi_parent, VoronoiTask};
use crate::cosmogony::{Cosmogony, CosmogonyMetadata, CosmogonyStats};
use crate::country_finder::{best_country, finder_entries, finder_view, CountryFinder};
use crate::geometry::Shape;
use crate::hierarchy_builder::{build_hierarchy, candidate_list_ok, find_inclusions, hierarchy_wf, zones_indexed};
use crate::labels::{default_names, intl_label_for, label_spec, lang_eligible, spec_path, spec_path_fuel};
use crate::osm::{is_postal_code, OsmObjData};
use crate::postcode::{Postcode, PostcodeBbox, PostcodeStore};
use crate::strings::{to_uppercase_str, upper_of, views_of};
use crate::zone::{Zone, ZoneIndex};
use crate::zone_typer::{ancestors_of, country_get, ZoneTyper, ZoneTyperError};
use crate::ztree::{zones_bbox_wf, ZonesTree};

verus! {

/// The item names some postal-code relation among the first `upto`
/// objects.
pub open spec fn postcode_named_by(objs: Seq<OsmObjData>, item: PostcodeBbox, upto: int) -> bool {
    exists|j: int|
        0 <= j < upto && crate::osm::spec_is_postal_code(&#[trigger] objs[j])
            && item.spec_postcode().osm_id@ == relation_osm_id(objs[j])
}

/// Every stored postcode names some postal-code relation among the first
/// `upto` objects.
pub open spec fn postcodes_from(objs: Seq<OsmObjData>, items: Seq<PostcodeBbox>, upto: int) -> bool {
    forall|k: int| 0 <= k < items.len() ==> postcode_named_by(objs, #[trigger] items[k], upto)
}

/// A provenance over fewer objects is one over more.
proof fn lemma_postcodes_from_mono(objs: Seq<OsmObjData>, items: Seq<PostcodeBbox>, a: int, b: int)
    requires
        postcodes_from(objs, items, a),
        0 <= a <= b,
    ensures
        postcodes_from(objs, items, b),
{
    assert forall|k: int| 0 <= k < items.len() implies postcode_named_by(
        objs,
        #[trigger] items[k],
        b,
    ) by {
        assert(postcode_named_by(objs, items[k], a));
        let j = choose|j: int|
            0 <= j < a && crate::osm::spec_is_postal_code(&#[trigger] objs[j])
                && items[k].spec_postcode().osm_id@ == relation_osm_id(objs[j]);
        assert(crate::osm::spec_is_postal_code(&objs[j]));
    }
}

/// A postal-code relation whose boundary was reconstructed and has a box:
/// the inputs a stored postcode is owed for.
pub open spec fn makes_a_postcode(obj: OsmObjData, boundary: Option<Shape>) -> bool {
    match obj {
        OsmObjData::Relation(_) => crate::osm::spec_is_postal_code(&obj) && match boundary {
            Some(b) => crate::geometry::rect_of(b) is Some,
            None => false,
        },
        _ => false,
    }
}

/// How many of the first `upto` objects make a stored postcode.
pub open spec fn pc_accepted_count(objs: Seq<OsmObjData>, bs: Seq<Option<Shape>>, upto: int) -> nat
    decreases upto,
{
    if upto <= 0 {
        0
    } else {
        pc_accepted_count(objs, bs, upto - 1) + if makes_a_postcode(objs[upto - 1], bs[upto - 1]) {
            1nat
        } else {
            0nat
        }
    }
}

/// More objects never mean fewer stored postcodes.
proof fn lemma_pc_accepted_monotone(objs: Seq<OsmObjData>, bs: Seq<Option<Shape>>, a: int, b: int)
    requires
        0 <= a <= b,
    ensures
        pc_accepted_count(objs, bs, a) <= pc_accepted_count(objs, bs, b),
        a < b && makes_a_postcode(objs[a], bs[a]) ==> pc_accepted_count(objs, bs, a) + 1
            <= pc_accepted_count(objs, bs, b),
    decreases b,
{
    if a < b {
        lemma_pc_accepted_monotone(objs, bs, a, b - 1);
    }
}

/// Read the postcode areas out of the parsed objects: one per postal-code
/// relation whose boundary was reconstructed and has a box, indexed under
/// exactly that box, in reading order, and nothing else.
pub fn get_postcodes(objs: &Vec<OsmObjData>, boundaries: Vec<Option<Shape>>) -> (r: (
    PostcodeStore,
    CosmogonyStats,
))
    requires
        boundaries@.len() == objs@.len(),
    ensures
        r.0.wf(),
        postcodes_from(objs@, r.0.items_view(), objs@.len() as int),
        r.0.items_view().len() == pc_accepted_count(objs@, boundaries@, objs@.len() as int),
        forall|j: int|
            0 <= j < objs@.len() && makes_a_postcode(#[trigger] objs@[j], boundaries@[j]) ==> {
                let item = r.0.items_view()[pc_accepted_count(objs@, boundaries@, j) as int];
                &&& item.spec_postcode().osm_id@ == relation_osm_id(objs@[j])
                &&& Some(item.spec_postcode().boundary) == boundaries@[j]
                &&& Some(item.spec_bbox()) == crate::geometry::rect_of(boundaries@[j].unwrap())
            },
{
    let ghost b0 = boundaries@;
    let mut boundaries = boundaries;
    let mut items: Vec<PostcodeBbox> = Vec::new();
    let n = objs.len();
    let mut i: usize = 0;
    while i < n
        invariant
            i <= n,
            n == objs@.len(),
            boundaries@.len() == n,
            b0.len() == n,
            forall|j: int| i <= j < n ==> boundaries@[j] == b0[j],
            forall|j: int| 0 <= j < items@.len() ==> (#[trigger] items@[j]).spec_bbox().wf(),
            postcodes_from(objs@, items@, i as int),
            items@.len() == pc_accepted_count(objs@, b0, i as int),
            forall|j: int|
                0 <= j < i && makes_a_postcode(#[trigger] objs@[j], b0[j]) ==> {
                    let item = items@[pc_accepted_count(objs@, b0, j) as int];
                    &&& item.spec_postcode().osm_id@ == relation_osm_id(objs@[j])
                    &&& Some(item.spec_postcode().boundary) == b0[j]
                    &&& Some(item.spec_bbox()) == crate::geometry::rect_of(b0[j].unwrap())
                },
        decreases n - i,
    {
        let ghost items_before = items@;
        if is_postal_code(&objs[i]) {
            match &objs[i] {
                OsmObjData::Relation(rel) => {
                    let b = boundaries[i].take();
                    match Postcode::from_osm_relation(rel, b) {
                        Some(pc) => {
                            // an empty reconstruction has no box and is
                            // dropped
                            match pc.get_boundary().bounding_rect() {
                                Some(bbox) => {
                                    items.push(PostcodeBbox::new(pc, &bbox));
                                    proof {
                                        assert(postcodes_from(objs@, items@, i + 1)) by {
                                            assert forall|k: int| 0 <= k < items@.len() implies
                                                postcode_named_by(objs@, #[trigger] items@[k], i + 1) by {
                                                if k < items_before.len() {
                                                    assert(items@[k] == items_before[k]);
                                                    assert(postcode_named_by(objs@, items_before[k], i as int));
                                                    let j = choose|j: int|
                                                        0 <= j < i
                                                            && crate::osm::spec_is_postal_code(
                                                            &#[trigger] objs@[j],
                                                        ) && items_before[k].spec_postcode().osm_id@
                                                            == relation_osm_id(objs@[j]);
                                                    assert(crate::osm::spec_is_postal_code(
                                                        &objs@[j],
                                                    ));
                                                } else {
                                                    assert(items@[k].spec_postcode().osm_id@
                                                        == relation_osm_id(objs@[i as int]));
                                                    assert(crate::osm::spec_is_postal_code(
                                                        &objs@[i as int],
                                                    ));
                                                }
                                            }
                                        }
                                    }
                                },
                                None => {},
                            }
                        },
                        None => {},
                    }
                },
                _ => {},
            }
        }
        proof {
            if items@ == items_before {
                lemma_postcodes_from_mono(objs@, items@, i as int, i + 1);
            }
            assert(pc_accepted_count(objs@, b0, i + 1) == pc_accepted_count(objs@, b0, i as int)
                + (if makes_a_postcode(objs@[i as int], b0[i as int]) {
                1nat
            } else {
                0nat
            }));
            assert forall|j: int|
                0 <= j < i + 1 && makes_a_postcode(#[trigger] objs@[j], b0[j]) implies {
                let item = items@[pc_accepted_count(objs@, b0, j) as int];
                &&& item.spec_postcode().osm_id@ == relation_osm_id(objs@[j])
                &&& Some(item.spec_postcode().boundary) == b0[j]
                &&& Some(item.spec_bbox()) == crate::geometry::rect_of(b0[j].unwrap())
            } by {
                if j < i {
                    lemma_pc_accepted_monotone(objs@, b0, j, i as int);
                    assert(items@[pc_accepted_count(objs@, b0, j) as int] == items_before[pc_accepted_count(
                        objs@,
                        b0,
                        j,
                    ) as int]);
                } else {
                    assert(pc_accepted_count(objs@, b0, j) == items_before.len());
                }
            }
        }
        i = i + 1;
    }
    let ghost built = items@;
    let store = PostcodeStore::bulk_load(items);
    proof {
        assert(store.items_view() == built);
        assert(postcodes_from(objs@, store.items_view(), n as int));
    }
    (store, CosmogonyStats::default())
}

/// A named administrative relation whose boundary was reconstructed: the
/// inputs a zone is owed for.
pub open spec fn makes_a_zone(obj: OsmObjData, boundary: Option<Shape>) -> bool {
    match obj {
        OsmObjData::Relation(rel) => crate::zone_ext::named(&rel.tags) is Some && boundary
            is Some,
        _ => false,
    }
}

/// The id text a relation's zone carries.
pub open spec fn relation_osm_id(obj: OsmObjData) -> Seq<char> {
    match obj {
        OsmObjData::Relation(rel) => "relation:"@ + crate::strings::dec_i64(rel.id as int),
        _ => Seq::empty(),
    }
}

/// How many of the first `upto` objects make a zone.
pub open spec fn accepted_count(objs: Seq<OsmObjData>, bs: Seq<Option<Shape>>, upto: int) -> nat
    decreases upto,
{
    if upto <= 0 {
        0
    } else {
        accepted_count(objs, bs, upto - 1) + if makes_a_zone(objs[upto - 1], bs[upto - 1]) {
            1nat
        } else {
            0nat
        }
    }
}

/// More objects never mean fewer accepted ones; an accepted object is
/// counted by every longer prefix.
proof fn lemma_accepted_monotone(objs: Seq<OsmObjData>, bs: Seq<Option<Shape>>, a: int, b: int)
    requires
        0 <= a <= b,
    ensures
        accepted_count(objs, bs, a) <= accepted_count(objs, bs, b),
        a < b && makes_a_zone(objs[a], bs[a]) ==> accepted_count(objs, bs, a) + 1
            <= accepted_count(objs, bs, b),
    decreases b,
{
    if a < b {
        lemma_accepted_monotone(objs, bs, a, b - 1);
    }
}

/// Build the raw zones: one per relation with a nonempty name and a
/// reconstructed boundary, densely indexed in reading order; exactly
/// those relations come out as zones, in their order, and nothing else.
pub fn get_zones_and_stats(
    objs: &Vec<OsmObjData>,
    nodes: &Vec<crate::osm::OsmNodeData>,
    boundaries: Vec<Option<Shape>>,
    postcodes: &PostcodeStore,
) -> (r: (Vec<Zone>, CosmogonyStats))
    requires
        boundaries@.len() == objs@.len(),
        postcodes.wf(),
    ensures
        zones_indexed(r.0@),
        zones_bbox_wf(r.0@),
        hierarchy_wf(r.0@),
        forall|k: int|
            0 <= k < r.0@.len() ==> (#[trigger] r.0@[k]).boundary is Some && !r.0@[k].is_generated
                && r.0@[k].zone_type is None && r.0@[k].parent is None && r.0@[k].name@.len() > 0
                && r.0@[k].bbox_matches_boundary(),
        r.0@.len() == accepted_count(objs@, boundaries@, objs@.len() as int),
        forall|j: int|
            0 <= j < objs@.len() && makes_a_zone(#[trigger] objs@[j], boundaries@[j])
                ==> r.0@[accepted_count(objs@, boundaries@, j) as int].osm_id@ == relation_osm_id(
                objs@[j],
            ),
{
    let ghost b0 = boundaries@;
    let mut boundaries = boundaries;
    let mut zones: Vec<Zone> = Vec::new();
    let n = objs.len();
    let mut i: usize = 0;
    while i < n
        invariant
            i <= n,
            n == objs@.len(),
            boundaries@.len() == n,
            b0.len() == n,
            forall|j: int| i <= j < n ==> boundaries@[j] == b0[j],
            postcodes.wf(),
            zones_indexed(zones@),
            zones_bbox_wf(zones@),
            forall|k: int|
                0 <= k < zones@.len() ==> (#[trigger] zones@[k]).boundary is Some
                    && !zones@[k].is_generated && zones@[k].zone_type is None && zones@[k].parent
                    is None && zones@[k].name@.len() > 0 && zones@[k].bbox_matches_boundary(),
            zones@.len() == accepted_count(objs@, b0, i as int),
            forall|j: int|
                0 <= j < i && makes_a_zone(#[trigger] objs@[j], b0[j])
                    ==> zones@[accepted_count(objs@, b0, j) as int].osm_id@ == relation_osm_id(
                    objs@[j],
                ),
        decreases n - i,
    {
        let ghost zs_before = zones@;
        match &objs[i] {
            OsmObjData::Relation(rel) => {
                let b = boundaries[i].take();
                let next = ZoneIndex { index: zones.len() };
                match Zone::from_osm_relation(rel, nodes, next, postcodes, b) {
                    Some(zone) => {
                        if zone.boundary.is_some() {
                            zones.push(zone);
                        }
                    },
                    None => {},
                }
            },
            _ => {},
        }
        proof {
            assert(accepted_count(objs@, b0, i + 1) == accepted_count(objs@, b0, i as int) + (
            if makes_a_zone(objs@[i as int], b0[i as int]) {
                1nat
            } else {
                0nat
            }));
            assert forall|j: int|
                0 <= j < i + 1 && makes_a_zone(#[trigger] objs@[j], b0[j]) implies zones@[accepted_count(
                objs@,
                b0,
                j,
            ) as int].osm_id@ == relation_osm_id(objs@[j]) by {
                if j < i {
                    lemma_accepted_monotone(objs@, b0, j, i as int);
                    assert(accepted_count(objs@, b0, j) < zs_before.len());
                    assert(zones@[accepted_count(objs@, b0, j) as int] == zs_before[accepted_count(
                        objs@,
                        b0,
                        j,
                    ) as int]);
                } else {
                    assert(accepted_count(objs@, b0, j) == zs_before.len());
                    assert(zones@[zs_before.len() as int].osm_id@ == relation_osm_id(objs@[j]));
                }
            }
        }
        i = i + 1;
    }
    (zones, CosmogonyStats::default())
}

/// The country code a zone is typed under: the override, upper-cased,
/// when one is given; the best known country among its ancestors else.
pub open spec fn spec_country_code(
    entries: Seq<(usize, Seq<char>, Option<u32>)>,
    z: Zone,
    override_code: Option<Seq<char>>,
    incl: Seq<ZoneIndex>,
) -> Option<Seq<char>> {
    match override_code {
        Some(c) => Some(upper_of(c)),
        None => {
            let cands = incl.map_values(|x: ZoneIndex| x.index).push(z.id.index);
            match best_country(entries, cands) {
                Some(e) => Some(e.1),
                None => None,
            }
        },
    }
}

/// Resolve a zone's country code.
pub fn get_country_code(
    country_finder: &CountryFinder,
    zone: &Zone,
    country_code: &Option<String>,
    inclusions: &Vec<ZoneIndex>,
) -> (r: Option<String>)
    ensures
        ({
            let override_code = match country_code {
                Some(c) => Some(c@),
                None => None,
            };
            let want = spec_country_code(
                finder_view(country_finder.countries@),
                *zone,
                override_code,
                inclusions@,
            );
            match r {
                Some(code) => want == Some(code@),
                None => want is None,
            }
        }),
{
    match country_code {
        Some(c) => Some(to_uppercase_str(c.as_str())),
        None => country_finder.find_zone_country(zone, inclusions),
    }
}

/// The typer could not run at all: no code was given and no country zone
/// was found.
#[derive(Debug, PartialEq, Eq, Structural)]
pub enum TypeZonesError {
    NoCountryFound,
}

/// What typing gives one zone: its old kind when no country or no rule
/// speaks of it, the rules' kind else.
pub open spec fn typed_zone_type(
    rules: Seq<(String, crate::zone_typer::CountryAdminTypeRules)>,
    entries: Seq<(usize, Seq<char>, Option<u32>)>,
    zs: Seq<Zone>,
    k: int,
    override_code: Option<Seq<char>>,
    incl: Seq<ZoneIndex>,
) -> Option<crate::zone::ZoneType> {
    match spec_country_code(entries, zs[k], override_code, incl) {
        None => zs[k].zone_type,
        Some(code) => match country_get(rules, code) {
            None => zs[k].zone_type,
            Some(country_rules) => match country_rules.spec_type(
                zs[k].osm_id@,
                zs[k].admin_level,
                ancestors_of(zs, incl),
            ) {
                Some(t) => Some(t),
                None => zs[k].zone_type,
            },
        },
    }
}

/// Zone `k` resolved no country at all.
pub open spec fn fails_no_country(
    entries: Seq<(usize, Seq<char>, Option<u32>)>,
    zs: Seq<Zone>,
    k: int,
    override_code: Option<Seq<char>>,
    incl: Seq<ZoneIndex>,
) -> bool {
    spec_country_code(entries, zs[k], override_code, incl) is None
}

/// The country zone `k` resolved, when that country has no rule set.
pub open spec fn fails_unknown_rules(
    rules: Seq<(String, crate::zone_typer::CountryAdminTypeRules)>,
    entries: Seq<(usize, Seq<char>, Option<u32>)>,
    zs: Seq<Zone>,
    k: int,
    override_code: Option<Seq<char>>,
    incl: Seq<ZoneIndex>,
) -> Option<Seq<char>> {
    match spec_country_code(entries, zs[k], override_code, incl) {
        Some(c) => if country_get(rules, c) is None {
            Some(c)
        } else {
            None
        },
        None => None,
    }
}

/// The country and level zone `k` failed on, when its country's rules
/// pass its level over.
pub open spec fn fails_unhandled(
    rules: Seq<(String, crate::zone_typer::CountryAdminTypeRules)>,
    entries: Seq<(usize, Seq<char>, Option<u32>)>,
    zs: Seq<Zone>,
    k: int,
    override_code: Option<Seq<char>>,
    incl: Seq<ZoneIndex>,
) -> Option<(Seq<char>, u32)> {
    match spec_country_code(entries, zs[k], override_code, incl) {
        Some(c) => match country_get(rules, c) {
            Some(cr) => if cr.spec_type(zs[k].osm_id@, zs[k].admin_level, ancestors_of(zs, incl))
                is None {
                Some((c, crate::cosmogony::level_or_zero(zs[k])))
            } else {
                None
            },
            None => None,
        },
        None => None,
    }
}

/// How many of the first `upto` zones resolved no country.
pub open spec fn count_no_country(
    entries: Seq<(usize, Seq<char>, Option<u32>)>,
    zs: Seq<Zone>,
    incls: Seq<Vec<ZoneIndex>>,
    override_code: Option<Seq<char>>,
    upto: int,
) -> nat
    decreases upto,
{
    if upto <= 0 {
        0
    } else {
        count_no_country(entries, zs, incls, override_code, upto - 1) + if fails_no_country(
            entries,
            zs,
            upto - 1,
            override_code,
            incls[upto - 1]@,
        ) {
            1nat
        } else {
            0nat
        }
    }
}

/// How many of the first `upto` zones failed on country `c` having no
/// rule set.
pub open spec fn count_unknown_rules(
    rules: Seq<(String, crate::zone_typer::CountryAdminTypeRules)>,
    entries: Seq<(usize, Seq<char>, Option<u32>)>,
    zs: Seq<Zone>,
    incls: Seq<Vec<ZoneIndex>>,
    override_code: Option<Seq<char>>,
    c: Seq<char>,
    upto: int,
) -> nat
    decreases upto,
{
    if upto <= 0 {
        0
    } else {
        count_unknown_rules(rules, entries, zs, incls, override_code, c, upto - 1)
            + if fails_unknown_rules(rules, entries, zs, upto - 1, override_code, incls[upto - 1]@)
            == Some(c) {
            1nat
        } else {
            0nat
        }
    }
}

/// How many of the first `upto` zones failed on level `l` under country
/// `c`.
pub open spec fn count_unhandled(
    rules: Seq<(String, crate::zone_typer::CountryAdminTypeRules)>,
    entries: Seq<(usize, Seq<char>, Option<u32>)>,
    zs: Seq<Zone>,
    incls: Seq<Vec<ZoneIndex>>,
    override_code: Option<Seq<char>>,
    c: Seq<char>,
    l: u32,
    upto: int,
) -> nat
    decreases upto,
{
    if upto <= 0 {
        0
    } else {
        count_unhandled(rules, entries, zs, incls, override_code, c, l, upto - 1)
            + if fails_unhandled(rules, entries, zs, upto - 1, override_code, incls[upto - 1]@)
            == Some((c, l)) {
            1nat
        } else {
            0nat
        }
    }
}

/// A failure count never exceeds the number of zones counted.
proof fn lemma_counts_le(
    rules: Seq<(String, crate::zone_typer::CountryAdminTypeRules)>,
    entries: Seq<(usize, Seq<char>, Option<u32>)>,
    zs: Seq<Zone>,
    incls: Seq<Vec<ZoneIndex>>,
    override_code: Option<Seq<char>>,
    c: Seq<char>,
    l: u32,
    upto: int,
)
    requires
        upto >= 0,
    ensures
        count_no_country(entries, zs, incls, override_code, upto) <= upto,
        count_unknown_rules(rules, entries, zs, incls, override_code, c, upto) <= upto,
        count_unhandled(rules, entries, zs, incls, override_code, c, l, upto) <= upto,
    decreases upto,
{
    if upto > 0 {
        lemma_counts_le(rules, entries, zs, incls, override_code, c, l, upto - 1);
    }
}

/// One zone's step of the census: each count at `i + 1` is the count at
/// `i` plus one exactly for the failure the zone had.
proof fn lemma_census_step(
    rules: Seq<(String, crate::zone_typer::CountryAdminTypeRules)>,
    entries: Seq<(usize, Seq<char>, Option<u32>)>,
    zs: Seq<Zone>,
    incls: Seq<Vec<ZoneIndex>>,
    ov: Option<Seq<char>>,
    i: int,
)
    requires
        i >= 0,
    ensures
        count_no_country(entries, zs, incls, ov, i + 1) == count_no_country(
            entries,
            zs,
            incls,
            ov,
            i,
        ) + (if fails_no_country(entries, zs, i, ov, incls[i]@) {
            1nat
        } else {
            0nat
        }),
        forall|c: Seq<char>|
            count_unknown_rules(rules, entries, zs, incls, ov, c, i + 1) == count_unknown_rules(
                rules,
                entries,
                zs,
                incls,
                ov,
                c,
                i,
            ) + (if fails_unknown_rules(rules, entries, zs, i, ov, incls[i]@) == Some(c) {
                1nat
            } else {
                0nat
            }),
        forall|c: Seq<char>, l: u32|
            count_unhandled(rules, entries, zs, incls, ov, c, l, i + 1) == count_unhandled(
                rules,
                entries,
                zs,
                incls,
                ov,
                c,
                l,
                i,
            ) + (if fails_unhandled(rules, entries, zs, i, ov, incls[i]@) == Some((c, l)) {
                1nat
            } else {
                0nat
            }),
{
}

/// Type every zone under its country's rules. A zone without a country,
/// with an unknown country, or with a level the rules pass over keeps its
/// kind, and each such failure bumps exactly one census tally: no
/// country, unknown country rules per code, or unhandled level per code
/// and level. The one fatal error: no country code was given and no
/// country zone exists.
pub fn type_zones(
    zones: &mut Vec<Zone>,
    stats: &mut CosmogonyStats,
    typer: &ZoneTyper,
    country_code: &Option<String>,
    inclusions: &Vec<Vec<ZoneIndex>>,
) -> (r: Result<(), TypeZonesError>)
    requires
        inclusions@.len() == old(zones)@.len(),
        forall|i: int|
            0 <= i < inclusions@.len() ==> candidate_list_ok(
                (#[trigger] inclusions@[i])@,
                i,
                inclusions@.len() as int,
            ),
        old(stats).zone_without_country == 0,
        old(stats).zone_with_unkwown_country_rules@ == Seq::<(String, u64)>::empty(),
        old(stats).unhandled_admin_level@ == Seq::<(String, Vec<(u32, u64)>)>::empty(),
        old(zones)@.len() < u64::MAX,
    ensures
        ({
            let failed = country_code is None && finder_entries(
                old(zones)@,
                typer.countries_rules@,
            ).len() == 0;
            let override_code = match country_code {
                Some(c) => Some(c@),
                None => None,
            };
            let rules = typer.countries_rules@;
            let entries = finder_entries(old(zones)@, typer.countries_rules@);
            let n = old(zones)@.len() as int;
            match r {
                Err(e) => failed && e == TypeZonesError::NoCountryFound && final(zones)@ == old(
                    zones,
                )@ && *final(stats) == *old(stats),
                Ok(_) => {
                    &&& !failed
                    &&& final(zones)@.len() == old(zones)@.len()
                    &&& forall|k: int|
                        0 <= k < old(zones)@.len() ==> #[trigger] final(zones)@[k] == (Zone {
                            zone_type: typed_zone_type(
                                rules,
                                entries,
                                old(zones)@,
                                k,
                                override_code,
                                inclusions@[k]@,
                            ),
                            ..old(zones)@[k]
                        })
                    &&& *final(stats) == (CosmogonyStats {
                        zone_without_country: final(stats).zone_without_country,
                        zone_with_unkwown_country_rules: final(stats).zone_with_unkwown_country_rules,
                        unhandled_admin_level: final(stats).unhandled_admin_level,
                        ..*old(stats)
                    })
                    &&& final(stats).zone_without_country == count_no_country(
                        entries,
                        old(zones)@,
                        inclusions@,
                        override_code,
                        n,
                    )
                    &&& forall|c: Seq<char>|
                        crate::cosmogony::name_count_or_zero(
                            crate::cosmogony::name_counts_view(
                                final(stats).zone_with_unkwown_country_rules@,
                            ),
                            c,
                        ) == count_unknown_rules(
                            rules,
                            entries,
                            old(zones)@,
                            inclusions@,
                            override_code,
                            c,
                            n,
                        )
                    &&& forall|c: Seq<char>, l: u32|
                        crate::cosmogony::nested_count_or_zero(
                            crate::cosmogony::nested_counts_view(
                                final(stats).unhandled_admin_level@,
                            ),
                            c,
                            l,
                        ) == count_unhandled(
                            rules,
                            entries,
                            old(zones)@,
                            inclusions@,
                            override_code,
                            c,
                            l,
                            n,
                        )
                },
            }
        }),
{
    let country_finder = CountryFinder::init(zones, typer);
    if country_code.is_none() && country_finder.is_empty() {
        return Err(TypeZonesError::NoCountryFound);
    }
    let ghost zs = zones@;
    let ghost entries = finder_entries(old(zones)@, typer.countries_rules@);
    let ghost rules = typer.countries_rules@;
    let ghost ov = match country_code {
        Some(c) => Some(c@),
        None => None::<Seq<char>>,
    };
    let n = zones.len();
    // first pass: the kinds and the failure census, computed against the
    // unchanged vector
    let mut new_types: Vec<Option<crate::zone::ZoneType>> = Vec::new();
    let mut i: usize = 0;
    while i < n
        invariant
            i <= n,
            n == zs.len(),
            n < u64::MAX,
            zones@ == zs,
            inclusions@.len() == n,
            forall|q: int|
                0 <= q < n ==> candidate_list_ok((#[trigger] inclusions@[q])@, q, n as int),
            finder_view(country_finder.countries@) == entries,
            ov == match country_code {
                Some(c) => Some(c@),
                None => None::<Seq<char>>,
            },
            rules == typer.countries_rules@,
            new_types@.len() == i,
            forall|k: int|
                0 <= k < i ==> #[trigger] new_types@[k] == typed_zone_type(
                    rules,
                    entries,
                    zs,
                    k,
                    ov,
                    inclusions@[k]@,
                ),
            *stats == (CosmogonyStats {
                zone_without_country: stats.zone_without_country,
                zone_with_unkwown_country_rules: stats.zone_with_unkwown_country_rules,
                unhandled_admin_level: stats.unhandled_admin_level,
                ..*old(stats)
            }),
            stats.zone_without_country == count_no_country(entries, zs, inclusions@, ov, i as int),
            crate::cosmogony::name_keys_distinct(
                crate::cosmogony::name_counts_view(stats.zone_with_unkwown_country_rules@),
            ),
            forall|c: Seq<char>|
                crate::cosmogony::name_count_or_zero(
                    crate::cosmogony::name_counts_view(stats.zone_with_unkwown_country_rules@),
                    c,
                ) == count_unknown_rules(rules, entries, zs, inclusions@, ov, c, i as int),
            crate::cosmogony::nested_keys_distinct(
                crate::cosmogony::nested_counts_view(stats.unhandled_admin_level@),
            ),
            forall|c: Seq<char>, l: u32|
                crate::cosmogony::nested_count_or_zero(
                    crate::cosmogony::nested_counts_view(stats.unhandled_admin_level@),
                    c,
                    l,
                ) == count_unhandled(rules, entries, zs, inclusions@, ov, c, l, i as int),
        decreases n - i,
    {
        proof {
            assert(count_no_country(entries, zs, inclusions@, ov, i + 1) == count_no_country(
                entries,
                zs,
                inclusions@,
                ov,
                i as int,
            ) + (if fails_no_country(entries, zs, i as int, ov, inclusions@[i as int]@) {
                1nat
            } else {
                0nat
            }));
        }
        let code = get_country_code(&country_finder, &zones[i], country_code, &inclusions[i]);
        let t = match code {
            Some(code) => {
                match typer.get_zone_type(&zones[i], code.as_str(), &inclusions[i], zones) {
                    Ok(t) => {
                        proof {
                            lemma_census_step(rules, entries, zs, inclusions@, ov, i as int);
                        }
                        Some(t)
                    },
                    Err(ZoneTyperError::InvalidCountry(c)) => {
                        proof {
                            assert(fails_unknown_rules(
                                rules,
                                entries,
                                zs,
                                i as int,
                                ov,
                                inclusions@[i as int]@,
                            ) == Some(c@));
                            assert forall|j: int|
                                0 <= j < stats.zone_with_unkwown_country_rules@.len() implies (
                            #[trigger] stats.zone_with_unkwown_country_rules@[j]).1 < u64::MAX by {
                                let view = crate::cosmogony::name_counts_view(
                                    stats.zone_with_unkwown_country_rules@,
                                );
                                crate::cosmogony::lemma_name_own_key(view, j);
                                let key = view[j].0;
                                assert(crate::cosmogony::name_count_or_zero(view, key)
                                    == count_unknown_rules(
                                    rules,
                                    entries,
                                    zs,
                                    inclusions@,
                                    ov,
                                    key,
                                    i as int,
                                ));
                                lemma_counts_le(rules, entries, zs, inclusions@, ov, key, 0, i as int);
                                assert(view[j].1 == stats.zone_with_unkwown_country_rules@[j].1);
                                assert(view[j].1 as nat <= i as nat);
                            }
                        }
                        crate::cosmogony::bump_name_count(
                            &mut stats.zone_with_unkwown_country_rules,
                            c.as_str(),
                        );
                        proof {
                            lemma_census_step(rules, entries, zs, inclusions@, ov, i as int);
                        }
                        zones[i].zone_type
                    },
                    Err(ZoneTyperError::UnkownLevel(lvl, c)) => {
                        let lvl = match lvl {
                            Some(l) => l,
                            None => 0,
                        };
                        proof {
                            assert(fails_unhandled(
                                rules,
                                entries,
                                zs,
                                i as int,
                                ov,
                                inclusions@[i as int]@,
                            ) == Some((c@, lvl)));
                            assert forall|a: int, j: int|
                                0 <= a < stats.unhandled_admin_level@.len() && 0 <= j < (
                                #[trigger] stats.unhandled_admin_level@[a]).1@.len() implies (
                            #[trigger] stats.unhandled_admin_level@[a].1@[j]).1 < u64::MAX by {
                                let view = crate::cosmogony::nested_counts_view(
                                    stats.unhandled_admin_level@,
                                );
                                let inner = view[a].1;
                                assert(crate::cosmogony::level_keys_distinct(inner));
                                crate::cosmogony::lemma_level_own_key(inner, j);
                                crate::cosmogony::lemma_nested_own_key(view, a, inner[j].0);
                                assert(crate::cosmogony::nested_count_or_zero(
                                    view,
                                    view[a].0,
                                    inner[j].0,
                                ) == count_unhandled(
                                    rules,
                                    entries,
                                    zs,
                                    inclusions@,
                                    ov,
                                    view[a].0,
                                    inner[j].0,
                                    i as int,
                                ));
                                lemma_counts_le(
                                    rules,
                                    entries,
                                    zs,
                                    inclusions@,
                                    ov,
                                    view[a].0,
                                    inner[j].0,
                                    i as int,
                                );
                                assert(inner[j].1 == stats.unhandled_admin_level@[a].1@[j].1);
                                assert(inner[j].1 as nat <= i as nat);
                            }
                        }
                        crate::cosmogony::bump_nested_count(
                            &mut stats.unhandled_admin_level,
                            c.as_str(),
                            lvl,
                        );
                        proof {
                            lemma_census_step(rules, entries, zs, inclusions@, ov, i as int);
                        }
                        zones[i].zone_type
                    },
                }
            },
            None => {
                proof {
                    assert(fails_no_country(entries, zs, i as int, ov, inclusions@[i as int]@));
                    lemma_counts_le(rules, entries, zs, inclusions@, ov, Seq::empty(), 0, i as int);
                    lemma_census_step(rules, entries, zs, inclusions@, ov, i as int);
                }
                stats.zone_without_country = stats.zone_without_country + 1;
                zones[i].zone_type
            },
        };
        new_types.push(t);
        i = i + 1;
    }
    // second pass: assign
    let ghost stats_done = *stats;
    let mut k: usize = 0;
    while k < n
        invariant
            k <= n,
            n == zs.len(),
            zones@.len() == n,
            new_types@.len() == n,
            *stats == stats_done,
            forall|q: int| k <= q < n ==> #[trigger] zones@[q] == zs[q],
            forall|q: int|
                0 <= q < k ==> #[trigger] zones@[q] == (Zone { zone_type: new_types@[q], ..zs[q] }),
        decreases n - k,
    {
        zones[k].zone_type = new_types[k];
        k = k + 1;
    }
    Ok(())
}


/// The fields the labeler reads agree between the two vectors: parents,
/// kinds, names, per-language names and zip codes.
pub open spec fn label_inputs_eq(zs1: Seq<Zone>, zs2: Seq<Zone>) -> bool {
    &&& zs1.len() == zs2.len()
    &&& forall|i: int|
        0 <= i < zs1.len() ==> {
            let a = zs1[i];
            let b = #[trigger] zs2[i];
            &&& a.parent == b.parent
            &&& a.zone_type == b.zone_type
            &&& a.id == b.id
            &&& a.name@ == b.name@
            &&& a.international_names@ == b.international_names@
            &&& a.zip_codes@ == b.zip_codes@
        }
}

/// The parent walk reads only the parents, so it is the same over two
/// vectors that agree on the labeler's inputs.
proof fn lemma_path_stable(zs1: Seq<Zone>, zs2: Seq<Zone>, i: int, fuel: nat)
    requires
        label_inputs_eq(zs1, zs2),
    ensures
        spec_path_fuel(zs1, i, fuel) == spec_path_fuel(zs2, i, fuel),
    decreases fuel,
{
    if fuel > 0 && 0 <= i < zs1.len() {
        match zs1[i].parent {
            Some(p) => {
                lemma_path_stable(zs1, zs2, p.index as int, (fuel - 1) as nat);
            },
            None => {},
        }
    }
}

/// Under a well-formed hierarchy the walk stays inside the vector.
proof fn lemma_path_in_range(zs: Seq<Zone>, i: int, fuel: nat)
    requires
        hierarchy_wf(zs),
        0 <= i < zs.len(),
    ensures
        forall|k: int|
            0 <= k < spec_path_fuel(zs, i, fuel).len() ==> 0 <= #[trigger] spec_path_fuel(
                zs,
                i,
                fuel,
            )[k] < zs.len(),
    decreases fuel,
{
    if fuel > 0 {
        match zs[i].parent {
            Some(p) => {
                lemma_path_in_range(zs, p.index as int, (fuel - 1) as nat);
                let rest = spec_path_fuel(zs, p.index as int, (fuel - 1) as nat);
                assert forall|k: int|
                    0 <= k < spec_path_fuel(zs, i, fuel).len() implies 0 <= #[trigger] spec_path_fuel(
                    zs,
                    i,
                    fuel,
                )[k] < zs.len() by {
                    if k > 0 {
                        assert(spec_path_fuel(zs, i, fuel)[k] == rest[k - 1]);
                    }
                }
            },
            None => {},
        }
    }
}

/// Compute every zone's per-language names, in place.
pub fn compute_names_all(zones: &mut Vec<Zone>)
    ensures
        final(zones)@.len() == old(zones)@.len(),
        forall|k: int|
            0 <= k < old(zones)@.len() ==> #[trigger] final(zones)@[k] == (Zone {
                tags: final(zones)@[k].tags,
                international_names: final(zones)@[k].international_names,
                ..old(zones)@[k]
            }),
        forall|k: int|
            0 <= k < old(zones)@.len() ==> (#[trigger] final(zones)@[k]).international_names@
                == crate::labels::intl_names_of(final(zones)@[k].tags@, old(zones)@[k].name@),
{
    let n = zones.len();
    let mut i: usize = 0;
    while i < n
        invariant
            i <= n,
            n == old(zones)@.len(),
            zones@.len() == n,
            forall|k: int| i <= k < n ==> #[trigger] zones@[k] == old(zones)@[k],
            forall|k: int|
                0 <= k < i ==> #[trigger] zones@[k] == (Zone {
                    tags: zones@[k].tags,
                    international_names: zones@[k].international_names,
                    ..old(zones)@[k]
                }),
            forall|k: int|
                0 <= k < i ==> (#[trigger] zones@[k]).international_names@
                    == crate::labels::intl_names_of(zones@[k].tags@, old(zones)@[k].name@),
        decreases n - i,
    {
        let z = &mut zones[i];
        z.compute_names();
        i = i + 1;
    }
}

/// A well-formed hierarchy reads only parents and kinds, so it carries
/// over to a vector agreeing on the labeler's inputs.
proof fn lemma_wf_stable(zs1: Seq<Zone>, zs2: Seq<Zone>)
    requires
        label_inputs_eq(zs1, zs2),
        hierarchy_wf(zs1),
    ensures
        hierarchy_wf(zs2),
{
    assert forall|k: int| 0 <= k < zs2.len() implies match (#[trigger] zs2[k]).parent {
        Some(p) => {
            &&& p.index < zs2.len()
            &&& zs2[p.index as int].spec_is_admin()
            &&& (zs2[k].spec_is_admin() ==> crate::zone::opt_type_rank(zs2[k].zone_type)
                < crate::zone::opt_type_rank(zs2[p.index as int].zone_type))
        },
        None => true,
    } by {
        assert(zs1[k].parent == zs2[k].parent);
        match zs1[k].parent {
            Some(p) => {
                assert(zs1[p.index as int].zone_type == zs2[p.index as int].zone_type);
            },
            None => {},
        }
    }
}

/// Compute every zone's label and per-language labels against the parent
/// chains as they stand on entry; nothing but the two label fields moves.
pub fn compute_labels(zones: &mut Vec<Zone>, filter_langs: &Vec<String>)
    requires
        hierarchy_wf(old(zones)@),
    ensures
        final(zones)@.len() == old(zones)@.len(),
        forall|k: int|
            0 <= k < old(zones)@.len() ==> #[trigger] final(zones)@[k] == (Zone {
                label: final(zones)@[k].label,
                international_labels: final(zones)@[k].international_labels,
                ..old(zones)@[k]
            }),
        forall|k: int|
            0 <= k < old(zones)@.len() ==> (#[trigger] final(zones)@[k]).label@ == label_spec(
                default_names(old(zones)@, spec_path(old(zones)@, k)),
                views_of(old(zones)@[k].zip_codes@),
            ),
        forall|k: int, lang: Seq<char>|
            0 <= k < old(zones)@.len() ==> #[trigger] final(zones)@[k].international_labels.spec_get(lang) == (if lang_eligible(
                old(zones)@,
                spec_path(old(zones)@, k),
                lang,
                views_of(filter_langs@),
            ) {
                Some(
                    intl_label_for(
                        old(zones)@,
                        spec_path(old(zones)@, k),
                        lang,
                        views_of(old(zones)@[k].zip_codes@),
                    ),
                )
            } else {
                None::<Seq<char>>
            }),
{
    let ghost zs0 = old(zones)@;
    let n = zones.len();
    let mut i: usize = 0;
    while i < n
        invariant
            i <= n,
            n == zs0.len(),
            zones@.len() == n,
            hierarchy_wf(zs0),
            label_inputs_eq(zs0, zones@),
            hierarchy_wf(zones@),
            forall|k: int| i <= k < n ==> #[trigger] zones@[k] == zs0[k],
            forall|k: int|
                0 <= k < n ==> #[trigger] zones@[k] == (Zone {
                    label: zones@[k].label,
                    international_labels: zones@[k].international_labels,
                    ..zs0[k]
                }),
            forall|k: int|
                0 <= k < i ==> (#[trigger] zones@[k]).label@ == label_spec(
                    default_names(zs0, spec_path(zs0, k)),
                    views_of(zs0[k].zip_codes@),
                ),
            forall|k: int, lang: Seq<char>|
                0 <= k < i ==> #[trigger] zones@[k].international_labels.spec_get(lang) == (
                if lang_eligible(zs0, spec_path(zs0, k), lang, views_of(filter_langs@)) {
                    Some(intl_label_for(zs0, spec_path(zs0, k), lang, views_of(zs0[k].zip_codes@)))
                } else {
                    None::<Seq<char>>
                }),
        decreases n - i,
    {
        let ghost zsc = zones@;
        Zone::compute_labels(zones, i, filter_langs);
        proof {
            assert(label_inputs_eq(zs0, zones@)) by {
                assert forall|q: int| 0 <= q < n implies {
                    let a = zs0[q];
                    let b = #[trigger] zones@[q];
                    &&& a.parent == b.parent
                    &&& a.zone_type == b.zone_type
                    &&& a.id == b.id
                    &&& a.name@ == b.name@
                    &&& a.international_names@ == b.international_names@
                    &&& a.zip_codes@ == b.zip_codes@
                } by {
                    if q != i {
                        assert(zones@[q] == zsc[q]);
                    } else {
                        assert(zones@[q] == (Zone {
                            label: zones@[q].label,
                            international_labels: zones@[q].international_labels,
                            ..zsc[q]
                        }));
                    }
                    assert(zs0[q].parent == zsc[q].parent);
                }
            }
            lemma_wf_stable(zs0, zones@);
            assert forall|k: int| i + 1 <= k < n implies #[trigger] zones@[k] == zs0[k] by {
                assert(zones@[k] == zsc[k]);
            }
            assert forall|k: int| 0 <= k < n implies #[trigger] zones@[k] == (Zone {
                label: zones@[k].label,
                international_labels: zones@[k].international_labels,
                ..zs0[k]
            }) by {
                if k != i {
                    assert(zones@[k] == zsc[k]);
                    assert(zsc[k] == (Zone {
                        label: zsc[k].label,
                        international_labels: zsc[k].international_labels,
                        ..zs0[k]
                    }));
                } else {
                    assert(zones@[k] == (Zone {
                        label: zones@[k].label,
                        international_labels: zones@[k].international_labels,
                        ..zsc[k]
                    }));
                    assert(zsc[k] == zs0[k]);
                }
            }
            lemma_path_stable(zs0, zsc, i as int, 9);
            lemma_path_in_range(zsc, i as int, 9);
            let path = spec_path(zsc, i as int);
            assert(path == spec_path(zs0, i as int));
            assert(default_names(zsc, path) =~= default_names(zs0, path));
            assert(views_of(zsc[i as int].zip_codes@) == views_of(zs0[i as int].zip_codes@));
            assert forall|lang: Seq<char>| true implies crate::labels::lang_names(zsc, path, lang)
                =~= crate::labels::lang_names(zs0, path, lang) && crate::labels::lang_in_path(
                zsc,
                path,
                lang,
            ) == crate::labels::lang_in_path(zs0, path, lang) by {
                assert forall|k: int| 0 <= k < path.len() implies crate::labels::name_for(
                    zsc[path[k]],
                    lang,
                ) == crate::labels::name_for(zs0[path[k]], lang) && (
                zsc[path[k]].international_names.spec_get(lang) is Some) == (
                zs0[path[k]].international_names.spec_get(lang) is Some) by {
                    assert(zsc[path[k]].international_names@ == zs0[path[k]].international_names@);
                }
            }
            assert(zones@[i as int].label@ == label_spec(
                default_names(zs0, spec_path(zs0, i as int)),
                views_of(zs0[i as int].zip_codes@),
            )) by {
                assert(zsc[i as int] == zs0[i as int]);
                assert(default_names(zsc, path) =~= default_names(zs0, path));
            }
            assert forall|k: int| 0 <= k < i + 1 implies (#[trigger] zones@[k]).label@
                == label_spec(default_names(zs0, spec_path(zs0, k)), views_of(zs0[k].zip_codes@))
                by {
                if k < i {
                    assert(zones@[k] == zsc[k]);
                }
            }
            assert forall|k: int, lang: Seq<char>| 0 <= k < i + 1 implies #[trigger] zones@[k].international_labels.spec_get(lang) == (
            if lang_eligible(zs0, spec_path(zs0, k), lang, views_of(filter_langs@)) {
                Some(intl_label_for(zs0, spec_path(zs0, k), lang, views_of(zs0[k].zip_codes@)))
            } else {
                None::<Seq<char>>
            }) by {
                if k < i {
                    assert(zones@[k] == zsc[k]);
                    assert(zsc[k].international_labels.spec_get(lang) == (if lang_eligible(
                        zs0,
                        spec_path(zs0, k),
                        lang,
                        views_of(filter_langs@),
                    ) {
                        Some(
                            intl_label_for(zs0, spec_path(zs0, k), lang, views_of(zs0[k].zip_codes@)),
                        )
                    } else {
                        None::<Seq<char>>
                    }));
                } else {
                    assert(zsc[k] == zs0[k]);
                    assert(crate::labels::lang_names(zsc, path, lang) =~= crate::labels::lang_names(
                        zs0,
                        path,
                        lang,
                    ));
                    assert(crate::labels::lang_in_path(zsc, path, lang)
                        == crate::labels::lang_in_path(zs0, path, lang));
                }
            }
        }
        i = i + 1;
    }
}

/// The zones that carry a kind, in their order.
pub open spec fn typed_only(zs: Seq<Zone>) -> Seq<Zone>
    decreases zs.len(),
{
    if zs.len() == 0 {
        Seq::empty()
    } else {
        let rest = typed_only(zs.drop_last());
        if zs.last().zone_type is Some {
            rest.push(zs.last())
        } else {
            rest
        }
    }
}

/// Everything the filter keeps is one of the zones filtered.
pub proof fn lemma_typed_only_elements(zs: Seq<Zone>)
    ensures
        forall|k: int|
            0 <= k < typed_only(zs).len() ==> exists|j: int|
                0 <= j < zs.len() && #[trigger] typed_only(zs)[k] == zs[j],
    decreases zs.len(),
{
    if zs.len() > 0 {
        lemma_typed_only_elements(zs.drop_last());
        let prior = typed_only(zs.drop_last());
        assert forall|k: int| 0 <= k < typed_only(zs).len() implies exists|j: int|
            0 <= j < zs.len() && #[trigger] typed_only(zs)[k] == zs[j] by {
            if k < prior.len() {
                let j = choose|j: int|
                    0 <= j < zs.drop_last().len() && #[trigger] prior[k] == zs.drop_last()[j];
                assert(typed_only(zs)[k] == zs[j]);
            } else {
                assert(typed_only(zs)[k] == zs[zs.len() - 1]);
            }
        }
    }
}

/// Everything the filter keeps carries a kind.
pub proof fn lemma_typed_only_typed(zs: Seq<Zone>)
    ensures
        forall|k: int|
            0 <= k < typed_only(zs).len() ==> (#[trigger] typed_only(zs)[k]).zone_type is Some,
    decreases zs.len(),
{
    if zs.len() > 0 {
        lemma_typed_only_typed(zs.drop_last());
    }
}

/// Drop the zones left without a kind. Indices are not renumbered, so
/// after this no lookup by zone index is meaningful any more; every
/// surviving zone carries a kind.
pub fn clean_untagged_zones(zones: &mut Vec<Zone>)
    ensures
        final(zones)@ == typed_only(old(zones)@),
        forall|k: int|
            0 <= k < final(zones)@.len() ==> (#[trigger] final(zones)@[k]).zone_type is Some,
{
    let ghost zs = old(zones)@;
    let mut kept: Vec<Zone> = Vec::new();
    let n = zones.len();
    let mut i: usize = 0;
    proof {
        assert(zs.take(0) =~= Seq::<Zone>::empty());
    }
    while i < n
        invariant
            i <= n,
            n == zs.len(),
            zones@ == zs.skip(i as int),
            kept@ == typed_only(zs.take(i as int)),
        decreases n - i,
    {
        proof {
            assert(zs.skip(i as int)[0] == zs[i as int]);
            assert(zs.take(i + 1).drop_last() =~= zs.take(i as int));
            assert(zs.take(i + 1).last() == zs[i as int]);
        }
        let z = zones.remove(0);
        proof {
            assert(zones@ =~= zs.skip(i + 1));
        }
        if z.zone_type.is_some() {
            kept.push(z);
        }
        i = i + 1;
    }
    proof {
        assert(zs.take(n as int) =~= zs);
        lemma_typed_only_typed(zs);
    }
    // hand the kept zones back through the same vector
    let mut kept = kept;
    core::mem::swap(zones, &mut kept);
}

/// The snap tolerance handed to the cell partition, in 1e-7 degree units
/// (one tenth of a thousandth of a degree).
pub const VORONOI_SNAP_UNITS: i64 = 100;

/// Run the ontology over freshly built zones: inclusions, typing, the
/// hierarchy, the synthesized cities — single places by inheriting their
/// parent's area, grouped places by the engine's cell partition — the
/// per-language names, the labels, and the pruning of untyped zones. What
/// comes back besides the result: the place groups whose sites the engine
/// refused to partition, which are dropped from the output. After the
/// call every surviving zone carries a kind.
/// The engine refuses the group's sites under the pipeline's tolerance.
pub open spec fn partition_refused(task: VoronoiTask) -> bool {
    crate::geometry::voronoi_of(
        crate::additional_zones::sites_of(task.places@),
        VORONOI_SNAP_UNITS,
    ) is None
}

/// How many of the tasks from `from` on the engine refuses.
pub open spec fn refused_from(ts: Seq<VoronoiTask>, from: int) -> nat
    decreases ts.len() - from,
{
    if from < 0 || from >= ts.len() {
        0
    } else {
        refused_from(ts, from + 1) + if partition_refused(ts[from]) {
            1nat
        } else {
            0nat
        }
    }
}

/// Partition each group's sites with the engine and hand the cells to
/// their seeds. The groups handed back are exactly the ones whose sites
/// the engine refuses — each returned task is refused, and their number
/// equals the number of refused tasks; the rest were applied, and their
/// places' cells appended as generated cities.
#[verifier::rlimit(60)]
fn partition_groups(zones: &mut Vec<Zone>, ztree: &ZonesTree, tasks: Vec<VoronoiTask>) -> (leftover:
    Vec<VoronoiTask>)
    requires
        crate::ztree::zones_bbox_wf(old(zones)@),
        crate::ztree::zones_bbox_ok(old(zones)@),
        hierarchy_wf(old(zones)@),
        zones_indexed(old(zones)@),
        forall|i: usize| #[trigger] ztree.entries().contains_key(i) ==> i < old(zones)@.len(),
        forall|t: int|
            0 <= t < tasks@.len() ==> {
                let task = #[trigger] tasks@[t];
                &&& task.parent < old(zones)@.len()
                &&& good_voronoi_parent(old(zones)@[task.parent as int])
                &&& forall|q: int|
                    0 <= q < task.places@.len() ==> (#[trigger] task.places@[q]).zone_type == Some(
                        crate::zone::ZoneType::City,
                    ) && task.places@[q].is_generated
            },
    ensures
        final(zones)@.len() >= old(zones)@.len(),
        forall|k: int| 0 <= k < old(zones)@.len() ==> final(zones)@[k] == old(zones)@[k],
        crate::ztree::zones_bbox_wf(final(zones)@),
        crate::ztree::zones_bbox_ok(final(zones)@),
        hierarchy_wf(final(zones)@),
        zones_indexed(final(zones)@),
        forall|k: int|
            old(zones)@.len() <= k < final(zones)@.len() ==> {
                let z = #[trigger] final(zones)@[k];
                z.zone_type == Some(crate::zone::ZoneType::City) && z.is_generated
            },
        forall|t: int|
            0 <= t < leftover@.len() ==> partition_refused(#[trigger] leftover@[t]),
        leftover@.len() == refused_from(tasks@, 0),
{
    let ghost tasks0 = tasks@;
    let ghost len_groups = old(zones)@.len();
    let ghost zs_groups = old(zones)@;
    let mut tasks = tasks;
    let mut leftover: Vec<VoronoiTask> = Vec::new();
    loop
        invariant
            tasks@.len() <= tasks0.len(),
            tasks@ == tasks0.take(tasks@.len() as int),
            forall|t: int|
                0 <= t < leftover@.len() ==> partition_refused(#[trigger] leftover@[t]),
            leftover@.len() == refused_from(tasks0, tasks@.len() as int),
            zones@.len() >= len_groups,
            len_groups == zs_groups.len(),
            forall|k: int| 0 <= k < len_groups ==> zones@[k] == zs_groups[k],
            forall|k: int|
                len_groups <= k < zones@.len() ==> {
                    let z = #[trigger] zones@[k];
                    z.zone_type == Some(crate::zone::ZoneType::City) && z.is_generated
                },
            crate::ztree::zones_bbox_wf(zones@),
            crate::ztree::zones_bbox_ok(zones@),
            hierarchy_wf(zones@),
            zones_indexed(zones@),
            forall|i: usize| #[trigger] ztree.entries().contains_key(i) ==> i < len_groups,
            forall|t: int|
                0 <= t < tasks@.len() ==> {
                    let task = #[trigger] tasks@[t];
                    &&& task.parent < len_groups
                    &&& good_voronoi_parent(zs_groups[task.parent as int])
                    &&& forall|q: int|
                        0 <= q < task.places@.len() ==> (#[trigger] task.places@[q]).zone_type
                            == Some(crate::zone::ZoneType::City) && task.places@[q].is_generated
                },
        ensures
            tasks@.len() == 0,
            leftover@.len() == refused_from(tasks0, 0),
            forall|t: int|
                0 <= t < leftover@.len() ==> partition_refused(#[trigger] leftover@[t]),
            zones@.len() >= len_groups,
            forall|k: int| 0 <= k < len_groups ==> zones@[k] == zs_groups[k],
            forall|k: int|
                len_groups <= k < zones@.len() ==> {
                    let z = #[trigger] zones@[k];
                    z.zone_type == Some(crate::zone::ZoneType::City) && z.is_generated
                },
            crate::ztree::zones_bbox_wf(zones@),
            crate::ztree::zones_bbox_ok(zones@),
            hierarchy_wf(zones@),
            zones_indexed(zones@),
        decreases tasks@.len(),
    {
        let ghost len_before_pop = tasks@.len() as int;
        let task = match tasks.pop() {
            Some(t) => t,
            None => {
                break ;
            },
        };
        proof {
            assert(tasks0.take(len_before_pop).drop_last() =~= tasks0.take(len_before_pop - 1));
            assert(tasks@ =~= tasks0.take(len_before_pop - 1));
            assert(task == tasks0.take(len_before_pop).last());
            assert(task == tasks0[len_before_pop - 1]);
            assert(tasks@.len() == len_before_pop - 1);
        }
        let m = task.places.len();
        let mut sites: Vec<crate::geometry::Coord> = Vec::new();
        let mut q: usize = 0;
        proof {
            assert(sites@ =~= crate::additional_zones::sites_of(task.places@.take(0)));
        }
        while q < m
            invariant
                q <= m,
                m == task.places@.len(),
                sites@ == crate::additional_zones::sites_of(task.places@.take(q as int)),
            decreases m - q,
        {
            proof {
                assert(task.places@.take(q + 1).drop_last() =~= task.places@.take(q as int));
                assert(task.places@.take(q + 1).last() == task.places@[q as int]);
            }
            match &task.places[q].center {
                Some(c) => {
                    sites.push(*c);
                },
                None => {},
            }
            q = q + 1;
        }
        proof {
            assert(task.places@.take(m as int) =~= task.places@);
        }
        match crate::geometry::voronoi_cells(&sites, VORONOI_SNAP_UNITS) {
            Some(cells) => {
                proof {
                    assert(zones@[task.parent as int] == zs_groups[task.parent as int]);
                    assert(!partition_refused(task));
                }
                apply_voronoi_cells(zones, &ztree, &task, cells);
            },
            None => {
                proof {
                    assert(partition_refused(task));
                }
                leftover.push(task);
            },
        }
    }
    leftover
}

pub fn create_ontology(
    zones: &mut Vec<Zone>,
    stats: &mut CosmogonyStats,
    typer: &ZoneTyper,
    country_code: &Option<String>,
    disable_voronoi: bool,
    objs: &Vec<OsmObjData>,
    filter_langs: &Vec<String>,
) -> (r: Result<Vec<VoronoiTask>, TypeZonesError>)
    requires
        zones_indexed(old(zones)@),
        zones_bbox_wf(old(zones)@),
        crate::ztree::zones_bbox_ok(old(zones)@),
        hierarchy_wf(old(zones)@),
        old(stats).zone_without_country == 0,
        old(stats).zone_with_unkwown_country_rules@ == Seq::<(String, u64)>::empty(),
        old(stats).unhandled_admin_level@ == Seq::<(String, Vec<(u32, u64)>)>::empty(),
        old(zones)@.len() < u64::MAX,
    ensures
        r is Err <==> country_code is None && finder_entries(
            old(zones)@,
            typer.countries_rules@,
        ).len() == 0,
        r is Err ==> final(zones)@ == old(zones)@,
        r is Ok ==> forall|k: int|
            0 <= k < final(zones)@.len() ==> (#[trigger] final(zones)@[k]).zone_type is Some
                && final(zones)@[k].bbox_matches_boundary(),
{
    let ghost zs0 = zones@;
    let (inclusions, ztree) = find_inclusions(zones);
    match type_zones(zones, stats, typer, country_code, &inclusions) {
        Ok(_) => {},
        Err(e) => {
            return Err(e);
        },
    }
    proof {
        assert(zones_indexed(zones@));
        assert(zones_bbox_wf(zones@));
        assert(crate::ztree::zones_bbox_ok(zones@)) by {
            assert forall|k: int| 0 <= k < zones@.len() implies (
            #[trigger] zones@[k]).bbox_matches_boundary() by {
                assert(zones@[k].boundary == zs0[k].boundary && zones@[k].bbox == zs0[k].bbox);
            }
        }
    }
    build_hierarchy(zones, inclusions);
    let ghost zs_typed = zones@;
    proof {
        assert(zones_indexed(zones@));
        assert(zones_bbox_wf(zones@));
        assert(crate::ztree::zones_bbox_ok(zones@)) by {
            assert forall|k: int| 0 <= k < zones@.len() implies (
            #[trigger] zones@[k]).bbox_matches_boundary() by {
                assert(zones@[k].boundary == zs0[k].boundary && zones@[k].bbox == zs0[k].bbox);
            }
        }
        assert forall|i: usize| #[trigger] ztree.entries().contains_key(i) implies i
            < zones@.len() by {
            crate::ztree::lemma_bbox_map_keys(zs0, i);
        }
    }
    let tasks = if !disable_voronoi {
        compute_additional_places(zones, objs, &ztree)
    } else {
        Vec::new()
    };
    let leftover = partition_groups(zones, &ztree, tasks);
    let ghost zs_built = zones@;
    compute_names_all(zones);
    proof {
        assert(hierarchy_wf(zones@));
        assert(crate::ztree::zones_bbox_ok(zones@)) by {
            assert forall|k: int| 0 <= k < zones@.len() implies (
            #[trigger] zones@[k]).bbox_matches_boundary() by {
                assert(zones@[k].boundary == zs_built[k].boundary && zones@[k].bbox
                    == zs_built[k].bbox);
            }
        }
    }
    let ghost zs_named = zones@;
    compute_labels(zones, filter_langs);
    proof {
        assert(crate::ztree::zones_bbox_ok(zones@)) by {
            assert forall|k: int| 0 <= k < zones@.len() implies (
            #[trigger] zones@[k]).bbox_matches_boundary() by {
                assert(zones@[k].boundary == zs_named[k].boundary && zones@[k].bbox
                    == zs_named[k].bbox);
            }
        }
    }
    let ghost zs_labeled = zones@;
    clean_untagged_zones(zones);
    proof {
        lemma_typed_only_elements(zs_labeled);
        assert forall|k: int| 0 <= k < zones@.len() implies (
        #[trigger] zones@[k]).bbox_matches_boundary() by {
            let j = choose|j: int| 0 <= j < zs_labeled.len() && zones@[k] == zs_labeled[j];
            assert(zs_labeled[j].bbox_matches_boundary());
        }
    }
    Ok(leftover)
}

/// Put the run together: the census over the final zones and the metadata
/// around them.
pub fn assemble_cosmogony(zones: Vec<Zone>, osm_filename: String, stats: CosmogonyStats) -> (r:
    Cosmogony)
    requires
        stats.level_counts@ == Seq::<(u32, u64)>::empty(),
        stats.zone_type_counts@ == Seq::<(String, u64)>::empty(),
        stats.wikidata_counts@ == Seq::<(u32, u64)>::empty(),
        zones@.len() < u64::MAX,
    ensures
        r.zones@ == zones@,
        r.meta.osm_filename@ == osm_filename@,
        forall|l: u32|
            crate::cosmogony::level_count_or_zero(r.meta.stats.level_counts@, l)
                == crate::cosmogony::count_by_level(zones@, l),
        forall|name: Seq<char>|
            crate::cosmogony::name_count_or_zero(
                crate::cosmogony::name_counts_view(r.meta.stats.zone_type_counts@),
                name,
            ) == crate::cosmogony::count_by_type(zones@, name),
        forall|l: u32|
            crate::cosmogony::level_count_or_zero(r.meta.stats.wikidata_counts@, l)
                == crate::cosmogony::count_wikidata(zones@, l),
{
    let mut stats = stats;
    stats.compute(&zones);
    Cosmogony { zones, meta: CosmogonyMetadata { osm_filename, stats } }
}


/// The languages the label filter names: the comma-separated pieces of
/// every given value, flattened in order.
pub open spec fn filter_langs_spec(vals: Seq<Seq<char>>) -> Seq<Seq<char>>
    decreases vals.len(),
{
    if vals.len() == 0 {
        Seq::empty()
    } else {
        filter_langs_spec(vals.drop_last()) + crate::strings::split_pieces(
            vals.last(),
            ',',
            Seq::empty(),
        )
    }
}

/// Flatten the raw language filter values: each may name several
/// languages separated by commas.
pub fn filter_langs(raw: &Vec<String>) -> (r: Vec<String>)
    ensures
        views_of(r@) == filter_langs_spec(views_of(raw@)),
{
    let n = raw.len();
    let mut out: Vec<String> = Vec::new();
    let mut i: usize = 0;
    proof {
        assert(views_of(out@) =~= filter_langs_spec(views_of(raw@).take(0)));
    }
    while i < n
        invariant
            i <= n,
            n == raw@.len(),
            views_of(out@) == filter_langs_spec(views_of(raw@).take(i as int)),
        decreases n - i,
    {
        proof {
            assert(views_of(raw@).take(i + 1).drop_last() =~= views_of(raw@).take(i as int));
            assert(views_of(raw@).take(i + 1).last() == views_of(raw@)[i as int]);
        }
        let mut pieces = crate::strings::split_nonempty(raw[i].as_str(), ',');
        let ghost prev = views_of(out@);
        let ghost added = views_of(pieces@);
        let m = pieces.len();
        let mut k: usize = 0;
        while k < m
            invariant
                k <= m,
                m == added.len(),
                pieces@.len() + k == m,
                forall|q: int| 0 <= q < pieces@.len() ==> (#[trigger] pieces@[q])@ == added[q + k],
                views_of(out@) == prev + added.take(k as int),
            decreases m - k,
        {
            proof {
                assert(added.take(k + 1).drop_last() =~= added.take(k as int));
            }
            let piece = pieces.remove(0);
            let ghost before = views_of(out@);
            out.push(piece);
            proof {
                assert(views_of(out@) =~= before.push(added[k as int]));
                assert(prev + added.take(k + 1) =~= (prev + added.take(k as int)).push(
                    added[k as int],
                ));
            }
            k = k + 1;
        }
        proof {
            assert(added.take(m as int) =~= added);
        }
        i = i + 1;
    }
    proof {
        assert(views_of(raw@).take(n as int) =~= views_of(raw@));
    }
    out
}

} // verus!
