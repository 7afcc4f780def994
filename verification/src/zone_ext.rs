//! Building zones out of modelled OSM objects: place nodes and
//! administrative boundary relations.

use vstd::prelude::*;
use crate::geometry::{Coord, Shape};
use crate::labels::{get_international_names, intl_names_of, merged_tags};
use crate::osm::{spec_node_by_id, spec_ref_with_role, node_by_id, ref_with_role, OsmMemberType, OsmNodeData, OsmRelationData};
use crate::postcode::{zip_codes_covering, PostcodeStore};
use crate::strings::{dec_i64, append_i64_dec, parse_u32_spec, parse_u32, sort_dedup, sorted_strict, split_pieces, split_nonempty, views_of};
use crate::tags::Tags;
use crate::zone::{Zone, ZoneIndex};

verus! {

/// The text the zip codes are read from: the `addr:postcode` tag, else
/// the `postal_code` tag, else nothing.
pub open spec fn zip_source(tags: &Tags) -> Seq<char> {
    match tags.spec_get("addr:postcode"@) {
        Some(v) => v,
        None => match tags.spec_get("postal_code"@) {
            Some(v) => v,
            None => Seq::empty(),
        },
    }
}

/// The codes named by the source text: its nonempty `;`-separated pieces.
pub open spec fn zip_values(tags: &Tags) -> Seq<Seq<char>> {
    split_pieces(zip_source(tags), ';', Seq::empty())
}

/// Read the zone's zip codes out of its tags: the postcode tag split at
/// `;`, sorted, duplicate-free.
pub fn zips_from_tags(tags: &Tags) -> (r: Vec<String>)
    ensures
        sorted_strict(views_of(r@)),
        forall|x: Seq<char>| #[trigger] views_of(r@).contains(x) == zip_values(tags).contains(x),
{
    let source: &str = match tags.get("addr:postcode") {
        Some(v) => v.as_str(),
        None => match tags.get("postal_code") {
            Some(v) => v.as_str(),
            None => "",
        },
    };
    proof {
        reveal_strlit("");
        assert(source@ == zip_source(tags));
    }
    let pieces = split_nonempty(source, ';');
    sort_dedup(pieces)
}

/// The usable name of an object: its `name` tag, unless that is missing
/// or empty — a zone is never built without a real name.
pub open spec fn named(tags: &Tags) -> Option<Seq<char>> {
    match tags.spec_get("name"@) {
        Some(n) => if n.len() > 0 {
            Some(n)
        } else {
            None
        },
        None => None,
    }
}

/// The admin level: the `admin_level` tag read as a number, if both work.
pub open spec fn admin_level_of(tags: &Tags) -> Option<u32> {
    match tags.spec_get("admin_level"@) {
        Some(s) => parse_u32_spec(s),
        None => None,
    }
}

/// The value of the `wikidata` tag, if any.
pub open spec fn wikidata_of(tags: &Tags) -> Option<Seq<char>> {
    tags.spec_get("wikidata"@)
}

/// The member node the relation points at under `admin_centre`, else
/// under `label`: the first member with the role, resolved among the
/// given nodes, provided it is a node at all.
pub open spec fn spec_center_node(relation: &OsmRelationData, nodes: Seq<OsmNodeData>) -> Option<
    int,
> {
    let rref = match spec_ref_with_role(relation.refs@, "admin_centre"@) {
        Some(k) => Some(k),
        None => spec_ref_with_role(relation.refs@, "label"@),
    };
    match rref {
        Some(k) => {
            if relation.refs@[k].member_type == OsmMemberType::Node {
                spec_node_by_id(nodes, relation.refs@[k].member_id as int)
            } else {
                None
            }
        },
        None => None,
    }
}

/// The member node under the `label` role, resolved the same way.
pub open spec fn spec_label_node(relation: &OsmRelationData, nodes: Seq<OsmNodeData>) -> Option<
    int,
> {
    match spec_ref_with_role(relation.refs@, "label"@) {
        Some(k) => {
            if relation.refs@[k].member_type == OsmMemberType::Node {
                spec_node_by_id(nodes, relation.refs@[k].member_id as int)
            } else {
                None
            }
        },
        None => None,
    }
}

/// Resolve a role to a member node.
fn find_role_node<'a>(relation: &OsmRelationData, nodes: &'a Vec<OsmNodeData>, role: &str) -> (r:
    Option<&'a OsmNodeData>)
    ensures
        ({
            let k = spec_ref_with_role(relation.refs@, role@);
            match r {
                Some(n) => {
                    &&& k is Some
                    &&& relation.refs@[k.unwrap()].member_type == OsmMemberType::Node
                    &&& spec_node_by_id(nodes@, relation.refs@[k.unwrap()].member_id as int)
                        is Some
                    &&& *n == nodes@[spec_node_by_id(
                        nodes@,
                        relation.refs@[k.unwrap()].member_id as int,
                    ).unwrap()]
                },
                None => match k {
                    Some(q) => relation.refs@[q].member_type != OsmMemberType::Node
                        || spec_node_by_id(nodes@, relation.refs@[q].member_id as int) is None,
                    None => true,
                },
            }
        }),
{
    match ref_with_role(&relation.refs, role) {
        Some(rf) => {
            if matches!(rf.member_type, OsmMemberType::Node) {
                node_by_id(nodes, rf.member_id)
            } else {
                None
            }
        },
        None => None,
    }
}

impl Zone {
    /// A seed zone out of a populated-place node; a node without a `name`
    /// tag gives nothing.
    pub fn from_osm_node(node: &OsmNodeData, index: ZoneIndex) -> (r: Option<Zone>)
        ensures
            r is Some <==> named(&node.tags) is Some,
            match r {
                Some(z) => {
                    &&& z.name@.len() > 0
                    &&& z.id == index
                    &&& z.osm_id@ == "node:"@ + dec_i64(node.id as int)
                    &&& z.admin_level == admin_level_of(&node.tags)
                    &&& z.zone_type is None
                    &&& Some(z.name@) == named(&node.tags)
                    &&& z.label@ == Seq::<char>::empty()
                    &&& z.international_labels@ == Seq::<(Seq<char>, Seq<char>)>::empty()
                    &&& z.international_names@ == intl_names_of(node.tags@, z.name@)
                    &&& sorted_strict(views_of(z.zip_codes@))
                    &&& (forall|x: Seq<char>|
                        #[trigger] views_of(z.zip_codes@).contains(x) == zip_values(
                            &node.tags,
                        ).contains(x))
                    &&& z.center is None
                    &&& z.boundary is None
                    &&& z.bbox is None
                    &&& z.tags@ == node.tags@
                    &&& z.center_tags@ == Seq::<(Seq<char>, Seq<char>)>::empty()
                    &&& z.parent is None
                    &&& match z.wikidata {
                        Some(w) => wikidata_of(&node.tags) == Some(w@),
                        None => wikidata_of(&node.tags) is None,
                    }
                    &&& z.is_generated
                },
                None => true,
            },
    {
        let name = match node.tags.get("name") {
            Some(v) => {
                if v.as_str().unicode_len() == 0 {
                    return None;
                }
                v.clone()
            },
            None => {
                return None;
            },
        };
        let level = match node.tags.get("admin_level") {
            Some(s) => parse_u32(s.as_str()),
            None => None,
        };
        let zip_codes = zips_from_tags(&node.tags);
        let wikidata = match node.tags.get("wikidata") {
            Some(w) => Some(w.clone()),
            None => None,
        };
        let mut osm_id = String::new();
        osm_id.append("node:");
        append_i64_dec(&mut osm_id, node.id);
        let international_names = get_international_names(&node.tags, name.as_str());
        Some(
            Zone {
                id: index,
                osm_id,
                admin_level: level,
                zone_type: None,
                name,
                label: String::new(),
                international_labels: Tags::new(),
                international_names,
                zip_codes,
                center: None,
                boundary: None,
                bbox: None,
                tags: node.tags.duplicate(),
                center_tags: Tags::new(),
                parent: None,
                wikidata,
                is_generated: true,
            },
        )
    }

    /// A zone out of an administrative relation, without geometry: the
    /// tags, enriched by the label node's names and population, the zip
    /// codes, the wikidata. A relation without a `name` tag gives nothing.
    pub fn from_osm(relation: &OsmRelationData, nodes: &Vec<OsmNodeData>, index: ZoneIndex) -> (r:
        Option<Zone>)
        ensures
            r is Some <==> named(&relation.tags) is Some,
            match r {
                Some(z) => {
                    &&& z.name@.len() > 0
                    &&& z.id == index
                    &&& z.osm_id@ == "relation:"@ + dec_i64(relation.id as int)
                    &&& z.admin_level == admin_level_of(&relation.tags)
                    &&& z.zone_type is None
                    &&& Some(z.name@) == named(&relation.tags)
                    &&& z.label@ == Seq::<char>::empty()
                    &&& z.international_labels@ == Seq::<(Seq<char>, Seq<char>)>::empty()
                    &&& z.international_names@ == Seq::<(Seq<char>, Seq<char>)>::empty()
                    &&& sorted_strict(views_of(z.zip_codes@))
                    &&& (forall|x: Seq<char>|
                        #[trigger] views_of(z.zip_codes@).contains(x) == zip_values(
                            &relation.tags,
                        ).contains(x))
                    &&& z.center is None
                    &&& z.boundary is None
                    &&& z.bbox is None
                    &&& z.tags@ == match spec_label_node(relation, nodes@) {
                        Some(ni) => merged_tags(relation.tags@, nodes@[ni].tags@, true),
                        None => relation.tags@,
                    }
                    &&& z.center_tags@ == Seq::<(Seq<char>, Seq<char>)>::empty()
                    &&& z.parent is None
                    &&& match z.wikidata {
                        Some(w) => wikidata_of(&relation.tags) == Some(w@),
                        None => wikidata_of(&relation.tags) is None,
                    }
                    &&& !z.is_generated
                },
                None => true,
            },
    {
        let name = match relation.tags.get("name") {
            Some(v) => {
                if v.as_str().unicode_len() == 0 {
                    return None;
                }
                v.clone()
            },
            None => {
                return None;
            },
        };
        let level = match relation.tags.get("admin_level") {
            Some(s) => parse_u32(s.as_str()),
            None => None,
        };
        let zip_codes = zips_from_tags(&relation.tags);
        let wikidata = match relation.tags.get("wikidata") {
            Some(w) => Some(w.clone()),
            None => None,
        };
        let mut osm_id = String::new();
        osm_id.append("relation:");
        append_i64_dec(&mut osm_id, relation.id);
        let mut tags = relation.tags.duplicate();
        match find_role_node(relation, nodes, "label") {
            Some(label_node) => {
                crate::labels::merge_name_tags(&mut tags, &label_node.tags, true);
            },
            None => {},
        }
        Some(
            Zone {
                id: index,
                osm_id,
                admin_level: level,
                zone_type: None,
                name,
                label: String::new(),
                international_labels: Tags::new(),
                international_names: Tags::new(),
                zip_codes,
                center: None,
                boundary: None,
                bbox: None,
                tags,
                center_tags: Tags::new(),
                parent: None,
                wikidata,
                is_generated: false,
            },
        )
    }

    /// A zone out of an administrative relation and its reconstructed
    /// boundary: the fields of [`Zone::from_osm`], plus the boundary, its
    /// bounding box, and the center — the admin-centre (or label) node's
    /// position when one exists, else the boundary's centroid when that
    /// is finite.
    pub fn from_osm_with_geom(
        relation: &OsmRelationData,
        nodes: &Vec<OsmNodeData>,
        index: ZoneIndex,
        boundary: Option<Shape>,
    ) -> (r: Option<Zone>)
        ensures
            r is Some <==> named(&relation.tags) is Some,
            match r {
                Some(z) => {
                    &&& z.name@.len() > 0
                    &&& z.id == index
                    &&& z.osm_id@ == "relation:"@ + dec_i64(relation.id as int)
                    &&& z.admin_level == admin_level_of(&relation.tags)
                    &&& z.zone_type is None
                    &&& Some(z.name@) == named(&relation.tags)
                    &&& sorted_strict(views_of(z.zip_codes@))
                    &&& (forall|x: Seq<char>|
                        #[trigger] views_of(z.zip_codes@).contains(x) == zip_values(
                            &relation.tags,
                        ).contains(x))
                    &&& z.boundary == boundary
                    &&& (boundary is None ==> z.bbox is None)
                    &&& (z.bbox is Some ==> z.bbox.unwrap().wf())
                    &&& z.bbox_matches_boundary()
                    &&& match spec_center_node(relation, nodes@) {
                        Some(ni) => {
                            &&& z.center == Some(
                                Coord {
                                    lon: nodes@[ni].decimicro_lon,
                                    lat: nodes@[ni].decimicro_lat,
                                },
                            )
                            &&& z.center_tags@ == nodes@[ni].tags@
                        },
                        None => {
                            &&& z.center == match boundary {
                                Some(b) => match crate::geometry::centroid_of(b) {
                                    Some(p) => crate::geometry::coord_of(p),
                                    None => None,
                                },
                                None => None,
                            }
                            &&& z.center_tags@ == Seq::<(Seq<char>, Seq<char>)>::empty()
                        },
                    }
                    &&& z.tags@ == match spec_label_node(relation, nodes@) {
                        Some(ni) => merged_tags(relation.tags@, nodes@[ni].tags@, true),
                        None => relation.tags@,
                    }
                    &&& z.parent is None
                    &&& !z.is_generated
                },
                None => true,
            },
    {
        let base = Zone::from_osm(relation, nodes, index);
        match base {
            Some(mut z) => {
                let bbox = match &boundary {
                    Some(b) => b.bounding_rect(),
                    None => None,
                };
                let center_node = find_role_node(relation, nodes, "admin_centre");
                let center_node = match center_node {
                    Some(n) => Some(n),
                    None => {
                        match ref_with_role(&relation.refs, "admin_centre") {
                            Some(_) => None,
                            None => find_role_node(relation, nodes, "label"),
                        }
                    },
                };
                match center_node {
                    Some(n) => {
                        z.center = Some(Coord { lon: n.decimicro_lon, lat: n.decimicro_lat });
                        z.center_tags = n.tags.duplicate();
                    },
                    None => {
                        z.center = match &boundary {
                            Some(b) => {
                                match b.centroid() {
                                    Some(p) => p.coord(),
                                    None => None,
                                }
                            },
                            None => None,
                        };
                    },
                }
                z.boundary = boundary;
                z.bbox = bbox;
                Some(z)
            },
            None => None,
        }
    }

    /// [`Zone::from_osm_with_geom`], and when the tags named no zip codes
    /// the codes of the postcode areas that cover enough of the zone.
    pub fn from_osm_relation(
        relation: &OsmRelationData,
        nodes: &Vec<OsmNodeData>,
        index: ZoneIndex,
        postcodes: &PostcodeStore,
        boundary: Option<Shape>,
    ) -> (r: Option<Zone>)
        requires
            postcodes.wf(),
        ensures
            r is Some <==> named(&relation.tags) is Some,
            match r {
                Some(z) => {
                    &&& z.name@.len() > 0
                    &&& z.id == index
                    &&& z.osm_id@ == "relation:"@ + dec_i64(relation.id as int)
                    &&& z.admin_level == admin_level_of(&relation.tags)
                    &&& z.zone_type is None
                    &&& Some(z.name@) == named(&relation.tags)
                    &&& sorted_strict(views_of(z.zip_codes@))
                    &&& z.boundary == boundary
                    &&& (boundary is None ==> z.bbox is None)
                    &&& (z.bbox is Some ==> z.bbox.unwrap().wf())
                    &&& z.bbox_matches_boundary()
                    &&& (zip_values(&relation.tags).len() > 0 ==> forall|x: Seq<char>|
                        #[trigger] views_of(z.zip_codes@).contains(x) == zip_values(
                            &relation.tags,
                        ).contains(x))
                    &&& (zip_values(&relation.tags).len() == 0 && boundary is Some && z.bbox
                        is Some ==> forall|x: Seq<char>|
                        #[trigger] views_of(z.zip_codes@).contains(x)
                            == crate::postcode::zip_served(
                            postcodes.items_view(),
                            boundary.unwrap(),
                            z.bbox.unwrap(),
                            x,
                        ))
                    &&& match spec_center_node(relation, nodes@) {
                        Some(ni) => {
                            &&& z.center == Some(
                                Coord {
                                    lon: nodes@[ni].decimicro_lon,
                                    lat: nodes@[ni].decimicro_lat,
                                },
                            )
                            &&& z.center_tags@ == nodes@[ni].tags@
                        },
                        None => {
                            &&& z.center == match boundary {
                                Some(b) => match crate::geometry::centroid_of(b) {
                                    Some(p) => crate::geometry::coord_of(p),
                                    None => None,
                                },
                                None => None,
                            }
                            &&& z.center_tags@ == Seq::<(Seq<char>, Seq<char>)>::empty()
                        },
                    }
                    &&& z.tags@ == match spec_label_node(relation, nodes@) {
                        Some(ni) => merged_tags(relation.tags@, nodes@[ni].tags@, true),
                        None => relation.tags@,
                    }
                    &&& z.parent is None
                    &&& !z.is_generated
                },
                None => true,
            },
    {
        let base = Zone::from_osm_with_geom(relation, nodes, index, boundary);
        match base {
            Some(mut z) => {
                if z.zip_codes.len() == 0 {
                    let zips = match (&z.boundary, &z.bbox) {
                        (Option::Some(b), Option::Some(r)) => zip_codes_covering(postcodes, b, r),
                        _ => Vec::new(),
                    };
                    proof {
                        // the tags named a code only if the list held one
                        if zip_values(&relation.tags).len() > 0 {
                            let x = zip_values(&relation.tags)[0];
                            assert(zip_values(&relation.tags).contains(x));
                            assert(views_of(z.zip_codes@).contains(x));
                        }
                        assert(views_of(zips@).len() == 0 ==> sorted_strict(views_of(zips@)));
                    }
                    z.zip_codes = zips;
                } else {
                    proof {
                        // a nonempty list means the tags named a code
                        let x = views_of(z.zip_codes@)[0];
                        assert(views_of(z.zip_codes@).contains(x));
                        assert(zip_values(&relation.tags).contains(x));
                    }
                }
                Some(z)
            },
            None => None,
        }
    }
}

} // verus!
