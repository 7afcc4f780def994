//! Synthesizing city zones for populated places that lack a boundary:
//! place seeds, parent selection, grouping, the single-place synthesis,
//! and the matching of engine-computed cells back to their seeds.

use vstd::prelude::*;
use crate::geometry::{difference_of, rect_of, Coord, GeoPoint, RectI, Shape};
use crate::osm::{is_place, OsmNodeData, OsmObjData};
use crate::zone::{Zone, ZoneIndex, ZoneType};
use crate::ztree::ZonesTree;

verus! {

/// A place seed: a generated city with a position, a degenerate box, and
/// a nonempty name.
pub open spec fn is_place_seed(z: Zone) -> bool {
    &&& z.is_generated
    &&& z.zone_type == Some(ZoneType::City)
    &&& z.name@.len() > 0
    &&& z.center is Some
    &&& z.bbox == Some(RectI::spec_around(z.center.unwrap()))
    &&& z.boundary is None
}

/// A populated-place node carrying a usable name: the objects a seed is
/// owed for.
pub open spec fn makes_a_seed(obj: OsmObjData) -> bool {
    match obj {
        OsmObjData::Node(node) => crate::osm::spec_is_place(&obj) && crate::zone_ext::named(
            &node.tags,
        ) is Some,
        _ => false,
    }
}

/// How many of the first `upto` objects make a seed.
pub open spec fn seed_count(objs: Seq<OsmObjData>, upto: int) -> nat
    decreases upto,
{
    if upto <= 0 {
        0
    } else {
        seed_count(objs, upto - 1) + if makes_a_seed(objs[upto - 1]) {
            1nat
        } else {
            0nat
        }
    }
}

/// More objects never mean fewer seeds; an accepted node is counted by
/// every longer prefix.
proof fn lemma_seed_count_monotone(objs: Seq<OsmObjData>, a: int, b: int)
    requires
        0 <= a <= b,
    ensures
        seed_count(objs, a) <= seed_count(objs, b),
        a < b && makes_a_seed(objs[a]) ==> seed_count(objs, a) + 1 <= seed_count(objs, b),
    decreases b,
{
    if a < b {
        lemma_seed_count_monotone(objs, a, b - 1);
    }
}

/// The seed a place node yields: its name, its position as center, the
/// degenerate box around it, a generated city.
pub open spec fn seed_matches_node(z: Zone, node: OsmNodeData) -> bool {
    &&& Some(z.name@) == crate::zone_ext::named(&node.tags)
    &&& z.center == Some(Coord { lon: node.decimicro_lon, lat: node.decimicro_lat })
    &&& z.bbox == Some(
        RectI::spec_around(Coord { lon: node.decimicro_lon, lat: node.decimicro_lat }),
    )
    &&& z.osm_id@ == "node:"@ + crate::strings::dec_i64(node.id as int)
    &&& z.tags@ == node.tags@
    &&& z.international_names@ == crate::labels::intl_names_of(node.tags@, z.name@)
    &&& z.zone_type == Some(ZoneType::City)
    &&& z.is_generated
    &&& z.boundary is None
    &&& z.parent is None
}

/// The seed zones of the populated places among the objects: exactly one
/// per place node carrying a nonempty name, in reading order, each built
/// from its own node. Places with empty names are dropped before
/// anything else sees them.
pub fn read_places(objs: &Vec<OsmObjData>) -> (r: Vec<Zone>)
    ensures
        forall|k: int| 0 <= k < r@.len() ==> is_place_seed(#[trigger] r@[k]),
        r@.len() == seed_count(objs@, objs@.len() as int),
        forall|j: int|
            0 <= j < objs@.len() && makes_a_seed(#[trigger] objs@[j]) ==> match objs@[j] {
                OsmObjData::Node(node) => seed_matches_node(
                    r@[seed_count(objs@, j) as int],
                    node,
                ),
                _ => true,
            },
{
    let n = objs.len();
    let mut out: Vec<Zone> = Vec::new();
    let mut i: usize = 0;
    while i < n
        invariant
            i <= n,
            n == objs@.len(),
            forall|k: int| 0 <= k < out@.len() ==> is_place_seed(#[trigger] out@[k]),
            out@.len() == seed_count(objs@, i as int),
            forall|j: int|
                0 <= j < i && makes_a_seed(#[trigger] objs@[j]) ==> match objs@[j] {
                    OsmObjData::Node(node) => seed_matches_node(
                        out@[seed_count(objs@, j) as int],
                        node,
                    ),
                    _ => true,
                },
        decreases n - i,
    {
        let ghost out_before = out@;
        if is_place(&objs[i]) {
            match &objs[i] {
                OsmObjData::Node(node) => {
                    match Zone::from_osm_node(node, ZoneIndex { index: i }) {
                        Some(mut zone) => {
                            if zone.name.as_str().unicode_len() > 0 {
                                let c = crate::geometry::Coord {
                                    lon: node.decimicro_lon,
                                    lat: node.decimicro_lat,
                                };
                                zone.center = Some(c);
                                zone.bbox = Some(RectI::around(c));
                                zone.zone_type = Some(ZoneType::City);
                                out.push(zone);
                            }
                        },
                        None => {},
                    }
                },
                _ => {},
            }
        }
        proof {
            assert(seed_count(objs@, i + 1) == seed_count(objs@, i as int) + (if makes_a_seed(
                objs@[i as int],
            ) {
                1nat
            } else {
                0nat
            }));
            assert forall|j: int|
                0 <= j < i + 1 && makes_a_seed(#[trigger] objs@[j]) implies match objs@[j] {
                OsmObjData::Node(node) => seed_matches_node(out@[seed_count(objs@, j) as int], node),
                _ => true,
            } by {
                if j < i {
                    lemma_seed_count_monotone(objs@, j, i as int);
                    assert(out@[seed_count(objs@, j) as int] == out_before[seed_count(
                        objs@,
                        j,
                    ) as int]);
                } else {
                    assert(seed_count(objs@, j) == out_before.len());
                }
            }
        }
        i = i + 1;
    }
    out
}

/// The rank a zone must at least have to clip a place's cell.
pub open spec fn city_rank() -> u32 {
    ZoneType::City.spec_rank()
}

/// A zone that may carry a place's cell: administrative, at least a city.
pub open spec fn can_host_place(z: Zone) -> bool {
    z.spec_is_admin() && z.zone_type.unwrap().spec_rank() >= city_rank()
}

/// Zone `j` may carry the place's cell: its box is indexed and meets the
/// place's box, it is administrative and no finer than a city, and its
/// boundary holds the place's point.
pub open spec fn hosts_place(
    zs: Seq<Zone>,
    entries: Map<usize, RectI>,
    place: Zone,
    j: usize,
) -> bool {
    &&& entries.contains_key(j)
    &&& match place.bbox {
        Some(b) => entries[j].spec_intersects(b),
        None => false,
    }
    &&& j < zs.len()
    &&& can_host_place(zs[j as int])
    &&& zs[j as int].spec_contains_center(&place)
}

/// The parent region a place's cell is cut out of: a host of minimal
/// kind, or nothing exactly when no zone hosts the place.
pub fn get_parent(place: &Zone, zones: &Vec<Zone>, zones_rtree: &ZonesTree) -> (r: Option<usize>)
    requires
        match place.bbox {
            Some(b) => b.wf(),
            None => true,
        },
        forall|i: usize|
            #[trigger] zones_rtree.entries().contains_key(i) ==> i < zones@.len(),
    ensures
        match r {
            Some(p) => {
                &&& hosts_place(zones@, zones_rtree.entries(), *place, p)
                &&& forall|q: usize|
                    hosts_place(zones@, zones_rtree.entries(), *place, q)
                        ==> zones@[p as int].zone_type.unwrap().spec_rank() <= (
                    #[trigger] zones@[q as int]).zone_type.unwrap().spec_rank()
            },
            None => forall|q: usize| !hosts_place(zones@, zones_rtree.entries(), *place, q),
        },
{
    let hits = zones_rtree.fetch_zone_bbox(place);
    let n = hits.len();
    // the ranks are a handful of small numbers, so the stable
    // sort-by-kind is a scan per rank, finest first
    let mut rank: u32 = 2;
    while rank <= 7
        invariant
            2 <= rank,
            n == hits@.len(),
            match place.bbox {
                Some(b) => crate::ztree::locate_post(zones_rtree.entries(), b, hits@),
                None => hits@ == Seq::<usize>::empty(),
            },
            forall|i: usize|
                #[trigger] zones_rtree.entries().contains_key(i) ==> i < zones@.len(),
            forall|q: usize|
                #[trigger] hosts_place(zones@, zones_rtree.entries(), *place, q)
                    ==> zones@[q as int].zone_type.unwrap().spec_rank() >= rank,
        decreases 8 - rank,
    {
        let mut k: usize = 0;
        while k < n
            invariant
                k <= n,
                n == hits@.len(),
                2 <= rank <= 7,
                match place.bbox {
                    Some(b) => crate::ztree::locate_post(zones_rtree.entries(), b, hits@),
                    None => hits@ == Seq::<usize>::empty(),
                },
                forall|i: usize|
                    #[trigger] zones_rtree.entries().contains_key(i) ==> i < zones@.len(),
                forall|q: usize|
                    #[trigger] hosts_place(zones@, zones_rtree.entries(), *place, q)
                        ==> zones@[q as int].zone_type.unwrap().spec_rank() >= rank,
                forall|h: int|
                    0 <= h < k ==> !(hosts_place(
                        zones@,
                        zones_rtree.entries(),
                        *place,
                        #[trigger] hits@[h],
                    ) && zones@[hits@[h] as int].zone_type.unwrap().spec_rank() == rank),
            decreases n - k,
        {
            let j = hits[k];
            proof {
                assert(hits@.contains(hits@[k as int]));
            }
            let host = match zones[j].admin_type() {
                Some(t) => t.rank() >= 2 && t.rank() == rank,
                None => false,
            };
            if host {
                if zones[j].contains_center(place) {
                    return Some(j);
                }
            }
            k = k + 1;
        }
        proof {
            // no host of this kind exists: any one would be an indexed
            // hit, and the scan covered them all
            assert forall|q: usize|
                #[trigger] hosts_place(zones@, zones_rtree.entries(), *place, q) implies zones@[q as int].zone_type.unwrap().spec_rank()
                >= rank + 1 by {
                if zones@[q as int].zone_type.unwrap().spec_rank() == rank {
                    assert(hits@.contains(q));
                    let h = choose|h: int| 0 <= h < hits@.len() && hits@[h] == q;
                }
            }
        }
        rank = rank + 1;
    }
    proof {
        assert forall|q: usize| !hosts_place(zones@, zones_rtree.entries(), *place, q) by {
            if hosts_place(zones@, zones_rtree.entries(), *place, q) {
                assert(zones@[q as int].zone_type.unwrap().spec_rank() <= 7);
            }
        }
    }
    None
}

/// Zone `j` must leave the synthesized city: its box is indexed and meets
/// the city's box, it is administrative and either no coarser than a city
/// or already hanging under the same parent, and its boundary meets the
/// city's.
pub open spec fn must_subtract(
    zs: Seq<Zone>,
    entries: Map<usize, RectI>,
    zone: Zone,
    parent_id: usize,
    j: usize,
) -> bool {
    &&& entries.contains_key(j)
    &&& match zone.bbox {
        Some(b) => entries[j].spec_intersects(b),
        None => false,
    }
    &&& j < zs.len()
    &&& zs[j as int].spec_is_admin()
    &&& (zs[j as int].zone_type.unwrap().spec_rank() <= city_rank() || zs[j as int].parent == Some(
        ZoneIndex { index: parent_id },
    ))
    &&& zone.spec_intersects(&zs[j as int])
}

/// The zones whose area must leave a synthesized city: exactly those that
/// [`must_subtract`] names, each once.
pub fn get_places_to_subtract(
    zone: &Zone,
    parent_id: usize,
    zones: &Vec<Zone>,
    zones_rtree: &ZonesTree,
) -> (r: Vec<usize>)
    requires
        match zone.bbox {
            Some(b) => b.wf(),
            None => true,
        },
        forall|i: usize|
            #[trigger] zones_rtree.entries().contains_key(i) ==> i < zones@.len(),
    ensures
        forall|j: usize|
            #[trigger] r@.contains(j) <==> must_subtract(
                zones@,
                zones_rtree.entries(),
                *zone,
                parent_id,
                j,
            ),
        forall|a: int, b: int| 0 <= a < b < r@.len() ==> r@[a] != r@[b],
        forall|k: int|
            0 <= k < r@.len() ==> {
                let j = #[trigger] r@[k] as int;
                &&& r@[k] < zones@.len()
                &&& zones@[j].spec_is_admin()
                &&& (zones@[j].zone_type.unwrap().spec_rank() <= city_rank() || zones@[j].parent
                    == Some(ZoneIndex { index: parent_id }))
            },
{
    let hits = zones_rtree.fetch_zone_bbox(zone);
    let n = hits.len();
    let mut out: Vec<usize> = Vec::new();
    let mut k: usize = 0;
    proof {
        assert(hits@.take(0) =~= Seq::<usize>::empty());
    }
    while k < n
        invariant
            k <= n,
            n == hits@.len(),
            match zone.bbox {
                Some(b) => crate::ztree::locate_post(zones_rtree.entries(), b, hits@),
                None => hits@ == Seq::<usize>::empty(),
            },
            forall|i: usize|
                #[trigger] zones_rtree.entries().contains_key(i) ==> i < zones@.len(),
            forall|a: int, b: int| 0 <= a < b < hits@.len() ==> hits@[a] != hits@[b],
            forall|q: int|
                0 <= q < out@.len() ==> exists|h: int|
                    0 <= h < k && hits@[h] == #[trigger] out@[q],
            forall|j: usize|
                #[trigger] out@.contains(j) <==> (hits@.take(k as int).contains(j)
                    && must_subtract(zones@, zones_rtree.entries(), *zone, parent_id, j)),
            forall|q: int|
                0 <= q < out@.len() ==> {
                    let j = #[trigger] out@[q] as int;
                    &&& out@[q] < zones@.len()
                    &&& zones@[j].spec_is_admin()
                    &&& (zones@[j].zone_type.unwrap().spec_rank() <= city_rank()
                        || zones@[j].parent == Some(ZoneIndex { index: parent_id }))
                },
            forall|a: int, b: int| 0 <= a < b < out@.len() ==> out@[a] != out@[b],
        decreases n - k,
    {
        let ghost prev = out@;
        proof {
            assert(hits@.take(k + 1).drop_last() =~= hits@.take(k as int));
            assert(hits@.take(k + 1).last() == hits@[k as int]);
        }
        let j = hits[k];
        proof {
            assert(hits@.contains(hits@[k as int]));
        }
        let keep = match zones[j].admin_type() {
            Some(t) => {
                let fine_enough = t.rank() <= 2;
                let same_parent = match zones[j].parent {
                    Some(p) => p.index == parent_id,
                    None => false,
                };
                fine_enough || same_parent
            },
            None => false,
        };
        let mut pushed = false;
        if keep {
            if zone.intersects(&zones[j]) {
                proof {
                    assert forall|q: int| 0 <= q < prev.len() implies (#[trigger] prev[q]) != j by {
                        let h = choose|h: int| 0 <= h < k && hits@[h] == prev[q];
                        assert(hits@[h] != hits@[k as int]);
                    }
                }
                out.push(j);
                pushed = true;
            }
        }
        proof {
            assert forall|x: usize|
                #[trigger] out@.contains(x) <==> (hits@.take(k + 1).contains(x) && must_subtract(
                    zones@,
                    zones_rtree.entries(),
                    *zone,
                    parent_id,
                    x,
                )) by {
                if out@.contains(x) {
                    let q = choose|q: int| 0 <= q < out@.len() && out@[q] == x;
                    if q < prev.len() {
                        assert(prev.contains(x)) by {
                            assert(prev[q] == x);
                        }
                        let h = choose|h: int| 0 <= h < k && #[trigger] hits@.take(k as int)[h] == x;
                        assert(hits@.take(k + 1).contains(x)) by {
                            assert(hits@.take(k + 1)[h] == x);
                        }
                    } else {
                        assert(out@[q] == j);
                        assert(pushed);
                        assert(hits@.take(k + 1).contains(x)) by {
                            assert(hits@.take(k + 1)[k as int] == x);
                        }
                        assert(must_subtract(zones@, zones_rtree.entries(), *zone, parent_id, x));
                    }
                }
                if hits@.take(k + 1).contains(x) && must_subtract(
                    zones@,
                    zones_rtree.entries(),
                    *zone,
                    parent_id,
                    x,
                ) {
                    let h = choose|h: int| 0 <= h < k + 1 && #[trigger] hits@.take(k + 1)[h] == x;
                    if h < k {
                        assert(hits@.take(k as int).contains(x)) by {
                            assert(hits@.take(k as int)[h] == x);
                        }
                        assert(prev.contains(x));
                        let q = choose|q: int| 0 <= q < prev.len() && prev[q] == x;
                        assert(out@.contains(x)) by {
                            assert(out@[q] == x);
                        }
                    } else {
                        assert(x == j);
                        assert(pushed);
                        assert(out@.contains(x)) by {
                            assert(out@.last() == x);
                        }
                    }
                }
            }
        }
        k = k + 1;
    }
    proof {
        assert(hits@.take(n as int) =~= hits@);
        assert forall|j: usize|
            #[trigger] out@.contains(j) <==> must_subtract(
                zones@,
                zones_rtree.entries(),
                *zone,
                parent_id,
                j,
            ) by {
            if must_subtract(zones@, zones_rtree.entries(), *zone, parent_id, j) {
                assert(hits@.contains(j));
            }
        }
    }
    out
}

/// What is left of `b` after carving out, in order, the boundary of every
/// listed zone that has one.
pub open spec fn carved(b: Shape, zs: Seq<Zone>, idxs: Seq<usize>) -> Shape
    decreases idxs.len(),
{
    if idxs.len() == 0 {
        b
    } else {
        let prior = carved(b, zs, idxs.drop_last());
        match zs[idxs.last() as int].boundary {
            Some(o) => difference_of(prior, o),
            None => prior,
        }
    }
}

/// Some listed zone has a boundary to carve out.
pub open spec fn any_to_carve(zs: Seq<Zone>, idxs: Seq<usize>) -> bool {
    exists|k: int| 0 <= k < idxs.len() && zs[#[trigger] idxs[k] as int].boundary is Some
}

/// Carve every listed zone's boundary out of this zone's boundary, in
/// order, and renew the bounding box. With nothing to carve — an empty
/// list, a zone without a boundary, or no listed zone with one — the zone
/// is left exactly as it was; only the boundary and its box ever move.
pub fn subtract_existing_zones(zone: &mut Zone, zones: &Vec<Zone>, to_subtract: &Vec<usize>)
    requires
        forall|k: int| 0 <= k < to_subtract@.len() ==> (#[trigger] to_subtract@[k]) < zones@.len(),
    ensures
        *final(zone) == (Zone { boundary: final(zone).boundary, bbox: final(zone).bbox, ..*old(
            zone,
        ) }),
        match old(zone).boundary {
            Some(b) => {
                if any_to_carve(zones@, to_subtract@) {
                    &&& final(zone).boundary == Some(carved(b, zones@, to_subtract@))
                    &&& final(zone).bbox == rect_of(carved(b, zones@, to_subtract@))
                } else {
                    *final(zone) == *old(zone)
                }
            },
            None => *final(zone) == *old(zone),
        },
        final(zone).bbox is Some ==> final(zone).bbox.unwrap().wf() || final(zone).bbox == old(
            zone,
        ).bbox,
        old(zone).bbox_matches_boundary() ==> final(zone).bbox_matches_boundary(),
{
    let boundary = match &zone.boundary {
        Some(b) => b.duplicate(),
        None => {
            return ;
        },
    };
    let ghost b0 = zone.boundary.unwrap();
    let mut g = boundary;
    let mut updates: usize = 0;
    let n = to_subtract.len();
    let mut k: usize = 0;
    proof {
        assert(to_subtract@.take(0) =~= Seq::<usize>::empty());
    }
    while k < n
        invariant
            k <= n,
            n == to_subtract@.len(),
            forall|q: int| 0 <= q < n ==> (#[trigger] to_subtract@[q]) < zones@.len(),
            g == carved(b0, zones@, to_subtract@.take(k as int)),
            (updates > 0) == any_to_carve(zones@, to_subtract@.take(k as int)),
            updates <= k,
        decreases n - k,
    {
        let ghost prefix = to_subtract@.take(k as int);
        proof {
            assert(to_subtract@.take(k + 1).drop_last() =~= prefix);
            assert(to_subtract@.take(k + 1).last() == to_subtract@[k as int]);
        }
        match &zones[to_subtract[k]].boundary {
            Some(other) => {
                g = g.difference(other);
                if updates < usize::MAX {
                    updates = updates + 1;
                }
                proof {
                    assert(any_to_carve(zones@, to_subtract@.take(k + 1))) by {
                        assert(zones@[to_subtract@.take(k + 1)[k as int] as int].boundary is Some);
                    }
                }
            },
            None => {
                proof {
                    if any_to_carve(zones@, to_subtract@.take(k + 1)) {
                        let q = choose|q: int|
                            0 <= q < to_subtract@.take(k + 1).len() && zones@[#[trigger] to_subtract@.take(
                                k + 1,
                            )[q] as int].boundary is Some;
                        assert(q < k);
                        assert(zones@[prefix[q] as int].boundary is Some);
                    }
                }
            },
        }
        k = k + 1;
    }
    proof {
        assert(to_subtract@.take(n as int) =~= to_subtract@);
    }
    if updates > 0 {
        zone.bbox = g.bounding_rect();
        zone.boundary = Some(g);
    }
}

/// The partition sites of a group: its places' centers, in order.
pub open spec fn sites_of(places: Seq<Zone>) -> Seq<Coord>
    decreases places.len(),
{
    if places.len() == 0 {
        Seq::empty()
    } else {
        let rest = sites_of(places.drop_last());
        match places.last().center {
            Some(c) => rest.push(c),
            None => rest,
        }
    }
}

/// A multi-place group whose cells only the geometry engine can supply:
/// the parent region and the seeds inside it.
#[derive(Debug)]
pub struct VoronoiTask {
    pub parent: usize,
    pub places: Vec<Zone>,
}

/// A parent a place may be grouped under: strictly coarser than a city
/// and strictly finer than a country.
pub open spec fn good_voronoi_parent(z: Zone) -> bool {
    &&& z.spec_is_admin()
    &&& z.zone_type.unwrap().spec_rank() > ZoneType::City.spec_rank()
    &&& z.zone_type.unwrap().spec_rank() < ZoneType::Country.spec_rank()
}

/// Give a synthesized city its parent's geometry, cut the already covered
/// areas out, link it to the parent, and append it under a fresh dense
/// index. The well-formed hierarchy stays well-formed: the new zone is a
/// city under a strictly coarser administrative parent.
fn publish_single_place(zones: &mut Vec<Zone>, ztree: &ZonesTree, parent_idx: usize, place: Zone)
    requires
        crate::ztree::zones_bbox_wf(old(zones)@),
        crate::ztree::zones_bbox_ok(old(zones)@),
        parent_idx < old(zones)@.len(),
        good_voronoi_parent(old(zones)@[parent_idx as int]),
        place.zone_type == Some(ZoneType::City),
        place.is_generated,
        crate::hierarchy_builder::hierarchy_wf(old(zones)@),
        crate::hierarchy_builder::zones_indexed(old(zones)@),
        old(zones)@.len() < usize::MAX,
        forall|i: usize| #[trigger] ztree.entries().contains_key(i) ==> i < old(zones)@.len(),
    ensures
        final(zones)@.len() == old(zones)@.len() + 1,
        forall|k: int| 0 <= k < old(zones)@.len() ==> final(zones)@[k] == old(zones)@[k],
        ({
            let z = final(zones)@.last();
            &&& z.zone_type == Some(ZoneType::City)
            &&& z.is_generated
            &&& z.parent == Some(old(zones)@[parent_idx as int].id)
            &&& z.id.index == old(zones)@.len()
        }),
        crate::hierarchy_builder::hierarchy_wf(final(zones)@),
        crate::hierarchy_builder::zones_indexed(final(zones)@),
        crate::ztree::zones_bbox_wf(final(zones)@),
        crate::ztree::zones_bbox_ok(final(zones)@),
{
    let mut place = place;
    place.boundary = match &zones[parent_idx].boundary {
        Some(b) => Some(b.duplicate()),
        None => None,
    };
    place.bbox = zones[parent_idx].bbox;
    place.parent = Some(zones[parent_idx].id);
    let to_subtract = get_places_to_subtract(&zones[parent_idx], parent_idx, zones, ztree);
    subtract_existing_zones(&mut place, zones, &to_subtract);
    place.id = ZoneIndex { index: zones.len() };
    let ghost before = zones@;
    zones.push(place);
    proof {
        assert(zones@[parent_idx as int].id.index == parent_idx);
        assert forall|k: int| 0 <= k < zones@.len() implies match (#[trigger] zones@[k]).parent {
            Some(p) => {
                &&& p.index < zones@.len()
                &&& zones@[p.index as int].spec_is_admin()
                &&& (zones@[k].spec_is_admin() ==> crate::zone::opt_type_rank(zones@[k].zone_type)
                    < crate::zone::opt_type_rank(zones@[p.index as int].zone_type))
            },
            None => true,
        } by {
            if k < before.len() {
                assert(zones@[k] == before[k]);
                match before[k].parent {
                    Some(p) => {
                        assert(zones@[p.index as int] == before[p.index as int]);
                    },
                    None => {},
                }
            }
        }
    }
}

/// Group the places by chosen parent, synthesize the single-place groups,
/// and hand the rest back as tasks for the geometry engine's cell
/// partition. Countries never clip, nor do parents no coarser than a
/// city; every appended zone is a generated city under an administrative
/// parent, and the hierarchy stays well-formed.
/// The place gets a cell: some zone hosts it, no host is as fine as a
/// city, and some host is finer than a country — the minimal host's kind
/// lies strictly between the two.
pub open spec fn place_qualifies(zs: Seq<Zone>, entries: Map<usize, RectI>, p: Zone) -> bool {
    &&& exists|j: usize|
        hosts_place(zs, entries, p, j) && (#[trigger] zs[j as int]).zone_type.unwrap().spec_rank()
            <= 5
    &&& forall|j: usize|
        hosts_place(zs, entries, p, j) ==> (#[trigger] zs[j as int]).zone_type.unwrap().spec_rank()
            >= 3
}

/// The qualifying places from position `from` on.
pub open spec fn qualified_from(
    zs: Seq<Zone>,
    entries: Map<usize, RectI>,
    places: Seq<Zone>,
    from: int,
) -> nat
    decreases places.len() - from,
{
    if from < 0 || from >= places.len() {
        0
    } else {
        qualified_from(zs, entries, places, from + 1) + if place_qualifies(
            zs,
            entries,
            places[from],
        ) {
            1nat
        } else {
            0nat
        }
    }
}

/// No more places qualify than there are.
proof fn lemma_qualified_le(zs: Seq<Zone>, entries: Map<usize, RectI>, places: Seq<Zone>, from: int)
    requires
        0 <= from <= places.len(),
    ensures
        qualified_from(zs, entries, places, from) <= places.len() - from,
    decreases places.len() - from,
{
    if from < places.len() {
        lemma_qualified_le(zs, entries, places, from + 1);
    }
}

/// How many places all the groups hold together.
pub open spec fn group_sizes(gs: Seq<(usize, Vec<Zone>)>) -> nat
    decreases gs.len(),
{
    if gs.len() == 0 {
        0
    } else {
        group_sizes(gs.drop_last()) + gs.last().1@.len()
    }
}

/// Growing one group by one place grows the total by one.
proof fn lemma_group_sizes_update(gs1: Seq<(usize, Vec<Zone>)>, gs2: Seq<(usize, Vec<Zone>)>, i: int)
    requires
        0 <= i < gs1.len(),
        gs2.len() == gs1.len(),
        forall|g: int| 0 <= g < gs1.len() && g != i ==> gs2[g] == gs1[g],
        gs2[i].1@.len() == gs1[i].1@.len() + 1,
    ensures
        group_sizes(gs2) == group_sizes(gs1) + 1,
    decreases gs1.len(),
{
    if i == gs1.len() - 1 {
        assert(gs1.drop_last() =~= gs2.drop_last());
    } else {
        assert forall|g: int| 0 <= g < gs1.drop_last().len() && g != i implies gs2.drop_last()[g]
            == gs1.drop_last()[g] by {
            assert(gs2[g] == gs1[g]);
        }
        lemma_group_sizes_update(gs1.drop_last(), gs2.drop_last(), i);
    }
}

/// How many places all the tasks hold together.
pub open spec fn task_places_total(ts: Seq<VoronoiTask>) -> nat
    decreases ts.len(),
{
    if ts.len() == 0 {
        0
    } else {
        task_places_total(ts.drop_last()) + ts.last().places@.len()
    }
}

/// Every place node's seeds and their accounting, as one statement: the
/// seeds are exactly the named place nodes' (in order, each matching its
/// node), and the appended cities plus the tasks' places add up to the
/// qualifying seeds.
pub open spec fn seeds_accounted(
    objs: Seq<OsmObjData>,
    zs: Seq<Zone>,
    entries: Map<usize, RectI>,
    final_len: nat,
    tasks: Seq<VoronoiTask>,
    seeds: Seq<Zone>,
) -> bool {
    &&& seeds.len() == seed_count(objs, objs.len() as int)
    &&& forall|j: int|
        0 <= j < objs.len() && makes_a_seed(#[trigger] objs[j]) ==> match objs[j] {
            OsmObjData::Node(node) => seed_matches_node(seeds[seed_count(objs, j) as int], node),
            _ => true,
        }
    &&& (zs.len() + seeds.len() < usize::MAX ==> final_len + task_places_total(tasks) == zs.len()
        + qualified_from(zs, entries, seeds, 0))
}

pub fn compute_additional_places(
    zones: &mut Vec<Zone>,
    objs: &Vec<OsmObjData>,
    zones_rtree: &ZonesTree,
) -> (tasks: Vec<VoronoiTask>)
    requires
        crate::ztree::zones_bbox_wf(old(zones)@),
        crate::ztree::zones_bbox_ok(old(zones)@),
        crate::hierarchy_builder::hierarchy_wf(old(zones)@),
        crate::hierarchy_builder::zones_indexed(old(zones)@),
        forall|i: usize| #[trigger] zones_rtree.entries().contains_key(i) ==> i < old(zones)@.len(),
    ensures
        exists|seeds: Seq<Zone>|
            #[trigger] seeds_accounted(
                objs@,
                old(zones)@,
                zones_rtree.entries(),
                final(zones)@.len(),
                tasks@,
                seeds,
            ),
        crate::ztree::zones_bbox_wf(final(zones)@),
        crate::ztree::zones_bbox_ok(final(zones)@),
        final(zones)@.len() >= old(zones)@.len(),
        forall|k: int| 0 <= k < old(zones)@.len() ==> final(zones)@[k] == old(zones)@[k],
        forall|k: int|
            old(zones)@.len() <= k < final(zones)@.len() ==> {
                let z = #[trigger] final(zones)@[k];
                &&& z.zone_type == Some(ZoneType::City)
                &&& z.is_generated
                &&& z.parent is Some
                &&& good_voronoi_parent(final(zones)@[z.parent.unwrap().index as int])
            },
        crate::hierarchy_builder::hierarchy_wf(final(zones)@),
        crate::hierarchy_builder::zones_indexed(final(zones)@),
        forall|t: int|
            0 <= t < tasks@.len() ==> {
                let task = #[trigger] tasks@[t];
                &&& task.parent < old(zones)@.len()
                &&& good_voronoi_parent(final(zones)@[task.parent as int])
                &&& task.places@.len() >= 2
                &&& forall|q: int|
                    0 <= q < task.places@.len() ==> (#[trigger] task.places@[q]).zone_type == Some(
                        ZoneType::City,
                    ) && task.places@[q].is_generated
            },
{
    let ghost zs0 = zones@;
    let place_zones = read_places(objs);
    let ghost seeds = place_zones@;
    let tasks = group_places(zones, place_zones, zones_rtree);
    proof {
        assert(seeds_accounted(
            objs@,
            zs0,
            zones_rtree.entries(),
            zones@.len() as nat,
            tasks@,
            seeds,
        ));
    }
    tasks
}

/// Group the place seeds by their chosen parent, synthesize the
/// single-place groups, and hand the rest back as tasks for the engine's
/// cell partition. Every qualifying seed — one with hosts, the finest
/// strictly between city and country — is accounted for: the appended
/// cities plus the tasks' places add up to exactly the qualifying seeds
/// (as long as the vector has room for them all); the others are dropped.
pub fn group_places(
    zones: &mut Vec<Zone>,
    places: Vec<Zone>,
    zones_rtree: &ZonesTree,
) -> (tasks: Vec<VoronoiTask>)
    requires
        crate::ztree::zones_bbox_wf(old(zones)@),
        crate::ztree::zones_bbox_ok(old(zones)@),
        crate::hierarchy_builder::hierarchy_wf(old(zones)@),
        crate::hierarchy_builder::zones_indexed(old(zones)@),
        forall|i: usize| #[trigger] zones_rtree.entries().contains_key(i) ==> i < old(zones)@.len(),
        forall|k: int| 0 <= k < places@.len() ==> is_place_seed(#[trigger] places@[k]),
    ensures
        crate::ztree::zones_bbox_wf(final(zones)@),
        crate::ztree::zones_bbox_ok(final(zones)@),
        final(zones)@.len() >= old(zones)@.len(),
        forall|k: int| 0 <= k < old(zones)@.len() ==> final(zones)@[k] == old(zones)@[k],
        forall|k: int|
            old(zones)@.len() <= k < final(zones)@.len() ==> {
                let z = #[trigger] final(zones)@[k];
                &&& z.zone_type == Some(ZoneType::City)
                &&& z.is_generated
                &&& z.parent is Some
                &&& good_voronoi_parent(final(zones)@[z.parent.unwrap().index as int])
            },
        crate::hierarchy_builder::hierarchy_wf(final(zones)@),
        crate::hierarchy_builder::zones_indexed(final(zones)@),
        forall|t: int|
            0 <= t < tasks@.len() ==> {
                let task = #[trigger] tasks@[t];
                &&& task.parent < old(zones)@.len()
                &&& good_voronoi_parent(final(zones)@[task.parent as int])
                &&& task.places@.len() >= 2
                &&& forall|q: int|
                    0 <= q < task.places@.len() ==> (#[trigger] task.places@[q]).zone_type == Some(
                        ZoneType::City,
                    ) && task.places@[q].is_generated
            },
        old(zones)@.len() + places@.len() < usize::MAX ==> final(zones)@.len() + task_places_total(
            tasks@,
        ) == old(zones)@.len() + qualified_from(
            old(zones)@,
            zones_rtree.entries(),
            places@,
            0,
        ),
{
    // group the places by their chosen parent
    let ghost places0 = places@;
    let ghost entries0 = zones_rtree.entries();
    let mut groups: Vec<(usize, Vec<Zone>)> = Vec::new();
    let mut places = places;
    let ghost zs0 = zones@;
    loop
        invariant
            zones@ == zs0,
            entries0 == zones_rtree.entries(),
            places@.len() <= places0.len(),
            places@ == places0.take(places@.len() as int),
            group_sizes(groups@) == qualified_from(zs0, entries0, places0, places@.len() as int),
            forall|i: usize|
                #[trigger] zones_rtree.entries().contains_key(i) ==> i < zones@.len(),
            forall|g: int|
                0 <= g < groups@.len() ==> (#[trigger] groups@[g]).0 < zones@.len()
                    && good_voronoi_parent(zones@[groups@[g].0 as int]),
            forall|g: int|
                0 <= g < groups@.len() ==> forall|q: int|
                    0 <= q < (#[trigger] groups@[g]).1@.len() ==> {
                        let p = #[trigger] groups@[g].1@[q];
                        p.zone_type == Some(ZoneType::City) && p.is_generated
                    },
            forall|k: int|
                0 <= k < places@.len() ==> is_place_seed(#[trigger] places@[k]),
        ensures
            zones@ == zs0,
            places@.len() == 0,
            group_sizes(groups@) == qualified_from(zs0, entries0, places0, 0),
            forall|g: int|
                0 <= g < groups@.len() ==> (#[trigger] groups@[g]).0 < zones@.len()
                    && good_voronoi_parent(zones@[groups@[g].0 as int]),
            forall|g: int|
                0 <= g < groups@.len() ==> forall|q: int|
                    0 <= q < (#[trigger] groups@[g]).1@.len() ==> {
                        let p = #[trigger] groups@[g].1@[q];
                        p.zone_type == Some(ZoneType::City) && p.is_generated
                    },
        decreases places@.len(),
    {
        let ghost len_before = places@.len() as int;
        let place = match places.pop() {
            Some(p) => p,
            None => {
                break ;
            },
        };
        proof {
            assert(places0.take(len_before).drop_last() =~= places0.take(len_before - 1));
            assert(places@ =~= places0.take(len_before - 1));
            assert(place == places0.take(len_before).last());
            assert(place == places0[len_before - 1]);
            assert(qualified_from(zs0, entries0, places0, len_before - 1) == qualified_from(
                zs0,
                entries0,
                places0,
                len_before,
            ) + (if place_qualifies(zs0, entries0, place) {
                1nat
            } else {
                0nat
            }));
        }
        let ghost groups_before = groups@;
        let parent = get_parent(&place, zones, zones_rtree);
        match parent {
            Some(p) => {
                // countries are too coarse a clip, cities and finer make
                // no sense as one
                let ok = {
                    let rank = match zones[p].admin_type() {
                        Some(t) => t.rank(),
                        None => 0,
                    };
                    rank > 2 && rank < 6
                };
                proof {
                    // the window test on the minimal host decides the
                    // qualification
                    assert(hosts_place(zs0, entries0, place, p));
                    if ok {
                        assert(zs0[p as int].spec_is_admin());
                        assert(zs0[p as int].zone_type.unwrap().spec_rank() <= 5);
                        assert(zs0[p as int].zone_type.unwrap().spec_rank() >= 3);
                        assert forall|j: usize|
                            hosts_place(zs0, entries0, place, j) implies (
                        #[trigger] zs0[j as int]).zone_type.unwrap().spec_rank() >= 3 by {
                            assert(zs0[p as int].zone_type.unwrap().spec_rank() <= zs0[j as int].zone_type.unwrap().spec_rank());
                        }
                        assert(place_qualifies(zs0, entries0, place));
                    } else {
                        if place_qualifies(zs0, entries0, place) {
                            let j = choose|j: usize|
                                hosts_place(zs0, entries0, place, j) && (
                                #[trigger] zs0[j as int]).zone_type.unwrap().spec_rank() <= 5;
                            assert(zs0[p as int].zone_type.unwrap().spec_rank() <= zs0[j as int].zone_type.unwrap().spec_rank());
                            assert(zs0[p as int].zone_type.unwrap().spec_rank() >= 3);
                        }
                        assert(!place_qualifies(zs0, entries0, place));
                    }
                }
                if ok {
                    // find or open the parent's group
                    let m = groups.len();
                    let mut at: usize = m;
                    let mut g: usize = 0;
                    while g < m
                        invariant
                            g <= m,
                            at <= m,
                            m == groups@.len(),
                            groups@ == groups_before,
                            at == m ==> forall|w: int|
                                0 <= w < g ==> (#[trigger] groups@[w]).0 != p,
                            at < m ==> groups@[at as int].0 == p,
                        decreases m - g,
                    {
                        if at == m && groups[g].0 == p {
                            at = g;
                        }
                        g = g + 1;
                    }
                    if at < m {
                        groups[at].1.push(place);
                        proof {
                            lemma_group_sizes_update(groups_before, groups@, at as int);
                        }
                    } else {
                        let mut fresh: Vec<Zone> = Vec::new();
                        fresh.push(place);
                        groups.push((p, fresh));
                        proof {
                            assert(groups@.drop_last() =~= groups_before);
                        }
                    }
                }
            },
            None => {
                proof {
                    if place_qualifies(zs0, entries0, place) {
                        let j = choose|j: usize|
                            hosts_place(zs0, entries0, place, j) && (
                            #[trigger] zs0[j as int]).zone_type.unwrap().spec_rank() <= 5;
                    }
                    assert(!place_qualifies(zs0, entries0, place));
                }
            },
        }
    }
    // single places inherit the parent's shape; the rest await cells
    let ghost qtotal = qualified_from(zs0, entries0, places0, 0);
    proof {
        lemma_qualified_le(zs0, entries0, places0, 0);
    }
    let mut tasks: Vec<VoronoiTask> = Vec::new();
    let mut remaining = groups;
    loop
        invariant
            qtotal == qualified_from(zs0, entries0, places0, 0),
            qtotal <= places0.len(),
            zs0.len() + places0.len() < usize::MAX ==> zones@.len() - zs0.len()
                + task_places_total(tasks@) + group_sizes(remaining@) == qtotal,
            crate::ztree::zones_bbox_wf(zones@),
            crate::ztree::zones_bbox_ok(zones@),
            zones@.len() >= zs0.len(),
            forall|k: int| 0 <= k < zs0.len() ==> zones@[k] == zs0[k],
            forall|k: int|
                zs0.len() <= k < zones@.len() ==> {
                    let z = #[trigger] zones@[k];
                    &&& z.zone_type == Some(ZoneType::City)
                    &&& z.is_generated
                    &&& z.parent is Some
                    &&& good_voronoi_parent(zones@[z.parent.unwrap().index as int])
                },
            crate::hierarchy_builder::hierarchy_wf(zones@),
            crate::hierarchy_builder::zones_indexed(zones@),
            forall|i: usize|
                #[trigger] zones_rtree.entries().contains_key(i) ==> i < zs0.len(),
            forall|g: int|
                0 <= g < remaining@.len() ==> (#[trigger] remaining@[g]).0 < zs0.len()
                    && good_voronoi_parent(zones@[remaining@[g].0 as int]),
            forall|g: int|
                0 <= g < remaining@.len() ==> forall|q: int|
                    0 <= q < (#[trigger] remaining@[g]).1@.len() ==> {
                        let p = #[trigger] remaining@[g].1@[q];
                        p.zone_type == Some(ZoneType::City) && p.is_generated
                    },
            forall|t: int|
                0 <= t < tasks@.len() ==> {
                    let task = #[trigger] tasks@[t];
                    &&& task.parent < zs0.len()
                    &&& good_voronoi_parent(zones@[task.parent as int])
                    &&& task.places@.len() >= 2
                    &&& forall|q: int|
                        0 <= q < task.places@.len() ==> (#[trigger] task.places@[q]).zone_type
                            == Some(ZoneType::City) && task.places@[q].is_generated
                },
        ensures
            remaining@.len() == 0,
            zs0.len() + places0.len() < usize::MAX ==> zones@.len() - zs0.len()
                + task_places_total(tasks@) + group_sizes(remaining@) == qtotal,
            crate::ztree::zones_bbox_wf(zones@),
            crate::ztree::zones_bbox_ok(zones@),
            zones@.len() >= zs0.len(),
            forall|k: int| 0 <= k < zs0.len() ==> zones@[k] == zs0[k],
            forall|k: int|
                zs0.len() <= k < zones@.len() ==> {
                    let z = #[trigger] zones@[k];
                    &&& z.zone_type == Some(ZoneType::City)
                    &&& z.is_generated
                    &&& z.parent is Some
                    &&& good_voronoi_parent(zones@[z.parent.unwrap().index as int])
                },
            crate::hierarchy_builder::hierarchy_wf(zones@),
            crate::hierarchy_builder::zones_indexed(zones@),
            forall|t: int|
                0 <= t < tasks@.len() ==> {
                    let task = #[trigger] tasks@[t];
                    &&& task.parent < zs0.len()
                    &&& good_voronoi_parent(zones@[task.parent as int])
                    &&& task.places@.len() >= 2
                    &&& forall|q: int|
                        0 <= q < task.places@.len() ==> (#[trigger] task.places@[q]).zone_type
                            == Some(ZoneType::City) && task.places@[q].is_generated
                },
        decreases remaining@.len(),
    {
        let ghost remaining_before = remaining@;
        let group = match remaining.pop() {
            Some(g) => g,
            None => {
                break ;
            },
        };
        proof {
            assert(remaining@ =~= remaining_before.drop_last());
            assert(group == remaining_before.last());
        }
        let (parent_idx, mut group_places) = group;
        if group_places.len() == 1 {
            let place = match group_places.pop() {
                Some(p) => p,
                None => {
                    break ;
                },
            };
            proof {
                // under the overflow bound, room always remains: what was
                // appended so far stays below the qualifying total
                if zs0.len() + places0.len() < usize::MAX {
                    assert(group_sizes(remaining_before) == group_sizes(remaining@)
                        + remaining_before.last().1@.len());
                    assert(remaining_before.last().1@.len() == 1);
                    assert(zones@.len() - zs0.len() + task_places_total(tasks@) + group_sizes(
                        remaining_before,
                    ) == qtotal);
                    assert(zones@.len() - zs0.len() + 1 <= qtotal);
                    assert(zones@.len() < zs0.len() + qtotal);
                    assert(zones@.len() < usize::MAX - 1);
                }
            }
            if zones.len() < usize::MAX - 1 {
                publish_single_place(zones, zones_rtree, parent_idx, place);
            }
        } else if group_places.len() >= 2 {
            let ghost tasks_before = tasks@;
            tasks.push(VoronoiTask { parent: parent_idx, places: group_places });
            proof {
                assert(tasks@.drop_last() =~= tasks_before);
                assert(group_sizes(remaining_before) == group_sizes(remaining@)
                    + remaining_before.last().1@.len());
            }
        } else {
            proof {
                assert(group_sizes(remaining_before) == group_sizes(remaining@));
            }
        }
    }
    proof {
        if zs0.len() + places0.len() < usize::MAX {
            assert(zones@.len() + task_places_total(tasks@) == zs0.len() + qtotal);
        }
    }
    tasks
}


/// The cell holds some seed's point.
pub open spec fn cell_claimed(places: Seq<Zone>, cell: Shape) -> bool {
    exists|q: int|
        0 <= q < places.len() && (#[trigger] places[q]).center is Some && crate::geometry::point_in_of(
            cell,
            crate::geometry::point_of(places[q].center.unwrap()),
        )
}

/// How many of the cells from `from` on hold a seed.
pub open spec fn claimed_from(places: Seq<Zone>, cells: Seq<Shape>, from: int) -> nat
    decreases cells.len() - from,
{
    if from < 0 || from >= cells.len() {
        0
    } else {
        claimed_from(places, cells, from + 1) + if cell_claimed(places, cells[from]) {
            1nat
        } else {
            0nat
        }
    }
}

/// Match the engine's cells back to their seeds: each cell goes to the
/// first place whose point it holds, is cut down to the parent's area,
/// freed of the areas already covered, and published as a generated city
/// under the parent. Cells holding no seed are dropped, as are all cells
/// when the parent has no boundary; with a boundary (and room in the
/// vector), exactly the cells holding a seed come out.
pub fn apply_voronoi_cells(
    zones: &mut Vec<Zone>,
    zones_rtree: &ZonesTree,
    task: &VoronoiTask,
    cells: Vec<Shape>,
) -> (published: usize)
    requires
        crate::ztree::zones_bbox_wf(old(zones)@),
        crate::ztree::zones_bbox_ok(old(zones)@),
        crate::hierarchy_builder::hierarchy_wf(old(zones)@),
        crate::hierarchy_builder::zones_indexed(old(zones)@),
        forall|i: usize|
            #[trigger] zones_rtree.entries().contains_key(i) ==> i < old(zones)@.len(),
        task.parent < old(zones)@.len(),
        good_voronoi_parent(old(zones)@[task.parent as int]),
        forall|q: int|
            0 <= q < task.places@.len() ==> (#[trigger] task.places@[q]).zone_type == Some(
                ZoneType::City,
            ) && task.places@[q].is_generated,
    ensures
        final(zones)@.len() == old(zones)@.len() + published,
        published <= cells@.len(),
        old(zones)@[task.parent as int].boundary is None ==> published == 0,
        old(zones)@[task.parent as int].boundary is Some && old(zones)@.len() + cells@.len()
            < usize::MAX ==> published == claimed_from(task.places@, cells@, 0),
        forall|k: int| 0 <= k < old(zones)@.len() ==> final(zones)@[k] == old(zones)@[k],
        forall|k: int|
            old(zones)@.len() <= k < final(zones)@.len() ==> {
                let z = #[trigger] final(zones)@[k];
                &&& z.zone_type == Some(ZoneType::City)
                &&& z.is_generated
                &&& z.parent == Some(old(zones)@[task.parent as int].id)
            },
        crate::ztree::zones_bbox_wf(final(zones)@),
        crate::ztree::zones_bbox_ok(final(zones)@),
        crate::hierarchy_builder::hierarchy_wf(final(zones)@),
        crate::hierarchy_builder::zones_indexed(final(zones)@),
{
    let ghost zs0 = zones@;
    let ghost cells0 = cells@;
    let parent_idx = task.parent;
    let mut published: usize = 0;
    let n = cells.len();
    let mut cells = cells;
    let mut used: usize = 0;
    loop
        invariant
            used + cells@.len() == n,
            published <= used <= n,
            n == cells0.len(),
            cells@ == cells0.take(cells@.len() as int),
            zs0[parent_idx as int].boundary is None ==> published == 0,
            zs0[parent_idx as int].boundary is Some && zs0.len() + n < usize::MAX ==> published
                == claimed_from(task.places@, cells0, cells@.len() as int),
            parent_idx == task.parent,
            parent_idx < zs0.len(),
            zones@.len() == zs0.len() + published,
            forall|k: int| 0 <= k < zs0.len() ==> zones@[k] == zs0[k],
            good_voronoi_parent(zs0[parent_idx as int]),
            forall|q: int|
                0 <= q < task.places@.len() ==> (#[trigger] task.places@[q]).zone_type == Some(
                    ZoneType::City,
                ) && task.places@[q].is_generated,
            forall|k: int|
                zs0.len() <= k < zones@.len() ==> {
                    let z = #[trigger] zones@[k];
                    &&& z.zone_type == Some(ZoneType::City)
                    &&& z.is_generated
                    &&& z.parent == Some(zs0[parent_idx as int].id)
                },
            crate::ztree::zones_bbox_wf(zones@),
            crate::ztree::zones_bbox_ok(zones@),
            crate::hierarchy_builder::hierarchy_wf(zones@),
            crate::hierarchy_builder::zones_indexed(zones@),
            forall|i: usize|
                #[trigger] zones_rtree.entries().contains_key(i) ==> i < zs0.len(),
        ensures
            cells@.len() == 0,
            published <= n,
            zones@.len() == zs0.len() + published,
            zs0[parent_idx as int].boundary is None ==> published == 0,
            zs0[parent_idx as int].boundary is Some && zs0.len() + n < usize::MAX ==> published
                == claimed_from(task.places@, cells0, 0),
            forall|k: int| 0 <= k < zs0.len() ==> zones@[k] == zs0[k],
            forall|k: int|
                zs0.len() <= k < zones@.len() ==> {
                    let z = #[trigger] zones@[k];
                    &&& z.zone_type == Some(ZoneType::City)
                    &&& z.is_generated
                    &&& z.parent == Some(zs0[parent_idx as int].id)
                },
            crate::ztree::zones_bbox_wf(zones@),
            crate::ztree::zones_bbox_ok(zones@),
            crate::hierarchy_builder::hierarchy_wf(zones@),
            crate::hierarchy_builder::zones_indexed(zones@),
        decreases cells@.len(),
    {
        let ghost len_before_pop = cells@.len() as int;
        let cell = match cells.pop() {
            Some(c) => c,
            None => {
                break ;
            },
        };
        proof {
            assert(cells0.take(len_before_pop).drop_last() =~= cells0.take(len_before_pop - 1));
            assert(cells@ =~= cells0.take(len_before_pop - 1));
            assert(cell == cells0.take(len_before_pop).last());
            assert(cell == cells0[len_before_pop - 1]);
        }
        used = used + 1;
        // the engine does not keep the seeds' order: find the seed the
        // cell holds
        let m = task.places.len();
        let mut seed: Option<usize> = None;
        let mut q: usize = 0;
        while q < m
            invariant
                q <= m,
                m == task.places@.len(),
                match seed {
                    Some(s) => s < m && task.places@[s as int].center is Some
                        && crate::geometry::point_in_of(
                        cell,
                        crate::geometry::point_of(task.places@[s as int].center.unwrap()),
                    ),
                    None => forall|w: int|
                        0 <= w < q ==> !((#[trigger] task.places@[w]).center is Some
                            && crate::geometry::point_in_of(
                            cell,
                            crate::geometry::point_of(task.places@[w].center.unwrap()),
                        )),
                },
            decreases m - q,
        {
            if seed.is_none() {
                match &task.places[q].center {
                    Some(c) => {
                        if cell.contains_point(&GeoPoint::of_coord(*c)) {
                            seed = Some(q);
                        }
                    },
                    None => {},
                }
            }
            q = q + 1;
        }
        proof {
            assert(match seed {
                Some(_) => cell_claimed(task.places@, cell),
                None => !cell_claimed(task.places@, cell),
            });
            assert(claimed_from(task.places@, cells0, len_before_pop - 1) == claimed_from(
                task.places@,
                cells0,
                len_before_pop,
            ) + (if cell_claimed(task.places@, cells0[len_before_pop - 1]) {
                1nat
            } else {
                0nat
            }));
        }
        proof {
            // under the overflow bound, room always remains for one more
            if zs0[parent_idx as int].boundary is Some && zs0.len() + n < usize::MAX {
                assert(zones@.len() < usize::MAX - 1);
            }
        }
        match seed {
            Some(s) => {
                match &zones[parent_idx].boundary {
                    Some(pb) => {
                        if zones.len() < usize::MAX - 1 {
                            let mut place = task.places[s].duplicate();
                            let shape = pb.intersection(&cell);
                            place.bbox = shape.bounding_rect();
                            place.boundary = Some(shape);
                            place.parent = Some(zones[parent_idx].id);
                            let to_subtract = get_places_to_subtract(
                                &place,
                                parent_idx,
                                zones,
                                zones_rtree,
                            );
                            subtract_existing_zones(&mut place, zones, &to_subtract);
                            place.id = ZoneIndex { index: zones.len() };
                            let ghost before = zones@;
                            zones.push(place);
                            published = published + 1;
                            proof {
                                assert(zones@[parent_idx as int].id.index == parent_idx);
                                assert forall|k: int| 0 <= k < zones@.len() implies match (
                                #[trigger] zones@[k]).parent {
                                    Some(p) => {
                                        &&& p.index < zones@.len()
                                        &&& zones@[p.index as int].spec_is_admin()
                                        &&& (zones@[k].spec_is_admin()
                                            ==> crate::zone::opt_type_rank(zones@[k].zone_type)
                                            < crate::zone::opt_type_rank(
                                            zones@[p.index as int].zone_type,
                                        ))
                                    },
                                    None => true,
                                } by {
                                    if k < before.len() {
                                        assert(zones@[k] == before[k]);
                                        match before[k].parent {
                                            Some(p) => {
                                                assert(zones@[p.index as int] == before[p.index as int]);
                                            },
                                            None => {},
                                        }
                                    }
                                }
                            }
                        }
                    },
                    None => {},
                }
            },
            None => {},
        }
    }
    published
}

} // verus!
