//! Postal-code areas: the record, the spatial store over their bounding
//! boxes, and the assignment of zip codes to zones by area coverage.

use vstd::prelude::*;
use crate::geometry::{area_of, intersection_of, intersects_of, RectI, Shape};
use crate::osm::OsmRelationData;
use crate::strings::{append_i64_dec, dec_i64, sort_dedup, sorted_strict, views_of};
use crate::ztree::{entries_map, locate_post, tree_entries, RectIndexTree};
use crate::zone::Zone;

verus! {

/// A postal-code area read from OSM.
#[derive(Debug)]
pub struct Postcode {
    pub osm_id: String,
    pub zipcode: String,
    pub boundary: Shape,
    /// the boundary's area in whole square units, as the geometry engine
    /// measured it at construction
    pub area: u128,
}

impl Postcode {
    /// The area's polygon.
    pub fn get_boundary(&self) -> (r: &Shape)
        ensures
            *r == self.boundary,
    {
        &self.boundary
    }

    /// The area measure taken at construction.
    pub fn unsigned_area(&self) -> (r: u128)
        ensures
            r == self.area,
    {
        self.area
    }

    /// Build a postcode from a relation and its reconstructed boundary;
    /// nothing comes out without a boundary. A missing `postal_code` tag
    /// leaves the zipcode empty.
    pub fn from_osm_relation(relation: &OsmRelationData, boundary: Option<Shape>) -> (r: Option<
        Postcode,
    >)
        ensures
            match r {
                Some(pc) => {
                    &&& pc.osm_id@ == "relation:"@ + dec_i64(relation.id as int)
                    &&& pc.zipcode@ == match relation.tags.spec_get("postal_code"@) {
                        Some(z) => z,
                        None => Seq::<char>::empty(),
                    }
                    &&& Some(pc.boundary) == boundary
                    &&& pc.area == area_of(pc.boundary)
                },
                None => boundary is None,
            },
            r is Some <==> boundary is Some,
    {
        match boundary {
            Some(b) => {
                let zipcode = match relation.tags.get("postal_code") {
                    Some(z) => z.clone(),
                    None => String::new(),
                };
                let mut osm_id = String::new();
                osm_id.append("relation:");
                append_i64_dec(&mut osm_id, relation.id);
                let area = b.area_unit2();
                Some(Postcode { osm_id, zipcode, boundary: b, area })
            },
            None => None,
        }
    }
}

/// A postcode together with the bounding box it is indexed under.
#[derive(Debug)]
pub struct PostcodeBbox {
    pub postcode: Postcode,
    pub bbox: RectI,
}

impl PostcodeBbox {
    /// Pair a postcode with its box.
    pub fn new(postcode: Postcode, bbox: &RectI) -> (r: PostcodeBbox)
        ensures
            r.spec_postcode() == postcode,
            r.spec_bbox() == *bbox,
    {
        PostcodeBbox { postcode, bbox: *bbox }
    }

    /// The postcode.
    pub fn get_postcode(&self) -> (r: &Postcode)
        ensures
            *r == self.spec_postcode(),
    {
        &self.postcode
    }

    /// The box it is indexed under.
    pub open spec fn spec_bbox(&self) -> RectI {
        self.bbox
    }

    /// The postcode, in spec land.
    pub open spec fn spec_postcode(&self) -> Postcode {
        self.postcode
    }
}

/// The boxes of the items, keyed by their position.
pub open spec fn pc_bbox_map(items: Seq<PostcodeBbox>) -> Map<usize, RectI> {
    Map::new(|i: usize| i < items.len(), |i: usize| items[i as int].spec_bbox())
}

/// The postcode areas of one run: the records and an R-tree over their
/// boxes, keyed by position.
#[derive(Debug)]
pub struct PostcodeStore {
    items: Vec<PostcodeBbox>,
    tree: RectIndexTree,
}

impl PostcodeStore {
    /// The stored items.
    pub closed spec fn items_view(&self) -> Seq<PostcodeBbox> {
        self.items@
    }

    /// The tree indexes exactly the stored items.
    pub closed spec fn wf(&self) -> bool {
        tree_entries(&self.tree) == pc_bbox_map(self.items@)
    }

    /// Bulk-load the store.
    pub fn bulk_load(items: Vec<PostcodeBbox>) -> (r: PostcodeStore)
        requires
            forall|i: int| 0 <= i < items@.len() ==> (#[trigger] items@[i]).spec_bbox().wf(),
        ensures
            r.wf(),
            r.items_view() == items@,
    {
        let n = items.len();
        let mut pairs: Vec<(RectI, usize)> = Vec::new();
        let mut i: usize = 0;
        while i < n
            invariant
                i <= n,
                n == items@.len(),
                forall|j: int| 0 <= j < n ==> (#[trigger] items@[j]).spec_bbox().wf(),
                pairs@.len() == i,
                forall|j: int|
                    0 <= j < i ==> #[trigger] pairs@[j] == (items@[j].spec_bbox(), j as usize),
            decreases n - i,
        {
            let b = items[i].bbox;
            pairs.push((b, i));
            i = i + 1;
        }
        proof {
            lemma_entries_map_is_positional(pairs@, items@);
        }
        let tree = RectIndexTree::bulk_load(pairs);
        PostcodeStore { items, tree }
    }

    /// How many postcodes are stored.
    pub fn len(&self) -> (r: usize)
        ensures
            r == self.items_view().len(),
    {
        self.items.len()
    }

    /// The postcode at a position.
    pub fn get(&self, i: usize) -> (r: &PostcodeBbox)
        requires
            i < self.items_view().len(),
        ensures
            *r == self.items_view()[i as int],
    {
        &self.items[i]
    }

    /// The positions of the postcodes whose box meets `r`.
    pub fn locate_intersecting(&self, r: &RectI) -> (out: Vec<usize>)
        requires
            self.wf(),
            r.wf(),
        ensures
            locate_post(pc_bbox_map(self.items_view()), *r, out@),
            forall|k: int| 0 <= k < out@.len() ==> (#[trigger] out@[k]) < self.items_view().len(),
    {
        let out = self.tree.locate_intersecting(r);
        proof {
            assert forall|k: int| 0 <= k < out@.len() implies (#[trigger] out@[k])
                < self.items_view().len() by {
                assert(out@.contains(out@[k]));
            }
        }
        out
    }
}

/// Positional pairs load into the positional map.
proof fn lemma_entries_map_is_positional(pairs: Seq<(RectI, usize)>, items: Seq<PostcodeBbox>)
    requires
        items.len() <= usize::MAX,
        pairs.len() <= items.len(),
        forall|j: int| 0 <= j < pairs.len() ==> #[trigger] pairs[j] == (items[j].spec_bbox(), j as usize),
    ensures
        crate::ztree::distinct_indices(pairs),
        entries_map(pairs) =~= Map::new(
            |i: usize| i < pairs.len(),
            |i: usize| items[i as int].spec_bbox(),
        ),
    decreases pairs.len(),
{
    if pairs.len() > 0 {
        assert forall|j: int| 0 <= j < pairs.drop_last().len() implies #[trigger] pairs.drop_last()[j]
            == (items[j].spec_bbox(), j as usize) by {
            assert(pairs.drop_last()[j] == pairs[j]);
        }
        lemma_entries_map_is_positional(pairs.drop_last(), items);
        let m = pairs.len() - 1;
        assert(pairs[m] == (items[m].spec_bbox(), m as usize));
        assert forall|a: int, b: int| 0 <= a < b < pairs.len() implies pairs[a].1 != pairs[b].1 by {
            assert(pairs[a] == (items[a].spec_bbox(), a as usize));
            assert(pairs[b] == (items[b].spec_bbox(), b as usize));
        }
        assert(entries_map(pairs) == entries_map(pairs.drop_last()).insert(
            pairs.last().1,
            pairs.last().0,
        ));
    }
}

/// The stored postcode at `j` covers enough of the boundary: they meet,
/// and the shared region's area is more than a twentieth of the
/// postcode's own.
pub open spec fn covers_enough(items: Seq<PostcodeBbox>, boundary: Shape, j: int) -> bool {
    &&& intersects_of(boundary, items[j].spec_postcode().boundary)
    &&& area_of(intersection_of(boundary, items[j].spec_postcode().boundary)) > items[j].spec_postcode().area / 20
}

/// Some stored postcode serves the zip `x` for this boundary and box: its
/// box meets the zone's box and it covers enough of the boundary.
pub open spec fn zip_served(items: Seq<PostcodeBbox>, boundary: Shape, bbox: RectI, x: Seq<char>) -> bool {
    exists|j: int|
        0 <= j < items.len() && (#[trigger] items[j]).spec_bbox().spec_intersects(bbox)
            && covers_enough(items, boundary, j) && items[j].spec_postcode().zipcode@ == x
}

/// The zip codes of exactly the stored postcodes that cover enough of the
/// zone: the candidate's box meets the zone's box, the boundaries meet,
/// and the shared area is more than a twentieth of the postcode's own.
/// The result is sorted and duplicate-free.
pub fn zip_codes_covering(store: &PostcodeStore, boundary: &Shape, bbox: &RectI) -> (r: Vec<String>)
    requires
        store.wf(),
        bbox.wf(),
    ensures
        sorted_strict(views_of(r@)),
        forall|x: Seq<char>|
            #[trigger] views_of(r@).contains(x) <==> zip_served(
                store.items_view(),
                *boundary,
                *bbox,
                x,
            ),
{
    let ghost items = store.items_view();
    let total = store.len();
    proof {
        assert(items.len() == total);
    }
    let candidates = store.locate_intersecting(bbox);
    let n = candidates.len();
    let mut found: Vec<String> = Vec::new();
    let mut i: usize = 0;
    proof {
        assert(candidates@.take(0) =~= Seq::<usize>::empty());
    }
    while i < n
        invariant
            i <= n,
            n == candidates@.len(),
            store.wf(),
            items == store.items_view(),
            crate::ztree::locate_post(pc_bbox_map(items), *bbox, candidates@),
            forall|k: int|
                0 <= k < candidates@.len() ==> (#[trigger] candidates@[k]) < items.len(),
            forall|x: Seq<char>|
                #[trigger] views_of(found@).contains(x) <==> exists|j: usize|
                    candidates@.take(i as int).contains(j) && covers_enough(
                        items,
                        *boundary,
                        j as int,
                    ) && (#[trigger] items[j as int]).spec_postcode().zipcode@ == x,
        decreases n - i,
    {
        let ghost prev = found@;
        proof {
            assert(candidates@.take(i + 1).drop_last() =~= candidates@.take(i as int));
            assert(candidates@.take(i + 1).last() == candidates@[i as int]);
        }
        let pc = store.get(candidates[i]).get_postcode();
        let mut added = false;
        if boundary.intersects(&pc.boundary) {
            let shared = boundary.intersection(&pc.boundary);
            let shared_area = shared.area_unit2();
            // more than five percent of the postcode must lie inside
            if shared_area > pc.area / 20 {
                found.push(pc.zipcode.clone());
                added = true;
            }
        }
        proof {
            let ghost ci = candidates@[i as int];
            assert forall|x: Seq<char>|
                #[trigger] views_of(found@).contains(x) <==> exists|j: usize|
                    candidates@.take(i + 1).contains(j) && covers_enough(items, *boundary, j as int)
                        && (#[trigger] items[j as int]).spec_postcode().zipcode@ == x by {
                if views_of(found@).contains(x) {
                    let k = choose|k: int|
                        0 <= k < views_of(found@).len() && #[trigger] views_of(found@)[k] == x;
                    if k < prev.len() {
                        assert(views_of(prev).contains(x)) by {
                            assert(views_of(prev)[k] == x);
                        }
                        let j = choose|j: usize|
                            candidates@.take(i as int).contains(j) && covers_enough(
                                items,
                                *boundary,
                                j as int,
                            ) && (#[trigger] items[j as int]).spec_postcode().zipcode@ == x;
                        let h = choose|h: int|
                            0 <= h < i && #[trigger] candidates@.take(i as int)[h] == j;
                        assert(candidates@.take(i + 1).contains(j)) by {
                            assert(candidates@.take(i + 1)[h] == j);
                        }
                    } else {
                        assert(added);
                        assert(items[ci as int].spec_postcode().zipcode@ == x);
                        assert(covers_enough(items, *boundary, ci as int));
                        assert(candidates@.take(i + 1).contains(ci)) by {
                            assert(candidates@.take(i + 1)[i as int] == ci);
                        }
                    }
                }
                if exists|j: usize|
                    candidates@.take(i + 1).contains(j) && covers_enough(items, *boundary, j as int)
                        && (#[trigger] items[j as int]).spec_postcode().zipcode@ == x {
                    let j = choose|j: usize|
                        candidates@.take(i + 1).contains(j) && covers_enough(
                            items,
                            *boundary,
                            j as int,
                        ) && (#[trigger] items[j as int]).spec_postcode().zipcode@ == x;
                    let h = choose|h: int|
                        0 <= h < i + 1 && #[trigger] candidates@.take(i + 1)[h] == j;
                    if h < i {
                        assert(candidates@.take(i as int).contains(j)) by {
                            assert(candidates@.take(i as int)[h] == j);
                        }
                        assert(views_of(prev).contains(x));
                        let k = choose|k: int|
                            0 <= k < views_of(prev).len() && #[trigger] views_of(prev)[k] == x;
                        assert(views_of(found@)[k] == x);
                        assert(views_of(found@).contains(x)) by {
                            assert(views_of(found@)[k] == x);
                        }
                    } else {
                        assert(j == ci);
                        assert(added);
                        assert(views_of(found@).contains(x)) by {
                            assert(views_of(found@).last() == x);
                        }
                    }
                }
            }
        }
        i = i + 1;
    }
    let r = sort_dedup(found);
    proof {
        assert(candidates@.take(n as int) =~= candidates@);
        assert forall|x: Seq<char>|
            #[trigger] views_of(r@).contains(x) <==> zip_served(items, *boundary, *bbox, x) by {
            if views_of(r@).contains(x) {
                assert(views_of(found@).contains(x));
                let j = choose|j: usize|
                    candidates@.contains(j) && covers_enough(items, *boundary, j as int) && (
                    #[trigger] items[j as int]).spec_postcode().zipcode@ == x;
                assert(pc_bbox_map(items).contains_key(j) && pc_bbox_map(items)[j].spec_intersects(
                    *bbox,
                ));
                assert(items[j as int].spec_bbox().spec_intersects(*bbox));
            }
            if zip_served(items, *boundary, *bbox, x) {
                let j = choose|j: int|
                    0 <= j < items.len() && (#[trigger] items[j]).spec_bbox().spec_intersects(*bbox)
                        && covers_enough(items, *boundary, j) && items[j].spec_postcode().zipcode@
                        == x;
                let ju = j as usize;
                assert(ju as int == j);
                assert(pc_bbox_map(items).contains_key(ju));
                assert(pc_bbox_map(items)[ju].spec_intersects(*bbox));
                assert(candidates@.contains(ju));
                assert(views_of(found@).contains(x)) by {
                    assert(candidates@.contains(ju) && covers_enough(items, *boundary, ju as int)
                        && items[ju as int].spec_postcode().zipcode@ == x);
                }
            }
        }
    }
    r
}

/// Fill the zip codes of every zone that has a boundary, a box and no
/// codes yet, with exactly the codes of the postcodes that cover enough
/// of it, sorted and duplicate-free; every other zone is left as it was.
pub fn assign_postcodes_to_zones(zones: &mut Vec<Zone>, store: &PostcodeStore)
    requires
        store.wf(),
        crate::ztree::zones_bbox_wf(old(zones)@),
    ensures
        final(zones)@.len() == old(zones)@.len(),
        forall|k: int|
            0 <= k < old(zones)@.len() ==> ((old(zones)@[k].boundary is None || old(
                zones,
            )@[k].bbox is None || old(zones)@[k].zip_codes@.len() > 0) ==> final(zones)@[k]
                == old(zones)@[k]),
        forall|k: int|
            0 <= k < old(zones)@.len() && !(old(zones)@[k].boundary is None || old(
                zones,
            )@[k].bbox is None || old(zones)@[k].zip_codes@.len() > 0) ==> {
                let z = #[trigger] final(zones)@[k];
                &&& z == (Zone { zip_codes: z.zip_codes, ..old(zones)@[k] })
                &&& sorted_strict(views_of(z.zip_codes@))
                &&& forall|x: Seq<char>|
                    #[trigger] views_of(z.zip_codes@).contains(x) <==> zip_served(
                        store.items_view(),
                        old(zones)@[k].boundary.unwrap(),
                        old(zones)@[k].bbox.unwrap(),
                        x,
                    )
            },
{
    let n = zones.len();
    let mut i: usize = 0;
    while i < n
        invariant
            i <= n,
            n == old(zones)@.len(),
            zones@.len() == n,
            store.wf(),
            crate::ztree::zones_bbox_wf(old(zones)@),
            forall|k: int| i <= k < n ==> zones@[k] == old(zones)@[k],
            forall|k: int|
                0 <= k < i ==> ((old(zones)@[k].boundary is None || old(zones)@[k].bbox is None
                    || old(zones)@[k].zip_codes@.len() > 0) ==> zones@[k] == old(zones)@[k]),
            forall|k: int|
                0 <= k < i && !(old(zones)@[k].boundary is None || old(zones)@[k].bbox is None
                    || old(zones)@[k].zip_codes@.len() > 0) ==> {
                    let z = #[trigger] zones@[k];
                    &&& z == (Zone { zip_codes: z.zip_codes, ..old(zones)@[k] })
                    &&& sorted_strict(views_of(z.zip_codes@))
                    &&& forall|x: Seq<char>|
                        #[trigger] views_of(z.zip_codes@).contains(x) <==> zip_served(
                            store.items_view(),
                            old(zones)@[k].boundary.unwrap(),
                            old(zones)@[k].bbox.unwrap(),
                            x,
                        )
                },
        decreases n - i,
    {
        let has_work = zones[i].zip_codes.len() == 0 && zones[i].boundary.is_some()
            && zones[i].bbox.is_some();
        if has_work {
            let zips = match (&zones[i].boundary, &zones[i].bbox) {
                (Option::Some(b), Option::Some(r)) => zip_codes_covering(store, b, r),
                _ => Vec::new(),
            };
            zones[i].zip_codes = zips;
        }
        i = i + 1;
    }
}

} // verus!
