//! The spatial index: a bulk-loaded R-tree over bounding boxes keyed by a
//! dense index, and the zone-facing wrapper around it.

use vstd::prelude::*;
use crate::geometry::RectI;
use crate::zone::Zone;

verus! {

/// An R-tree of the rstar crate whose items are `(box, index)` pairs.
/// Its type parameters cannot be declared to Verus (they are bound by
/// rstar's own traits), so the tree lives in a private field.
#[verifier::external_body]
#[derive(Debug)]
pub struct RectIndexTree {
    inner: rstar::RTree<rstar::primitives::GeomWithData<rstar::primitives::Rectangle<[i64; 2]>, usize>>,
}

/// What a [`RectIndexTree`] holds: for each stored index, its box.
pub uninterp spec fn tree_entries(t: &RectIndexTree) -> Map<usize, RectI>;

/// The items as a keyed map; on a duplicated index the later item wins,
/// though the builders below are only used with distinct indices.
pub open spec fn entries_map(items: Seq<(RectI, usize)>) -> Map<usize, RectI>
    decreases items.len(),
{
    if items.len() == 0 {
        Map::empty()
    } else {
        entries_map(items.drop_last()).insert(items.last().1, items.last().0)
    }
}

/// No index appears twice.
pub open spec fn distinct_indices(items: Seq<(RectI, usize)>) -> bool {
    forall|i: int, j: int| 0 <= i < j < items.len() ==> items[i].1 != items[j].1
}

/// What a query for `q` over `entries` must return: exactly the stored
/// indices whose box meets `q`, each of them once.
pub open spec fn locate_post(entries: Map<usize, RectI>, q: RectI, out: Seq<usize>) -> bool {
    &&& forall|i: usize|
        #[trigger] out.contains(i) <==> entries.contains_key(i) && entries[i].spec_intersects(q)
    &&& forall|j: int, k: int| 0 <= j < k < out.len() ==> out[j] != out[k]
}

impl RectIndexTree {
    /// Relies on rstar's `RTree::new`: the empty tree.
    #[verifier::external_body]
    pub fn new() -> (t: RectIndexTree)
        ensures
            forall|i: usize| !tree_entries(&t).contains_key(i),
    {
        RectIndexTree { inner: rstar::RTree::new() }
    }

    /// Relies on rstar's `RTree::bulk_load`: the tree holding exactly the
    /// given items.
    #[verifier::external_body]
    pub fn bulk_load(items: Vec<(RectI, usize)>) -> (t: RectIndexTree)
        requires
            forall|i: int| 0 <= i < items@.len() ==> (#[trigger] items@[i]).0.wf(),
            distinct_indices(items@),
        ensures
            tree_entries(&t) == entries_map(items@),
    {
        let v = items
            .into_iter()
            .map(|(r, idx)| rstar::primitives::GeomWithData::new(
                rstar::primitives::Rectangle::from_corners([r.min_lon, r.min_lat], [r.max_lon, r.max_lat]),
                idx,
            ))
            .collect();
        RectIndexTree { inner: rstar::RTree::bulk_load(v) }
    }

    /// Relies on rstar's `RTree::insert` of one more item.
    #[verifier::external_body]
    pub fn insert(&mut self, r: RectI, idx: usize)
        requires
            r.wf(),
            !tree_entries(old(self)).contains_key(idx),
        ensures
            tree_entries(final(self)) == tree_entries(old(self)).insert(idx, r),
    {
        self.inner.insert(rstar::primitives::GeomWithData::new(
            rstar::primitives::Rectangle::from_corners([r.min_lon, r.min_lat], [r.max_lon, r.max_lat]),
            idx,
        ));
    }

    /// Relies on rstar's `RTree::locate_in_envelope_intersecting`: the
    /// indices of exactly those items whose box meets `r` (boxes that only
    /// touch count as meeting), each once, in no promised order.
    #[verifier::external_body]
    pub fn locate_intersecting(&self, r: &RectI) -> (out: Vec<usize>)
        requires
            r.wf(),
        ensures
            locate_post(tree_entries(self), *r, out@),
    {
        let envelope = rstar::AABB::from_corners([r.min_lon, r.min_lat], [r.max_lon, r.max_lat]);
        self.inner.locate_in_envelope_intersecting(envelope).map(|e| e.data).collect()
    }
}

/// Every zone that carries a box has a well-formed one.
pub open spec fn zones_bbox_wf(zs: Seq<Zone>) -> bool {
    forall|i: int|
        0 <= i < zs.len() ==> match (#[trigger] zs[i]).bbox {
            Some(b) => b.wf(),
            None => true,
        }
}

/// Every zone's box is the engine's bounding rectangle of its boundary,
/// whenever it has one.
pub open spec fn zones_bbox_ok(zs: Seq<Zone>) -> bool {
    forall|i: int| 0 <= i < zs.len() ==> (#[trigger] zs[i]).bbox_matches_boundary()
}

/// Zone indices are unique across the vector.
pub open spec fn zones_distinct_ids(zs: Seq<Zone>) -> bool {
    forall|i: int, j: int| 0 <= i < j < zs.len() ==> zs[i].id.index != zs[j].id.index
}

/// The boxes of the zones that have one, keyed by zone index.
pub open spec fn zone_bbox_map(zs: Seq<Zone>) -> Map<usize, RectI>
    decreases zs.len(),
{
    if zs.len() == 0 {
        Map::empty()
    } else {
        let m = zone_bbox_map(zs.drop_last());
        match zs.last().bbox {
            Some(b) => m.insert(zs.last().id.index, b),
            None => m,
        }
    }
}

/// A key of the bounding-box map names a zone's dense index.
pub proof fn lemma_bbox_map_keys(zs: Seq<Zone>, i: usize)
    requires
        crate::hierarchy_builder::zones_indexed(zs),
        zone_bbox_map(zs).contains_key(i),
    ensures
        i < zs.len(),
    decreases zs.len(),
{
    if zs.len() > 0 {
        if i != zs.last().id.index || zs.last().bbox is None {
            assert(crate::hierarchy_builder::zones_indexed(zs.drop_last())) by {
                assert forall|q: int| 0 <= q < zs.drop_last().len() implies (
                #[trigger] zs.drop_last()[q]).id.index == q by {
                    assert(zs[q].id.index == q);
                }
            }
            lemma_bbox_map_keys(zs.drop_last(), i);
        }
    }
}

/// The R-tree over the zones' bounding boxes.
#[derive(Debug)]
pub struct ZonesTree {
    tree: RectIndexTree,
}

impl ZonesTree {
    /// What the tree holds.
    pub closed spec fn entries(&self) -> Map<usize, RectI> {
        tree_entries(&self.tree)
    }

    /// The empty tree.
    pub fn new() -> (t: ZonesTree)
        ensures
            t.entries() == Map::<usize, RectI>::empty(),
    {
        let tree = RectIndexTree::new();
        proof {
            assert(tree_entries(&tree) =~= Map::<usize, RectI>::empty());
        }
        ZonesTree { tree }
    }

    /// Bulk-load the tree from the zones; zones without a box are left out.
    pub fn from_zones(zones: &Vec<Zone>) -> (t: ZonesTree)
        requires
            zones_bbox_wf(zones@),
            zones_distinct_ids(zones@),
        ensures
            t.entries() == zone_bbox_map(zones@),
    {
        let mut items: Vec<(RectI, usize)> = Vec::new();
        let n = zones.len();
        let mut i: usize = 0;
        while i < n
            invariant
                i <= n,
                n == zones@.len(),
                zones_bbox_wf(zones@),
                zones_distinct_ids(zones@),
                entries_map(items@) == zone_bbox_map(zones@.take(i as int)),
                forall|j: int| 0 <= j < items@.len() ==> (#[trigger] items@[j]).0.wf(),
                forall|j: int|
                    0 <= j < items@.len() ==> exists|z: int|
                        0 <= z < i && zones@[z].id.index == (#[trigger] items@[j]).1,
                distinct_indices(items@),
            decreases n - i,
        {
            let ghost prev_items = items@;
            match zones[i].bbox {
                Some(b) => {
                    proof {
                        assert forall|j: int| 0 <= j < prev_items.len() implies
                            (#[trigger] prev_items[j]).1 != zones@[i as int].id.index by {
                            let z = choose|z: int|
                                0 <= z < i && zones@[z].id.index == prev_items[j].1;
                            assert(zones@[z].id.index != zones@[i as int].id.index);
                        }
                    }
                    items.push((b, zones[i].id.index));
                    proof {
                        assert(items@.drop_last() =~= prev_items);
                    }
                },
                None => {},
            }
            proof {
                assert(zones@.take(i + 1).drop_last() =~= zones@.take(i as int));
                assert(zones@.take(i + 1).last() == zones@[i as int]);
            }
            i = i + 1;
        }
        proof {
            assert(zones@.take(n as int) =~= zones@);
        }
        ZonesTree { tree: RectIndexTree::bulk_load(items) }
    }

    /// Add one zone; without a box nothing is added.
    pub fn insert_zone(&mut self, z: &Zone)
        requires
            match z.bbox {
                Some(b) => b.wf(),
                None => true,
            },
            z.bbox is Some ==> !old(self).entries().contains_key(z.id.index),
        ensures
            final(self).entries() == match z.bbox {
                Some(b) => old(self).entries().insert(z.id.index, b),
                None => old(self).entries(),
            },
    {
        match z.bbox {
            Some(b) => self.tree.insert(b, z.id.index),
            None => {},
        }
    }

    /// The indices of the zones whose box meets `z`'s box; empty when `z`
    /// has none.
    pub fn fetch_zone_bbox(&self, z: &Zone) -> (out: Vec<usize>)
        requires
            match z.bbox {
                Some(b) => b.wf(),
                None => true,
            },
        ensures
            match z.bbox {
                Some(b) => locate_post(self.entries(), b, out@),
                None => out@ == Seq::<usize>::empty(),
            },
    {
        match &z.bbox {
            Some(b) => self.tree.locate_intersecting(b),
            None => Vec::new(),
        }
    }
}

} // verus!
