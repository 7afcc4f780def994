//! Inclusion discovery and parent selection.
//!
//! For every zone the inclusion engine lists the other zones that
//! geometrically contain it; the hierarchy builder then picks, among those
//! candidates, the finest administrative zone the zone may hang under.

use vstd::prelude::*;
use crate::zone::{opt_type_rank, Zone, ZoneIndex};
use crate::ztree::{locate_post, zone_bbox_map, zones_bbox_wf, zones_distinct_ids, ZonesTree};

verus! {

/// Each zone sits at the position its index names.
pub open spec fn zones_indexed(zs: Seq<Zone>) -> bool {
    forall|i: int| 0 <= i < zs.len() ==> (#[trigger] zs[i]).id.index == i
}

/// A list of candidate indices for zone `i`: all in range, none equal to
/// `i`, none repeated.
pub open spec fn candidate_list_ok(c: Seq<ZoneIndex>, i: int, n: int) -> bool {
    &&& forall|k: int| 0 <= k < c.len() ==> 0 <= (#[trigger] c[k]).index < n && c[k].index != i
    &&& forall|j: int, k: int| 0 <= j < k < c.len() ==> c[j].index != c[k].index
}

/// Zone `j` belongs on zone `i`'s inclusion list: it is another zone, its
/// box is indexed and meets `i`'s box, and its boundary covers `i`'s.
pub open spec fn is_inclusion(zs: Seq<Zone>, i: int, j: usize) -> bool {
    &&& j as int != i
    &&& match zs[i].bbox {
        Some(b) => {
            &&& zone_bbox_map(zs).contains_key(j)
            &&& zone_bbox_map(zs)[j].spec_intersects(b)
            &&& zs[j as int].spec_contains(&zs[i])
        },
        None => false,
    }
}

/// For each zone, the indices of the zones that contain it: exactly those
/// whose indexed box meets the zone's box and whose boundary covers it.
pub fn find_inclusions(zones: &Vec<Zone>) -> (r: (Vec<Vec<ZoneIndex>>, ZonesTree))
    requires
        zones_bbox_wf(zones@),
        zones_indexed(zones@),
    ensures
        r.0@.len() == zones@.len(),
        forall|i: int|
            0 <= i < zones@.len() ==> candidate_list_ok((#[trigger] r.0@[i])@, i, zones@.len() as int),
        forall|i: int, j: usize|
            0 <= i < zones@.len() ==> ((#[trigger] r.0@[i]@.contains(ZoneIndex { index: j }))
                <==> is_inclusion(zones@, i, j)),
        r.1.entries() == zone_bbox_map(zones@),
{
    proof {
        assert(zones_distinct_ids(zones@));
    }
    let ztree = ZonesTree::from_zones(zones);
    let n = zones.len();
    let mut result: Vec<Vec<ZoneIndex>> = Vec::new();
    let mut i: usize = 0;
    while i < n
        invariant
            i <= n,
            n == zones@.len(),
            zones_bbox_wf(zones@),
            zones_indexed(zones@),
            ztree.entries() == zone_bbox_map(zones@),
            result@.len() == i,
            forall|q: int|
                0 <= q < i ==> candidate_list_ok((#[trigger] result@[q])@, q, n as int),
            forall|q: int, j: usize|
                0 <= q < i ==> ((#[trigger] result@[q]@.contains(ZoneIndex { index: j }))
                    <==> is_inclusion(zones@, q, j)),
        decreases n - i,
    {
        let hits = ztree.fetch_zone_bbox(&zones[i]);
        let mut list: Vec<ZoneIndex> = Vec::new();
        let m = hits.len();
        let mut k: usize = 0;
        while k < m
            invariant
                k <= m,
                m == hits@.len(),
                i < n,
                n == zones@.len(),
                zones_bbox_wf(zones@),
                zones_indexed(zones@),
                match zones@[i as int].bbox {
                    Some(b) => locate_post(zone_bbox_map(zones@), b, hits@),
                    None => hits@ == Seq::<usize>::empty(),
                },
                forall|q: int|
                    0 <= q < list@.len() ==> exists|h: int|
                        0 <= h < k && hits@[h] == (#[trigger] list@[q]).index,
                forall|q: int|
                    0 <= q < list@.len() ==> 0 <= (#[trigger] list@[q]).index < n
                        && list@[q].index != i,
                forall|p: int, q: int| 0 <= p < q < list@.len() ==> list@[p].index != list@[q].index,
                forall|j: usize|
                    (#[trigger] list@.contains(ZoneIndex { index: j })) <==> (hits@.take(
                        k as int,
                    ).contains(j) && j as int != i as int && j < n && zones@[j as int].spec_contains(
                        &zones@[i as int],
                    )),
            decreases m - k,
        {
            let ghost prev = list@;
            proof {
                assert(hits@.take(k + 1).drop_last() =~= hits@.take(k as int));
                assert(hits@.take(k + 1).last() == hits@[k as int]);
            }
            let j = hits[k];
            let mut pushed = false;
            if j != i && j < n {
                if zones[j].contains(&zones[i]) {
                    proof {
                        assert forall|q: int| 0 <= q < prev.len() implies
                            (#[trigger] prev[q]).index != j by {
                            let h = choose|h: int| 0 <= h < k && hits@[h] == prev[q].index;
                            assert(hits@[h] != hits@[k as int]);
                        }
                    }
                    list.push(ZoneIndex { index: j });
                    pushed = true;
                }
            }
            proof {
                assert forall|x: usize|
                    (#[trigger] list@.contains(ZoneIndex { index: x })) <==> (hits@.take(
                        k + 1,
                    ).contains(x) && x as int != i as int && x < n && zones@[x as int].spec_contains(
                        &zones@[i as int],
                    )) by {
                    // membership in the grown list is the old membership or
                    // the pushed element
                    if list@.contains(ZoneIndex { index: x }) {
                        let q = choose|q: int|
                            0 <= q < list@.len() && list@[q] == ZoneIndex { index: x };
                        if q < prev.len() {
                            assert(prev.contains(ZoneIndex { index: x })) by {
                                assert(prev[q] == ZoneIndex { index: x });
                            }
                            let h = choose|h: int| 0 <= h < k && hits@[h] == x;
                            assert(hits@.take(k + 1).contains(x)) by {
                                assert(hits@.take(k + 1)[h] == x);
                            }
                        } else {
                            assert(list@[q] == ZoneIndex { index: j });
                            assert(hits@.take(k + 1).contains(x)) by {
                                assert(hits@.take(k + 1)[k as int] == x);
                            }
                        }
                    }
                    if hits@.take(k + 1).contains(x) && x as int != i as int && x < n
                        && zones@[x as int].spec_contains(&zones@[i as int]) {
                        let h = choose|h: int| 0 <= h < k + 1 && #[trigger] hits@.take(k + 1)[h] == x;
                        if h < k {
                            assert(hits@.take(k as int).contains(x)) by {
                                assert(hits@.take(k as int)[h] == x);
                            }
                            assert(prev.contains(ZoneIndex { index: x }));
                            let q = choose|q: int|
                                0 <= q < prev.len() && prev[q] == ZoneIndex { index: x };
                            assert(list@[q] == ZoneIndex { index: x });
                        } else {
                            assert(x == j);
                            assert(pushed);
                            assert(list@.last() == ZoneIndex { index: x });
                        }
                    }
                }
            }
            k = k + 1;
        }
        proof {
            assert(hits@.take(m as int) =~= hits@);
            assert forall|j: usize|
                (#[trigger] list@.contains(ZoneIndex { index: j })) <==> is_inclusion(
                    zones@,
                    i as int,
                    j,
                ) by {
                match zones@[i as int].bbox {
                    Some(b) => {
                        if zone_bbox_map(zones@).contains_key(j) {
                            crate::ztree::lemma_bbox_map_keys(zones@, j);
                        }
                    },
                    None => {},
                }
            }
        }
        result.push(list);
        i = i + 1;
    }
    (result, ztree)
}

/// The candidate zone `c` qualifies as parent of `z`.
pub open spec fn qualifies(zs: Seq<Zone>, z: Zone, c: ZoneIndex) -> bool {
    0 <= c.index < zs.len() && z.spec_can_be_child_of(&zs[c.index as int])
}

/// The parent the builder picks for `z` among `cands`: the earliest
/// qualifying candidate of minimal kind.
pub open spec fn best_parent(zs: Seq<Zone>, z: Zone, cands: Seq<ZoneIndex>) -> Option<ZoneIndex>
    decreases cands.len(),
{
    if cands.len() == 0 {
        None
    } else {
        let prior = best_parent(zs, z, cands.drop_last());
        let c = cands.last();
        if qualifies(zs, z, c) {
            match prior {
                None => Some(c),
                Some(r) => if opt_type_rank(zs[c.index as int].zone_type) < opt_type_rank(
                    zs[r.index as int].zone_type,
                ) {
                    Some(c)
                } else {
                    Some(r)
                },
            }
        } else {
            prior
        }
    }
}

/// Whatever `best_parent` returns qualifies, so the chosen parent is
/// administrative and strictly coarser than an administrative child.
pub proof fn lemma_best_parent_qualifies(zs: Seq<Zone>, z: Zone, cands: Seq<ZoneIndex>)
    ensures
        match best_parent(zs, z, cands) {
            Some(p) => qualifies(zs, z, p),
            None => true,
        },
    decreases cands.len(),
{
    if cands.len() > 0 {
        lemma_best_parent_qualifies(zs, z, cands.drop_last());
    }
}

/// `best_parent` reads only the kinds of the zones, so it is stable under
/// updates that leave every `zone_type` in place.
pub proof fn lemma_best_parent_stable(zs1: Seq<Zone>, zs2: Seq<Zone>, z1: Zone, z2: Zone, cands: Seq<ZoneIndex>)
    requires
        zs1.len() == zs2.len(),
        forall|i: int| 0 <= i < zs1.len() ==> zs1[i].zone_type == (#[trigger] zs2[i]).zone_type,
        z1.zone_type == z2.zone_type,
    ensures
        best_parent(zs1, z1, cands) == best_parent(zs2, z2, cands),
    decreases cands.len(),
{
    if cands.len() > 0 {
        lemma_best_parent_stable(zs1, zs2, z1, z2, cands.drop_last());
        let c = cands.last();
        if 0 <= c.index < zs1.len() {
            assert(zs1[c.index as int].zone_type == zs2[c.index as int].zone_type);
            assert(z1.spec_can_be_child_of(&zs1[c.index as int]) == z2.spec_can_be_child_of(
                &zs2[c.index as int],
            ));
        }
        match best_parent(zs1, z1, cands.drop_last()) {
            Some(r) => {
                lemma_best_parent_qualifies(zs1, z1, cands.drop_last());
                assert(zs1[r.index as int].zone_type == zs2[r.index as int].zone_type);
            },
            None => {},
        }
    }
}

/// Pick the parent of `zones[i]` from its candidate list.
fn select_parent(zones: &Vec<Zone>, i: usize, cands: &Vec<ZoneIndex>) -> (r: Option<ZoneIndex>)
    requires
        i < zones@.len(),
        candidate_list_ok(cands@, i as int, zones@.len() as int),
    ensures
        r == best_parent(zones@, zones@[i as int], cands@),
{
    let n = cands.len();
    let mut best: Option<ZoneIndex> = None;
    let mut k: usize = 0;
    while k < n
        invariant
            k <= n,
            n == cands@.len(),
            i < zones@.len(),
            candidate_list_ok(cands@, i as int, zones@.len() as int),
            best == best_parent(zones@, zones@[i as int], cands@.take(k as int)),
        decreases n - k,
    {
        proof {
            lemma_best_parent_qualifies(zones@, zones@[i as int], cands@.take(k as int));
        }
        let c = cands[k];
        if zones[i].can_be_child_of(&zones[c.index]) {
            match best {
                None => {
                    best = Some(c);
                },
                Some(r) => {
                    if crate::zone::opt_type_lt(&zones[c.index].zone_type, &zones[r.index].zone_type) {
                        best = Some(c);
                    }
                },
            }
        }
        proof {
            assert(cands@.take(k + 1).drop_last() =~= cands@.take(k as int));
            assert(cands@.take(k + 1).last() == cands@[k as int]);
        }
        k = k + 1;
    }
    proof {
        assert(cands@.take(n as int) =~= cands@);
    }
    best
}

/// The invariant the builder establishes: every parent link points into
/// the vector, at an administrative zone, and an administrative child is
/// strictly finer than its parent.
pub open spec fn hierarchy_wf(zs: Seq<Zone>) -> bool {
    forall|k: int|
        0 <= k < zs.len() ==> match (#[trigger] zs[k]).parent {
            Some(p) => {
                &&& p.index < zs.len()
                &&& zs[p.index as int].spec_is_admin()
                &&& (zs[k].spec_is_admin() ==> opt_type_rank(zs[k].zone_type) < opt_type_rank(
                    zs[p.index as int].zone_type,
                ))
            },
            None => true,
        }
}

/// Give every zone its parent: the earliest candidate of minimal kind the
/// zone may hang under, or none. Everything but the parent links is left
/// untouched, and the result satisfies [`hierarchy_wf`].
pub fn build_hierarchy(zones: &mut Vec<Zone>, inclusions: Vec<Vec<ZoneIndex>>)
    requires
        inclusions@.len() == old(zones)@.len(),
        forall|i: int|
            0 <= i < inclusions@.len() ==> candidate_list_ok(
                (#[trigger] inclusions@[i])@,
                i,
                inclusions@.len() as int,
            ),
    ensures
        final(zones)@.len() == old(zones)@.len(),
        forall|k: int|
            0 <= k < old(zones)@.len() ==> final(zones)@[k] == (Zone {
                parent: final(zones)@[k].parent,
                ..old(zones)@[k]
            }),
        forall|k: int|
            0 <= k < old(zones)@.len() ==> (#[trigger] final(zones)@[k]).parent == best_parent(
                old(zones)@,
                old(zones)@[k],
                inclusions@[k]@,
            ),
        hierarchy_wf(final(zones)@),
{
    let n = zones.len();
    let mut i: usize = 0;
    while i < n
        invariant
            i <= n,
            n == old(zones)@.len(),
            zones@.len() == n,
            inclusions@.len() == n,
            forall|q: int|
                0 <= q < n ==> candidate_list_ok((#[trigger] inclusions@[q])@, q, n as int),
            forall|k: int|
                0 <= k < n ==> zones@[k] == (Zone { parent: zones@[k].parent, ..old(zones)@[k] }),
            forall|k: int| i <= k < n ==> (#[trigger] zones@[k]).parent == old(zones)@[k].parent,
            forall|k: int|
                0 <= k < i ==> (#[trigger] zones@[k]).parent == best_parent(
                    old(zones)@,
                    old(zones)@[k],
                    inclusions@[k]@,
                ),
        decreases n - i,
    {
        let p = select_parent(zones, i, &inclusions[i]);
        proof {
            lemma_best_parent_stable(zones@, old(zones)@, zones@[i as int], old(zones)@[i as int], inclusions@[i as int]@);
        }
        zones[i].parent = p;
        i = i + 1;
    }
    proof {
        assert forall|k: int| 0 <= k < n implies match (#[trigger] zones@[k]).parent {
            Some(p) => {
                &&& p.index < zones@.len()
                &&& zones@[p.index as int].spec_is_admin()
                &&& (zones@[k].spec_is_admin() ==> opt_type_rank(zones@[k].zone_type)
                    < opt_type_rank(zones@[p.index as int].zone_type))
            },
            None => true,
        } by {
            lemma_best_parent_qualifies(old(zones)@, old(zones)@[k], inclusions@[k]@);
            match zones@[k].parent {
                Some(p) => {
                    assert(qualifies(old(zones)@, old(zones)@[k], p));
                    assert(zones@[p.index as int].zone_type == old(zones)@[p.index as int].zone_type);
                },
                None => {},
            }
        }
    }
}

/// A parent chain: each entry's parent is the next entry.
pub open spec fn is_parent_chain(zs: Seq<Zone>, c: Seq<int>) -> bool {
    &&& forall|k: int| 0 <= k < c.len() ==> 0 <= #[trigger] c[k] < zs.len()
    &&& forall|k: int|
        0 <= k < c.len() - 1 ==> (#[trigger] zs[c[k]]).parent == Some(
            ZoneIndex { index: c[k + 1] as usize },
        )
}

/// Along a chain of administrative zones the kind rank grows strictly.
proof fn lemma_chain_rank_grows(zs: Seq<Zone>, c: Seq<int>)
    requires
        zs.len() <= usize::MAX,
        hierarchy_wf(zs),
        is_parent_chain(zs, c),
        c.len() >= 2,
        forall|k: int| 0 <= k < c.len() ==> zs[#[trigger] c[k]].spec_is_admin(),
    ensures
        opt_type_rank(zs[c[0]].zone_type) < opt_type_rank(zs[c[c.len() - 1]].zone_type),
    decreases c.len(),
{
    assert(zs[c[0]].parent == Some(ZoneIndex { index: c[1] as usize }));
    assert(zs[c[0]].spec_is_admin());
    assert((c[1] as usize) as int == c[1]);
    assert(opt_type_rank(zs[c[0]].zone_type) < opt_type_rank(zs[c[1]].zone_type));
    if c.len() == 2 {
    } else {
        let rest = c.drop_first();
        assert(is_parent_chain(zs, rest)) by {
            assert forall|k: int| 0 <= k < rest.len() - 1 implies (#[trigger] zs[rest[k]]).parent
                == Some(ZoneIndex { index: rest[k + 1] as usize }) by {
                assert(rest[k] == c[k + 1]);
                assert(rest[k + 1] == c[k + 2]);
            }
        }
        lemma_chain_rank_grows(zs, rest);
        assert(rest[0] == c[1]);
        assert(rest[rest.len() - 1] == c[c.len() - 1]);
    }
}

/// Parent links are acyclic: no chain of parent steps comes back to where
/// it started.
pub proof fn lemma_hierarchy_acyclic(zs: Seq<Zone>, c: Seq<int>)
    requires
        zs.len() <= usize::MAX,
        hierarchy_wf(zs),
        is_parent_chain(zs, c),
        c.len() >= 2,
    ensures
        c[0] != c[c.len() - 1],
{
    if c[0] == c[c.len() - 1] {
        // every entry after the first is somebody's parent, hence
        // administrative; the first equals the last, so it is one too
        assert forall|k: int| 0 <= k < c.len() implies zs[#[trigger] c[k]].spec_is_admin() by {
            let j = if k > 0 {
                k - 1
            } else {
                c.len() - 2
            };
            assert(c[j + 1] == c[k]);
            assert(zs[c[j]].parent == Some(ZoneIndex { index: c[j + 1] as usize }));
            assert((c[j + 1] as usize) as int == c[j + 1]);
            assert(zs[c[j + 1]].spec_is_admin());
        }
        lemma_chain_rank_grows(zs, c);
    }
}

} // verus!
