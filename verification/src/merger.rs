//! Concatenating streamed cosmogonies: every zone of each input gets the
//! running offset added to its index and to its parent link, and the
//! offset moves past the largest index seen.

use vstd::prelude::*;
use crate::zone::{Zone, ZoneIndex};

verus! {

/// The merger's one piece of state: what to add to the next input's
/// indices.
#[derive(Debug)]
pub struct CosmogonyMerger {
    pub id_offset: usize,
}

/// Every index of the zones, shifted by the offset, stays in range.
pub open spec fn offsets_fit(zs: Seq<Zone>, off: usize) -> bool {
    forall|k: int|
        0 <= k < zs.len() ==> (#[trigger] zs[k]).id.index + off <= usize::MAX && match zs[k].parent {
            Some(p) => p.index + off <= usize::MAX,
            None => true,
        }
}

/// The largest shifted index among the zones, or zero for none.
pub open spec fn max_shifted_id(zs: Seq<Zone>, off: usize) -> int
    decreases zs.len(),
{
    if zs.len() == 0 {
        0
    } else {
        let rest = max_shifted_id(zs.drop_last(), off);
        let last = zs.last().id.index + off;
        if last >= rest {
            last
        } else {
            rest
        }
    }
}

impl CosmogonyMerger {
    /// A merger that has seen nothing.
    pub fn new() -> (r: CosmogonyMerger)
        ensures
            r.id_offset == 0,
    {
        CosmogonyMerger { id_offset: 0 }
    }

    /// An index shifted by the running offset.
    pub fn get_updated_id(&self, idx: ZoneIndex) -> (r: ZoneIndex)
        requires
            idx.index + self.id_offset <= usize::MAX,
        ensures
            r.index == idx.index + self.id_offset,
    {
        ZoneIndex { index: idx.index + self.id_offset }
    }

    /// Shift one input's zones: every zone keeps all its fields but its
    /// index and parent link, which both move by the offset — so the
    /// parent relations inside the input are preserved — and the offset
    /// ends one past the largest index written. An input processed at
    /// offset zero comes out unchanged.
    pub fn process_zones(&mut self, zones: Vec<Zone>) -> (out: Vec<Zone>)
        requires
            offsets_fit(zones@, old(self).id_offset),
            max_shifted_id(zones@, old(self).id_offset) < usize::MAX,
        ensures
            out@.len() == zones@.len(),
            forall|k: int|
                0 <= k < zones@.len() ==> #[trigger] out@[k] == (Zone {
                    id: ZoneIndex { index: (zones@[k].id.index + old(self).id_offset) as usize },
                    parent: match zones@[k].parent {
                        Some(p) => Some(
                            ZoneIndex { index: (p.index + old(self).id_offset) as usize },
                        ),
                        None => None,
                    },
                    ..zones@[k]
                }),
            final(self).id_offset == max_shifted_id(zones@, old(self).id_offset) + 1,
            old(self).id_offset == 0 ==> out@ == zones@,
    {
        let off = self.id_offset;
        let mut input = zones;
        let ghost zs = input@;
        let mut out: Vec<Zone> = Vec::new();
        let mut max_id: usize = 0;
        proof {
            assert(zs.take(0) =~= Seq::<Zone>::empty());
        }
        let n = input.len();
        let mut i: usize = 0;
        while i < n
            invariant
                i <= n,
                n == zs.len(),
                input@ == zs.skip(i as int),
                off == old(self).id_offset,
                offsets_fit(zs, off),
                max_shifted_id(zs, off) < usize::MAX,
                out@.len() == i,
                max_id == max_shifted_id(zs.take(i as int), off),
                forall|k: int|
                    0 <= k < i ==> #[trigger] out@[k] == (Zone {
                        id: ZoneIndex { index: (zs[k].id.index + off) as usize },
                        parent: match zs[k].parent {
                            Some(p) => Some(ZoneIndex { index: (p.index + off) as usize }),
                            None => None,
                        },
                        ..zs[k]
                    }),
            decreases n - i,
        {
            proof {
                assert(zs.skip(i as int)[0] == zs[i as int]);
            }
            let mut z = input.remove(0);
            proof {
                assert(input@ =~= zs.skip(i + 1));
                lemma_max_shifted_bound(zs, off, i as int);
            }
            let new_index = z.id.index + off;
            z.id = ZoneIndex { index: new_index };
            if new_index > max_id {
                max_id = new_index;
            }
            z.parent = match z.parent {
                Some(p) => Some(ZoneIndex { index: p.index + off }),
                None => None,
            };
            out.push(z);
            proof {
                assert(zs.take(i + 1).drop_last() =~= zs.take(i as int));
                assert(zs.take(i + 1).last() == zs[i as int]);
            }
            i = i + 1;
        }
        proof {
            assert(zs.take(n as int) =~= zs);
            if off == 0 {
                assert forall|k: int| 0 <= k < n implies out@[k] == zs[k] by {
                    assert(out@[k] == (Zone {
                        id: ZoneIndex { index: (zs[k].id.index + 0) as usize },
                        parent: match zs[k].parent {
                            Some(p) => Some(ZoneIndex { index: (p.index + 0) as usize }),
                            None => None,
                        },
                        ..zs[k]
                    }));
                }
                assert(out@ =~= zs);
            }
        }
        self.id_offset = max_id + 1;
        out
    }
}

/// The running maximum never falls below a shifted index already seen.
proof fn lemma_max_shifted_bound(zs: Seq<Zone>, off: usize, i: int)
    requires
        0 <= i < zs.len(),
    ensures
        zs[i].id.index + off <= max_shifted_id(zs, off),
        max_shifted_id(zs.take(i), off) <= max_shifted_id(zs, off),
    decreases zs.len(),
{
    if zs.len() > 0 {
        if i < zs.len() - 1 {
            lemma_max_shifted_bound(zs.drop_last(), off, i);
            assert(zs.drop_last()[i] == zs[i]);
            assert(zs.take(i) =~= zs.drop_last().take(i));
        } else {
            assert(zs.take(i) =~= zs.drop_last());
        }
    }
}

/// Shifting both ends of every link by one offset keeps the links: a
/// zone's parent names another zone of the same input before the shift
/// exactly when it does after.
pub proof fn lemma_merge_preserves_parent_links(ins: Seq<Zone>, outs: Seq<Zone>, off: usize)
    requires
        ins.len() == outs.len(),
        offsets_fit(ins, off),
        forall|k: int|
            0 <= k < ins.len() ==> #[trigger] outs[k] == (Zone {
                id: ZoneIndex { index: (ins[k].id.index + off) as usize },
                parent: match ins[k].parent {
                    Some(p) => Some(ZoneIndex { index: (p.index + off) as usize }),
                    None => None,
                },
                ..ins[k]
            }),
    ensures
        forall|j: int, k: int|
            0 <= j < ins.len() && 0 <= k < ins.len() ==> ((#[trigger] ins[j].parent) == Some(
                #[trigger] ins[k].id,
            ) <==> outs[j].parent == Some(outs[k].id)),
{
    assert forall|j: int, k: int|
        0 <= j < ins.len() && 0 <= k < ins.len() implies ((#[trigger] ins[j].parent) == Some(
        #[trigger] ins[k].id,
    ) <==> outs[j].parent == Some(outs[k].id)) by {
        match ins[j].parent {
            Some(p) => {
                assert(outs[j].parent == Some(ZoneIndex { index: (p.index + off) as usize }));
            },
            None => {},
        }
    }
}

} // verus!
