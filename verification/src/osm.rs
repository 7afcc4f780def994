//! The modelled slice of OSM data the pipeline reads: objects are carried
//! as plain values (tags as string pairs, positions as whole 1e-7 degree
//! units, the unit OSM stores them in), and the classifiers that decide
//! what becomes a zone, a postcode or a place.

use vstd::prelude::*;
use crate::tags::Tags;

verus! {

/// The three OSM object kinds a relation member can name.
#[derive(Debug, Clone, Copy, PartialEq, Eq, Structural)]
pub enum OsmMemberType {
    Node,
    Way,
    Relation,
}

/// A relation member: its role and what it points at.
#[derive(Debug)]
pub struct OsmRef {
    pub role: String,
    pub member_type: OsmMemberType,
    pub member_id: i64,
}

/// A node: its identifier, its position, its tags.
#[derive(Debug)]
pub struct OsmNodeData {
    pub id: i64,
    /// latitude in 1e-7 degree units
    pub decimicro_lat: i64,
    /// longitude in 1e-7 degree units
    pub decimicro_lon: i64,
    pub tags: Tags,
}

/// A relation: its identifier, its tags, its members.
#[derive(Debug)]
pub struct OsmRelationData {
    pub id: i64,
    pub tags: Tags,
    pub refs: Vec<OsmRef>,
}

/// One OSM object.
#[derive(Debug)]
pub enum OsmObjData {
    Node(OsmNodeData),
    Way { id: i64, tags: Tags },
    Relation(OsmRelationData),
}

/// An administrative boundary: a relation tagged `boundary=administrative`
/// that carries an `admin_level` tag.
pub open spec fn spec_is_admin(obj: &OsmObjData) -> bool {
    match obj {
        OsmObjData::Relation(rel) => {
            &&& rel.tags.spec_get("boundary"@) == Some("administrative"@)
            &&& rel.tags.spec_get("admin_level"@) is Some
        },
        _ => false,
    }
}

/// Decide whether the object is an administrative boundary relation.
pub fn is_admin(obj: &OsmObjData) -> (r: bool)
    ensures
        r == spec_is_admin(obj),
{
    match obj {
        OsmObjData::Relation(rel) => {
            let b = match rel.tags.get("boundary") {
                Some(v) => crate::strings::str_eq(v.as_str(), "administrative"),
                None => false,
            };
            b && rel.tags.contains_key("admin_level")
        },
        _ => false,
    }
}

/// A postal-code area: a relation tagged `boundary=postal_code` that
/// carries a `postal_code` tag.
pub open spec fn spec_is_postal_code(obj: &OsmObjData) -> bool {
    match obj {
        OsmObjData::Relation(rel) => {
            &&& rel.tags.spec_get("boundary"@) == Some("postal_code"@)
            &&& rel.tags.spec_get("postal_code"@) is Some
        },
        _ => false,
    }
}

/// Decide whether the object is a postal-code relation.
pub fn is_postal_code(obj: &OsmObjData) -> (r: bool)
    ensures
        r == spec_is_postal_code(obj),
{
    match obj {
        OsmObjData::Relation(rel) => {
            let b = match rel.tags.get("boundary") {
                Some(v) => crate::strings::str_eq(v.as_str(), "postal_code"),
                None => false,
            };
            b && rel.tags.contains_key("postal_code")
        },
        _ => false,
    }
}

/// A populated place: a node whose `place` tag says city, town or village.
pub open spec fn spec_is_place(obj: &OsmObjData) -> bool {
    match obj {
        OsmObjData::Node(node) => {
            match node.tags.spec_get("place"@) {
                Some(v) => v == "city"@ || v == "town"@ || v == "village"@,
                None => false,
            }
        },
        _ => false,
    }
}

/// Decide whether the object is a populated-place node.
pub fn is_place(obj: &OsmObjData) -> (r: bool)
    ensures
        r == spec_is_place(obj),
{
    match obj {
        OsmObjData::Node(node) => {
            match node.tags.get("place") {
                Some(v) => {
                    crate::strings::str_eq(v.as_str(), "city") || crate::strings::str_eq(
                        v.as_str(),
                        "town",
                    ) || crate::strings::str_eq(v.as_str(), "village")
                },
                None => false,
            }
        },
        _ => false,
    }
}

/// The first node with this identifier, if any.
pub open spec fn spec_node_by_id(nodes: Seq<OsmNodeData>, id: int) -> Option<int>
    decreases nodes.len(),
{
    if nodes.len() == 0 {
        None
    } else if nodes[0].id == id {
        Some(0)
    } else {
        match spec_node_by_id(nodes.skip(1), id) {
            Some(k) => Some(k + 1),
            None => None,
        }
    }
}

/// Find a node by its identifier.
pub fn node_by_id(nodes: &Vec<OsmNodeData>, id: i64) -> (r: Option<&OsmNodeData>)
    ensures
        match r {
            Some(n) => {
                &&& spec_node_by_id(nodes@, id as int) is Some
                &&& *n == nodes@[spec_node_by_id(nodes@, id as int).unwrap()]
            },
            None => spec_node_by_id(nodes@, id as int) is None,
        },
{
    let n = nodes.len();
    let mut i: usize = 0;
    while i < n
        invariant
            i <= n,
            n == nodes@.len(),
            forall|j: int| 0 <= j < i ==> nodes@[j].id != id,
        decreases n - i,
    {
        if nodes[i].id == id {
            proof {
                lemma_node_by_id_skip(nodes@, id as int, i as int);
            }
            return Some(&nodes[i]);
        }
        i = i + 1;
    }
    proof {
        lemma_node_by_id_skip(nodes@, id as int, n as int);
    }
    None
}

/// When the first `i` nodes all miss `id`, the search continues at `i`.
proof fn lemma_node_by_id_skip(nodes: Seq<OsmNodeData>, id: int, i: int)
    requires
        0 <= i <= nodes.len(),
        forall|j: int| 0 <= j < i ==> nodes[j].id != id,
    ensures
        spec_node_by_id(nodes, id) == match spec_node_by_id(nodes.skip(i), id) {
            Some(k) => Some(k + i),
            None => None::<int>,
        },
        match spec_node_by_id(nodes, id) {
            Some(k) => i <= k < nodes.len() && nodes[k].id == id,
            None => true,
        },
    decreases i,
{
    if i > 0 {
        lemma_node_by_id_skip(nodes.skip(1), id, i - 1);
        assert(nodes.skip(1).skip(i - 1) =~= nodes.skip(i));
        lemma_node_by_id_props(nodes.skip(i), id);
    } else {
        assert(nodes.skip(0) =~= nodes);
        lemma_node_by_id_props(nodes, id);
    }
}

/// The found position names a node with the identifier.
proof fn lemma_node_by_id_props(nodes: Seq<OsmNodeData>, id: int)
    ensures
        match spec_node_by_id(nodes, id) {
            Some(k) => 0 <= k < nodes.len() && nodes[k].id == id,
            None => true,
        },
    decreases nodes.len(),
{
    if nodes.len() > 0 && nodes[0].id != id {
        lemma_node_by_id_props(nodes.skip(1), id);
    }
}

/// The first member with the given role that points at a node, if any.
pub open spec fn spec_ref_with_role(refs: Seq<OsmRef>, role: Seq<char>) -> Option<int>
    decreases refs.len(),
{
    if refs.len() == 0 {
        None
    } else if refs[0].role@ == role {
        Some(0)
    } else {
        match spec_ref_with_role(refs.skip(1), role) {
            Some(k) => Some(k + 1),
            None => None,
        }
    }
}

/// Find the first member carrying the role.
pub fn ref_with_role<'a>(refs: &'a Vec<OsmRef>, role: &str) -> (r: Option<&'a OsmRef>)
    ensures
        match r {
            Some(x) => {
                &&& spec_ref_with_role(refs@, role@) is Some
                &&& *x == refs@[spec_ref_with_role(refs@, role@).unwrap()]
            },
            None => spec_ref_with_role(refs@, role@) is None,
        },
{
    let n = refs.len();
    let mut i: usize = 0;
    while i < n
        invariant
            i <= n,
            n == refs@.len(),
            forall|j: int| 0 <= j < i ==> refs@[j].role@ != role@,
        decreases n - i,
    {
        if crate::strings::str_eq(refs[i].role.as_str(), role) {
            proof {
                lemma_ref_with_role_skip(refs@, role@, i as int);
            }
            return Some(&refs[i]);
        }
        i = i + 1;
    }
    proof {
        lemma_ref_with_role_skip(refs@, role@, n as int);
    }
    None
}

/// When the first `i` members all miss the role, the search continues at
/// `i`.
proof fn lemma_ref_with_role_skip(refs: Seq<OsmRef>, role: Seq<char>, i: int)
    requires
        0 <= i <= refs.len(),
        forall|j: int| 0 <= j < i ==> refs[j].role@ != role,
    ensures
        spec_ref_with_role(refs, role) == match spec_ref_with_role(refs.skip(i), role) {
            Some(k) => Some(k + i),
            None => None::<int>,
        },
        match spec_ref_with_role(refs, role) {
            Some(k) => i <= k < refs.len() && refs[k].role@ == role,
            None => true,
        },
    decreases i,
{
    if i > 0 {
        lemma_ref_with_role_skip(refs.skip(1), role, i - 1);
        assert(refs.skip(1).skip(i - 1) =~= refs.skip(i));
        lemma_ref_with_role_props(refs.skip(i), role);
    } else {
        assert(refs.skip(0) =~= refs);
        lemma_ref_with_role_props(refs, role);
    }
}

/// The found position names a member with the role.
proof fn lemma_ref_with_role_props(refs: Seq<OsmRef>, role: Seq<char>)
    ensures
        match spec_ref_with_role(refs, role) {
            Some(k) => 0 <= k < refs.len() && refs[k].role@ == role,
            None => true,
        },
    decreases refs.len(),
{
    if refs.len() > 0 && refs[0].role@ != role {
        lemma_ref_with_role_props(refs.skip(1), role);
    }
}

} // verus!
