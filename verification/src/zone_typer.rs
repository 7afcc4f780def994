//! The typer: per-country rule sets mapping admin levels to zone kinds,
//! with per-zone and container-based overrides.

use vstd::prelude::*;
use crate::strings::{append_u64_dec, dec_digits, str_eq, views_of};
use crate::zone::{Zone, ZoneIndex, ZoneType};

verus! {

/// An explicit per-zone override: a kind, or explicitly no kind at all
/// (libpostal's way of dropping a zone).
pub type IdRule = (String, Option<ZoneType>);

/// A per-country rule set: the kind for each admin level, and overrides.
#[derive(Debug)]
pub struct CountryAdminTypeRules {
    /// level written as a decimal string, as the corpus spells it
    pub type_by_level: Vec<(String, ZoneType)>,
    pub overrides: RulesOverrides,
}

/// Overrides of a rule set.
#[derive(Debug)]
pub struct RulesOverrides {
    /// nested rules applied when an ancestor's OSM id matches the key
    pub contained_by: Vec<(String, Box<CountryAdminTypeRules>)>,
    /// kinds forced for single zones, keyed by OSM id
    pub id_rules: Vec<IdRule>,
}

/// The typer's errors: the country has no rule set, or its rule set has
/// nothing for the zone's admin level.
#[derive(Debug, PartialEq, Eq)]
pub enum ZoneTyperError {
    InvalidCountry(String),
    UnkownLevel(Option<u32>, String),
}

/// First-match lookup among level rules.
pub open spec fn level_get(s: Seq<(Seq<char>, ZoneType)>, k: Seq<char>) -> Option<ZoneType>
    decreases s.len(),
{
    if s.len() == 0 {
        None
    } else if s[0].0 == k {
        Some(s[0].1)
    } else {
        level_get(s.skip(1), k)
    }
}

/// First-match lookup among id overrides.
pub open spec fn id_rule_get(s: Seq<(Seq<char>, Option<ZoneType>)>, k: Seq<char>) -> Option<
    Option<ZoneType>,
>
    decreases s.len(),
{
    if s.len() == 0 {
        None
    } else if s[0].0 == k {
        Some(s[0].1)
    } else {
        id_rule_get(s.skip(1), k)
    }
}

/// The view of a level-rule list.
pub open spec fn levels_view(v: Seq<(String, ZoneType)>) -> Seq<(Seq<char>, ZoneType)> {
    Seq::new(v.len(), |i: int| (v[i].0@, v[i].1))
}

/// The view of an id-rule list.
pub open spec fn id_rules_view(v: Seq<IdRule>) -> Seq<(Seq<char>, Option<ZoneType>)> {
    Seq::new(v.len(), |i: int| (v[i].0@, v[i].1))
}

/// The key the level table is asked for: the admin level, or zero when
/// there is none, written in decimal.
pub open spec fn level_key(level: Option<u32>) -> Seq<char> {
    dec_digits(
        match level {
            Some(l) => l as nat,
            None => 0,
        },
    )
}

/// First-match lookup among the nested container rules.
pub open spec fn contained_get(s: Seq<(String, Box<CountryAdminTypeRules>)>, k: Seq<char>) -> Option<
    Box<CountryAdminTypeRules>,
>
    decreases s.len(),
{
    if s.len() == 0 {
        None
    } else if s[0].0@ == k {
        Some(s[0].1)
    } else {
        contained_get(s.skip(1), k)
    }
}

/// The first ancestor whose id carries a container rule, scanned in the
/// given order.
pub open spec fn first_container(
    cb: Seq<(String, Box<CountryAdminTypeRules>)>,
    ancestors: Seq<Seq<char>>,
) -> Option<Box<CountryAdminTypeRules>>
    decreases ancestors.len(),
{
    if ancestors.len() == 0 {
        None
    } else {
        match contained_get(cb, ancestors[0]) {
            Some(r) => Some(r),
            None => first_container(cb, ancestors.skip(1)),
        }
    }
}

/// The container found comes out of the list.
proof fn lemma_first_container_element(
    cb: Seq<(String, Box<CountryAdminTypeRules>)>,
    ancestors: Seq<Seq<char>>,
)
    ensures
        match first_container(cb, ancestors) {
            Some(sub) => exists|k: int| 0 <= k < cb.len() && cb[k].1 == sub,
            None => true,
        },
    decreases ancestors.len(),
{
    if ancestors.len() > 0 {
        lemma_contained_get_element(cb, ancestors[0]);
        lemma_first_container_element(cb, ancestors.skip(1));
    }
}

/// The rule set found comes out of the list.
proof fn lemma_contained_get_element(cb: Seq<(String, Box<CountryAdminTypeRules>)>, k: Seq<char>)
    ensures
        match contained_get(cb, k) {
            Some(sub) => exists|q: int| 0 <= q < cb.len() && cb[q].1 == sub,
            None => true,
        },
    decreases cb.len(),
{
    if cb.len() > 0 {
        if cb[0].0@ == k {
            assert(cb[0].1 == contained_get(cb, k).unwrap());
        } else {
            lemma_contained_get_element(cb.skip(1), k);
            if contained_get(cb.skip(1), k) is Some {
                let sub = contained_get(cb.skip(1), k).unwrap();
                let q = choose|q: int| 0 <= q < cb.skip(1).len() && cb.skip(1)[q].1 == sub;
                assert(cb[q + 1].1 == sub);
            }
        }
    }
}

impl CountryAdminTypeRules {
    /// The kind the rules give a zone: its own override first; else the
    /// rules of the first matching container, whose miss falls back to
    /// the outer level table; else the level table.
    pub open spec fn spec_type(
        self,
        osm_id: Seq<char>,
        level: Option<u32>,
        ancestors: Seq<Seq<char>>,
    ) -> Option<ZoneType>
        decreases self,
        via Self::spec_type_decreases
    {
        match id_rule_get(id_rules_view(self.overrides.id_rules@), osm_id) {
            Some(forced) => forced,
            None => {
                let from_container = match first_container(self.overrides.contained_by@, ancestors) {
                    Some(sub) => (*sub).spec_type(osm_id, level, ancestors),
                    None => None,
                };
                match from_container {
                    Some(t) => Some(t),
                    None => level_get(levels_view(self.type_by_level@), level_key(level)),
                }
            },
        }
    }

    #[via_fn]
    proof fn spec_type_decreases(
        self,
        osm_id: Seq<char>,
        level: Option<u32>,
        ancestors: Seq<Seq<char>>,
    ) {
        broadcast use vstd::seq::axiom_seq_index_decreases;

        match first_container(self.overrides.contained_by@, ancestors) {
            Some(sub) => {
                lemma_first_container_element(self.overrides.contained_by@, ancestors);
                let k = choose|k: int|
                    0 <= k < self.overrides.contained_by@.len()
                        && self.overrides.contained_by@[k].1 == sub;
                assert(decreases_to!(self => self.overrides.contained_by@[k]));
                assert(decreases_to!(self.overrides.contained_by@[k] => *sub));
            },
            None => {},
        }
    }
}


/// When the first `i` id rules miss the key, the scan may start at `i`.
proof fn lemma_id_rule_get_skip(s: Seq<(Seq<char>, Option<ZoneType>)>, k: Seq<char>, i: int)
    requires
        0 <= i <= s.len(),
        forall|j: int| 0 <= j < i ==> s[j].0 != k,
    ensures
        id_rule_get(s, k) == id_rule_get(s.skip(i), k),
    decreases i,
{
    if i > 0 {
        lemma_id_rule_get_skip(s.skip(1), k, i - 1);
        assert(s.skip(1).skip(i - 1) =~= s.skip(i));
    } else {
        assert(s.skip(0) =~= s);
    }
}

/// Find the forced kind of a zone, if one is listed.
fn lookup_id_rule(v: &Vec<IdRule>, k: &str) -> (r: Option<Option<ZoneType>>)
    ensures
        r == id_rule_get(id_rules_view(v@), k@),
{
    let n = v.len();
    let mut i: usize = 0;
    while i < n
        invariant
            i <= n,
            n == v@.len(),
            forall|j: int| 0 <= j < i ==> id_rules_view(v@)[j].0 != k@,
        decreases n - i,
    {
        if str_eq(v[i].0.as_str(), k) {
            proof {
                lemma_id_rule_get_skip(id_rules_view(v@), k@, i as int);
            }
            return Some(v[i].1);
        }
        i = i + 1;
    }
    proof {
        lemma_id_rule_get_skip(id_rules_view(v@), k@, n as int);
        assert(id_rules_view(v@).skip(n as int) =~= Seq::<(Seq<char>, Option<ZoneType>)>::empty());
    }
    None
}

/// When the first `i` level rules miss the key, the scan may start at `i`.
proof fn lemma_level_get_skip(s: Seq<(Seq<char>, ZoneType)>, k: Seq<char>, i: int)
    requires
        0 <= i <= s.len(),
        forall|j: int| 0 <= j < i ==> s[j].0 != k,
    ensures
        level_get(s, k) == level_get(s.skip(i), k),
    decreases i,
{
    if i > 0 {
        lemma_level_get_skip(s.skip(1), k, i - 1);
        assert(s.skip(1).skip(i - 1) =~= s.skip(i));
    } else {
        assert(s.skip(0) =~= s);
    }
}

/// Find the kind of an admin level.
fn lookup_level(v: &Vec<(String, ZoneType)>, level: &Option<u32>) -> (r: Option<ZoneType>)
    ensures
        r == level_get(levels_view(v@), level_key(*level)),
{
    let mut key = String::new();
    let lv: u64 = match level {
        Some(l) => *l as u64,
        None => 0,
    };
    append_u64_dec(&mut key, lv);
    let n = v.len();
    let mut i: usize = 0;
    while i < n
        invariant
            i <= n,
            n == v@.len(),
            key@ == level_key(*level),
            forall|j: int| 0 <= j < i ==> levels_view(v@)[j].0 != key@,
        decreases n - i,
    {
        if str_eq(v[i].0.as_str(), key.as_str()) {
            proof {
                lemma_level_get_skip(levels_view(v@), key@, i as int);
            }
            return Some(v[i].1);
        }
        i = i + 1;
    }
    proof {
        lemma_level_get_skip(levels_view(v@), key@, n as int);
        assert(levels_view(v@).skip(n as int) =~= Seq::<(Seq<char>, ZoneType)>::empty());
    }
    None
}

/// When the first `i` container rules miss the key, the scan may start at
/// `i`.
proof fn lemma_contained_get_skip(s: Seq<(String, Box<CountryAdminTypeRules>)>, k: Seq<char>, i: int)
    requires
        0 <= i <= s.len(),
        forall|j: int| 0 <= j < i ==> s[j].0@ != k,
    ensures
        contained_get(s, k) == contained_get(s.skip(i), k),
    decreases i,
{
    if i > 0 {
        lemma_contained_get_skip(s.skip(1), k, i - 1);
        assert(s.skip(1).skip(i - 1) =~= s.skip(i));
    } else {
        assert(s.skip(0) =~= s);
    }
}

/// Find the container rule of one ancestor id.
fn lookup_contained<'a>(
    cb: &'a Vec<(String, Box<CountryAdminTypeRules>)>,
    k: &str,
) -> (r: Option<&'a Box<CountryAdminTypeRules>>)
    ensures
        match r {
            Some(sub) => contained_get(cb@, k@) == Some(*sub),
            None => contained_get(cb@, k@) is None,
        },
{
    let n = cb.len();
    let mut i: usize = 0;
    while i < n
        invariant
            i <= n,
            n == cb@.len(),
            forall|j: int| 0 <= j < i ==> cb@[j].0@ != k@,
        decreases n - i,
    {
        if str_eq(cb[i].0.as_str(), k) {
            proof {
                lemma_contained_get_skip(cb@, k@, i as int);
            }
            return Some(&cb[i].1);
        }
        i = i + 1;
    }
    proof {
        lemma_contained_get_skip(cb@, k@, n as int);
        assert(cb@.skip(n as int) =~= Seq::<(String, Box<CountryAdminTypeRules>)>::empty());
    }
    None
}

/// Find the rule set of the first ancestor that carries one.
fn find_container<'a>(
    cb: &'a Vec<(String, Box<CountryAdminTypeRules>)>,
    ancestors: &Vec<String>,
) -> (r: Option<&'a Box<CountryAdminTypeRules>>)
    ensures
        match r {
            Some(sub) => first_container(cb@, views_of(ancestors@)) == Some(*sub),
            None => first_container(cb@, views_of(ancestors@)) is None,
        },
{
    let n = ancestors.len();
    let mut i: usize = 0;
    proof {
        assert(views_of(ancestors@).skip(0) =~= views_of(ancestors@));
    }
    while i < n
        invariant
            i <= n,
            n == ancestors@.len(),
            first_container(cb@, views_of(ancestors@)) == first_container(
                cb@,
                views_of(ancestors@).skip(i as int),
            ),
        decreases n - i,
    {
        proof {
            assert(views_of(ancestors@).skip(i as int)[0] == ancestors@[i as int]@);
            assert(views_of(ancestors@).skip(i as int).skip(1) =~= views_of(ancestors@).skip(
                i + 1,
            ));
        }
        match lookup_contained(cb, ancestors[i].as_str()) {
            Some(sub) => {
                return Some(sub);
            },
            None => {},
        }
        i = i + 1;
    }
    proof {
        assert(views_of(ancestors@).skip(n as int) =~= Seq::<Seq<char>>::empty());
    }
    None
}

impl CountryAdminTypeRules {
    /// Find the kind of a zone under these rules; `None` says the rules
    /// leave it untyped.
    pub fn get_zone_type(&self, osm_id: &str, level: &Option<u32>, ancestors: &Vec<String>) -> (r:
        Option<ZoneType>)
        ensures
            r == self.spec_type(osm_id@, *level, views_of(ancestors@)),
        decreases *self,
    {
        match lookup_id_rule(&self.overrides.id_rules, osm_id) {
            Some(forced) => forced,
            None => {
                let from_container = match find_container(&self.overrides.contained_by, ancestors) {
                    Some(sub) => {
                        proof {
                            broadcast use vstd::seq::axiom_seq_index_decreases;

                            lemma_first_container_element(
                                self.overrides.contained_by@,
                                views_of(ancestors@),
                            );
                            let k = choose|k: int|
                                0 <= k < self.overrides.contained_by@.len()
                                    && self.overrides.contained_by@[k].1 == *sub;
                            assert(decreases_to!(*self => self.overrides.contained_by@[k]));
                            assert(decreases_to!(self.overrides.contained_by@[k] => **sub));
                        }
                        sub.get_zone_type(osm_id, level, ancestors)
                    },
                    None => None,
                };
                match from_container {
                    Some(t) => Some(t),
                    None => lookup_level(&self.type_by_level, level),
                }
            },
        }
    }
}

/// The word an object kind writes ahead of an id in a rule key.
pub open spec fn spec_member_type_name(t: crate::osm::OsmMemberType) -> Seq<char> {
    match t {
        crate::osm::OsmMemberType::Node => "node"@,
        crate::osm::OsmMemberType::Way => "way"@,
        crate::osm::OsmMemberType::Relation => "relation"@,
    }
}

/// Write the word an object kind puts ahead of an id in a rule key.
pub fn member_type_name(t: &crate::osm::OsmMemberType) -> (r: &'static str)
    ensures
        r@ == spec_member_type_name(*t),
{
    match t {
        crate::osm::OsmMemberType::Node => "node",
        crate::osm::OsmMemberType::Way => "way",
        crate::osm::OsmMemberType::Relation => "relation",
    }
}

/// The rule key of an object: its kind, a colon, its id text.
pub open spec fn rule_key(t: crate::osm::OsmMemberType, id: Seq<char>) -> Seq<char> {
    spec_member_type_name(t) + ":"@ + id
}

impl RulesOverrides {
    /// Flatten overrides grouped by object kind into the flat form keyed
    /// by `kind:id`, keeping the groups' order.
    pub fn from_parts(
        contained_by: Vec<(crate::osm::OsmMemberType, Vec<(String, Box<CountryAdminTypeRules>)>)>,
        id_rules: Vec<(crate::osm::OsmMemberType, Vec<IdRule>)>,
    ) -> (r: RulesOverrides)
        ensures
            ({
                let cb = flatten_contained(contained_by@);
                &&& r.contained_by@.len() == cb.len()
                &&& forall|k: int|
                    0 <= k < cb.len() ==> (#[trigger] r.contained_by@[k]).0@ == cb[k].0
                        && r.contained_by@[k].1 == cb[k].1
            }),
            ({
                let ir = flatten_ids(id_rules@);
                &&& r.id_rules@.len() == ir.len()
                &&& forall|k: int|
                    0 <= k < ir.len() ==> (#[trigger] r.id_rules@[k]).0@ == ir[k].0
                        && r.id_rules@[k].1 == ir[k].1
            }),
    {
        let mut flat_cb: Vec<(String, Box<CountryAdminTypeRules>)> = Vec::new();
        let mut groups = contained_by;
        let ghost g0 = groups@;
        let outer = groups.len();
        let mut gi: usize = 0;
        proof {
            assert(g0.take(0) =~= Seq::<(
                crate::osm::OsmMemberType,
                Vec<(String, Box<CountryAdminTypeRules>)>,
            )>::empty());
            assert(flatten_contained(g0.take(0)) =~= Seq::<(
                Seq<char>,
                Box<CountryAdminTypeRules>,
            )>::empty());
        }
        while gi < outer
            invariant
                gi <= outer,
                outer == g0.len(),
                groups@ == g0.skip(gi as int),
                ({
                    let done = flatten_contained(g0.take(gi as int));
                    &&& flat_cb@.len() == done.len()
                    &&& forall|k: int|
                        0 <= k < done.len() ==> (#[trigger] flat_cb@[k]).0@ == done[k].0
                            && flat_cb@[k].1 == done[k].1
                }),
            decreases outer - gi,
        {
            proof {
                assert(g0.skip(gi as int)[0] == g0[gi as int]);
            }
            let (kind, entries) = groups.remove(0);
            proof {
                assert(groups@ =~= g0.skip(gi + 1));
                assert(g0.take(gi + 1).drop_last() =~= g0.take(gi as int));
                assert(g0.take(gi + 1).last() == g0[gi as int]);
            }
            let mut entries = entries;
            let ghost e0 = entries@;
            let inner = entries.len();
            let mut ei: usize = 0;
            while ei < inner
                invariant
                    ei <= inner,
                    inner == e0.len(),
                    entries@ == e0.skip(ei as int),
                    kind == g0[gi as int].0,
                    gi < outer,
                    outer == g0.len(),
                    e0 == g0[gi as int].1@,
                    ({
                        let done = flatten_contained(g0.take(gi as int)) + keyed_contained(
                            kind,
                            e0.take(ei as int),
                        );
                        &&& flat_cb@.len() == done.len()
                        &&& forall|k: int|
                            0 <= k < done.len() ==> (#[trigger] flat_cb@[k]).0@ == done[k].0
                                && flat_cb@[k].1 == done[k].1
                    }),
                decreases inner - ei,
            {
                proof {
                    assert(e0.skip(ei as int)[0] == e0[ei as int]);
                }
                let (id, rules) = entries.remove(0);
                proof {
                    assert(entries@ =~= e0.skip(ei + 1));
                    assert(e0.take(ei + 1).drop_last() =~= e0.take(ei as int));
                    assert(e0.take(ei + 1).last() == e0[ei as int]);
                }
                let mut key = String::new();
                key.append(member_type_name(&kind));
                key.append(":");
                key.append(id.as_str());
                flat_cb.push((key, rules));
                ei = ei + 1;
            }
            proof {
                assert(e0.take(inner as int) =~= e0);
            }
            gi = gi + 1;
        }
        proof {
            assert(g0.take(outer as int) =~= g0);
        }
        let mut flat_ids: Vec<IdRule> = Vec::new();
        let mut groups = id_rules;
        let ghost h0 = groups@;
        let outer = groups.len();
        let mut gi: usize = 0;
        proof {
            assert(h0.take(0) =~= Seq::<(crate::osm::OsmMemberType, Vec<IdRule>)>::empty());
            assert(flatten_ids(h0.take(0)) =~= Seq::<(Seq<char>, Option<ZoneType>)>::empty());
        }
        while gi < outer
            invariant
                gi <= outer,
                outer == h0.len(),
                groups@ == h0.skip(gi as int),
                ({
                    let done = flatten_ids(h0.take(gi as int));
                    &&& flat_ids@.len() == done.len()
                    &&& forall|k: int|
                        0 <= k < done.len() ==> (#[trigger] flat_ids@[k]).0@ == done[k].0
                            && flat_ids@[k].1 == done[k].1
                }),
            decreases outer - gi,
        {
            proof {
                assert(h0.skip(gi as int)[0] == h0[gi as int]);
            }
            let (kind, entries) = groups.remove(0);
            proof {
                assert(groups@ =~= h0.skip(gi + 1));
                assert(h0.take(gi + 1).drop_last() =~= h0.take(gi as int));
                assert(h0.take(gi + 1).last() == h0[gi as int]);
            }
            let mut entries = entries;
            let ghost e0 = entries@;
            let inner = entries.len();
            let mut ei: usize = 0;
            while ei < inner
                invariant
                    ei <= inner,
                    inner == e0.len(),
                    entries@ == e0.skip(ei as int),
                    kind == h0[gi as int].0,
                    gi < outer,
                    outer == h0.len(),
                    e0 == h0[gi as int].1@,
                    ({
                        let done = flatten_ids(h0.take(gi as int)) + keyed_ids(
                            kind,
                            e0.take(ei as int),
                        );
                        &&& flat_ids@.len() == done.len()
                        &&& forall|k: int|
                            0 <= k < done.len() ==> (#[trigger] flat_ids@[k]).0@ == done[k].0
                                && flat_ids@[k].1 == done[k].1
                    }),
                decreases inner - ei,
            {
                proof {
                    assert(e0.skip(ei as int)[0] == e0[ei as int]);
                }
                let (id, rule) = entries.remove(0);
                proof {
                    assert(entries@ =~= e0.skip(ei + 1));
                    assert(e0.take(ei + 1).drop_last() =~= e0.take(ei as int));
                    assert(e0.take(ei + 1).last() == e0[ei as int]);
                }
                let mut key = String::new();
                key.append(member_type_name(&kind));
                key.append(":");
                key.append(id.as_str());
                flat_ids.push((key, rule));
                ei = ei + 1;
            }
            proof {
                assert(e0.take(inner as int) =~= e0);
            }
            gi = gi + 1;
        }
        proof {
            assert(h0.take(outer as int) =~= h0);
        }
        RulesOverrides { contained_by: flat_cb, id_rules: flat_ids }
    }
}

/// One kind's container entries under their flat keys.
pub open spec fn keyed_contained(
    kind: crate::osm::OsmMemberType,
    entries: Seq<(String, Box<CountryAdminTypeRules>)>,
) -> Seq<(Seq<char>, Box<CountryAdminTypeRules>)> {
    Seq::new(entries.len(), |i: int| (rule_key(kind, entries[i].0@), entries[i].1))
}

/// The container groups flattened in order.
pub open spec fn flatten_contained(
    groups: Seq<(crate::osm::OsmMemberType, Vec<(String, Box<CountryAdminTypeRules>)>)>,
) -> Seq<(Seq<char>, Box<CountryAdminTypeRules>)>
    decreases groups.len(),
{
    if groups.len() == 0 {
        Seq::empty()
    } else {
        flatten_contained(groups.drop_last()) + keyed_contained(
            groups.last().0,
            groups.last().1@,
        )
    }
}

/// One kind's id rules under their flat keys.
pub open spec fn keyed_ids(kind: crate::osm::OsmMemberType, entries: Seq<IdRule>) -> Seq<(
    Seq<char>,
    Option<ZoneType>,
)> {
    Seq::new(entries.len(), |i: int| (rule_key(kind, entries[i].0@), entries[i].1))
}

/// The id-rule groups flattened in order.
pub open spec fn flatten_ids(groups: Seq<(crate::osm::OsmMemberType, Vec<IdRule>)>) -> Seq<(
    Seq<char>,
    Option<ZoneType>,
)>
    decreases groups.len(),
{
    if groups.len() == 0 {
        Seq::empty()
    } else {
        flatten_ids(groups.drop_last()) + keyed_ids(groups.last().0, groups.last().1@)
    }
}

/// First-match lookup of a country's rule set.
pub open spec fn country_get(s: Seq<(String, CountryAdminTypeRules)>, k: Seq<char>) -> Option<
    CountryAdminTypeRules,
>
    decreases s.len(),
{
    if s.len() == 0 {
        None
    } else if s[0].0@ == k {
        Some(s[0].1)
    } else {
        country_get(s.skip(1), k)
    }
}

/// When the first `i` countries miss the code, the scan may start at `i`.
proof fn lemma_country_get_skip(s: Seq<(String, CountryAdminTypeRules)>, k: Seq<char>, i: int)
    requires
        0 <= i <= s.len(),
        forall|j: int| 0 <= j < i ==> s[j].0@ != k,
    ensures
        country_get(s, k) == country_get(s.skip(i), k),
    decreases i,
{
    if i > 0 {
        lemma_country_get_skip(s.skip(1), k, i - 1);
        assert(s.skip(1).skip(i - 1) =~= s.skip(i));
    } else {
        assert(s.skip(0) =~= s);
    }
}

/// The ancestor OSM ids a zone's inclusion list names, in order.
pub open spec fn ancestors_of(zs: Seq<Zone>, incl: Seq<ZoneIndex>) -> Seq<Seq<char>> {
    Seq::new(incl.len(), |k: int| zs[incl[k].index as int].osm_id@)
}

/// The typer: rule sets keyed by upper-case country code.
#[derive(Debug)]
pub struct ZoneTyper {
    pub countries_rules: Vec<(String, CountryAdminTypeRules)>,
}

impl ZoneTyper {
    /// Build a typer; an empty corpus gives nothing, since no zone could
    /// ever be typed.
    pub fn new(countries_rules: Vec<(String, CountryAdminTypeRules)>) -> (r: Option<ZoneTyper>)
        ensures
            r is Some <==> countries_rules@.len() > 0,
            match r {
                Some(t) => t.countries_rules@ == countries_rules@,
                None => true,
            },
    {
        if countries_rules.len() == 0 {
            None
        } else {
            Some(ZoneTyper { countries_rules })
        }
    }

    /// Whether a rule set exists for the code.
    pub fn contains_rule(&self, country_code: &str) -> (r: bool)
        ensures
            r == (country_get(self.countries_rules@, country_code@) is Some),
    {
        let n = self.countries_rules.len();
        let mut i: usize = 0;
        while i < n
            invariant
                i <= n,
                n == self.countries_rules@.len(),
                forall|j: int| 0 <= j < i ==> self.countries_rules@[j].0@ != country_code@,
            decreases n - i,
        {
            if str_eq(self.countries_rules[i].0.as_str(), country_code) {
                proof {
                    lemma_country_get_skip(self.countries_rules@, country_code@, i as int);
                }
                return true;
            }
            i = i + 1;
        }
        proof {
            lemma_country_get_skip(self.countries_rules@, country_code@, n as int);
            assert(self.countries_rules@.skip(n as int) =~= Seq::<(
                String,
                CountryAdminTypeRules,
            )>::empty());
        }
        false
    }

    /// The kind of a zone under its country's rules: an unknown country
    /// and a level the rules pass over are the two errors, each reported
    /// exactly when it holds.
    pub fn get_zone_type(
        &self,
        zone: &Zone,
        country_code: &str,
        zone_inclusions: &Vec<ZoneIndex>,
        all_zones: &Vec<Zone>,
    ) -> (r: Result<ZoneType, ZoneTyperError>)
        requires
            forall|k: int|
                0 <= k < zone_inclusions@.len() ==> (#[trigger] zone_inclusions@[k]).index
                    < all_zones@.len(),
        ensures
            match country_get(self.countries_rules@, country_code@) {
                None => match r {
                    Err(ZoneTyperError::InvalidCountry(c)) => c@ == country_code@,
                    _ => false,
                },
                Some(rules) => match rules.spec_type(
                    zone.osm_id@,
                    zone.admin_level,
                    ancestors_of(all_zones@, zone_inclusions@),
                ) {
                    Some(t) => r == Ok::<ZoneType, ZoneTyperError>(t),
                    None => match r {
                        Err(ZoneTyperError::UnkownLevel(l, c)) => l == zone.admin_level && c@
                            == country_code@,
                        _ => false,
                    },
                },
            },
    {
        // the rule set of the country
        let n = self.countries_rules.len();
        let mut i: usize = 0;
        let mut found: Option<usize> = None;
        while i < n
            invariant
                i <= n,
                n == self.countries_rules@.len(),
                match found {
                    Some(f) => f < n && self.countries_rules@[f as int].0@ == country_code@
                        && country_get(self.countries_rules@, country_code@) == Some(
                        self.countries_rules@[f as int].1,
                    ),
                    None => forall|j: int|
                        0 <= j < i ==> self.countries_rules@[j].0@ != country_code@,
                },
            decreases n - i,
        {
            if found.is_none() && str_eq(self.countries_rules[i].0.as_str(), country_code) {
                proof {
                    lemma_country_get_skip(self.countries_rules@, country_code@, i as int);
                }
                found = Some(i);
            }
            i = i + 1;
        }
        let rules_at = match found {
            Some(f) => f,
            None => {
                proof {
                    lemma_country_get_skip(self.countries_rules@, country_code@, n as int);
                    assert(self.countries_rules@.skip(n as int) =~= Seq::<(
                        String,
                        CountryAdminTypeRules,
                    )>::empty());
                }
                let mut code = String::new();
                code.append(country_code);
                return Err(ZoneTyperError::InvalidCountry(code));
            },
        };
        // the ancestors' OSM ids, in inclusion order
        let m = zone_inclusions.len();
        let mut ancestors: Vec<String> = Vec::new();
        let mut k: usize = 0;
        while k < m
            invariant
                k <= m,
                m == zone_inclusions@.len(),
                forall|q: int|
                    0 <= q < m ==> (#[trigger] zone_inclusions@[q]).index < all_zones@.len(),
                ancestors@.len() == k,
                forall|q: int|
                    0 <= q < k ==> (#[trigger] ancestors@[q])@ == all_zones@[zone_inclusions@[q].index as int].osm_id@,
            decreases m - k,
        {
            ancestors.push(all_zones[zone_inclusions[k].index].osm_id.clone());
            k = k + 1;
        }
        proof {
            assert(views_of(ancestors@) =~= ancestors_of(all_zones@, zone_inclusions@));
        }
        let rules = &self.countries_rules[rules_at].1;
        match rules.get_zone_type(zone.osm_id.as_str(), &zone.admin_level, &ancestors) {
            Some(t) => Ok(t),
            None => {
                let mut code = String::new();
                code.append(country_code);
                Err(ZoneTyperError::UnkownLevel(zone.admin_level, code))
            },
        }
    }
}

} // verus!
