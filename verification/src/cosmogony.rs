//! The run's output record, and the census over the produced zones.

use vstd::prelude::*;
use crate::strings::str_eq;
use crate::zone::{Zone, ZoneType};

verus! {

/// First-match lookup in a counter keyed by level.
pub open spec fn level_count_get(s: Seq<(u32, u64)>, k: u32) -> Option<u64>
    decreases s.len(),
{
    if s.len() == 0 {
        None
    } else if s[0].0 == k {
        Some(s[0].1)
    } else {
        level_count_get(s.skip(1), k)
    }
}

/// First-match lookup in a counter keyed by a name.
pub open spec fn name_count_get(s: Seq<(Seq<char>, u64)>, k: Seq<char>) -> Option<u64>
    decreases s.len(),
{
    if s.len() == 0 {
        None
    } else if s[0].0 == k {
        Some(s[0].1)
    } else {
        name_count_get(s.skip(1), k)
    }
}

/// The view of a name counter.
pub open spec fn name_counts_view(v: Seq<(String, u64)>) -> Seq<(Seq<char>, u64)> {
    Seq::new(v.len(), |i: int| (v[i].0@, v[i].1))
}

/// The level a zone counts under: its admin level, or zero.
pub open spec fn level_or_zero(z: Zone) -> u32 {
    match z.admin_level {
        Some(l) => l,
        None => 0,
    }
}

/// The name a zone's kind is counted under.
pub open spec fn spec_type_label(t: Option<ZoneType>) -> Seq<char> {
    match t {
        Some(ZoneType::Suburb) => "Suburb"@,
        Some(ZoneType::CityDistrict) => "CityDistrict"@,
        Some(ZoneType::City) => "City"@,
        Some(ZoneType::StateDistrict) => "StateDistrict"@,
        Some(ZoneType::State) => "State"@,
        Some(ZoneType::CountryRegion) => "CountryRegion"@,
        Some(ZoneType::Country) => "Country"@,
        Some(ZoneType::NonAdministrative) => "NonAdministrative"@,
        None => "None"@,
    }
}

/// Write the name a zone's kind is counted under.
pub fn type_label(t: &Option<ZoneType>) -> (r: &'static str)
    ensures
        r@ == spec_type_label(*t),
{
    match t {
        Some(ZoneType::Suburb) => "Suburb",
        Some(ZoneType::CityDistrict) => "CityDistrict",
        Some(ZoneType::City) => "City",
        Some(ZoneType::StateDistrict) => "StateDistrict",
        Some(ZoneType::State) => "State",
        Some(ZoneType::CountryRegion) => "CountryRegion",
        Some(ZoneType::Country) => "Country",
        Some(ZoneType::NonAdministrative) => "NonAdministrative",
        None => "None",
    }
}

/// How many of the zones sit at this level.
pub open spec fn count_by_level(zs: Seq<Zone>, l: u32) -> nat
    decreases zs.len(),
{
    if zs.len() == 0 {
        0
    } else {
        count_by_level(zs.drop_last(), l) + if level_or_zero(zs.last()) == l {
            1nat
        } else {
            0nat
        }
    }
}

/// How many of the zones carry this kind name.
pub open spec fn count_by_type(zs: Seq<Zone>, name: Seq<char>) -> nat
    decreases zs.len(),
{
    if zs.len() == 0 {
        0
    } else {
        count_by_type(zs.drop_last(), name) + if spec_type_label(zs.last().zone_type) == name {
            1nat
        } else {
            0nat
        }
    }
}

/// How many of the zones at this level carry a wikidata id.
pub open spec fn count_wikidata(zs: Seq<Zone>, l: u32) -> nat
    decreases zs.len(),
{
    if zs.len() == 0 {
        0
    } else {
        count_wikidata(zs.drop_last(), l) + if level_or_zero(zs.last()) == l && zs.last().wikidata
            is Some {
            1nat
        } else {
            0nat
        }
    }
}

/// A count read as a number, zero when the key was never counted.
pub open spec fn level_count_or_zero(s: Seq<(u32, u64)>, k: u32) -> nat {
    match level_count_get(s, k) {
        Some(c) => c as nat,
        None => 0,
    }
}

/// A count read as a number, zero when the key was never counted.
pub open spec fn name_count_or_zero(s: Seq<(Seq<char>, u64)>, k: Seq<char>) -> nat {
    match name_count_get(s, k) {
        Some(c) => c as nat,
        None => 0,
    }
}

/// When the first `i` entries miss the key, the scan may start at `i`.
proof fn lemma_level_count_get_skip(s: Seq<(u32, u64)>, k: u32, i: int)
    requires
        0 <= i <= s.len(),
        forall|j: int| 0 <= j < i ==> s[j].0 != k,
    ensures
        level_count_get(s, k) == level_count_get(s.skip(i), k),
    decreases i,
{
    if i > 0 {
        lemma_level_count_get_skip(s.skip(1), k, i - 1);
        assert(s.skip(1).skip(i - 1) =~= s.skip(i));
    } else {
        assert(s.skip(0) =~= s);
    }
}

/// Bump the count under `k` by one; every other key keeps its count.
pub fn bump_level_count(counts: &mut Vec<(u32, u64)>, k: u32)
    requires
        level_keys_distinct(old(counts)@),
        forall|j: int| 0 <= j < old(counts)@.len() ==> (#[trigger] old(counts)@[j]).1 < u64::MAX,
    ensures
        level_keys_distinct(final(counts)@),
        forall|q: u32|
            level_count_or_zero(final(counts)@, q) == level_count_or_zero(old(counts)@, q) + (
            if q == k {
                1nat
            } else {
                0nat
            }),
{
    let n = counts.len();
    let mut i: usize = 0;
    while i < n
        invariant
            i <= n,
            n == counts@.len(),
            *counts == *old(counts),
            level_keys_distinct(counts@),
            forall|j: int| 0 <= j < n ==> (#[trigger] counts@[j]).1 < u64::MAX,
            forall|j: int| 0 <= j < i ==> (#[trigger] counts@[j]).0 != k,
        decreases n - i,
    {
        if counts[i].0 == k {
            let ghost distinct_before = counts@;
            let ghost before = counts@;
            let c = counts[i].1;
            counts[i].1 = c + 1;
            proof {
                assert(level_keys_distinct(counts@)) by {
                    assert forall|a: int, b: int| 0 <= a < b < counts@.len() implies counts@[a].0
                        != counts@[b].0 by {
                        assert(before[a].0 != before[b].0);
                    }
                }
                assert forall|q: u32|
                    level_count_or_zero(counts@, q) == level_count_or_zero(before, q) + (if q == k {
                        1nat
                    } else {
                        0nat
                    }) by {
                    lemma_level_bump_at(before, counts@, i as int, q);
                }
            }
            return ;
        }
        i = i + 1;
    }
    let ghost before = counts@;
    counts.push((k, 1));
    proof {
        assert(level_keys_distinct(counts@)) by {
            assert forall|a: int, b: int| 0 <= a < b < counts@.len() implies counts@[a].0
                != counts@[b].0 by {
                if b == counts@.len() - 1 {
                    assert(before[a].0 != k);
                }
            }
        }
        assert forall|q: u32|
            level_count_or_zero(counts@, q) == level_count_or_zero(before, q) + (if q == k {
                1nat
            } else {
                0nat
            }) by {
            lemma_level_push(before, k, 1, q);
        }
    }
}

/// A bump at the first position holding the key is a bump of that key's
/// count.
proof fn lemma_level_bump_at(s1: Seq<(u32, u64)>, s2: Seq<(u32, u64)>, i: int, q: u32)
    requires
        0 <= i < s1.len(),
        s2.len() == s1.len(),
        forall|j: int| 0 <= j < i ==> s1[j].0 != s1[i].0,
        forall|j: int| 0 <= j < s1.len() && j != i ==> s2[j] == s1[j],
        s2[i].0 == s1[i].0,
        s1[i].1 < u64::MAX,
        s2[i].1 == s1[i].1 + 1,
    ensures
        level_count_or_zero(s2, q) == level_count_or_zero(s1, q) + (if q == s1[i].0 {
            1nat
        } else {
            0nat
        }),
    decreases i,
{
    if i == 0 {
        if q != s1[0].0 {
            assert(s1.skip(1) =~= s2.skip(1));
        }
    } else {
        assert(s1.skip(1).len() == s1.len() - 1);
        assert(s1[0] == s2[0]);
        lemma_level_bump_at(s1.skip(1), s2.skip(1), i - 1, q);
    }
}

/// A fresh key appended with count one bumps exactly that key from zero.
proof fn lemma_level_push(s: Seq<(u32, u64)>, k: u32, c: u64, q: u32)
    requires
        forall|j: int| 0 <= j < s.len() ==> (#[trigger] s[j]).0 != k,
        c == 1,
    ensures
        level_count_or_zero(s.push((k, c)), q) == level_count_or_zero(s, q) + (if q == k {
            1nat
        } else {
            0nat
        }),
    decreases s.len(),
{
    let t = s.push((k, c));
    if s.len() == 0 {
        assert(t[0] == (k, c));
        assert(t.skip(1) =~= Seq::<(u32, u64)>::empty());
        if q == k {
            assert(level_count_get(t, q) == Some(c));
        } else {
            assert(level_count_get(t, q) == level_count_get(t.skip(1), q));
        }
    } else {
        assert(t[0] == s[0]);
        assert(t.skip(1) =~= s.skip(1).push((k, c)));
        assert forall|j: int| 0 <= j < s.skip(1).len() implies (#[trigger] s.skip(1)[j]).0 != k by {
            assert(s[j + 1].0 != k);
        }
        lemma_level_push(s.skip(1), k, c, q);
        if s[0].0 == q {
            assert(s[0].0 != k);
            assert(level_count_get(t, q) == Some(s[0].1));
            assert(level_count_get(s, q) == Some(s[0].1));
        } else {
            assert(level_count_get(t, q) == level_count_get(s.skip(1).push((k, c)), q));
            assert(level_count_get(s, q) == level_count_get(s.skip(1), q));
        }
    }
}

/// The census of a run.
#[derive(Debug)]
pub struct CosmogonyStats {
    /// zones per admin level (zero stands for none)
    pub level_counts: Vec<(u32, u64)>,
    /// zones per kind name
    pub zone_type_counts: Vec<(String, u64)>,
    /// zones with a wikidata id, per admin level
    pub wikidata_counts: Vec<(u32, u64)>,
    /// zones whose country has no rule set, per country code
    pub zone_with_unkwown_country_rules: Vec<(String, u64)>,
    /// zones whose level no rule names, per country code and level
    pub unhandled_admin_level: Vec<(String, Vec<(u32, u64)>)>,
    /// zones for which no country was found
    pub zone_without_country: usize,
}

impl Default for CosmogonyStats {
    /// The empty census.
    fn default() -> (r: CosmogonyStats)
        ensures
            r.level_counts@ == Seq::<(u32, u64)>::empty(),
            r.zone_type_counts@ == Seq::<(String, u64)>::empty(),
            r.wikidata_counts@ == Seq::<(u32, u64)>::empty(),
            r.zone_with_unkwown_country_rules@ == Seq::<(String, u64)>::empty(),
            r.unhandled_admin_level@ == Seq::<(String, Vec<(u32, u64)>)>::empty(),
            r.zone_without_country == 0,
    {
        CosmogonyStats {
            level_counts: Vec::new(),
            zone_type_counts: Vec::new(),
            wikidata_counts: Vec::new(),
            zone_with_unkwown_country_rules: Vec::new(),
            unhandled_admin_level: Vec::new(),
            zone_without_country: 0,
        }
    }
}

impl CosmogonyStats {
    /// Count the zones by admin level, kind name, and wikidata presence;
    /// every level and every kind comes out with its exact number.
    pub fn compute(&mut self, zones: &Vec<Zone>)
        requires
            old(self).level_counts@ == Seq::<(u32, u64)>::empty(),
            old(self).zone_type_counts@ == Seq::<(String, u64)>::empty(),
            old(self).wikidata_counts@ == Seq::<(u32, u64)>::empty(),
            zones@.len() < u64::MAX,
        ensures
            *final(self) == (CosmogonyStats {
                level_counts: final(self).level_counts,
                zone_type_counts: final(self).zone_type_counts,
                wikidata_counts: final(self).wikidata_counts,
                ..*old(self)
            }),
            forall|l: u32|
                level_count_or_zero(final(self).level_counts@, l) == count_by_level(zones@, l),
            forall|name: Seq<char>|
                name_count_or_zero(name_counts_view(final(self).zone_type_counts@), name)
                    == count_by_type(zones@, name),
            forall|l: u32|
                level_count_or_zero(final(self).wikidata_counts@, l) == count_wikidata(zones@, l),
    {
        let n = zones.len();
        let mut i: usize = 0;
        while i < n
            invariant
                i <= n,
                n == zones@.len(),
                n < u64::MAX,
                *self == (CosmogonyStats {
                    level_counts: self.level_counts,
                    zone_type_counts: self.zone_type_counts,
                    wikidata_counts: self.wikidata_counts,
                    ..*old(self)
                }),
                forall|l: u32|
                    level_count_or_zero(self.level_counts@, l) == count_by_level(
                        zones@.take(i as int),
                        l,
                    ),
                forall|name: Seq<char>|
                    name_count_or_zero(name_counts_view(self.zone_type_counts@), name)
                        == count_by_type(zones@.take(i as int), name),
                forall|l: u32|
                    level_count_or_zero(self.wikidata_counts@, l) == count_wikidata(
                        zones@.take(i as int),
                        l,
                    ),
                level_keys_distinct(self.level_counts@),
                name_keys_distinct(name_counts_view(self.zone_type_counts@)),
                level_keys_distinct(self.wikidata_counts@),
            decreases n - i,
        {
            proof {
                assert forall|j: int| 0 <= j < self.level_counts@.len() implies (
                #[trigger] self.level_counts@[j]).1 < u64::MAX by {
                    lemma_level_own_key(self.level_counts@, j);
                    let key = self.level_counts@[j].0;
                    assert(level_count_or_zero(self.level_counts@, key) == count_by_level(
                        zones@.take(i as int),
                        key,
                    ));
                    lemma_count_by_level_le(zones@.take(i as int), key);
                }
                assert forall|j: int| 0 <= j < self.zone_type_counts@.len() implies (
                #[trigger] self.zone_type_counts@[j]).1 < u64::MAX by {
                    lemma_name_own_key(name_counts_view(self.zone_type_counts@), j);
                    let key = name_counts_view(self.zone_type_counts@)[j].0;
                    assert(name_count_or_zero(name_counts_view(self.zone_type_counts@), key)
                        == count_by_type(zones@.take(i as int), key));
                    lemma_count_by_type_le(zones@.take(i as int), key);
                }
                assert forall|j: int| 0 <= j < self.wikidata_counts@.len() implies (
                #[trigger] self.wikidata_counts@[j]).1 < u64::MAX by {
                    lemma_level_own_key(self.wikidata_counts@, j);
                    let key = self.wikidata_counts@[j].0;
                    assert(level_count_or_zero(self.wikidata_counts@, key) == count_wikidata(
                        zones@.take(i as int),
                        key,
                    ));
                    lemma_count_wikidata_le(zones@.take(i as int), key);
                }
            }
            proof {
                assert(zones@.take(i + 1).drop_last() =~= zones@.take(i as int));
                assert(zones@.take(i + 1).last() == zones@[i as int]);
            }
            let level = match zones[i].admin_level {
                Some(l) => l,
                None => 0,
            };
            bump_level_count(&mut self.level_counts, level);
            let label = type_label(&zones[i].zone_type);
            bump_name_count(&mut self.zone_type_counts, label);
            if zones[i].wikidata.is_some() {
                bump_level_count(&mut self.wikidata_counts, level);
            }
            i = i + 1;
        }
        proof {
            assert(zones@.take(n as int) =~= zones@);
        }
    }
}

/// No level appears twice among the counter's keys.
pub open spec fn level_keys_distinct(s: Seq<(u32, u64)>) -> bool {
    forall|i: int, j: int| 0 <= i < j < s.len() ==> s[i].0 != s[j].0
}

/// No name appears twice among the counter's keys.
pub open spec fn name_keys_distinct(s: Seq<(Seq<char>, u64)>) -> bool {
    forall|i: int, j: int| 0 <= i < j < s.len() ==> s[i].0 != s[j].0
}

/// A count never exceeds the number of zones counted.
proof fn lemma_count_by_level_le(zs: Seq<Zone>, l: u32)
    ensures
        count_by_level(zs, l) <= zs.len(),
    decreases zs.len(),
{
    if zs.len() > 0 {
        lemma_count_by_level_le(zs.drop_last(), l);
    }
}

/// A count never exceeds the number of zones counted.
proof fn lemma_count_by_type_le(zs: Seq<Zone>, name: Seq<char>)
    ensures
        count_by_type(zs, name) <= zs.len(),
    decreases zs.len(),
{
    if zs.len() > 0 {
        lemma_count_by_type_le(zs.drop_last(), name);
    }
}

/// A count never exceeds the number of zones counted.
proof fn lemma_count_wikidata_le(zs: Seq<Zone>, l: u32)
    ensures
        count_wikidata(zs, l) <= zs.len(),
    decreases zs.len(),
{
    if zs.len() > 0 {
        lemma_count_wikidata_le(zs.drop_last(), l);
    }
}

/// With distinct keys, looking an entry's own key up finds its value.
pub proof fn lemma_level_own_key(s: Seq<(u32, u64)>, j: int)
    requires
        level_keys_distinct(s),
        0 <= j < s.len(),
    ensures
        level_count_get(s, s[j].0) == Some(s[j].1),
    decreases j,
{
    if j > 0 {
        assert(s[0].0 != s[j].0);
        assert(level_keys_distinct(s.skip(1))) by {
            assert forall|a: int, b: int| 0 <= a < b < s.skip(1).len() implies s.skip(1)[a].0
                != s.skip(1)[b].0 by {
                assert(s[a + 1].0 != s[b + 1].0);
            }
        }
        lemma_level_own_key(s.skip(1), j - 1);
        assert(s.skip(1)[j - 1] == s[j]);
    }
}

/// With distinct keys, looking an entry's own key up finds its value.
pub proof fn lemma_name_own_key(s: Seq<(Seq<char>, u64)>, j: int)
    requires
        name_keys_distinct(s),
        0 <= j < s.len(),
    ensures
        name_count_get(s, s[j].0) == Some(s[j].1),
    decreases j,
{
    if j > 0 {
        assert(s[0].0 != s[j].0);
        assert(name_keys_distinct(s.skip(1))) by {
            assert forall|a: int, b: int| 0 <= a < b < s.skip(1).len() implies s.skip(1)[a].0
                != s.skip(1)[b].0 by {
                assert(s[a + 1].0 != s[b + 1].0);
            }
        }
        lemma_name_own_key(s.skip(1), j - 1);
        assert(s.skip(1)[j - 1] == s[j]);
    }
}

/// When the first `i` entries miss the key, the scan may start at `i`.
proof fn lemma_name_count_get_skip(s: Seq<(Seq<char>, u64)>, k: Seq<char>, i: int)
    requires
        0 <= i <= s.len(),
        forall|j: int| 0 <= j < i ==> s[j].0 != k,
    ensures
        name_count_get(s, k) == name_count_get(s.skip(i), k),
    decreases i,
{
    if i > 0 {
        lemma_name_count_get_skip(s.skip(1), k, i - 1);
        assert(s.skip(1).skip(i - 1) =~= s.skip(i));
    } else {
        assert(s.skip(0) =~= s);
    }
}

/// A bump at the first position holding the key is a bump of that key's
/// count.
proof fn lemma_name_bump_at(s1: Seq<(Seq<char>, u64)>, s2: Seq<(Seq<char>, u64)>, i: int, q: Seq<char>)
    requires
        0 <= i < s1.len(),
        s2.len() == s1.len(),
        forall|j: int| 0 <= j < i ==> s1[j].0 != s1[i].0,
        forall|j: int| 0 <= j < s1.len() && j != i ==> s2[j] == s1[j],
        s2[i].0 == s1[i].0,
        s1[i].1 < u64::MAX,
        s2[i].1 == s1[i].1 + 1,
    ensures
        name_count_or_zero(s2, q) == name_count_or_zero(s1, q) + (if q == s1[i].0 {
            1nat
        } else {
            0nat
        }),
    decreases i,
{
    if i == 0 {
        if q != s1[0].0 {
            assert(s1.skip(1) =~= s2.skip(1));
        }
    } else {
        assert(s1[0] == s2[0]);
        lemma_name_bump_at(s1.skip(1), s2.skip(1), i - 1, q);
    }
}

/// A fresh key appended with count one bumps exactly that key from zero.
proof fn lemma_name_push(s: Seq<(Seq<char>, u64)>, k: Seq<char>, c: u64, q: Seq<char>)
    requires
        forall|j: int| 0 <= j < s.len() ==> (#[trigger] s[j]).0 != k,
        c == 1,
    ensures
        name_count_or_zero(s.push((k, c)), q) == name_count_or_zero(s, q) + (if q == k {
            1nat
        } else {
            0nat
        }),
    decreases s.len(),
{
    let t = s.push((k, c));
    if s.len() == 0 {
        assert(t[0] == (k, c));
        assert(t.skip(1) =~= Seq::<(Seq<char>, u64)>::empty());
        if q == k {
            assert(name_count_get(t, q) == Some(c));
        } else {
            assert(name_count_get(t, q) == name_count_get(t.skip(1), q));
        }
    } else {
        assert(t[0] == s[0]);
        assert(t.skip(1) =~= s.skip(1).push((k, c)));
        assert forall|j: int| 0 <= j < s.skip(1).len() implies (#[trigger] s.skip(1)[j]).0 != k by {
            assert(s[j + 1].0 != k);
        }
        lemma_name_push(s.skip(1), k, c, q);
        if s[0].0 == q {
            assert(s[0].0 != k);
            assert(name_count_get(t, q) == Some(s[0].1));
            assert(name_count_get(s, q) == Some(s[0].1));
        } else {
            assert(name_count_get(t, q) == name_count_get(s.skip(1).push((k, c)), q));
            assert(name_count_get(s, q) == name_count_get(s.skip(1), q));
        }
    }
}

/// Bump the count under the name `k` by one.
pub fn bump_name_count(counts: &mut Vec<(String, u64)>, k: &str)
    requires
        name_keys_distinct(name_counts_view(old(counts)@)),
        forall|j: int| 0 <= j < old(counts)@.len() ==> (#[trigger] old(counts)@[j]).1 < u64::MAX,
    ensures
        name_keys_distinct(name_counts_view(final(counts)@)),
        forall|q: Seq<char>|
            name_count_or_zero(name_counts_view(final(counts)@), q) == name_count_or_zero(
                name_counts_view(old(counts)@),
                q,
            ) + (if q == k@ {
                1nat
            } else {
                0nat
            }),
{
    let n = counts.len();
    let mut i: usize = 0;
    while i < n
        invariant
            i <= n,
            n == counts@.len(),
            *counts == *old(counts),
            name_keys_distinct(name_counts_view(counts@)),
            forall|j: int| 0 <= j < n ==> (#[trigger] counts@[j]).1 < u64::MAX,
            forall|j: int| 0 <= j < i ==> name_counts_view(counts@)[j].0 != k@,
        decreases n - i,
    {
        if str_eq(counts[i].0.as_str(), k) {
            let ghost before = name_counts_view(counts@);
            let c = counts[i].1;
            counts[i].1 = c + 1;
            proof {
                assert(name_keys_distinct(name_counts_view(counts@))) by {
                    assert forall|a: int, b: int|
                        0 <= a < b < name_counts_view(counts@).len() implies name_counts_view(
                        counts@,
                    )[a].0 != name_counts_view(counts@)[b].0 by {
                        assert(before[a].0 != before[b].0);
                    }
                }
                assert forall|q: Seq<char>|
                    name_count_or_zero(name_counts_view(counts@), q) == name_count_or_zero(
                        before,
                        q,
                    ) + (if q == k@ {
                        1nat
                    } else {
                        0nat
                    }) by {
                    lemma_name_bump_at(before, name_counts_view(counts@), i as int, q);
                }
            }
            return ;
        }
        i = i + 1;
    }
    let ghost before = name_counts_view(counts@);
    let mut owned = String::new();
    owned.append(k);
    proof {
        assert(owned@ =~= k@);
    }
    counts.push((owned, 1));
    proof {
        assert(name_counts_view(counts@) =~= before.push((k@, 1)));
        assert(name_keys_distinct(name_counts_view(counts@))) by {
            assert forall|a: int, b: int| 0 <= a < b < name_counts_view(counts@).len() implies
                name_counts_view(counts@)[a].0 != name_counts_view(counts@)[b].0 by {
                if b == name_counts_view(counts@).len() - 1 {
                    assert(before[a].0 != k@);
                }
            }
        }
        assert forall|q: Seq<char>|
            name_count_or_zero(name_counts_view(counts@), q) == name_count_or_zero(before, q) + (
            if q == k@ {
                1nat
            } else {
                0nat
            }) by {
            lemma_name_push(before, k@, 1, q);
        }
    }
}

/// The view of a nested, per-country-and-level counter.
pub open spec fn nested_counts_view(v: Seq<(String, Vec<(u32, u64)>)>) -> Seq<(
    Seq<char>,
    Seq<(u32, u64)>,
)> {
    Seq::new(v.len(), |i: int| (v[i].0@, v[i].1@))
}

/// First-match lookup in a nested counter: the country's table, then the
/// level's count.
pub open spec fn nested_count_get(s: Seq<(Seq<char>, Seq<(u32, u64)>)>, c: Seq<char>, l: u32) -> Option<u64>
    decreases s.len(),
{
    if s.len() == 0 {
        None
    } else if s[0].0 == c {
        level_count_get(s[0].1, l)
    } else {
        nested_count_get(s.skip(1), c, l)
    }
}

/// A nested count read as a number, zero when never counted.
pub open spec fn nested_count_or_zero(s: Seq<(Seq<char>, Seq<(u32, u64)>)>, c: Seq<char>, l: u32) -> nat {
    match nested_count_get(s, c, l) {
        Some(v) => v as nat,
        None => 0,
    }
}

/// No country appears twice, and no level twice inside one country.
pub open spec fn nested_keys_distinct(s: Seq<(Seq<char>, Seq<(u32, u64)>)>) -> bool {
    &&& forall|i: int, j: int| 0 <= i < j < s.len() ==> s[i].0 != s[j].0
    &&& forall|i: int| 0 <= i < s.len() ==> level_keys_distinct((#[trigger] s[i]).1)
}

/// When the first `i` countries miss `c`, the scan may start at `i`.
proof fn lemma_nested_count_get_skip(s: Seq<(Seq<char>, Seq<(u32, u64)>)>, c: Seq<char>, l: u32, i: int)
    requires
        0 <= i <= s.len(),
        forall|j: int| 0 <= j < i ==> s[j].0 != c,
    ensures
        nested_count_get(s, c, l) == nested_count_get(s.skip(i), c, l),
    decreases i,
{
    if i > 0 {
        lemma_nested_count_get_skip(s.skip(1), c, l, i - 1);
        assert(s.skip(1).skip(i - 1) =~= s.skip(i));
    } else {
        assert(s.skip(0) =~= s);
    }
}

/// With distinct countries, the lookup of an entry's own country reads
/// that entry's table.
pub proof fn lemma_nested_own_key(s: Seq<(Seq<char>, Seq<(u32, u64)>)>, j: int, l: u32)
    requires
        forall|a: int, b: int| 0 <= a < b < s.len() ==> s[a].0 != s[b].0,
        0 <= j < s.len(),
    ensures
        nested_count_get(s, s[j].0, l) == level_count_get(s[j].1, l),
    decreases j,
{
    if j > 0 {
        assert(s[0].0 != s[j].0);
        assert forall|a: int, b: int| 0 <= a < b < s.skip(1).len() implies s.skip(1)[a].0
            != s.skip(1)[b].0 by {
            assert(s[a + 1].0 != s[b + 1].0);
        }
        lemma_nested_own_key(s.skip(1), j - 1, l);
        assert(s.skip(1)[j - 1] == s[j]);
    }
}

/// Bump the count under country `c` and level `l` by one; every other
/// pair keeps its count.
pub fn bump_nested_count(counts: &mut Vec<(String, Vec<(u32, u64)>)>, c: &str, l: u32)
    requires
        nested_keys_distinct(nested_counts_view(old(counts)@)),
        forall|i: int, j: int|
            0 <= i < old(counts)@.len() && 0 <= j < (#[trigger] old(counts)@[i]).1@.len() ==> (
            #[trigger] old(counts)@[i].1@[j]).1 < u64::MAX,
    ensures
        nested_keys_distinct(nested_counts_view(final(counts)@)),
        forall|q: Seq<char>, m: u32|
            nested_count_or_zero(nested_counts_view(final(counts)@), q, m) == nested_count_or_zero(
                nested_counts_view(old(counts)@),
                q,
                m,
            ) + (if q == c@ && m == l {
                1nat
            } else {
                0nat
            }),
{
    let n = counts.len();
    let mut i: usize = 0;
    while i < n
        invariant
            i <= n,
            n == counts@.len(),
            *counts == *old(counts),
            nested_keys_distinct(nested_counts_view(counts@)),
            forall|a: int, j: int|
                0 <= a < counts@.len() && 0 <= j < (#[trigger] counts@[a]).1@.len() ==> (
                #[trigger] counts@[a].1@[j]).1 < u64::MAX,
            forall|j: int| 0 <= j < i ==> nested_counts_view(counts@)[j].0 != c@,
        decreases n - i,
    {
        if str_eq(counts[i].0.as_str(), c) {
            let ghost before = nested_counts_view(counts@);
            proof {
                assert(before[i as int].1 == counts@[i as int].1@);
                assert(level_keys_distinct(counts@[i as int].1@));
                assert forall|j: int| 0 <= j < counts@[i as int].1@.len() implies (
                #[trigger] counts@[i as int].1@[j]).1 < u64::MAX by {
                    assert(counts@[i as int].1@[j] == old(counts)@[i as int].1@[j]);
                }
            }
            bump_level_count(&mut counts[i].1, l);
            proof {
                let after = nested_counts_view(counts@);
                assert(after.len() == before.len());
                assert forall|a: int| 0 <= a < after.len() && a != i implies after[a] == before[a]
                    by {
                    assert(counts@[a] == old(counts)@[a]);
                }
                assert(after[i as int].0 == before[i as int].0);
                assert(nested_keys_distinct(after)) by {
                    assert forall|a: int, b: int| 0 <= a < b < after.len() implies after[a].0
                        != after[b].0 by {
                        assert(before[a].0 != before[b].0);
                    }
                    assert forall|a: int| 0 <= a < after.len() implies level_keys_distinct(
                        (#[trigger] after[a]).1,
                    ) by {
                        if a != i {
                            assert(after[a] == before[a]);
                        }
                    }
                }
                assert forall|q: Seq<char>, m: u32|
                    nested_count_or_zero(after, q, m) == nested_count_or_zero(before, q, m) + (
                    if q == c@ && m == l {
                        1nat
                    } else {
                        0nat
                    }) by {
                    lemma_nested_bump_at(before, after, i as int, q, m, l);
                }
            }
            return ;
        }
        i = i + 1;
    }
    let ghost before = nested_counts_view(counts@);
    let mut owned = String::new();
    owned.append(c);
    proof {
        assert(owned@ =~= c@);
    }
    let mut fresh: Vec<(u32, u64)> = Vec::new();
    fresh.push((l, 1));
    counts.push((owned, fresh));
    proof {
        let after = nested_counts_view(counts@);
        assert(after =~= before.push((c@, seq![(l, 1u64)])));
        assert(nested_keys_distinct(after)) by {
            assert forall|a: int, b: int| 0 <= a < b < after.len() implies after[a].0 != after[b].0
                by {
                if b == after.len() - 1 {
                    assert(before[a].0 != c@);
                } else {
                    assert(before[a].0 != before[b].0);
                }
            }
            assert forall|a: int| 0 <= a < after.len() implies level_keys_distinct(
                (#[trigger] after[a]).1,
            ) by {
                if a < before.len() {
                    assert(after[a] == before[a]);
                }
            }
        }
        assert forall|q: Seq<char>, m: u32|
            nested_count_or_zero(after, q, m) == nested_count_or_zero(before, q, m) + (if q == c@
                && m == l {
                1nat
            } else {
                0nat
            }) by {
            lemma_nested_push(before, c@, l, q, m);
        }
    }
}

/// A bump inside the first entry holding the country bumps exactly that
/// pair's count.
proof fn lemma_nested_bump_at(
    s1: Seq<(Seq<char>, Seq<(u32, u64)>)>,
    s2: Seq<(Seq<char>, Seq<(u32, u64)>)>,
    i: int,
    q: Seq<char>,
    m: u32,
    l: u32,
)
    requires
        0 <= i < s1.len(),
        s2.len() == s1.len(),
        forall|j: int| 0 <= j < i ==> s1[j].0 != s1[i].0,
        forall|j: int| 0 <= j < s1.len() && j != i ==> s2[j] == s1[j],
        s2[i].0 == s1[i].0,
        forall|w: u32|
            level_count_or_zero(s2[i].1, w) == level_count_or_zero(s1[i].1, w) + (if w == l {
                1nat
            } else {
                0nat
            }),
    ensures
        nested_count_or_zero(s2, q, m) == nested_count_or_zero(s1, q, m) + (if q == s1[i].0 && m
            == l {
            1nat
        } else {
            0nat
        }),
    decreases i,
{
    if i == 0 {
        if q != s1[0].0 {
            assert(s1.skip(1) =~= s2.skip(1));
            assert(nested_count_get(s2, q, m) == nested_count_get(s2.skip(1), q, m));
        } else {
            assert(nested_count_get(s1, q, m) == level_count_get(s1[0].1, m));
            assert(nested_count_get(s2, q, m) == level_count_get(s2[0].1, m));
            assert(level_count_or_zero(s2[0].1, m) == level_count_or_zero(s1[0].1, m) + (if m
                == l {
                1nat
            } else {
                0nat
            }));
        }
    } else {
        assert(s1[0] == s2[0]);
        assert forall|j: int| 0 <= j < i - 1 implies (#[trigger] s1.skip(1)[j]).0 != s1.skip(1)[i - 1].0 by {
            assert(s1[j + 1].0 != s1[i].0);
        }
        assert forall|j: int|
            0 <= j < s1.skip(1).len() && j != i - 1 implies s2.skip(1)[j] == s1.skip(1)[j] by {
            assert(s2[j + 1] == s1[j + 1]);
        }
        lemma_nested_bump_at(s1.skip(1), s2.skip(1), i - 1, q, m, l);
    }
}

/// A fresh country appended with a single level count of one bumps
/// exactly that pair from zero.
proof fn lemma_nested_push(
    s: Seq<(Seq<char>, Seq<(u32, u64)>)>,
    c: Seq<char>,
    l: u32,
    q: Seq<char>,
    m: u32,
)
    requires
        forall|j: int| 0 <= j < s.len() ==> (#[trigger] s[j]).0 != c,
    ensures
        nested_count_or_zero(s.push((c, seq![(l, 1u64)])), q, m) == nested_count_or_zero(s, q, m)
            + (if q == c && m == l {
            1nat
        } else {
            0nat
        }),
    decreases s.len(),
{
    let t = s.push((c, seq![(l, 1u64)]));
    if s.len() == 0 {
        assert(t[0] == (c, seq![(l, 1u64)]));
        assert(t.skip(1) =~= Seq::<(Seq<char>, Seq<(u32, u64)>)>::empty());
        if q == c {
            lemma_level_push(Seq::<(u32, u64)>::empty(), l, 1, m);
            assert(Seq::<(u32, u64)>::empty().push((l, 1u64)) =~= seq![(l, 1u64)]);
            assert(nested_count_get(t, q, m) == level_count_get(seq![(l, 1u64)], m));
        } else {
            assert(nested_count_get(t, q, m) == nested_count_get(t.skip(1), q, m));
        }
    } else {
        assert(t[0] == s[0]);
        assert(t.skip(1) =~= s.skip(1).push((c, seq![(l, 1u64)])));
        assert forall|j: int| 0 <= j < s.skip(1).len() implies (#[trigger] s.skip(1)[j]).0 != c by {
            assert(s[j + 1].0 != c);
        }
        lemma_nested_push(s.skip(1), c, l, q, m);
        if s[0].0 == q {
            assert(s[0].0 != c);
        }
    }
}

/// What a run hands back besides the zones.
#[derive(Debug)]
pub struct CosmogonyMetadata {
    pub osm_filename: String,
    pub stats: CosmogonyStats,
}

/// The run's full output: the zone forest and its metadata.
#[derive(Debug)]
pub struct Cosmogony {
    pub zones: Vec<Zone>,
    pub meta: CosmogonyMetadata,
}

} // verus!
