//! Finding the country a zone belongs to, out of the zones that are
//! themselves countries: the ancestor carrying an ISO-3166 code with a
//! rule set, of the highest admin level.

use vstd::prelude::*;
use crate::strings::{to_uppercase_str, upper_of};
use crate::zone::{Zone, ZoneIndex};
use crate::zone_typer::{country_get, CountryAdminTypeRules, ZoneTyper};

verus! {

/// The tag that carries a country's ISO-3166-1 alpha-2 code.
pub const COUNTRY_CODE_TAG: &'static str = "ISO3166-1:alpha2";

/// What the finder keeps of a country zone.
#[derive(Debug)]
pub struct Country {
    /// the upper-cased ISO-3166-1 alpha-2 code
    pub iso: String,
    pub admin_level: Option<u32>,
}

/// The known country zones, keyed by zone index.
#[derive(Debug)]
pub struct CountryFinder {
    pub countries: Vec<(usize, Country)>,
}

/// The plain picture of the finder's entries.
pub open spec fn finder_view(entries: Seq<(usize, Country)>) -> Seq<(usize, Seq<char>, Option<u32>)> {
    Seq::new(entries.len(), |i: int| (entries[i].0, entries[i].1.iso@, entries[i].1.admin_level))
}

/// The entries the finder is built from: one per zone that carries the
/// ISO code tag whose upper-case form has a rule set.
pub open spec fn finder_entries(
    zs: Seq<Zone>,
    rules: Seq<(String, CountryAdminTypeRules)>,
) -> Seq<(usize, Seq<char>, Option<u32>)>
    decreases zs.len(),
{
    if zs.len() == 0 {
        Seq::empty()
    } else {
        let rest = finder_entries(zs.drop_last(), rules);
        let z = zs.last();
        match z.tags.spec_get(COUNTRY_CODE_TAG@) {
            Some(code) => {
                if country_get(rules, upper_of(code)) is Some {
                    rest.push((z.id.index, upper_of(code), z.admin_level))
                } else {
                    rest
                }
            },
            None => rest,
        }
    }
}

/// First-match lookup of a candidate index among the entries.
pub open spec fn entry_for(s: Seq<(usize, Seq<char>, Option<u32>)>, idx: usize) -> Option<(
    usize,
    Seq<char>,
    Option<u32>,
)>
    decreases s.len(),
{
    if s.len() == 0 {
        None
    } else if s[0].0 == idx {
        Some(s[0])
    } else {
        entry_for(s.skip(1), idx)
    }
}

/// The admin level an entry counts for.
pub open spec fn entry_level(e: (usize, Seq<char>, Option<u32>)) -> u32 {
    match e.2 {
        Some(l) => l,
        None => 0,
    }
}

/// The entry the finder picks among the candidates: the known country of
/// the highest admin level, the latest among equals.
pub open spec fn best_country(
    s: Seq<(usize, Seq<char>, Option<u32>)>,
    cands: Seq<usize>,
) -> Option<(usize, Seq<char>, Option<u32>)>
    decreases cands.len(),
{
    if cands.len() == 0 {
        None
    } else {
        let prior = best_country(s, cands.drop_last());
        match entry_for(s, cands.last()) {
            Some(c) => match prior {
                Some(p) => if entry_level(c) >= entry_level(p) {
                    Some(c)
                } else {
                    Some(p)
                },
                None => Some(c),
            },
            None => prior,
        }
    }
}

/// When the first `i` entries miss the index, the scan may start at `i`.
proof fn lemma_entry_for_skip(s: Seq<(usize, Seq<char>, Option<u32>)>, idx: usize, i: int)
    requires
        0 <= i <= s.len(),
        forall|j: int| 0 <= j < i ==> s[j].0 != idx,
    ensures
        entry_for(s, idx) == entry_for(s.skip(i), idx),
    decreases i,
{
    if i > 0 {
        lemma_entry_for_skip(s.skip(1), idx, i - 1);
        assert(s.skip(1).skip(i - 1) =~= s.skip(i));
    } else {
        assert(s.skip(0) =~= s);
    }
}

impl CountryFinder {
    /// Collect the country zones: those carrying the ISO code tag whose
    /// upper-case form has a rule set.
    pub fn init(zones: &Vec<Zone>, typer: &ZoneTyper) -> (r: CountryFinder)
        ensures
            finder_view(r.countries@) == finder_entries(zones@, typer.countries_rules@),
    {
        let n = zones.len();
        let mut countries: Vec<(usize, Country)> = Vec::new();
        let mut i: usize = 0;
        proof {
            assert(finder_view(countries@) =~= finder_entries(zones@.take(0), typer.countries_rules@));
        }
        while i < n
            invariant
                i <= n,
                n == zones@.len(),
                finder_view(countries@) == finder_entries(
                    zones@.take(i as int),
                    typer.countries_rules@,
                ),
            decreases n - i,
        {
            proof {
                assert(zones@.take(i + 1).drop_last() =~= zones@.take(i as int));
                assert(zones@.take(i + 1).last() == zones@[i as int]);
            }
            match zones[i].tags.get(COUNTRY_CODE_TAG) {
                Some(code) => {
                    let upper = to_uppercase_str(code.as_str());
                    if typer.contains_rule(upper.as_str()) {
                        let ghost prev = countries@;
                        countries.push(
                            (
                                zones[i].id.index,
                                Country { iso: upper, admin_level: zones[i].admin_level },
                            ),
                        );
                        proof {
                            assert(finder_view(countries@) =~= finder_view(prev).push(
                                (
                                    zones@[i as int].id.index,
                                    upper_of(zones@[i as int].tags.spec_get(COUNTRY_CODE_TAG@).unwrap()),
                                    zones@[i as int].admin_level,
                                ),
                            ));
                        }
                    }
                },
                None => {},
            }
            i = i + 1;
        }
        proof {
            assert(zones@.take(n as int) =~= zones@);
        }
        CountryFinder { countries }
    }

    /// Whether no country zone was found.
    pub fn is_empty(&self) -> (r: bool)
        ensures
            r == (self.countries@.len() == 0),
    {
        self.countries.len() == 0
    }

    /// Look one candidate index up.
    fn lookup(&self, idx: usize) -> (r: Option<&Country>)
        ensures
            match r {
                Some(c) => entry_for(finder_view(self.countries@), idx) == Some(
                    (idx, c.iso@, c.admin_level),
                ),
                None => entry_for(finder_view(self.countries@), idx) is None,
            },
    {
        let n = self.countries.len();
        let mut i: usize = 0;
        while i < n
            invariant
                i <= n,
                n == self.countries@.len(),
                forall|j: int| 0 <= j < i ==> finder_view(self.countries@)[j].0 != idx,
            decreases n - i,
        {
            if self.countries[i].0 == idx {
                proof {
                    lemma_entry_for_skip(finder_view(self.countries@), idx, i as int);
                }
                return Some(&self.countries[i].1);
            }
            i = i + 1;
        }
        proof {
            lemma_entry_for_skip(finder_view(self.countries@), idx, n as int);
            assert(finder_view(self.countries@).skip(n as int) =~= Seq::<(
                usize,
                Seq<char>,
                Option<u32>,
            )>::empty());
        }
        None
    }

    /// The country of a zone: among its inclusion ancestors and the zone
    /// itself, the known country of the highest admin level.
    pub fn find_zone_country(&self, z: &Zone, inclusion: &Vec<ZoneIndex>) -> (r: Option<String>)
        ensures
            ({
                let cands = inclusion@.map_values(|x: ZoneIndex| x.index).push(z.id.index);
                match r {
                    Some(code) => {
                        &&& best_country(finder_view(self.countries@), cands) is Some
                        &&& code@ == best_country(finder_view(self.countries@), cands).unwrap().1
                    },
                    None => best_country(finder_view(self.countries@), cands) is None,
                }
            }),
    {
        let ghost cands = inclusion@.map_values(|x: ZoneIndex| x.index).push(z.id.index);
        let n = inclusion.len();
        let mut best: Option<&Country> = None;
        let mut i: usize = 0;
        proof {
            assert(cands.take(0) =~= Seq::<usize>::empty());
        }
        while i < n
            invariant
                i <= n,
                n == inclusion@.len(),
                cands == inclusion@.map_values(|x: ZoneIndex| x.index).push(z.id.index),
                cands.len() == n + 1,
                forall|q: int| 0 <= q < n ==> cands[q] == (#[trigger] inclusion@[q]).index,
                cands[n as int] == z.id.index,
                match best {
                    Some(c) => best_country(finder_view(self.countries@), cands.take(i as int))
                        is Some && {
                        let b = best_country(
                            finder_view(self.countries@),
                            cands.take(i as int),
                        ).unwrap();
                        b.1 == c.iso@ && b.2 == c.admin_level
                    },
                    None => best_country(finder_view(self.countries@), cands.take(i as int))
                        is None,
                },
            decreases n - i,
        {
            proof {
                assert(cands.take(i + 1).drop_last() =~= cands.take(i as int));
                assert(cands.take(i + 1).last() == cands[i as int]);
            }
            match self.lookup(inclusion[i].index) {
                Some(c) => {
                    let better = match best {
                        Some(b) => {
                            let cl = match c.admin_level {
                                Some(l) => l,
                                None => 0,
                            };
                            let bl = match b.admin_level {
                                Some(l) => l,
                                None => 0,
                            };
                            cl >= bl
                        },
                        None => true,
                    };
                    if better {
                        best = Some(c);
                    }
                },
                None => {},
            }
            i = i + 1;
        }
        proof {
            assert(cands.take(n + 1).drop_last() =~= cands.take(n as int));
            assert(cands.take(n + 1).last() == cands[n as int]);
        }
        // the zone itself may be a country
        match self.lookup(z.id.index) {
            Some(c) => {
                let better = match best {
                    Some(b) => {
                        let cl = match c.admin_level {
                            Some(l) => l,
                            None => 0,
                        };
                        let bl = match b.admin_level {
                            Some(l) => l,
                            None => 0,
                        };
                        cl >= bl
                    },
                    None => true,
                };
                if better {
                    best = Some(c);
                }
            },
            None => {},
        }
        proof {
            assert(cands.take((n + 1) as int) =~= cands);
        }
        match best {
            Some(c) => Some(c.iso.clone()),
            None => None,
        }
    }
}

} // verus!
