//! Labels: the upward walk along parent links, the zip-code summary, and
//! the composition of the display label and the per-language labels.

use vstd::prelude::*;
use crate::strings::{contains_str, seq_starts_with, str_eq, str_starts_with, views_of};
use crate::tags::{pairs_get, Tags};
use crate::zone::Zone;
use crate::hierarchy_builder::hierarchy_wf;

verus! {

/// A bound that shrinks along every parent link under [`hierarchy_wf`]:
/// administrative kinds map into `2..=8`, everything else to `9`.
pub open spec fn zone_measure(z: Zone) -> nat {
    if z.spec_is_admin() {
        (8 - z.zone_type.unwrap().spec_rank()) as nat
    } else {
        9
    }
}

/// The chain of indices from `i` up the parent links, cut off after
/// `fuel` steps.
pub open spec fn spec_path_fuel(zs: Seq<Zone>, i: int, fuel: nat) -> Seq<int>
    decreases fuel,
{
    if fuel == 0 {
        seq![i]
    } else {
        if 0 <= i < zs.len() {
            match zs[i].parent {
                Some(p) => seq![i] + spec_path_fuel(zs, p.index as int, (fuel - 1) as nat),
                None => seq![i],
            }
        } else {
            seq![i]
        }
    }
}

/// Under [`hierarchy_wf`] the walk stops before the fuel runs out, so any
/// fuel at least the measure gives the same chain.
pub proof fn lemma_path_fuel_stable(zs: Seq<Zone>, i: int, f1: nat, f2: nat)
    requires
        hierarchy_wf(zs),
        0 <= i < zs.len(),
        f1 >= zone_measure(zs[i]),
        f2 >= zone_measure(zs[i]),
    ensures
        spec_path_fuel(zs, i, f1) == spec_path_fuel(zs, i, f2),
    decreases f1,
{
    match zs[i].parent {
        Some(p) => {
            assert(zs[p.index as int].spec_is_admin());
            assert(zone_measure(zs[p.index as int]) < zone_measure(zs[i]));
            lemma_path_fuel_stable(zs, p.index as int, (f1 - 1) as nat, (f2 - 1) as nat);
        },
        None => {},
    }
}

/// The chain of indices from `i` up the parent links, `i` first.
pub open spec fn spec_path(zs: Seq<Zone>, i: int) -> Seq<int> {
    spec_path_fuel(zs, i, 9)
}

/// Walk the parent links from `zones[i]` upward; the zone itself comes
/// first.
pub fn hierarchy_path(zones: &Vec<Zone>, i: usize) -> (r: Vec<usize>)
    requires
        hierarchy_wf(zones@),
        i < zones@.len(),
    ensures
        r@.map_values(|x: usize| x as int) == spec_path(zones@, i as int),
        forall|k: int| 0 <= k < r@.len() ==> (#[trigger] r@[k]) < zones@.len(),
        r@.len() >= 1,
        r@[0] == i,
    decreases zone_measure(zones@[i as int]),
{
    let mut out: Vec<usize> = Vec::new();
    out.push(i);
    match &zones[i].parent {
        Some(p) => {
            proof {
                assert(zones@[p.index as int].spec_is_admin());
                assert(zone_measure(zones@[p.index as int]) < zone_measure(zones@[i as int]));
            }
            let rest = hierarchy_path(zones, p.index);
            let n = rest.len();
            let mut k: usize = 0;
            while k < n
                invariant
                    k <= n,
                    n == rest@.len(),
                    out@ == seq![i].add(rest@.take(k as int)),
                    forall|q: int| 0 <= q < rest@.len() ==> (#[trigger] rest@[q]) < zones@.len(),
                decreases n - k,
            {
                let x = rest[k];
                out.push(x);
                proof {
                    assert(out@ =~= seq![i].add(rest@.take(k + 1)));
                }
                k = k + 1;
            }
            proof {
                assert(rest@.take(n as int) =~= rest@);
                lemma_path_fuel_stable(
                    zones@,
                    p.index as int,
                    9,
                    zone_measure(zones@[p.index as int]),
                );
                lemma_path_fuel_stable(
                    zones@,
                    p.index as int,
                    8,
                    zone_measure(zones@[p.index as int]),
                );
                assert(out@.map_values(|x: usize| x as int) =~= seq![i as int].add(
                    rest@.map_values(|x: usize| x as int),
                ));
                assert(spec_path(zones@, i as int) == seq![i as int].add(
                    spec_path_fuel(zones@, p.index as int, 8),
                ));
            }
            out
        },
        None => {
            proof {
                assert(out@.map_values(|x: usize| x as int) =~= seq![i as int]);
            }
            out
        },
    }
}

impl Zone {
    /// The whole chain of the zone's ancestors, the zone itself first;
    /// the indices walk the given vector's parent links.
    pub fn iter_hierarchy(&self, zones: &Vec<Zone>) -> (r: Vec<usize>)
        requires
            hierarchy_wf(zones@),
            self.id.index < zones@.len(),
        ensures
            r@.map_values(|x: usize| x as int) == spec_path(zones@, self.id.index as int),
            r@.len() >= 1,
            r@[0] == self.id.index,
    {
        hierarchy_path(zones, self.id.index)
    }
}

/// The zip-code summary appended to a label's first part: nothing, the
/// one code in parentheses, or the first and last code as a range.
pub open spec fn format_zip_spec(zips: Seq<Seq<char>>) -> Seq<char> {
    if zips.len() == 0 {
        Seq::empty()
    } else if zips.len() == 1 {
        " ("@ + zips[0] + ")"@
    } else {
        " ("@ + zips[0] + "-"@ + zips.last() + ")"@
    }
}

/// Write the zip-code summary of the zone's codes.
pub fn format_zip_code(zip_codes: &Vec<String>) -> (r: String)
    ensures
        r@ == format_zip_spec(views_of(zip_codes@)),
{
    let mut out = String::new();
    if zip_codes.len() == 0 {
        proof {
            assert(out@ =~= format_zip_spec(views_of(zip_codes@)));
        }
        return out;
    }
    out.append(" (");
    out.append(zip_codes[0].as_str());
    if zip_codes.len() > 1 {
        out.append("-");
        out.append(zip_codes[zip_codes.len() - 1].as_str());
    }
    out.append(")");
    proof {
        assert(out@ =~= format_zip_spec(views_of(zip_codes@)));
    }
    out
}

/// The parts with runs of consecutive repeats collapsed to their first
/// element.
pub open spec fn dedup_consec(s: Seq<Seq<char>>) -> Seq<Seq<char>>
    decreases s.len(),
{
    if s.len() == 0 {
        Seq::empty()
    } else if s.len() >= 2 && s[s.len() - 2] == s.last() {
        dedup_consec(s.drop_last())
    } else {
        dedup_consec(s.drop_last()).push(s.last())
    }
}

/// The parts joined with a comma and a space.
pub open spec fn join_comma(parts: Seq<Seq<char>>) -> Seq<char>
    decreases parts.len(),
{
    if parts.len() == 0 {
        Seq::empty()
    } else if parts.len() == 1 {
        parts[0]
    } else {
        join_comma(parts.drop_last()) + ", "@ + parts.last()
    }
}

/// A label out of the name parts and the zip codes: consecutive repeats
/// collapsed, the zip summary on the first part, the parts joined by
/// commas.
pub open spec fn label_spec(names: Seq<Seq<char>>, zips: Seq<Seq<char>>) -> Seq<char> {
    let dd = dedup_consec(names);
    if dd.len() == 0 {
        Seq::empty()
    } else {
        join_comma(seq![dd[0] + format_zip_spec(zips)] + dd.skip(1))
    }
}

/// Compose the label out of the given name parts and zip codes.
pub fn create_lbl(names: &Vec<String>, zip_codes: &Vec<String>) -> (r: String)
    ensures
        r@ == label_spec(views_of(names@), views_of(zip_codes@)),
{
    // collapse consecutive repeats
    let n = names.len();
    let mut dd: Vec<String> = Vec::new();
    let mut i: usize = 0;
    proof {
        assert(views_of(names@).take(0) =~= Seq::<Seq<char>>::empty());
        assert(views_of(dd@) =~= dedup_consec(views_of(names@).take(0)));
    }
    while i < n
        invariant
            i <= n,
            n == names@.len(),
            views_of(dd@) == dedup_consec(views_of(names@).take(i as int)),
        decreases n - i,
    {
        let ghost whole = views_of(names@);
        proof {
            assert(whole.take(i + 1).drop_last() =~= whole.take(i as int));
            assert(whole.take(i + 1).last() == whole[i as int]);
        }
        if i == 0 || !str_eq(names[i].as_str(), names[i - 1].as_str()) {
            let ghost prev = dd@;
            dd.push(names[i].clone());
            proof {
                assert(views_of(dd@) =~= views_of(prev).push(whole[i as int]));
            }
        }
        i = i + 1;
    }
    proof {
        assert(views_of(names@).take(n as int) =~= views_of(names@));
    }
    // the zip summary goes on the first part
    if dd.len() == 0 {
        let out = String::new();
        proof {
            assert(out@ =~= Seq::<char>::empty());
        }
        return out;
    }
    let mut out = dd[0].clone();
    let zip_part = format_zip_code(zip_codes);
    out.append(zip_part.as_str());
    let ghost parts = seq![dedup_consec(views_of(names@))[0] + format_zip_spec(
        views_of(zip_codes@),
    )] + dedup_consec(views_of(names@)).skip(1);
    proof {
        assert(out@ == parts[0]);
        assert(out@ =~= join_comma(parts.take(1)));
    }
    // join the rest with commas
    let m = dd.len();
    let mut k: usize = 1;
    while k < m
        invariant
            1 <= k <= m,
            m == dd@.len(),
            m == dedup_consec(views_of(names@)).len(),
            parts == seq![dedup_consec(views_of(names@))[0] + format_zip_spec(
                views_of(zip_codes@),
            )] + dedup_consec(views_of(names@)).skip(1),
            parts.len() == m,
            forall|q: int| 1 <= q < m ==> parts[q] == views_of(dd@)[q],
            views_of(dd@) == dedup_consec(views_of(names@)),
            out@ == join_comma(parts.take(k as int)),
        decreases m - k,
    {
        out.append(", ");
        out.append(dd[k].as_str());
        proof {
            assert(parts.take(k + 1).drop_last() =~= parts.take(k as int));
            assert(parts.take(k + 1).last() == parts[k as int]);
        }
        k = k + 1;
    }
    proof {
        assert(parts.take(m as int) =~= parts);
    }
    out
}


/// A key/value list holds `k` iff the first-match lookup finds it.
pub proof fn lemma_pairs_get_exists(s: Seq<(Seq<char>, Seq<char>)>, k: Seq<char>)
    ensures
        (pairs_get(s, k) is Some) == exists|j: int| 0 <= j < s.len() && (#[trigger] s[j]).0 == k,
    decreases s.len(),
{
    if s.len() > 0 {
        lemma_pairs_get_exists(s.skip(1), k);
        if s[0].0 == k {
        } else {
            if pairs_get(s.skip(1), k) is Some {
                let j = choose|j: int| 0 <= j < s.skip(1).len() && (#[trigger] s.skip(1)[j]).0 == k;
                assert(s[j + 1].0 == k);
            }
            if exists|j: int| 0 <= j < s.len() && (#[trigger] s[j]).0 == k {
                let j = choose|j: int| 0 <= j < s.len() && (#[trigger] s[j]).0 == k;
                assert(s.skip(1)[j - 1].0 == k);
            }
        }
    }
}

/// The per-language names harvested from a tag list: pairs whose key is
/// `name:` followed by a language, except those that just repeat the
/// default name; the key's tail names the language.
pub open spec fn intl_names_of(t: Seq<(Seq<char>, Seq<char>)>, default: Seq<char>) -> Seq<(
    Seq<char>,
    Seq<char>,
)>
    decreases t.len(),
{
    if t.len() == 0 {
        Seq::empty()
    } else {
        let rest = intl_names_of(t.drop_last(), default);
        let e = t.last();
        if seq_starts_with(e.0, "name:"@) && e.0.len() > "name:"@.len() && e.1 != default {
            rest.push((e.0.skip("name:"@.len() as int), e.1))
        } else {
            rest
        }
    }
}

/// Harvest the per-language names out of the tags, leaving out the ones
/// equal to the default name.
pub fn get_international_names(tags: &Tags, default_name: &str) -> (r: Tags)
    ensures
        r@ == intl_names_of(tags@, default_name@),
{
    let mut out = Tags::new();
    let n = tags.len();
    let prefix_len = "name:".unicode_len();
    let mut i: usize = 0;
    proof {
        assert(tags@.take(0) =~= Seq::<(Seq<char>, Seq<char>)>::empty());
    }
    while i < n
        invariant
            i <= n,
            n == tags@.len(),
            prefix_len == "name:"@.len(),
            out@ == intl_names_of(tags@.take(i as int), default_name@),
        decreases n - i,
    {
        proof {
            assert(tags@.take(i + 1).drop_last() =~= tags@.take(i as int));
            assert(tags@.take(i + 1).last() == tags@[i as int]);
        }
        let (k, v) = tags.pair_at(i);
        let klen = k.as_str().unicode_len();
        if str_starts_with(k.as_str(), "name:") && klen > prefix_len && !str_eq(
            v.as_str(),
            default_name,
        ) {
            let lang = k.as_str().substring_char(prefix_len, klen);
            proof {
                assert(lang@ =~= tags@[i as int].0.skip("name:"@.len() as int));
            }
            out.push_pair(lang.to_owned(), v.clone());
        }
        i = i + 1;
    }
    proof {
        assert(tags@.take(n as int) =~= tags@);
    }
    out
}

/// Tags extended, in order, by the pairs of `c` whose key says `name:`
/// (or, when asked, `population`), each added only where its key is absent.
pub open spec fn merged_tags(t: Seq<(Seq<char>, Seq<char>)>, c: Seq<(Seq<char>, Seq<char>)>, with_population: bool) -> Seq<(
    Seq<char>,
    Seq<char>,
)>
    decreases c.len(),
{
    if c.len() == 0 {
        t
    } else {
        let m = merged_tags(t, c.drop_last(), with_population);
        let e = c.last();
        if (seq_starts_with(e.0, "name:"@) || (with_population && e.0 == "population"@))
            && pairs_get(m, e.0) is None {
            m.push(e)
        } else {
            m
        }
    }
}

/// Merge the name pairs (and, when asked, the population) of `extra` into
/// `tags`, never replacing a present key.
pub fn merge_name_tags(tags: &mut Tags, extra: &Tags, with_population: bool)
    ensures
        final(tags)@ == merged_tags(old(tags)@, extra@, with_population),
{
    let n = extra.len();
    let mut i: usize = 0;
    proof {
        assert(extra@.take(0) =~= Seq::<(Seq<char>, Seq<char>)>::empty());
    }
    while i < n
        invariant
            i <= n,
            n == extra@.len(),
            tags@ == merged_tags(old(tags)@, extra@.take(i as int), with_population),
        decreases n - i,
    {
        proof {
            assert(extra@.take(i + 1).drop_last() =~= extra@.take(i as int));
            assert(extra@.take(i + 1).last() == extra@[i as int]);
        }
        let (k, v) = extra.pair_at(i);
        if str_starts_with(k.as_str(), "name:") || (with_population && str_eq(
            k.as_str(),
            "population",
        )) {
            tags.insert_absent(k.clone(), v.clone());
        }
        i = i + 1;
    }
    proof {
        assert(extra@.take(n as int) =~= extra@);
    }
}

impl Zone {
    /// The condition under which the centre node's names enrich the
    /// zone's tags: the zone is a city, or the two stand for the same
    /// wikidata entity.
    pub open spec fn names_merge_condition(&self) -> bool {
        let center_wd = self.center_tags.spec_get("wikidata"@);
        ||| self.zone_type == Some(crate::zone::ZoneType::City)
        ||| (self.wikidata is Some && center_wd == Some(self.wikidata.unwrap()@))
    }

    /// Enrich the tags from the centre node where allowed, then harvest
    /// the per-language names.
    pub fn compute_names(&mut self)
        ensures
            *final(self) == (Zone {
                tags: final(self).tags,
                international_names: final(self).international_names,
                ..*old(self)
            }),
            final(self).tags@ == if old(self).names_merge_condition() {
                merged_tags(old(self).tags@, old(self).center_tags@, false)
            } else {
                old(self).tags@
            },
            final(self).international_names@ == intl_names_of(final(self).tags@, old(self).name@),
    {
        let mut do_merge = matches!(self.zone_type, Some(crate::zone::ZoneType::City));
        if !do_merge {
            match (&self.wikidata, self.center_tags.get("wikidata")) {
                (Option::Some(w), Option::Some(cw)) => {
                    if str_eq(w.as_str(), cw.as_str()) {
                        do_merge = true;
                    }
                },
                _ => {},
            }
        }
        proof {
            assert(do_merge == old(self).names_merge_condition());
        }
        if do_merge {
            let extra = self.center_tags.duplicate();
            merge_name_tags(&mut self.tags, &extra, false);
        }
        self.international_names = get_international_names(&self.tags, self.name.as_str());
    }
}


/// The names along a path of zones.
pub open spec fn default_names(zs: Seq<Zone>, path: Seq<int>) -> Seq<Seq<char>> {
    Seq::new(path.len(), |k: int| zs[path[k]].name@)
}

/// The name a zone shows in a language: its harvested per-language name,
/// or its default name.
pub open spec fn name_for(z: Zone, lang: Seq<char>) -> Seq<char> {
    match z.international_names.spec_get(lang) {
        Some(n) => n,
        None => z.name@,
    }
}

/// The per-language names along a path of zones.
pub open spec fn lang_names(zs: Seq<Zone>, path: Seq<int>, lang: Seq<char>) -> Seq<Seq<char>> {
    Seq::new(path.len(), |k: int| name_for(zs[path[k]], lang))
}

/// Some zone along the path carries a name in `lang`.
pub open spec fn lang_in_path(zs: Seq<Zone>, path: Seq<int>, lang: Seq<char>) -> bool {
    exists|k: int|
        0 <= k < path.len() && zs[path[k]].international_names.spec_get(lang) is Some
}

/// `lang` gets a label: it occurs along the path, and the language filter
/// (when one is given) allows it.
pub open spec fn lang_eligible(zs: Seq<Zone>, path: Seq<int>, lang: Seq<char>, filter: Seq<Seq<char>>) -> bool {
    lang_in_path(zs, path, lang) && (filter.len() == 0 || filter.contains(lang))
}

/// The label of the path in one language.
pub open spec fn intl_label_for(zs: Seq<Zone>, path: Seq<int>, lang: Seq<char>, zips: Seq<Seq<char>>) -> Seq<char> {
    label_spec(lang_names(zs, path, lang), zips)
}

/// The languages already met walking the path up to zone `pk`, and within
/// that zone's names up to entry `t`.
spec fn lang_seen(zs: Seq<Zone>, path: Seq<int>, pk: int, t: int, lang: Seq<char>) -> bool {
    ||| exists|q: int|
        0 <= q < pk && zs[path[q]].international_names.spec_get(lang) is Some
    ||| exists|u: int| 0 <= u < t && zs[path[pk]].international_names@[u].0 == lang
}

impl Zone {
    /// Compose the display label and the per-language labels of
    /// `zones[i]` from its parent chain: names with consecutive repeats
    /// collapsed, joined by commas, the zip summary on the first part.
    /// Per-language labels exist exactly for the languages named along the
    /// chain and admitted by the filter.
    pub fn compute_labels(zones: &mut Vec<Zone>, i: usize, filter_langs: &Vec<String>)
        requires
            hierarchy_wf(old(zones)@),
            i < old(zones)@.len(),
        ensures
            ({
                let zs = old(zones)@;
                let path = spec_path(zs, i as int);
                let zips = views_of(zs[i as int].zip_codes@);
                &&& final(zones)@.len() == zs.len()
                &&& forall|k: int| 0 <= k < zs.len() && k != i ==> final(zones)@[k] == zs[k]
                &&& final(zones)@[i as int] == (Zone {
                    label: final(zones)@[i as int].label,
                    international_labels: final(zones)@[i as int].international_labels,
                    ..zs[i as int]
                })
                &&& final(zones)@[i as int].label@ == label_spec(default_names(zs, path), zips)
                &&& forall|lang: Seq<char>|
                    #[trigger] final(zones)@[i as int].international_labels.spec_get(lang) == (
                    if lang_eligible(zs, path, lang, views_of(filter_langs@)) {
                        Some(intl_label_for(zs, path, lang, zips))
                    } else {
                        None::<Seq<char>>
                    })
            }),
    {
        let ghost zs = zones@;
        let path = hierarchy_path(zones, i);
        let ghost spath = spec_path(zs, i as int);
        proof {
            assert(spath.len() == path@.len());
            assert forall|q: int| 0 <= q < path@.len() implies (#[trigger] path@[q]) as int
                == spath[q] by {
                assert(path@.map_values(|x: usize| x as int)[q] == spath[q]);
            }
        }
        let plen = path.len();
        // the default names along the chain
        let mut names: Vec<String> = Vec::new();
        let mut k: usize = 0;
        while k < plen
            invariant
                k <= plen,
                plen == path@.len(),
                zones@ == zs,
                spath.len() == plen,
                hierarchy_wf(zs),
                i < zs.len(),
                forall|q: int| 0 <= q < plen ==> (#[trigger] path@[q]) < zs.len(),
                forall|q: int| 0 <= q < plen ==> (#[trigger] path@[q]) as int == spath[q],
                names@.len() == k,
                forall|q: int| 0 <= q < k ==> (#[trigger] names@[q])@ == zs[spath[q]].name@,
            decreases plen - k,
        {
            names.push(zones[path[k]].name.clone());
            k = k + 1;
        }
        proof {
            assert(views_of(names@) =~= default_names(zs, spath));
        }
        let label = create_lbl(&names, &zones[i].zip_codes);
        // the per-language labels
        let ghost filter = views_of(filter_langs@);
        let ghost zips = views_of(zs[i as int].zip_codes@);
        let mut labels = Tags::new();
        let mut pk: usize = 0;
        while pk < plen
            invariant
                pk <= plen,
                plen == path@.len(),
                zones@ == zs,
                spath.len() == plen,
                hierarchy_wf(zs),
                i < zs.len(),
                filter == views_of(filter_langs@),
                zips == views_of(zs[i as int].zip_codes@),
                forall|q: int| 0 <= q < plen ==> (#[trigger] path@[q]) < zs.len(),
                forall|q: int| 0 <= q < plen ==> (#[trigger] path@[q]) as int == spath[q],
                forall|lang: Seq<char>|
                    #[trigger] labels.spec_get(lang) == (if lang_seen(zs, spath, pk as int, 0, lang)
                        && (filter.len() == 0 || filter.contains(lang)) {
                        Some(intl_label_for(zs, spath, lang, zips))
                    } else {
                        None::<Seq<char>>
                    }),
            decreases plen - pk,
        {
            let zk = path[pk];
            let m = zones[zk].international_names.len();
            let mut t: usize = 0;
            while t < m
                invariant
                    t <= m,
                    pk < plen,
                    plen == path@.len(),
                    zones@ == zs,
                    spath.len() == plen,
                    hierarchy_wf(zs),
                    i < zs.len(),
                    zk == path@[pk as int],
                    zk < zs.len(),
                    zk as int == spath[pk as int],
                    m == zs[zk as int].international_names@.len(),
                    filter == views_of(filter_langs@),
                    zips == views_of(zs[i as int].zip_codes@),
                    forall|q: int| 0 <= q < plen ==> (#[trigger] path@[q]) < zs.len(),
                    forall|q: int| 0 <= q < plen ==> (#[trigger] path@[q]) as int == spath[q],
                    forall|lang: Seq<char>|
                        #[trigger] labels.spec_get(lang) == (if lang_seen(
                            zs,
                            spath,
                            pk as int,
                            t as int,
                            lang,
                        ) && (filter.len() == 0 || filter.contains(lang)) {
                            Some(intl_label_for(zs, spath, lang, zips))
                        } else {
                            None::<Seq<char>>
                        }),
                decreases m - t,
            {
                let lang_s = {
                    let pair = zones[zk].international_names.pair_at(t);
                    pair.0.clone()
                };
                proof {
                    assert(lang_s@ == zs[zk as int].international_names@[t as int].0);
                }
                let pass = filter_langs.len() == 0 || contains_str(filter_langs, lang_s.as_str());
                if pass {
                    if !labels.contains_key(lang_s.as_str()) {
                        // this language is new: compose its label
                        let mut lnames: Vec<String> = Vec::new();
                        let mut q: usize = 0;
                        while q < plen
                            invariant
                                q <= plen,
                                plen == path@.len(),
                                zones@ == zs,
                                spath.len() == plen,
                                i < zs.len(),
                                forall|w: int| 0 <= w < plen ==> (#[trigger] path@[w]) < zs.len(),
                                forall|w: int|
                                    0 <= w < plen ==> (#[trigger] path@[w]) as int == spath[w],
                                lnames@.len() == q,
                                forall|w: int|
                                    0 <= w < q ==> (#[trigger] lnames@[w])@ == name_for(
                                        zs[spath[w]],
                                        lang_s@,
                                    ),
                            decreases plen - q,
                        {
                            match zones[path[q]].international_names.get(lang_s.as_str()) {
                                Some(nm) => {
                                    let owned = nm.clone();
                                    lnames.push(owned);
                                },
                                None => {
                                    lnames.push(zones[path[q]].name.clone());
                                },
                            }
                            q = q + 1;
                        }
                        proof {
                            assert(views_of(lnames@) =~= lang_names(zs, spath, lang_s@));
                        }
                        let lbl = create_lbl(&lnames, &zones[i].zip_codes);
                        let ghost labels_prev = labels;
                        let ghost before = labels@;
                        let ghost lang_v = lang_s@;
                        let ghost lbl_v = lbl@;
                        labels.push_pair(lang_s, lbl);
                        proof {
                            assert forall|lang: Seq<char>|
                                #[trigger] labels.spec_get(lang) == (if lang_seen(
                                    zs,
                                    spath,
                                    pk as int,
                                    t + 1,
                                    lang,
                                ) && (filter.len() == 0 || filter.contains(lang)) {
                                    Some(intl_label_for(zs, spath, lang, zips))
                                } else {
                                    None::<Seq<char>>
                                }) by {
                                assert(labels@ == before.push((lang_v, lbl_v)));
                                assert(labels_prev.spec_get(lang) == pairs_get(before, lang));
                                crate::tags::lemma_pairs_get_push(before, lang_v, lbl_v, lang);
                                if lang == lang_v {
                                    assert(pairs_get(before, lang) is None);
                                    assert(labels.spec_get(lang) == Some(lbl_v));
                                    assert(views_of(lnames@) == lang_names(zs, spath, lang_v));
                                    assert(lbl_v == intl_label_for(zs, spath, lang, zips));
                                    assert(lang_seen(zs, spath, pk as int, t + 1, lang)) by {
                                        assert(zs[spath[pk as int]].international_names@[t as int].0
                                            == lang);
                                    }
                                } else {
                                    assert(labels.spec_get(lang) == pairs_get(before, lang));
                                    if lang_seen(zs, spath, pk as int, t + 1, lang) {
                                        if !lang_seen(zs, spath, pk as int, t as int, lang) {
                                            let u = choose|u: int|
                                                0 <= u < t + 1 && zs[spath[pk as int]].international_names@[u].0
                                                    == lang;
                                            assert(u == t);
                                        }
                                    }
                                }
                            }
                        }
                    } else {
                        proof {
                            assert forall|lang: Seq<char>|
                                #[trigger] labels.spec_get(lang) == (if lang_seen(
                                    zs,
                                    spath,
                                    pk as int,
                                    t + 1,
                                    lang,
                                ) && (filter.len() == 0 || filter.contains(lang)) {
                                    Some(intl_label_for(zs, spath, lang, zips))
                                } else {
                                    None::<Seq<char>>
                                }) by {
                                if lang == lang_s@ {
                                    assert(lang_seen(zs, spath, pk as int, t as int, lang));
                                }
                            }
                        }
                    }
                } else {
                    proof {
                        assert forall|lang: Seq<char>|
                            #[trigger] labels.spec_get(lang) == (if lang_seen(
                                zs,
                                spath,
                                pk as int,
                                t + 1,
                                lang,
                            ) && (filter.len() == 0 || filter.contains(lang)) {
                                Some(intl_label_for(zs, spath, lang, zips))
                            } else {
                                None::<Seq<char>>
                            }) by {
                            if lang == lang_s@ {
                                assert(!(filter.len() == 0 || filter.contains(lang)));
                            }
                        }
                    }
                }
                t = t + 1;
            }
            proof {
                assert forall|lang: Seq<char>| lang_seen(zs, spath, pk + 1, 0, lang) == lang_seen(
                    zs,
                    spath,
                    pk as int,
                    m as int,
                    lang,
                ) by {
                    lemma_pairs_get_exists(zs[spath[pk as int]].international_names@, lang);
                }
            }
            pk = pk + 1;
        }
        // write the results back
        zones[i].label = label;
        zones[i].international_labels = labels;
        proof {
            assert forall|lang: Seq<char>|
                #[trigger] zones@[i as int].international_labels.spec_get(lang) == (if lang_eligible(
                    zs,
                    spath,
                    lang,
                    filter,
                ) {
                    Some(intl_label_for(zs, spath, lang, zips))
                } else {
                    None::<Seq<char>>
                }) by {
                assert(lang_seen(zs, spath, plen as int, 0, lang) == lang_in_path(zs, spath, lang));
            }
        }
    }
}

} // verus!
