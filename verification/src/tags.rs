//! A small string-keyed dictionary, used for OSM tag sets and for the
//! per-language name and label collections.
//!
//! Lookup is first-match over a vector of pairs; the constructors below
//! never add a key twice, so the dictionary behaves as a map.

use vstd::prelude::*;

verus! {

/// First match of `k` among the pairs, scanning from the front.
pub open spec fn pairs_get(s: Seq<(Seq<char>, Seq<char>)>, k: Seq<char>) -> Option<Seq<char>>
    decreases s.len(),
{
    if s.len() == 0 {
        None
    } else if s[0].0 == k {
        Some(s[0].1)
    } else {
        pairs_get(s.skip(1), k)
    }
}

/// When the first `i` pairs all miss `k`, the scan may start at `i`.
pub proof fn lemma_pairs_get_skip(s: Seq<(Seq<char>, Seq<char>)>, k: Seq<char>, i: int)
    requires
        0 <= i <= s.len(),
        forall|j: int| 0 <= j < i ==> s[j].0 != k,
    ensures
        pairs_get(s, k) == pairs_get(s.skip(i), k),
    decreases i,
{
    if i > 0 {
        lemma_pairs_get_skip(s.skip(1), k, i - 1);
        assert(s.skip(1).skip(i - 1) =~= s.skip(i));
    } else {
        assert(s.skip(0) =~= s);
    }
}

/// A pair appended at the back under a fresh key is found iff no earlier
/// pair already holds the key.
pub proof fn lemma_pairs_get_push(s: Seq<(Seq<char>, Seq<char>)>, k: Seq<char>, v: Seq<char>, q: Seq<char>)
    ensures
        pairs_get(s.push((k, v)), q) == if pairs_get(s, q) is Some {
            pairs_get(s, q)
        } else if q == k {
            Some(v)
        } else {
            None::<Seq<char>>
        },
    decreases s.len(),
{
    let t = s.push((k, v));
    assert(t.len() == s.len() + 1);
    assert(t[0] == if s.len() == 0 { (k, v) } else { s[0] });
    if s.len() == 0 {
        assert(t.skip(1) =~= Seq::<(Seq<char>, Seq<char>)>::empty());
        assert(pairs_get(t.skip(1), q) is None);
    } else {
        lemma_pairs_get_push(s.skip(1), k, v, q);
        assert(t.skip(1) =~= s.skip(1).push((k, v)));
    }
}

/// The dictionary: a vector of key/value pairs with first-match lookup.
#[derive(Debug)]
pub struct Tags {
    pub entries: Vec<(String, String)>,
}

impl View for Tags {
    type V = Seq<(Seq<char>, Seq<char>)>;

    /// The view: the pairs as character sequences.
    open spec fn view(&self) -> Seq<(Seq<char>, Seq<char>)> {
        Seq::new(self.entries@.len(), |i: int| (self.entries@[i].0@, self.entries@[i].1@))
    }
}

impl Tags {
    /// The value under `k`, if any.
    pub open spec fn spec_get(&self, k: Seq<char>) -> Option<Seq<char>> {
        pairs_get(self.view(), k)
    }

    /// The empty dictionary.
    pub fn new() -> (r: Tags)
        ensures
            r.view() =~= Seq::<(Seq<char>, Seq<char>)>::empty(),
    {
        Tags { entries: Vec::new() }
    }

    /// How many pairs are held.
    pub fn len(&self) -> (r: usize)
        ensures
            r == self.view().len(),
    {
        self.entries.len()
    }

    /// The pair at position `i`.
    pub fn pair_at(&self, i: usize) -> (r: (&String, &String))
        requires
            i < self.view().len(),
        ensures
            r.0@ == self.view()[i as int].0,
            r.1@ == self.view()[i as int].1,
    {
        let p = &self.entries[i];
        (&p.0, &p.1)
    }

    /// Look `k` up.
    pub fn get(&self, k: &str) -> (r: Option<&String>)
        ensures
            match r {
                Some(v) => self.spec_get(k@) == Some(v@),
                None => self.spec_get(k@) is None,
            },
    {
        let n = self.entries.len();
        let mut i: usize = 0;
        while i < n
            invariant
                i <= n,
                n == self.view().len(),
                forall|j: int| 0 <= j < i ==> self.view()[j].0 != k@,
            decreases n - i,
        {
            if crate::strings::str_eq(self.entries[i].0.as_str(), k) {
                proof {
                    lemma_pairs_get_skip(self.view(), k@, i as int);
                }
                return Some(&self.entries[i].1);
            }
            i = i + 1;
        }
        proof {
            lemma_pairs_get_skip(self.view(), k@, n as int);
            assert(self.view().skip(n as int) =~= Seq::<(Seq<char>, Seq<char>)>::empty());
        }
        None
    }

    /// Whether `k` is present.
    pub fn contains_key(&self, k: &str) -> (r: bool)
        ensures
            r == (self.spec_get(k@) is Some),
    {
        self.get(k).is_some()
    }

    /// Add the pair at the back, only when the key is absent; a map's
    /// insert-if-missing.
    pub fn insert_absent(&mut self, k: String, v: String)
        ensures
            final(self).view() == if old(self).spec_get(k@) is Some {
                old(self).view()
            } else {
                old(self).view().push((k@, v@))
            },
            forall|q: Seq<char>|
                #[trigger] final(self).spec_get(q) == if old(self).spec_get(q) is Some {
                    old(self).spec_get(q)
                } else if q == k@ {
                    Some(v@)
                } else {
                    None::<Seq<char>>
                },
    {
        let present = self.contains_key(k.as_str());
        if !present {
            let ghost before = self.view();
            self.entries.push((k, v));
            proof {
                assert(self.view() =~= before.push((k@, v@)));
            }
        }
        proof {
            assert forall|q: Seq<char>|
                #[trigger] self.spec_get(q) == if old(self).spec_get(q) is Some {
                    old(self).spec_get(q)
                } else if q == k@ {
                    Some(v@)
                } else {
                    None::<Seq<char>>
                } by {
                if !present {
                    lemma_pairs_get_push(old(self).view(), k@, v@, q);
                }
            }
        }
    }

    /// A copy, pair for pair.
    pub fn duplicate(&self) -> (r: Tags)
        ensures
            r@ == self@,
    {
        let n = self.entries.len();
        let mut entries: Vec<(String, String)> = Vec::new();
        let mut i: usize = 0;
        while i < n
            invariant
                i <= n,
                n == self.entries@.len(),
                entries@.len() == i,
                forall|j: int| 0 <= j < i ==> #[trigger] entries@[j] == self.entries@[j],
            decreases n - i,
        {
            entries.push((self.entries[i].0.clone(), self.entries[i].1.clone()));
            i = i + 1;
        }
        let r = Tags { entries };
        proof {
            assert(r@ =~= self@);
        }
        r
    }

    /// Add the pair at the back unconditionally; for building a dictionary
    /// from pairs whose keys are known distinct.
    pub fn push_pair(&mut self, k: String, v: String)
        ensures
            final(self).view() == old(self).view().push((k@, v@)),
    {
        let ghost before = self.view();
        self.entries.push((k, v));
        proof {
            assert(self.view() =~= before.push((k@, v@)));
        }
    }
}

} // verus!
