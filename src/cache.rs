//! The compatibility cache: for each key (a candidate's name followed by the
//! names of its resolved neighbours) the verdict on whether the candidate fits.
use vstd::prelude::*;

verus! {

/// The map that a list of (key, verdict) pairs describes, later pairs
/// overriding earlier ones.
pub open spec fn cache_map(s: Seq<(Seq<char>, bool)>) -> Map<Seq<char>, bool>
    decreases s.len(),
{
    if s.len() == 0 {
        Map::empty()
    } else {
        cache_map(s.drop_last()).insert(s.last().0, s.last().1)
    }
}

/// (key, verdict) pairs of strings seen as pairs of character sequences.
pub open spec fn pairs_of(v: Seq<(String, bool)>) -> Seq<(Seq<char>, bool)> {
    v.map_values(|e: (String, bool)| (e.0@, e.1))
}

/// No key occurs twice.
pub open spec fn keys_unique(s: Seq<(Seq<char>, bool)>) -> bool {
    forall|i: int, j: int| 0 <= i < j < s.len() ==> s[i].0 != s[j].0
}

/// `later` keeps every verdict of `earlier`: entries are never changed or
/// removed, only added.
pub open spec fn cache_extends(earlier: Map<Seq<char>, bool>, later: Map<Seq<char>, bool>) -> bool {
    forall|k: Seq<char>| #[trigger] earlier.contains_key(k)
        ==> later.contains_key(k) && later[k] == earlier[k]
}

proof fn lemma_cache_map_dom(s: Seq<(Seq<char>, bool)>, k: Seq<char>)
    ensures
        cache_map(s).contains_key(k) <==> exists|i: int| 0 <= i < s.len() && s[i].0 == k,
    decreases s.len(),
{
    if s.len() > 0 {
        lemma_cache_map_dom(s.drop_last(), k);
        if cache_map(s.drop_last()).contains_key(k) {
            let i = choose|i: int| 0 <= i < s.len() - 1 && s.drop_last()[i].0 == k;
            assert(s[i].0 == k);
        }
        if exists|i: int| 0 <= i < s.len() && s[i].0 == k {
            let i = choose|i: int| 0 <= i < s.len() && s[i].0 == k;
            if i < s.len() - 1 {
                assert(s.drop_last()[i].0 == k);
            }
        }
    }
}

proof fn lemma_cache_map_value(s: Seq<(Seq<char>, bool)>, i: int)
    requires
        keys_unique(s),
        0 <= i < s.len(),
    ensures
        cache_map(s).contains_key(s[i].0),
        cache_map(s)[s[i].0] == s[i].1,
    decreases s.len(),
{
    if i < s.len() - 1 {
        assert(keys_unique(s.drop_last()));
        lemma_cache_map_value(s.drop_last(), i);
        assert(s.drop_last()[i] == s[i]);
    }
}

/// Verdicts once written stay as they are: across any chain of steps that
/// each only add entries, every key keeps its first verdict.
pub proof fn lemma_cache_extends_chain(
    a: Map<Seq<char>, bool>,
    b: Map<Seq<char>, bool>,
    c: Map<Seq<char>, bool>,
    key: Seq<char>,
)
    requires
        cache_extends(a, b),
        cache_extends(b, c),
        a.contains_key(key),
    ensures
        cache_extends(a, c),
        c.contains_key(key),
        c[key] == a[key],
{
}

/// Adding a key that was absent extends the cache.
pub proof fn lemma_insert_extends(a: Map<Seq<char>, bool>, key: Seq<char>, verdict: bool)
    requires
        !a.contains_key(key),
    ensures
        cache_extends(a, a.insert(key, verdict)),
        a.insert(key, verdict)[key] == verdict,
{
}

/// A memo of compatibility verdicts, keyed by name strings.
pub struct DomainCache {
    entries: Vec<(String, bool)>,
}

impl View for DomainCache {
    type V = Map<Seq<char>, bool>;

    closed spec fn view(&self) -> Map<Seq<char>, bool> {
        cache_map(self.pairs())
    }
}

impl DomainCache {
    /// The entries as (key, verdict) pairs of plain values, in insertion order.
    pub closed spec fn pairs(&self) -> Seq<(Seq<char>, bool)> {
        pairs_of(self.entries@)
    }

    pub closed spec fn wf(&self) -> bool {
        keys_unique(self.pairs())
    }

    pub fn new() -> (r: DomainCache)
        ensures
            r.wf(),
            r@ == Map::<Seq<char>, bool>::empty(),
    {
        let r = DomainCache { entries: Vec::new() };
        assert(r.pairs() =~= Seq::<(Seq<char>, bool)>::empty());
        r
    }

    /// The number of keys held.
    pub fn len(&self) -> (r: usize)
        requires
            self.wf(),
        ensures
            r == self@.len(),
    {
        proof {
            self.lemma_len();
        }
        self.entries.len()
    }

    proof fn lemma_len(&self)
        requires
            self.wf(),
        ensures
            self@.dom().finite(),
            self@.len() == self.entries@.len(),
    {
        lemma_cache_map_len(self.pairs());
    }

    /// The verdict stored under `key`, if any.
    pub fn get(&self, key: &String) -> (r: Option<bool>)
        requires
            self.wf(),
        ensures
            r == (if self@.contains_key(key@) { Some(self@[key@]) } else { None::<bool> }),
    {
        let mut i: usize = 0;
        while i < self.entries.len()
            invariant
                i <= self.entries@.len(),
                self.wf(),
                forall|j: int| 0 <= j < i ==> #[trigger] self.pairs()[j].0 != key@,
            decreases self.entries@.len() - i,
        {
            if self.entries[i].0 == *key {
                proof {
                    lemma_cache_map_value(self.pairs(), i as int);
                }
                return Some(self.entries[i].1);
            }
            i = i + 1;
        }
        proof {
            lemma_cache_map_dom(self.pairs(), key@);
        }
        None
    }

    /// Stores a verdict under a key that is not yet held.
    pub fn insert(&mut self, key: String, verdict: bool)
        requires
            old(self).wf(),
            !old(self)@.contains_key(key@),
        ensures
            final(self).wf(),
            final(self)@ == old(self)@.insert(key@, verdict),
    {
        proof {
            lemma_cache_map_dom(self.pairs(), key@);
        }
        let ghost k = key@;
        assert forall|i: int| 0 <= i < old(self).pairs().len() implies old(self).pairs()[i].0 != k by {
            if old(self).pairs()[i].0 == k {
                assert(exists|j: int| 0 <= j < old(self).pairs().len() && old(self).pairs()[j].0 == k);
            }
        }
        self.entries.push((key, verdict));
        assert(self.pairs().drop_last() =~= old(self).pairs());
        assert(self.pairs().last() == (k, verdict));
        assert forall|i: int, j: int| 0 <= i < j < self.pairs().len()
            implies self.pairs()[i].0 != self.pairs()[j].0 by {
            if j < self.pairs().len() - 1 {
                assert(self.pairs()[i] == old(self).pairs()[i]);
                assert(self.pairs()[j] == old(self).pairs()[j]);
            } else {
                assert(self.pairs()[i] == old(self).pairs()[i]);
            }
        }
    }

    /// Builds a cache from (key, verdict) pairs; where a key repeats, its
    /// first verdict is kept.
    pub fn from_entries(entries: Vec<(String, bool)>) -> (r: DomainCache)
        ensures
            r.wf(),
            forall|i: int| 0 <= i < entries@.len() ==> r@.contains_key(#[trigger] entries@[i].0@),
            forall|k: Seq<char>| r@.contains_key(k)
                ==> exists|i: int| 0 <= i < entries@.len() && #[trigger] entries@[i].0@ == k
                    && r@[k] == entries@[i].1
                    && forall|j: int| 0 <= j < i ==> entries@[j].0@ != k,
    {
        let mut r = DomainCache::new();
        let mut i: usize = 0;
        while i < entries.len()
            invariant
                i <= entries@.len(),
                r.wf(),
                forall|j: int| 0 <= j < i ==> r@.contains_key(#[trigger] entries@[j].0@),
                forall|k: Seq<char>| r@.contains_key(k)
                    ==> exists|m: int| 0 <= m < i && #[trigger] entries@[m].0@ == k
                        && r@[k] == entries@[m].1
                        && forall|j: int| 0 <= j < m ==> entries@[j].0@ != k,
            decreases entries@.len() - i,
        {
            let key = entries[i].0.clone();
            let verdict = entries[i].1;
            match r.get(&key) {
                Some(_) => {},
                None => {
                    let ghost before = r@;
                    r.insert(key, verdict);
                    assert forall|k: Seq<char>| r@.contains_key(k)
                        implies exists|m: int| 0 <= m < i + 1 && #[trigger] entries@[m].0@ == k
                            && r@[k] == entries@[m].1
                            && forall|j: int| 0 <= j < m ==> entries@[j].0@ != k by {
                        if k == entries@[i as int].0@ {
                            assert forall|j: int| 0 <= j < i implies entries@[j].0@ != k by {
                                if entries@[j].0@ == k {
                                    assert(before.contains_key(entries@[j].0@));
                                }
                            }
                        } else {
                            assert(before.contains_key(k));
                        }
                    }
                },
            }
            i = i + 1;
        }
        r
    }

    /// A list whose pairs are this cache's holds exactly its verdicts.
    pub proof fn lemma_entries(&self, r: Seq<(String, bool)>)
        requires
            self.wf(),
            pairs_of(r) == self.pairs(),
        ensures
            forall|i: int| 0 <= i < r.len() ==> self@.contains_key(#[trigger] r[i].0@)
                && self@[r[i].0@] == r[i].1,
            forall|k: Seq<char>| #[trigger] self@.contains_key(k)
                ==> exists|i: int| 0 <= i < r.len() && r[i].0@ == k,
    {
        assert forall|i: int| 0 <= i < r.len() implies self@.contains_key(#[trigger] r[i].0@)
            && self@[r[i].0@] == r[i].1 by {
            assert(pairs_of(r)[i] == (r[i].0@, r[i].1));
            lemma_cache_map_value(self.pairs(), i);
        }
        assert forall|k: Seq<char>| #[trigger] self@.contains_key(k)
            implies exists|i: int| 0 <= i < r.len() && r[i].0@ == k by {
            lemma_cache_map_dom(self.pairs(), k);
            let i = choose|i: int| 0 <= i < self.pairs().len() && self.pairs()[i].0 == k;
            assert(pairs_of(r)[i] == (r[i].0@, r[i].1));
        }
    }

    /// The entries as (key, verdict) pairs, in insertion order.
    pub fn to_entries(&self) -> (r: Vec<(String, bool)>)
        ensures
            pairs_of(r@) == self.pairs(),
    {
        let mut r: Vec<(String, bool)> = Vec::new();
        let mut i: usize = 0;
        while i < self.entries.len()
            invariant
                i <= self.entries@.len(),
                r@.len() == i,
                pairs_of(r@) == self.pairs().take(i as int),
            decreases self.entries@.len() - i,
        {
            let k = self.entries[i].0.clone();
            let ghost before = r@;
            r.push((k, self.entries[i].1));
            assert forall|j: int| 0 <= j < i + 1 implies #[trigger] pairs_of(r@)[j] == self.pairs()[j] by {
                if j < i {
                    assert(r@[j] == before[j]);
                    assert(pairs_of(before)[j] == self.pairs().take(i as int)[j]);
                }
            }
            i = i + 1;
            assert(pairs_of(r@) =~= self.pairs().take(i as int));
        }
        assert(self.pairs().take(i as int) =~= self.pairs());
        r
    }
}

proof fn lemma_cache_map_len(s: Seq<(Seq<char>, bool)>)
    requires
        keys_unique(s),
    ensures
        cache_map(s).dom().finite(),
        cache_map(s).len() == s.len(),
    decreases s.len(),
{
    if s.len() > 0 {
        assert(keys_unique(s.drop_last()));
        lemma_cache_map_len(s.drop_last());
        lemma_cache_map_dom(s.drop_last(), s.last().0);
        if cache_map(s.drop_last()).contains_key(s.last().0) {
            let i = choose|i: int| 0 <= i < s.len() - 1 && s.drop_last()[i].0 == s.last().0;
            assert(s[i].0 == s[s.len() - 1].0);
        }
    }
}

} // verus!
