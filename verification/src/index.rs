//! The directory index and the mapping table: a small string-keyed
//! map with first-match lookup and unique keys, holding one entry per
//! known series directory.

use vstd::prelude::*;

verus! {

/// A known series directory: its display name (the directory's own
/// name on disk) and its full path.
#[derive(Debug)]
pub struct DirEntry {
    pub name: String,
    pub path: String,
}

/// The mathematical shape of a directory entry.
pub struct DirEntryV {
    pub name: Seq<char>,
    pub path: Seq<char>,
}

impl View for DirEntry {
    type V = DirEntryV;

    open spec fn view(&self) -> DirEntryV {
        DirEntryV { name: self.name@, path: self.path@ }
    }
}

impl DirEntry {
    /// An owned copy of the entry.
    pub fn duplicate(&self) -> (r: DirEntry)
        ensures
            r@ == self@,
    {
        DirEntry { name: self.name.clone(), path: self.path.clone() }
    }
}

/// First-match lookup in a key/value pair sequence.
pub open spec fn lookup_pairs(ps: Seq<(Seq<char>, DirEntryV)>, k: Seq<char>) -> Option<DirEntryV>
    decreases ps.len(),
{
    if ps.len() == 0 {
        None
    } else if ps[0].0 == k {
        Some(ps[0].1)
    } else {
        lookup_pairs(ps.drop_first(), k)
    }
}

/// No key occurs twice in the pair sequence.
pub open spec fn distinct_keys(ps: Seq<(Seq<char>, DirEntryV)>) -> bool {
    forall|i: int, j: int|
        0 <= i < j < ps.len() ==> (#[trigger] ps[i]).0 != (#[trigger] ps[j]).0
}

/// A map from a name to a directory entry, with unique keys.
pub struct NameMap {
    pub entries: Vec<(String, DirEntry)>,
}

impl NameMap {
    /// The entries as key/value pairs of sequences.
    pub open spec fn pairs(self) -> Seq<(Seq<char>, DirEntryV)> {
        self.entries@.map_values(|p: (String, DirEntry)| (p.0@, p.1@))
    }

    /// No key occurs twice.
    pub open spec fn wf(self) -> bool {
        distinct_keys(self.pairs())
    }

    /// Every key is already lowercased.
    pub open spec fn keys_lowered(self) -> bool {
        forall|i: int|
            0 <= i < self.pairs().len() ==> (#[trigger] self.pairs()[i]).0 == crate::text::lower(
                self.pairs()[i].0,
            )
    }

    /// The value stored under `k`.
    pub open spec fn spec_get(self, k: Seq<char>) -> Option<DirEntryV> {
        lookup_pairs(self.pairs(), k)
    }

    pub open spec fn spec_contains(self, k: Seq<char>) -> bool {
        self.spec_get(k).is_some()
    }

    /// An empty map.
    pub fn new() -> (r: NameMap)
        ensures
            r.wf(),
            r.keys_lowered(),
            r.pairs() == Seq::<(Seq<char>, DirEntryV)>::empty(),
            forall|k: Seq<char>| r.spec_get(k).is_none(),
    {
        let r = NameMap { entries: Vec::new() };
        proof {
            assert(r.pairs() =~= Seq::<(Seq<char>, DirEntryV)>::empty());
        }
        r
    }

    /// Looks a name up, as [`NameMap::spec_get`] says.
    pub fn get(&self, k: &String) -> (r: Option<&DirEntry>)
        ensures
            match r {
                Some(e) => self.spec_get(k@) == Some(e@),
                None => self.spec_get(k@).is_none(),
            },
    {
        let mut i: usize = 0;
        while i < self.entries.len()
            invariant
                i <= self.entries@.len(),
                forall|j: int| 0 <= j < i ==> (#[trigger] self.pairs()[j]).0 != k@,
            decreases self.entries@.len() - i,
        {
            if self.entries[i].0.eq(k) {
                assert(self.pairs()[i as int].0 == k@);
                proof {
                    lemma_lookup_at(self.pairs(), k@, i as int);
                }
                return Some(&self.entries[i].1);
            }
            assert(self.pairs()[i as int].0 != k@);
            i = i + 1;
        }
        proof {
            lemma_lookup_none(self.pairs(), k@);
        }
        None
    }

    /// Inserts or replaces the entry under `k`.
    pub fn insert(&mut self, k: String, v: DirEntry)
        requires
            old(self).wf(),
        ensures
            final(self).wf(),
            forall|k2: Seq<char>|
                final(self).spec_get(k2) == if k2 == k@ {
                    Some(v@)
                } else {
                    old(self).spec_get(k2)
                },
            old(self).keys_lowered() && k@ == crate::text::lower(k@)
                ==> final(self).keys_lowered(),
    {
        let ghost ps0 = old(self).pairs();
        let mut i: usize = 0;
        while i < self.entries.len()
            invariant
                i <= self.entries@.len(),
                forall|j: int| 0 <= j < i ==> (#[trigger] self.pairs()[j]).0 != k@,
                self.pairs() == ps0,
                self == old(self),
                distinct_keys(ps0),
            decreases self.entries@.len() - i,
        {
            if self.entries[i].0.eq(&k) {
                assert(ps0[i as int].0 == k@);
                self.entries.set(i, (k, v));
                proof {
                    let ps1 = self.pairs();
                    assert(ps1 =~= ps0.update(i as int, (ps0[i as int].0, v@)));
                    assert forall|a: int, b: int| 0 <= a < b < ps1.len() implies (
                    #[trigger] ps1[a]).0 != (#[trigger] ps1[b]).0 by {
                        assert(ps0[a].0 != ps0[b].0);
                        assert(ps1[a].0 == ps0[a].0);
                        assert(ps1[b].0 == ps0[b].0);
                    }
                    assert forall|k2: Seq<char>| #![all_triggers]
                        final(self).spec_get(k2) == if k2 == ps0[i as int].0 {
                            Some(v@)
                        } else {
                            lookup_pairs(ps0, k2)
                        } by {
                        if k2 == ps0[i as int].0 {
                            lemma_lookup_at(ps1, k2, i as int);
                        } else {
                            lemma_lookup_update_other(ps0, i as int, v@, k2);
                        }
                    }
                }
                return;
            }
            assert(self.pairs()[i as int].0 != k@);
            i = i + 1;
        }
        let ghost kv = (k@, v@);
        self.entries.push((k, v));
        proof {
            let ps1 = self.pairs();
            assert(ps1 =~= ps0.push(kv));
            assert forall|k2: Seq<char>| #![all_triggers]
                final(self).spec_get(k2) == if k2 == kv.0 {
                    Some(kv.1)
                } else {
                    lookup_pairs(ps0, k2)
                } by {
                lemma_lookup_push(ps0, kv, k2);
                if k2 == kv.0 {
                    lemma_lookup_none(ps0, k2);
                }
            }
        }
    }

    /// Removes every entry.
    pub fn clear(&mut self)
        ensures
            final(self).wf(),
            final(self).keys_lowered(),
            final(self).pairs() == Seq::<(Seq<char>, DirEntryV)>::empty(),
            forall|k: Seq<char>| final(self).spec_get(k).is_none(),
    {
        self.entries = Vec::new();
        proof {
            assert(self.pairs() =~= Seq::<(Seq<char>, DirEntryV)>::empty());
        }
    }

    /// How many entries the map holds.
    pub fn len(&self) -> (r: usize)
        ensures
            r == self.pairs().len(),
    {
        self.entries.len()
    }
}

pub proof fn lemma_lookup_at(ps: Seq<(Seq<char>, DirEntryV)>, k: Seq<char>, i: int)
    requires
        0 <= i < ps.len(),
        ps[i].0 == k,
        forall|j: int| 0 <= j < i ==> (#[trigger] ps[j]).0 != k,
    ensures
        lookup_pairs(ps, k) == Some(ps[i].1),
    decreases i,
{
    if i > 0 {
        lemma_lookup_at(ps.drop_first(), k, i - 1);
    }
}

pub proof fn lemma_lookup_none(ps: Seq<(Seq<char>, DirEntryV)>, k: Seq<char>)
    requires
        forall|j: int| 0 <= j < ps.len() ==> (#[trigger] ps[j]).0 != k,
    ensures
        lookup_pairs(ps, k).is_none(),
    decreases ps.len(),
{
    if ps.len() > 0 {
        lemma_lookup_none(ps.drop_first(), k);
    }
}

pub proof fn lemma_lookup_push(ps: Seq<(Seq<char>, DirEntryV)>, p: (Seq<char>, DirEntryV), k: Seq<char>)
    ensures
        lookup_pairs(ps.push(p), k) == match lookup_pairs(ps, k) {
            Some(x) => Some(x),
            None => if p.0 == k {
                Some(p.1)
            } else {
                None
            },
        },
    decreases ps.len(),
{
    if ps.len() == 0 {
        assert(ps.push(p).drop_first() =~= Seq::<(Seq<char>, DirEntryV)>::empty());
    } else {
        assert(ps.push(p).drop_first() =~= ps.drop_first().push(p));
        lemma_lookup_push(ps.drop_first(), p, k);
    }
}

pub proof fn lemma_lookup_update_other(
    ps: Seq<(Seq<char>, DirEntryV)>,
    i: int,
    v: DirEntryV,
    k: Seq<char>,
)
    requires
        0 <= i < ps.len(),
        k != ps[i].0,
    ensures
        lookup_pairs(ps.update(i, (ps[i].0, v)), k) == lookup_pairs(ps, k),
    decreases i,
{
    let ps1 = ps.update(i, (ps[i].0, v));
    if i == 0 {
        assert(ps1.drop_first() =~= ps.drop_first());
    } else {
        assert(ps1.drop_first() =~= ps.drop_first().update(i - 1, (ps[i].0, v)));
        lemma_lookup_update_other(ps.drop_first(), i - 1, v, k);
    }
}

} // verus!
