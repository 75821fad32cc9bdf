//! The shared bookkeeping state of the watcher: the directory index,
//! the set of base names waiting for a mapping, and the set of source
//! files already reported as duplicates.  The surrounding binary keeps
//! one value of this behind a lock; every operation here is a short
//! read or mutation, so the lock is never held across file system or
//! network work.

use vstd::prelude::*;

use crate::index::{DirEntry, DirEntryV, NameMap};
use crate::text::{lower, lower_string};

verus! {

/// The character sequences of a string vector, in order.
pub open spec fn name_views(v: Seq<String>) -> Seq<Seq<char>> {
    v.map_values(|s: String| s@)
}

/// The views of a directory-entry vector, in order.
pub open spec fn entry_views(v: Seq<DirEntry>) -> Seq<DirEntryV> {
    v.map_values(|d: DirEntry| d@)
}

/// The views of an alt/canonical mapping vector, in order.
pub open spec fn pair_views(v: Seq<(String, String)>) -> Seq<(Seq<char>, Seq<char>)> {
    v.map_values(|p: (String, String)| (p.0@, p.1@))
}

/// `ns` with every name kept only when `present` holds it.
pub open spec fn spec_prune(ns: Seq<Seq<char>>, present: Seq<Seq<char>>) -> Seq<Seq<char>>
    decreases ns.len(),
{
    if ns.len() == 0 {
        Seq::empty()
    } else {
        (if present.contains(ns[0]) {
            seq![ns[0]]
        } else {
            Seq::empty()
        }) + spec_prune(ns.drop_first(), present)
    }
}

/// `ns` with every occurrence of `x` removed.
pub open spec fn spec_remove(ns: Seq<Seq<char>>, x: Seq<char>) -> Seq<Seq<char>>
    decreases ns.len(),
{
    if ns.len() == 0 {
        Seq::empty()
    } else {
        (if ns[0] == x {
            Seq::empty()
        } else {
            seq![ns[0]]
        }) + spec_remove(ns.drop_first(), x)
    }
}

/// Whatever pruning keeps was already there.
pub proof fn lemma_prune_contains(ns: Seq<Seq<char>>, present: Seq<Seq<char>>, x: Seq<char>)
    requires
        spec_prune(ns, present).contains(x),
    ensures
        ns.contains(x),
        present.contains(x),
    decreases ns.len(),
{
    if ns.len() > 0 {
        let kept: Seq<Seq<char>> = if present.contains(ns[0]) {
            seq![ns[0]]
        } else {
            Seq::empty()
        };
        let rest = spec_prune(ns.drop_first(), present);
        if kept.len() > 0 && spec_prune(ns, present)[0] == ns[0] && x == ns[0] {
            assert(ns.contains(x)) by {
                assert(ns[0] == x);
            }
        }
        if rest.contains(x) {
            lemma_prune_contains(ns.drop_first(), present, x);
            let i = choose|i: int| 0 <= i < ns.drop_first().len() && ns.drop_first()[i] == x;
            assert(ns[i + 1] == x);
        } else {
            assert(kept.contains(x));
            assert(x == ns[0]);
            assert(ns[0] == x && present.contains(x));
        }
    }
}

/// Pruning keeps a duplicate-free list duplicate-free.
pub proof fn lemma_prune_no_duplicates(ns: Seq<Seq<char>>, present: Seq<Seq<char>>)
    requires
        ns.no_duplicates(),
    ensures
        spec_prune(ns, present).no_duplicates(),
    decreases ns.len(),
{
    if ns.len() > 0 {
        assert(ns.drop_first().no_duplicates());
        lemma_prune_no_duplicates(ns.drop_first(), present);
        let rest = spec_prune(ns.drop_first(), present);
        if present.contains(ns[0]) {
            let all = spec_prune(ns, present);
            assert(all == seq![ns[0]] + rest);
            if rest.contains(ns[0]) {
                lemma_prune_contains(ns.drop_first(), present, ns[0]);
                let i = choose|i: int|
                    0 <= i < ns.drop_first().len() && ns.drop_first()[i] == ns[0];
                assert(ns[i + 1] == ns[0]);
                assert(false);
            }
            assert forall|a: int, b: int| 0 <= a < b < all.len() implies all[a] != all[b] by {
                if a == 0 {
                    assert(all[b] == rest[b - 1]);
                    assert(rest.contains(rest[b - 1]));
                } else {
                    assert(all[a] == rest[a - 1] && all[b] == rest[b - 1]);
                }
            }
        } else {
            assert(spec_prune(ns, present) =~= rest);
        }
    }
}

/// When every name still has a file, pruning changes nothing.
pub proof fn lemma_prune_noop(ns: Seq<Seq<char>>, present: Seq<Seq<char>>)
    requires
        forall|i: int| 0 <= i < ns.len() ==> present.contains(#[trigger] ns[i]),
    ensures
        spec_prune(ns, present) == ns,
    decreases ns.len(),
{
    if ns.len() > 0 {
        assert(forall|i: int|
            0 <= i < ns.drop_first().len() ==> present.contains(#[trigger] ns.drop_first()[i]));
        lemma_prune_noop(ns.drop_first(), present);
        assert(present.contains(ns[0]));
        assert(spec_prune(ns, present) =~= ns);
    }
}

/// Everything pruning keeps is in `present`; membership is otherwise
/// unchanged.
pub proof fn lemma_prune_keeps(ns: Seq<Seq<char>>, present: Seq<Seq<char>>, x: Seq<char>)
    requires
        ns.contains(x),
        present.contains(x),
    ensures
        spec_prune(ns, present).contains(x),
    decreases ns.len(),
{
    if ns.len() > 0 {
        if ns[0] == x {
            assert(spec_prune(ns, present)[0] == x);
        } else {
            let i = choose|i: int| 0 <= i < ns.len() && ns[i] == x;
            assert(ns.drop_first()[i - 1] == x);
            lemma_prune_keeps(ns.drop_first(), present, x);
            let rest = spec_prune(ns.drop_first(), present);
            let j = choose|j: int| 0 <= j < rest.len() && rest[j] == x;
            let kept: Seq<Seq<char>> = if present.contains(ns[0]) {
                seq![ns[0]]
            } else {
                Seq::empty()
            };
            assert(spec_prune(ns, present)[kept.len() + j] == x);
        }
    }
}

/// The shared state: the directory index, the base names waiting for
/// an operator mapping, and the source filenames whose duplicate has
/// already been reported once.
pub struct ThreadInfos {
    /// The mappings that need to be added, in the order they were
    /// first seen; never holds a name twice.
    pub missing_mappings: Vec<String>,
    /// The directories that are present and known, keyed by their
    /// lowercased names.
    pub og_directories: NameMap,
    /// Source filenames whose duplicate was already reported.
    pub reported_duplicates: Vec<String>,
}

impl ThreadInfos {
    pub open spec fn missing_names(self) -> Seq<Seq<char>> {
        name_views(self.missing_mappings@)
    }

    pub open spec fn reported_names(self) -> Seq<Seq<char>> {
        name_views(self.reported_duplicates@)
    }

    pub open spec fn wf(self) -> bool {
        &&& self.og_directories.wf()
        &&& self.og_directories.keys_lowered()
        &&& self.missing_names().no_duplicates()
        &&& self.reported_names().no_duplicates()
    }

    /// A fresh, empty state.
    pub fn new() -> (r: ThreadInfos)
        ensures
            r.wf(),
            r.missing_names() == Seq::<Seq<char>>::empty(),
            r.reported_names() == Seq::<Seq<char>>::empty(),
            forall|k: Seq<char>| r.og_directories.spec_get(k).is_none(),
    {
        let r = ThreadInfos {
            missing_mappings: Vec::new(),
            og_directories: NameMap::new(),
            reported_duplicates: Vec::new(),
        };
        proof {
            assert(r.missing_names() =~= Seq::<Seq<char>>::empty());
            assert(r.reported_names() =~= Seq::<Seq<char>>::empty());
        }
        r
    }

    /// Whether `name` is waiting for a mapping.
    pub fn contains_missing(&self, name: &String) -> (r: bool)
        ensures
            r == self.missing_names().contains(name@),
    {
        contains_name(&self.missing_mappings, name)
    }

    /// Notes `name` as waiting for a mapping; reports whether it is
    /// newly noted (only then should a prompt go out).
    pub fn note_missing(&mut self, name: String) -> (r: bool)
        requires
            old(self).wf(),
        ensures
            final(self).wf(),
            r == !old(self).missing_names().contains(name@),
            final(self).missing_names() == if r {
                old(self).missing_names().push(name@)
            } else {
                old(self).missing_names()
            },
            final(self).og_directories == old(self).og_directories,
            final(self).reported_names() == old(self).reported_names(),
    {
        if self.contains_missing(&name) {
            return false;
        }
        let ghost ns0 = self.missing_names();
        self.missing_mappings.push(name);
        proof {
            assert(final(self).missing_names() =~= ns0.push(name@));
            assert forall|a: int, b: int|
                0 <= a < b < ns0.push(name@).len() implies ns0.push(name@)[a] != ns0.push(
                name@,
            )[b] by {
                if b == ns0.len() {
                    assert(!ns0.contains(name@));
                    assert(ns0[a] != name@);
                }
            }
        }
        true
    }

    /// Drops every waiting name that no longer has a file on disk:
    /// only names in `present` survive.
    pub fn prune_missing(&mut self, present: &Vec<String>)
        requires
            old(self).wf(),
        ensures
            final(self).wf(),
            final(self).missing_names() == spec_prune(
                old(self).missing_names(),
                name_views(present@),
            ),
            final(self).og_directories == old(self).og_directories,
            final(self).reported_names() == old(self).reported_names(),
    {
        let ghost ns0 = self.missing_names();
        let ghost pv = name_views(present@);
        let mut kept: Vec<String> = Vec::new();
        let mut i: usize = 0;
        proof {
            assert(ns0.skip(0) =~= ns0);
            assert(name_views(kept@) + spec_prune(ns0, pv) =~= spec_prune(ns0, pv));
        }
        while i < self.missing_mappings.len()
            invariant
                i <= self.missing_mappings@.len(),
                ns0 == self.missing_names(),
                pv == name_views(present@),
                self == old(self),
                name_views(kept@) + spec_prune(ns0.skip(i as int), pv) == spec_prune(ns0, pv),
            decreases self.missing_mappings@.len() - i,
        {
            let ghost pre = ns0.skip(i as int);
            let ghost kept0 = name_views(kept@);
            assert(pre[0] == ns0[i as int]);
            if contains_name(present, &self.missing_mappings[i]) {
                let s = self.missing_mappings[i].clone();
                kept.push(s);
                proof {
                    assert(name_views(kept@) =~= kept0.push(ns0[i as int]));
                }
            }
            i = i + 1;
            proof {
                assert(pre.drop_first() =~= ns0.skip(i as int));
                if pv.contains(pre[0]) {
                    assert(name_views(kept@) + spec_prune(ns0.skip(i as int), pv) =~= kept0
                        + spec_prune(pre, pv));
                } else {
                    assert(name_views(kept@) + spec_prune(ns0.skip(i as int), pv) =~= kept0
                        + spec_prune(pre, pv));
                }
            }
        }
        proof {
            assert(ns0.skip(i as int) =~= Seq::<Seq<char>>::empty());
            assert(name_views(kept@) =~= spec_prune(ns0, pv));
            lemma_prune_no_duplicates(ns0, pv);
        }
        self.missing_mappings = kept;
    }

    /// Forgets every waiting name (the full reset a reload asks for).
    pub fn clear_missing(&mut self)
        ensures
            old(self).wf() ==> final(self).wf(),
            final(self).missing_names() == Seq::<Seq<char>>::empty(),
            final(self).og_directories == old(self).og_directories,
            final(self).reported_names() == old(self).reported_names(),
    {
        self.missing_mappings = Vec::new();
        proof {
            assert(self.missing_names() =~= Seq::<Seq<char>>::empty());
        }
    }

    /// Drops `alt` from the waiting names: called when a mapping for
    /// it has just been registered.
    pub fn remove_missing(&mut self, alt: &String)
        requires
            old(self).wf(),
        ensures
            final(self).wf(),
            final(self).missing_names() == spec_remove(old(self).missing_names(), alt@),
            final(self).og_directories == old(self).og_directories,
            final(self).reported_names() == old(self).reported_names(),
    {
        let ghost ns0 = self.missing_names();
        let mut kept: Vec<String> = Vec::new();
        let mut i: usize = 0;
        proof {
            assert(ns0.skip(0) =~= ns0);
            assert(name_views(kept@) + spec_remove(ns0, alt@) =~= spec_remove(ns0, alt@));
            assert(name_views(kept@).len() == 0);
        }
        while i < self.missing_mappings.len()
            invariant
                i <= self.missing_mappings@.len(),
                ns0 == self.missing_names(),
                self == old(self),
                name_views(kept@) + spec_remove(ns0.skip(i as int), alt@) == spec_remove(
                    ns0,
                    alt@,
                ),
                forall|x: Seq<char>|
                    name_views(kept@).contains(x) ==> ns0.contains(x),
            decreases self.missing_mappings@.len() - i,
        {
            let ghost pre = ns0.skip(i as int);
            let ghost kept0 = name_views(kept@);
            assert(pre[0] == ns0[i as int]);
            if !self.missing_mappings[i].eq(alt) {
                let s = self.missing_mappings[i].clone();
                kept.push(s);
                proof {
                    assert(name_views(kept@) =~= kept0.push(ns0[i as int]));
                    assert forall|x: Seq<char>| name_views(kept@).contains(x) implies ns0.contains(
                        x,
                    ) by {
                        if x != ns0[i as int] {
                            assert(kept0.contains(x));
                        }
                    }
                }
            }
            i = i + 1;
            proof {
                assert(pre.drop_first() =~= ns0.skip(i as int));
                assert(name_views(kept@) + spec_remove(ns0.skip(i as int), alt@) =~= kept0
                    + spec_remove(pre, alt@));
            }
        }
        proof {
            assert(ns0.skip(i as int) =~= Seq::<Seq<char>>::empty());
            assert(name_views(kept@) =~= spec_remove(ns0, alt@));
            let r = name_views(kept@);
            assert forall|a: int, b: int| 0 <= a < b < r.len() implies r[a] != r[b] by {
                lemma_remove_index_map(ns0, alt@, a, b);
            }
        }
        self.missing_mappings = kept;
    }

    /// Whether this duplicate was reported before; if not, notes it.
    /// Reports the duplicate's first sighting: `true` exactly once per
    /// source filename.
    pub fn record_duplicate(&mut self, source: &String) -> (r: bool)
        requires
            old(self).wf(),
        ensures
            final(self).wf(),
            r == !old(self).reported_names().contains(source@),
            final(self).reported_names() == if r {
                old(self).reported_names().push(source@)
            } else {
                old(self).reported_names()
            },
            final(self).og_directories == old(self).og_directories,
            final(self).missing_names() == old(self).missing_names(),
    {
        if contains_name(&self.reported_duplicates, source) {
            return false;
        }
        let ghost ns0 = self.reported_names();
        self.reported_duplicates.push(source.clone());
        proof {
            assert(final(self).reported_names() =~= ns0.push(source@));
            assert forall|a: int, b: int|
                0 <= a < b < ns0.push(source@).len() implies ns0.push(source@)[a] != ns0.push(
                source@,
            )[b] by {
                if b == ns0.len() {
                    assert(!ns0.contains(source@));
                    assert(ns0[a] != source@);
                }
            }
        }
        true
    }
}

/// In a duplicate-free list, removal keeps entries distinct.
proof fn lemma_remove_index_map(ns: Seq<Seq<char>>, x: Seq<char>, a: int, b: int)
    requires
        ns.no_duplicates(),
        0 <= a < b < spec_remove(ns, x).len(),
    ensures
        spec_remove(ns, x)[a] != spec_remove(ns, x)[b],
    decreases ns.len(),
{
    if ns.len() > 0 {
        let rest = spec_remove(ns.drop_first(), x);
        assert(ns.drop_first().no_duplicates());
        if ns[0] == x {
            assert(spec_remove(ns, x) =~= rest);
            lemma_remove_index_map(ns.drop_first(), x, a, b);
        } else {
            assert(spec_remove(ns, x) =~= seq![ns[0]] + rest);
            if a == 0 {
                assert(spec_remove(ns, x)[b] == rest[b - 1]);
                lemma_remove_contains(ns.drop_first(), x, rest[b - 1]);
            } else {
                lemma_remove_index_map(ns.drop_first(), x, a - 1, b - 1);
            }
        }
    }
}

/// Whatever removal keeps was already there.
proof fn lemma_remove_contains(ns: Seq<Seq<char>>, x: Seq<char>, y: Seq<char>)
    requires
        spec_remove(ns, x).contains(y),
    ensures
        ns.contains(y),
    decreases ns.len(),
{
    if ns.len() > 0 {
        let rest = spec_remove(ns.drop_first(), x);
        if ns[0] != x && spec_remove(ns, x)[0] == y && ns[0] == y {
            assert(ns.contains(y)) by {
                assert(ns[0] == y);
            }
        }
        if rest.contains(y) {
            lemma_remove_contains(ns.drop_first(), x, y);
            let i = choose|i: int| 0 <= i < ns.drop_first().len() && ns.drop_first()[i] == y;
            assert(ns[i + 1] == y);
        } else {
            assert(ns[0] != x);
            assert(spec_remove(ns, x) =~= seq![ns[0]] + rest);
            assert(y == ns[0]);
        }
    }
}

/// Whether some string in `v` has exactly the characters of `x`.
pub fn contains_name(v: &Vec<String>, x: &String) -> (r: bool)
    ensures
        r == name_views(v@).contains(x@),
{
    let mut i: usize = 0;
    while i < v.len()
        invariant
            i <= v@.len(),
            forall|j: int| 0 <= j < i ==> name_views(v@)[j] != x@,
        decreases v@.len() - i,
    {
        if v[i].eq(x) {
            assert(name_views(v@)[i as int] == x@);
            return true;
        }
        assert(name_views(v@)[i as int] != x@);
        i = i + 1;
    }
    assert(!name_views(v@).contains(x@));
    false
}

/// Last-match lookup over a directory listing: a directory listed
/// later (the series root after the anime root) wins over an earlier
/// one with the same lowercased name.
pub open spec fn index_lookup(list: Seq<DirEntryV>, k: Seq<char>) -> Option<DirEntryV>
    decreases list.len(),
{
    if list.len() == 0 {
        None
    } else if lower(list.last().name) == k {
        Some(list.last())
    } else {
        index_lookup(list.drop_last(), k)
    }
}

/// Rebuilds the directory index from the listings of the two library
/// roots, replacing it wholesale: afterwards a lowercased name maps to
/// the latest listed directory of that name, and nothing else changed.
pub fn get_known_directories(
    anime_dirs: &Vec<DirEntry>,
    series_dirs: &Vec<DirEntry>,
    infos: &mut ThreadInfos,
)
    requires
        old(infos).wf(),
    ensures
        final(infos).wf(),
        forall|k: Seq<char>|
            final(infos).og_directories.spec_get(k) == index_lookup(
                entry_views(anime_dirs@) + entry_views(series_dirs@),
                k,
            ),
        final(infos).missing_names() == old(infos).missing_names(),
        final(infos).reported_names() == old(infos).reported_names(),
    {
    let ghost all = entry_views(anime_dirs@) + entry_views(series_dirs@);
    let mut m = NameMap::new();
    let mut i: usize = 0;
    proof {
        assert(all.take(0) =~= Seq::<DirEntryV>::empty());
    }
    while i < anime_dirs.len()
        invariant
            i <= anime_dirs@.len(),
            all == entry_views(anime_dirs@) + entry_views(series_dirs@),
            m.wf(),
            m.keys_lowered(),
            forall|k: Seq<char>| m.spec_get(k) == index_lookup(all.take(i as int), k),
        decreases anime_dirs@.len() - i,
    {
        let e = anime_dirs[i].duplicate();
        let key = lower_string(e.name.as_str());
        proof {
            crate::text::lemma_lower_idempotent(e.name@);
        }
        m.insert(key, e);
        i = i + 1;
        proof {
            assert(all.take(i as int).last() == all[i - 1]);
            assert(all.take(i as int).drop_last() =~= all.take(i - 1));
        }
    }
    let na = anime_dirs.len();
    let mut j: usize = 0;
    while j < series_dirs.len()
        invariant
            j <= series_dirs@.len(),
            na == anime_dirs@.len(),
            all == entry_views(anime_dirs@) + entry_views(series_dirs@),
            m.wf(),
            m.keys_lowered(),
            forall|k: Seq<char>| m.spec_get(k) == index_lookup(all.take(na + j), k),
        decreases series_dirs@.len() - j,
    {
        let e = series_dirs[j].duplicate();
        let key = lower_string(e.name.as_str());
        proof {
            crate::text::lemma_lower_idempotent(e.name@);
        }
        m.insert(key, e);
        j = j + 1;
        proof {
            assert(all.take(na + j).last() == all[na + j - 1]);
            assert(all[na + j - 1] == entry_views(series_dirs@)[j - 1]);
            assert(all.take(na + j).drop_last() =~= all.take(na + j - 1));
        }
    }
    proof {
        assert(all.take(na + j) =~= all);
    }
    infos.og_directories = m;
}

/// Last-match lookup over the stored mappings, keeping only pairs
/// whose canonical name is a known directory.
pub open spec fn table_lookup(
    ms: Seq<(Seq<char>, Seq<char>)>,
    og: NameMap,
    k: Seq<char>,
) -> Option<DirEntryV>
    decreases ms.len(),
{
    if ms.len() == 0 {
        None
    } else if ms.last().0 == k && og.spec_get(ms.last().1).is_some() {
        og.spec_get(ms.last().1)
    } else {
        table_lookup(ms.drop_last(), og, k)
    }
}

/// Rebuilds the mapping table wholesale from the stored mappings and
/// the current index: a pair whose canonical name is unknown is
/// dropped silently, and a later pair wins over an earlier one with
/// the same alt name.
pub fn get_xml_mappings(
    directories: &mut NameMap,
    mappings: &Vec<(String, String)>,
    infos: &ThreadInfos,
)
    ensures
        final(directories).wf(),
        forall|k: Seq<char>|
            final(directories).spec_get(k) == table_lookup(
                pair_views(mappings@),
                infos.og_directories,
                k,
            ),
{
    let ghost ms = pair_views(mappings@);
    directories.clear();
    let mut i: usize = 0;
    proof {
        assert(ms.take(0) =~= Seq::<(Seq<char>, Seq<char>)>::empty());
    }
    while i < mappings.len()
        invariant
            i <= mappings@.len(),
            ms == pair_views(mappings@),
            directories.wf(),
            forall|k: Seq<char>|
                directories.spec_get(k) == table_lookup(ms.take(i as int), infos.og_directories, k),
        decreases mappings@.len() - i,
    {
        match infos.og_directories.get(&mappings[i].1) {
            Some(e) => {
                let d = e.duplicate();
                let alt = mappings[i].0.clone();
                directories.insert(alt, d);
            },
            None => {},
        }
        i = i + 1;
        proof {
            assert(ms.take(i as int).last() == ms[i - 1]);
            assert(ms.take(i as int).drop_last() =~= ms.take(i - 1));
        }
    }
    proof {
        assert(ms.take(i as int) =~= ms);
    }
}

/// Where a file goes: the mapping table is consulted first, the raw
/// directory index second.
pub open spec fn spec_resolve(table: NameMap, og: NameMap, k: Seq<char>) -> Option<DirEntryV> {
    if table.spec_get(k).is_some() {
        table.spec_get(k)
    } else {
        og.spec_get(k)
    }
}

/// Resolves a base name to its destination directory, as
/// [`spec_resolve`] says: mapping table first, raw index second.
pub fn resolve_destination(table: &NameMap, infos: &ThreadInfos, base: &String) -> (r: Option<
    DirEntry,
>)
    ensures
        match r {
            Some(e) => spec_resolve(*table, infos.og_directories, base@) == Some(e@),
            None => spec_resolve(*table, infos.og_directories, base@).is_none(),
        },
{
    match table.get(base) {
        Some(e) => Some(e.duplicate()),
        None => match infos.og_directories.get(base) {
            Some(e) => Some(e.duplicate()),
            None => None,
        },
    }
}

/// When both a registered alt mapping and a same-named raw directory
/// exist, resolution takes the mapping-table entry, never the bare
/// directory.
pub proof fn lemma_mapping_precedence(table: NameMap, og: NameMap, k: Seq<char>)
    requires
        table.spec_contains(k),
    ensures
        spec_resolve(table, og, k) == table.spec_get(k),
{
}

} // verus!
