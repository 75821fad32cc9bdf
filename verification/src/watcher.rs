//! The watcher loop's control decisions.  The loop itself — the
//! timer, the channel receive, the thread — runs outside; what each
//! control signal does to the index, the mapping table and the shared
//! state is decided and carried out here.

use vstd::prelude::*;

use crate::index::{DirEntry, NameMap};
use crate::state::{
    entry_views, get_known_directories, get_xml_mappings, index_lookup, pair_views, table_lookup,
    ThreadInfos,
};

verus! {

/// A control signal from the front end to the watcher, delivered at
/// most once each.
#[derive(Debug, PartialEq, Eq, Clone, Copy)]
pub enum ControlSignal {
    /// Terminate the watcher after the current pass.
    Stop,
    /// Rebuild the index, recompute the mapping table, and forget
    /// every waiting name.
    Reload,
    /// Recompute the mapping table only.
    NewMapping,
}

/// Applies one control signal between passes and says whether the
/// watcher must terminate.  `Stop` touches nothing and terminates.
/// `Reload` rebuilds the index from the fresh listings, recomputes
/// the mapping table from the fresh mappings against the new index,
/// and clears the waiting names entirely.  `NewMapping` recomputes
/// the mapping table only, against the index as it stands.  Recorded
/// duplicates survive every signal.
pub fn handle_signal(
    signal: ControlSignal,
    anime_dirs: &Vec<DirEntry>,
    series_dirs: &Vec<DirEntry>,
    mappings: &Vec<(String, String)>,
    directories: &mut NameMap,
    infos: &mut ThreadInfos,
) -> (stop: bool)
    requires
        old(infos).wf(),
    ensures
        final(infos).wf(),
        stop == (signal == ControlSignal::Stop),
        final(infos).reported_names() == old(infos).reported_names(),
        signal == ControlSignal::Stop ==> *final(infos) == *old(infos) && *final(directories)
            == *old(directories),
        signal == ControlSignal::Reload ==> {
            &&& forall|k: Seq<char>|
                final(infos).og_directories.spec_get(k) == index_lookup(
                    entry_views(anime_dirs@) + entry_views(series_dirs@),
                    k,
                )
            &&& final(infos).missing_names() == Seq::<Seq<char>>::empty()
            &&& final(directories).wf()
            &&& forall|k: Seq<char>|
                final(directories).spec_get(k) == table_lookup(
                    pair_views(mappings@),
                    final(infos).og_directories,
                    k,
                )
        },
        signal == ControlSignal::NewMapping ==> {
            &&& final(infos).og_directories == old(infos).og_directories
            &&& final(infos).missing_names() == old(infos).missing_names()
            &&& final(directories).wf()
            &&& forall|k: Seq<char>|
                final(directories).spec_get(k) == table_lookup(
                    pair_views(mappings@),
                    old(infos).og_directories,
                    k,
                )
        },
{
    match signal {
        ControlSignal::Stop => true,
        ControlSignal::Reload => {
            get_known_directories(anime_dirs, series_dirs, infos);
            get_xml_mappings(directories, mappings, infos);
            infos.clear_missing();
            false
        },
        ControlSignal::NewMapping => {
            get_xml_mappings(directories, mappings, infos);
            false
        },
    }
}

} // verus!
