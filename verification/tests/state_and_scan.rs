use download_watcher::episodes::{resolve_missing_episode, SeasonInfo};
use download_watcher::index::{DirEntry, NameMap};
use download_watcher::mover::{move_report, plan_move, MovePlan, MoveProbe};
use download_watcher::scan::{
    after_season_lookup, handle_file, refresh_candidates, snapshot_bases, FileStep, SeasonStep,
};
use download_watcher::state::{
    get_known_directories, get_xml_mappings, resolve_destination, ThreadInfos,
};
use download_watcher::watcher::{handle_signal, ControlSignal};

fn entry(name: &str, path: &str) -> DirEntry {
    DirEntry { name: String::from(name), path: String::from(path) }
}

fn strings(names: &[&str]) -> Vec<String> {
    names.iter().map(|n| String::from(*n)).collect()
}

fn indexed_state() -> ThreadInfos {
    let mut infos = ThreadInfos::new();
    let anime = vec![entry("Show Name", "/lib/anime/Show Name")];
    let series = vec![entry("Other Show", "/lib/series/Other Show")];
    get_known_directories(&anime, &series, &mut infos);
    infos
}

#[test]
fn index_keys_are_lowercased_and_later_roots_win() {
    let mut infos = ThreadInfos::new();
    let anime = vec![entry("Show Name", "/lib/anime/Show Name")];
    let series = vec![entry("SHOW NAME", "/lib/series/SHOW NAME")];
    get_known_directories(&anime, &series, &mut infos);
    let hit = infos.og_directories.get(&String::from("show name")).expect("known directory");
    assert_eq!(hit.path, "/lib/series/SHOW NAME");
    assert!(infos.og_directories.get(&String::from("Show Name")).is_none());
}

#[test]
fn mapping_table_keeps_only_known_canonicals() {
    let infos = indexed_state();
    let mappings = vec![
        (String::from("alt one"), String::from("show name")),
        (String::from("alt two"), String::from("unknown show")),
    ];
    let mut table = NameMap::new();
    get_xml_mappings(&mut table, &mappings, &infos);
    assert_eq!(table.len(), 1);
    let hit = table.get(&String::from("alt one")).expect("mapped");
    assert_eq!(hit.path, "/lib/anime/Show Name");
    assert!(table.get(&String::from("alt two")).is_none());
}

#[test]
fn mapping_precedence_over_raw_directory() {
    // The alt name is also a real directory name; the mapping must win.
    let mut infos = ThreadInfos::new();
    let anime = vec![
        entry("Show Name", "/lib/anime/Show Name"),
        entry("alt name", "/lib/anime/alt name"),
    ];
    get_known_directories(&anime, &Vec::new(), &mut infos);
    let mappings = vec![(String::from("alt name"), String::from("show name"))];
    let mut table = NameMap::new();
    get_xml_mappings(&mut table, &mappings, &infos);
    let hit = resolve_destination(&table, &infos, &String::from("alt name")).expect("resolved");
    assert_eq!(hit.path, "/lib/anime/Show Name");
}

#[test]
fn raw_directory_is_the_fallback() {
    let infos = indexed_state();
    let table = NameMap::new();
    let hit = resolve_destination(&table, &infos, &String::from("other show")).expect("resolved");
    assert_eq!(hit.path, "/lib/series/Other Show");
    assert!(resolve_destination(&table, &infos, &String::from("nobody")).is_none());
}

#[test]
fn missing_names_are_noted_once() {
    let mut infos = ThreadInfos::new();
    assert!(infos.note_missing(String::from("show name")));
    assert!(!infos.note_missing(String::from("show name")));
    assert_eq!(infos.missing_mappings.len(), 1);
}

#[test]
fn pruning_keeps_only_names_with_files() {
    let mut infos = ThreadInfos::new();
    infos.note_missing(String::from("still here"));
    infos.note_missing(String::from("gone"));
    let present = strings(&["still here", "unrelated"]);
    infos.prune_missing(&present);
    assert_eq!(infos.missing_mappings, strings(&["still here"]));
}

#[test]
fn registering_a_mapping_clears_the_waiting_name() {
    let mut infos = ThreadInfos::new();
    infos.note_missing(String::from("alt name"));
    infos.remove_missing(&String::from("alt name"));
    assert!(infos.missing_mappings.is_empty());
}

#[test]
fn duplicates_are_recorded_once() {
    let mut infos = ThreadInfos::new();
    assert!(infos.record_duplicate(&String::from("a.mkv")));
    assert!(!infos.record_duplicate(&String::from("a.mkv")));
    assert!(infos.record_duplicate(&String::from("b.mkv")));
}

#[test]
fn move_plan_names_follow_the_convention() {
    // Moving "Show.Name.S01E02.mkv" into "Show Name" produces
    // "Show Name/Season 01/Show Name - s01e02.mkv".
    let dest = entry("Show Name", "/lib/Show Name");
    let plan = plan_move(&dest, 1, 2, &String::from("mkv"));
    assert_eq!(plan.bucket_path, "/lib/Show Name/Season 01");
    assert_eq!(plan.target_name, "Show Name - s01e02.mkv");
    assert_eq!(plan.target_path, "/lib/Show Name/Season 01/Show Name - s01e02.mkv");
}

#[test]
fn move_report_lines() {
    let dest = entry("Show Name", "/lib/Show Name");
    let plan = plan_move(&dest, 1, 2, &String::from("mkv"));
    let src = String::from("Show.Name.S01E02.mkv");
    let mut infos = ThreadInfos::new();
    let moved = move_report(MoveProbe::Renamed, &src, &plan, &mut infos).expect("line");
    assert_eq!(
        moved,
        "Moved `Show.Name.S01E02.mkv` as `Show Name - s01e02.mkv` to known folder."
    );
    let failed = move_report(MoveProbe::RenameFailed, &src, &plan, &mut infos).expect("line");
    assert_eq!(
        failed,
        ":x: Something went wrong while trying to move the file `Show.Name.S01E02.mkv`. Please look at the logs"
    );
    let nodir = move_report(MoveProbe::DirCreateFailed, &src, &plan, &mut infos).expect("line");
    assert_eq!(
        nodir,
        ":x: Something went wrong while trying to create the directory `/lib/Show Name/Season 01`. Please look at the logs"
    );
}

#[test]
fn duplicate_move_reported_once_and_source_kept() {
    let dest = entry("Show Name", "/lib/Show Name");
    let plan = plan_move(&dest, 1, 2, &String::from("mkv"));
    let src = String::from("Show.Name.S01E02.mkv");
    let mut infos = ThreadInfos::new();
    let first = move_report(MoveProbe::TargetExists, &src, &plan, &mut infos);
    assert_eq!(first, Some(String::from(":x: File already present: `Show.Name.S01E02.mkv`")));
    // A later pass sees the same duplicate again: no second report.
    let second = move_report(MoveProbe::TargetExists, &src, &plan, &mut infos);
    assert_eq!(second, None);
    let third = move_report(MoveProbe::TargetExists, &src, &plan, &mut infos);
    assert_eq!(third, None);
}

#[test]
fn backticks_in_names_are_escaped() {
    let dest = entry("Show Name", "/lib/Show Name");
    let plan = plan_move(&dest, 1, 2, &String::from("mkv"));
    let src = String::from("bad`name.mkv");
    let mut infos = ThreadInfos::new();
    let line = move_report(MoveProbe::TargetExists, &src, &plan, &mut infos).expect("line");
    assert_eq!(line, ":x: File already present: `bad'name.mkv`");
}

#[test]
fn candidates_filter_extensions_and_ignores() {
    let files = strings(&[
        "a.mkv",
        "b.txt",
        "c.mp4",
        "ignored.avi",
        "noext",
        "D.AVI",
    ]);
    let ignore = strings(&["ignored.avi", "stale.mkv"]);
    let (cands, kept) = refresh_candidates(&files, &ignore);
    assert_eq!(cands, strings(&["a.mkv", "c.mp4", "D.AVI"]));
    assert_eq!(kept, strings(&["ignored.avi"]));
}

#[test]
fn snapshot_collects_parseable_bases() {
    let cands = strings(&["Show.Name.S01E02.mkv", "garbage.mkv", "Other Show e03.mp4"]);
    let bases = snapshot_bases(&cands);
    assert_eq!(bases, strings(&["show name", "other show"]));
}

#[test]
fn unresolved_file_prompts_once_then_skips() {
    let mut infos = indexed_state();
    let table = NameMap::new();
    let name = String::from("Unknown.Show.S01E01.mkv");
    match handle_file(&name, &table, &mut infos) {
        FileStep::Prompt { base, command } => {
            assert_eq!(base, "unknown show");
            assert_eq!(command, "`/map new alt:unknown show og:<series name on the server>`");
        }
        other => panic!("expected a prompt, got {:?}", step_kind(&other)),
    }
    // The base name is waiting now: no further prompt for it.
    match handle_file(&name, &table, &mut infos) {
        FileStep::SkipMissing => {}
        other => panic!("expected a silent skip, got {:?}", step_kind(&other)),
    }
    assert_eq!(infos.missing_mappings, strings(&["unknown show"]));
}

fn step_kind(step: &FileStep) -> &'static str {
    match step {
        FileStep::Unparseable { .. } => "unparseable",
        FileStep::SkipMissing => "skip",
        FileStep::Prompt { .. } => "prompt",
        FileStep::NeedSeason { .. } => "need-season",
        FileStep::TryMove { .. } => "try-move",
    }
}

#[test]
fn resolved_file_plans_the_move() {
    let mut infos = indexed_state();
    let table = NameMap::new();
    let name = String::from("Show.Name.S01E02.mkv");
    match handle_file(&name, &table, &mut infos) {
        FileStep::TryMove { plan } => {
            assert_eq!(plan.target_path, "/lib/anime/Show Name/Season 01/Show Name - s01e02.mkv");
        }
        other => panic!("expected a move, got {:?}", step_kind(&other)),
    }
    assert!(infos.missing_mappings.is_empty());
}

#[test]
fn unparseable_file_gets_a_report_line() {
    let mut infos = indexed_state();
    let table = NameMap::new();
    let name = String::from("garbage.mkv");
    match handle_file(&name, &table, &mut infos) {
        FileStep::Unparseable { line } => {
            assert_eq!(
                line,
                ":x: `garbage.mkv` did not match the filename pattern. Please rename the file or move it manually"
            );
        }
        other => panic!("expected unparseable, got {:?}", step_kind(&other)),
    }
}

#[test]
fn seasonless_file_waits_for_the_lookup() {
    let mut infos = indexed_state();
    let table = NameMap::new();
    let name = String::from("Show Name e04.mkv");
    let (dest, episode, extension) = match handle_file(&name, &table, &mut infos) {
        FileStep::NeedSeason { base, dest, episode, extension } => {
            assert_eq!(base, "show name");
            (dest, episode, extension)
        }
        other => panic!("expected need-season, got {:?}", step_kind(&other)),
    };
    // The lookup names exactly the file's episode: move with its season.
    match after_season_lookup(&name, &dest, episode, &extension, Some((2, 4))) {
        SeasonStep::Move { plan } => {
            assert_eq!(plan.target_path, "/lib/anime/Show Name/Season 02/Show Name - s02e04.mkv");
        }
        SeasonStep::ReportIgnore { line } => panic!("unexpected report: {}", line),
    }
    // No unambiguous answer: report and ignore for the session.
    match after_season_lookup(&name, &dest, episode, &extension, None) {
        SeasonStep::ReportIgnore { line } => {
            assert_eq!(
                line,
                ":x: `Show Name e04.mkv` does not have a Season. Please add a Season or move it manually"
            );
        }
        SeasonStep::Move { .. } => panic!("must not move without an answer"),
    }
    // An answer for a different episode is no answer for this file.
    match after_season_lookup(&name, &dest, episode, &extension, Some((2, 9))) {
        SeasonStep::ReportIgnore { .. } => {}
        SeasonStep::Move { .. } => panic!("must not move on a mismatched answer"),
    }
}

#[test]
fn rescan_changes_nothing_without_new_files() {
    // One pass over a folder with an unresolved file and a duplicate;
    // the second pass leaves both bookkeeping sets as they were.
    let mut infos = indexed_state();
    let table = NameMap::new();
    let files = strings(&["Unknown.Show.S01E01.mkv", "Show.Name.S01E02.mkv"]);
    let ignore: Vec<String> = Vec::new();
    let dest = entry("Show Name", "/lib/anime/Show Name");
    let plan = plan_move(&dest, 1, 2, &String::from("mkv"));

    let run_pass = |infos: &mut ThreadInfos| {
        let (cands, _kept) = refresh_candidates(&files, &ignore);
        let bases = snapshot_bases(&cands);
        infos.prune_missing(&bases);
        for name in &cands {
            match handle_file(name, &table, infos) {
                FileStep::TryMove { plan: _ } => {
                    // The target already exists on disk in this scenario.
                    let _ = move_report(MoveProbe::TargetExists, name, &plan, infos);
                }
                _ => {}
            }
        }
    };
    run_pass(&mut infos);
    let missing_after_first = infos.missing_mappings.clone();
    let reported_after_first = infos.reported_duplicates.clone();
    run_pass(&mut infos);
    assert_eq!(infos.missing_mappings, missing_after_first);
    assert_eq!(infos.reported_duplicates, reported_after_first);
}

#[test]
fn resolver_finds_the_single_missing_episode() {
    let seasons = vec![
        SeasonInfo { number: 1, aired: 3, present: vec![1, 2, 3] },
        SeasonInfo { number: 2, aired: 5, present: vec![1, 2, 3, 4] },
    ];
    assert_eq!(resolve_missing_episode(&seasons), Some((2, 5)));
}

#[test]
fn resolver_refuses_zero_or_many_gaps() {
    // Everything complete: nothing to infer.
    let complete = vec![SeasonInfo { number: 1, aired: 2, present: vec![1, 2] }];
    assert_eq!(resolve_missing_episode(&complete), None);
    // Two seasons each missing one: ambiguous.
    let two_gaps = vec![
        SeasonInfo { number: 1, aired: 2, present: vec![1] },
        SeasonInfo { number: 2, aired: 2, present: vec![1] },
    ];
    assert_eq!(resolve_missing_episode(&two_gaps), None);
    // A gap of two: ambiguous.
    let wide_gap = vec![SeasonInfo { number: 1, aired: 4, present: vec![1, 2] }];
    assert_eq!(resolve_missing_episode(&wide_gap), None);
    // The missing one is not the last aired episode: ambiguous.
    let middle_gap = vec![SeasonInfo { number: 1, aired: 3, present: vec![1, 3] }];
    assert_eq!(resolve_missing_episode(&middle_gap), None);
}

#[test]
fn resolver_drops_trailing_unreleased_seasons() {
    let seasons = vec![
        SeasonInfo { number: 1, aired: 2, present: vec![1] },
        SeasonInfo { number: 2, aired: 0, present: vec![] },
    ];
    assert_eq!(resolve_missing_episode(&seasons), Some((1, 2)));
}

#[test]
fn signals_drive_the_watcher_state() {
    let mut infos = ThreadInfos::new();
    let mut table = NameMap::new();
    let anime = vec![entry("Show Name", "/lib/anime/Show Name")];
    let series: Vec<DirEntry> = Vec::new();
    let mappings = vec![(String::from("alt"), String::from("show name"))];

    infos.note_missing(String::from("stale"));
    let stop = handle_signal(
        ControlSignal::Reload,
        &anime,
        &series,
        &mappings,
        &mut table,
        &mut infos,
    );
    assert!(!stop);
    assert!(infos.missing_mappings.is_empty());
    assert!(infos.og_directories.get(&String::from("show name")).is_some());
    assert!(table.get(&String::from("alt")).is_some());

    let stop = handle_signal(
        ControlSignal::NewMapping,
        &anime,
        &series,
        &Vec::new(),
        &mut table,
        &mut infos,
    );
    assert!(!stop);
    assert!(table.get(&String::from("alt")).is_none());

    let stop = handle_signal(
        ControlSignal::Stop,
        &anime,
        &series,
        &mappings,
        &mut table,
        &mut infos,
    );
    assert!(stop);
}

#[test]
fn move_plan_pads_simple_numbers() {
    let dest = entry("S", "/x/S");
    let plan: MovePlan = plan_move(&dest, 12, 345, &String::from("mp4"));
    assert_eq!(plan.target_name, "S - s12e345.mp4");
    assert_eq!(plan.bucket_path, "/x/S/Season 12");
}
