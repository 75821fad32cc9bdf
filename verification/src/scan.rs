//! One scan pass over the download folder.
//!
//! The surrounding binary lists the folder and carries file moves,
//! metadata lookups and channel sends out; every decision is made
//! here: which files are candidates, how the ignore set is refreshed,
//! what each file's fate is, and what gets reported.  A pass runs in
//! three steps: refresh the candidates and the ignore set, prune the
//! missing-mapping set against the base names present, then walk the
//! candidates in listing order.
//!
//! The whole pass is also modelled below as a pure function,
//! [`spec_full_pass`], built from the very spec functions the
//! executable steps are proved against; the laws about re-running
//! passes, prompting and duplicate reporting are proved of that
//! model.

use vstd::prelude::*;

use crate::index::{DirEntry, DirEntryV, NameMap};
use crate::mover::{escape, plan_move, MovePlan};
use crate::parse::{find_last, parse_filename, spec_parse};
use crate::state::{name_views, spec_resolve, ThreadInfos};
use crate::text::lower;

verus! {

/// The extension (after the last dot) of the lowercased name, if any.
pub open spec fn spec_ext(name: Seq<char>) -> Option<Seq<char>> {
    match find_last(lower(name), '.') {
        None => None,
        Some(d) => Some(lower(name).skip(d + 1)),
    }
}

/// The video-container allow-list: only these files are visible.
pub open spec fn is_video_ext(e: Seq<char>) -> bool {
    e == "mp4"@ || e == "mkv"@ || e == "avi"@
}

/// A file the scan considers at all.
pub open spec fn spec_candidate(name: Seq<char>) -> bool {
    match spec_ext(name) {
        None => false,
        Some(e) => is_video_ext(e),
    }
}

/// Whether the file's extension is allow-listed, as
/// [`spec_candidate`] says.
pub fn is_candidate(name: &String) -> (r: bool)
    ensures
        r == spec_candidate(name@),
{
    let cs = crate::text::str_chars(name.as_str());
    let low = crate::text::lower_chars(&cs);
    match crate::parse::find_last_exec(&low, '.') {
        None => false,
        Some(d) => {
            let n = low.len();
            assert(d < n);
            let e = crate::parse::sub_vec(&low, d + 1, n);
            proof {
                assert(e@ =~= lower(name@).skip(d + 1));
                reveal_strlit("mp4");
                reveal_strlit("mkv");
                reveal_strlit("avi");
            }
            if e.len() != 3 {
                return false;
            }
            let is_mp4 = e[0] == 'm' && e[1] == 'p' && e[2] == '4';
            let is_mkv = e[0] == 'm' && e[1] == 'k' && e[2] == 'v';
            let is_avi = e[0] == 'a' && e[1] == 'v' && e[2] == 'i';
            proof {
                if is_mp4 {
                    assert(e@ =~= "mp4"@);
                }
                if is_mkv {
                    assert(e@ =~= "mkv"@);
                }
                if is_avi {
                    assert(e@ =~= "avi"@);
                }
                if !is_mp4 {
                    assert(e@ != "mp4"@);
                }
                if !is_mkv {
                    assert(e@ != "mkv"@);
                }
                if !is_avi {
                    assert(e@ != "avi"@);
                }
            }
            is_mp4 || is_mkv || is_avi
        },
    }
}

/// The candidates of this pass: allow-listed files not in the ignore
/// set, in listing order.
pub open spec fn spec_candidates(files: Seq<Seq<char>>, ignore: Seq<Seq<char>>) -> Seq<Seq<char>>
    decreases files.len(),
{
    if files.len() == 0 {
        Seq::empty()
    } else {
        (if spec_candidate(files[0]) && !ignore.contains(files[0]) {
            seq![files[0]]
        } else {
            Seq::empty()
        }) + spec_candidates(files.drop_first(), ignore)
    }
}

/// The ignore entries that still have their file: the refreshed
/// ignore set keeps exactly the allow-listed files that are both
/// present and ignored.
pub open spec fn spec_kept_ignore(files: Seq<Seq<char>>, ignore: Seq<Seq<char>>) -> Seq<Seq<char>>
    decreases files.len(),
{
    if files.len() == 0 {
        Seq::empty()
    } else {
        (if spec_candidate(files[0]) && ignore.contains(files[0]) {
            seq![files[0]]
        } else {
            Seq::empty()
        }) + spec_kept_ignore(files.drop_first(), ignore)
    }
}

/// Splits the folder listing into this pass's candidates and the
/// refreshed ignore set, as [`spec_candidates`] and
/// [`spec_kept_ignore`] say.
pub fn refresh_candidates(files: &Vec<String>, ignore: &Vec<String>) -> (r: (Vec<String>, Vec<
    String,
>))
    ensures
        name_views(r.0@) == spec_candidates(name_views(files@), name_views(ignore@)),
        name_views(r.1@) == spec_kept_ignore(name_views(files@), name_views(ignore@)),
{
    let ghost fv = name_views(files@);
    let ghost iv = name_views(ignore@);
    let mut cands: Vec<String> = Vec::new();
    let mut kept: Vec<String> = Vec::new();
    let mut i: usize = 0;
    proof {
        assert(fv.skip(0) =~= fv);
        assert(name_views(cands@) + spec_candidates(fv, iv) =~= spec_candidates(fv, iv));
        assert(name_views(kept@) + spec_kept_ignore(fv, iv) =~= spec_kept_ignore(fv, iv));
    }
    while i < files.len()
        invariant
            i <= files@.len(),
            fv == name_views(files@),
            iv == name_views(ignore@),
            name_views(cands@) + spec_candidates(fv.skip(i as int), iv) == spec_candidates(fv, iv),
            name_views(kept@) + spec_kept_ignore(fv.skip(i as int), iv) == spec_kept_ignore(
                fv,
                iv,
            ),
        decreases files@.len() - i,
    {
        let ghost pre = fv.skip(i as int);
        let ghost cands0 = name_views(cands@);
        let ghost kept0 = name_views(kept@);
        assert(pre[0] == fv[i as int]);
        if is_candidate(&files[i]) {
            if crate::state::contains_name(ignore, &files[i]) {
                let s = files[i].clone();
                kept.push(s);
                proof {
                    assert(name_views(kept@) =~= kept0.push(fv[i as int]));
                }
            } else {
                let s = files[i].clone();
                cands.push(s);
                proof {
                    assert(name_views(cands@) =~= cands0.push(fv[i as int]));
                }
            }
        }
        i = i + 1;
        proof {
            assert(pre.drop_first() =~= fv.skip(i as int));
            assert(name_views(cands@) + spec_candidates(fv.skip(i as int), iv) =~= cands0
                + spec_candidates(pre, iv));
            assert(name_views(kept@) + spec_kept_ignore(fv.skip(i as int), iv) =~= kept0
                + spec_kept_ignore(pre, iv));
        }
    }
    proof {
        assert(fv.skip(i as int) =~= Seq::<Seq<char>>::empty());
        assert(name_views(cands@) =~= spec_candidates(fv, iv));
        assert(name_views(kept@) =~= spec_kept_ignore(fv, iv));
    }
    (cands, kept)
}

/// The base names of the candidates that parse, in listing order: the
/// discovery sub-pass that the missing-mapping pruning works from.
pub open spec fn spec_bases(files: Seq<Seq<char>>) -> Seq<Seq<char>>
    decreases files.len(),
{
    if files.len() == 0 {
        Seq::empty()
    } else {
        (match spec_parse(files[0]) {
            Some(p) => seq![p.base],
            None => Seq::empty(),
        }) + spec_bases(files.drop_first())
    }
}

/// Collects the parseable candidates' base names, as [`spec_bases`]
/// says.
pub fn snapshot_bases(cands: &Vec<String>) -> (r: Vec<String>)
    ensures
        name_views(r@) == spec_bases(name_views(cands@)),
{
    let ghost cv = name_views(cands@);
    let mut out: Vec<String> = Vec::new();
    let mut i: usize = 0;
    proof {
        assert(cv.skip(0) =~= cv);
        assert(name_views(out@) + spec_bases(cv) =~= spec_bases(cv));
    }
    while i < cands.len()
        invariant
            i <= cands@.len(),
            cv == name_views(cands@),
            name_views(out@) + spec_bases(cv.skip(i as int)) == spec_bases(cv),
        decreases cands@.len() - i,
    {
        let ghost pre = cv.skip(i as int);
        let ghost out0 = name_views(out@);
        assert(pre[0] == cv[i as int]);
        match parse_filename(cands[i].as_str()) {
            Some(p) => {
                out.push(p.base_name);
                proof {
                    assert(name_views(out@) =~= out0.push(
                        match spec_parse(cv[i as int]) {
                            Some(q) => q.base,
                            None => Seq::empty(),
                        },
                    ));
                }
            },
            None => {},
        }
        i = i + 1;
        proof {
            assert(pre.drop_first() =~= cv.skip(i as int));
            assert(name_views(out@) + spec_bases(cv.skip(i as int)) =~= out0 + spec_bases(pre));
        }
    }
    proof {
        assert(cv.skip(i as int) =~= Seq::<Seq<char>>::empty());
        assert(name_views(out@) =~= spec_bases(cv));
    }
    out
}

pub open spec fn msg_unparseable(name: Seq<char>) -> Seq<char> {
    ":x: `"@ + escape(name) + "` did not match the filename pattern. Please rename the file or move it manually"@
}

pub open spec fn msg_no_season(name: Seq<char>) -> Seq<char> {
    ":x: `"@ + escape(name) + "` does not have a Season. Please add a Season or move it manually"@
}

pub open spec fn prompt_command(base: Seq<char>) -> Seq<char> {
    "`/map new alt:"@ + base + " og:<series name on the server>`"@
}

/// The title of the mapping-registration prompt.
pub fn prompt_title() -> (r: String)
    ensures
        r@ == "Please add a Mapping with following command:"@,
{
    let mut s = String::new();
    s.append("Please add a Mapping with following command:");
    assert(s@ =~= "Please add a Mapping with following command:"@);
    s
}

/// What a candidate's action sub-pass step is, in mathematical form.
pub enum StepV {
    /// The name did not parse: report it and ignore the file for this
    /// session.
    Unparseable { line: Seq<char> },
    /// The base name is already waiting for a mapping: skip silently.
    SkipMissing,
    /// No destination resolves: note the base as missing and prompt.
    Prompt { base: Seq<char>, command: Seq<char> },
    /// Resolved but seasonless: the missing-episode lookup is needed.
    NeedSeason { base: Seq<char>, dest: DirEntryV, episode: int, ext: Seq<char> },
    /// Resolved with a season: attempt the planned move.
    TryMove { bucket_path: Seq<char>, target_name: Seq<char>, target_path: Seq<char> },
}

/// The step for one candidate, given the missing set and the two
/// lookup tables.
pub open spec fn spec_step(
    missing: Seq<Seq<char>>,
    table: NameMap,
    og: NameMap,
    name: Seq<char>,
) -> StepV {
    match spec_parse(name) {
        None => StepV::Unparseable { line: msg_unparseable(name) },
        Some(p) => if missing.contains(p.base) {
            StepV::SkipMissing
        } else {
            match spec_resolve(table, og, p.base) {
                None => StepV::Prompt { base: p.base, command: prompt_command(p.base) },
                Some(d) => match p.season {
                    Some(s) => StepV::TryMove {
                        bucket_path: crate::mover::spec_bucket_path(d.path, s),
                        target_name: crate::mover::spec_target_name(d.name, s, p.episode, p.ext),
                        target_path: crate::mover::spec_target_path(
                            d.path,
                            d.name,
                            s,
                            p.episode,
                            p.ext,
                        ),
                    },
                    None => StepV::NeedSeason {
                        base: p.base,
                        dest: d,
                        episode: p.episode,
                        ext: p.ext,
                    },
                },
            }
        },
    }
}

/// The step for one candidate, with the data the surrounding binary
/// needs to carry it out.
pub enum FileStep {
    Unparseable { line: String },
    SkipMissing,
    Prompt { base: String, command: String },
    NeedSeason { base: String, dest: DirEntry, episode: u32, extension: String },
    TryMove { plan: MovePlan },
}

impl FileStep {
    pub open spec fn view(self) -> StepV {
        match self {
            FileStep::Unparseable { line } => StepV::Unparseable { line: line@ },
            FileStep::SkipMissing => StepV::SkipMissing,
            FileStep::Prompt { base, command } => StepV::Prompt {
                base: base@,
                command: command@,
            },
            FileStep::NeedSeason { base, dest, episode, extension } => StepV::NeedSeason {
                base: base@,
                dest: dest@,
                episode: episode as int,
                ext: extension@,
            },
            FileStep::TryMove { plan } => StepV::TryMove {
                bucket_path: plan.bucket_path@,
                target_name: plan.target_name@,
                target_path: plan.target_path@,
            },
        }
    }
}

/// How the missing set changes at one step: a prompt notes its base
/// name, nothing else touches the set.
pub open spec fn step_missing(missing: Seq<Seq<char>>, step: StepV) -> Seq<Seq<char>> {
    match step {
        StepV::Prompt { base, command } => missing.push(base),
        _ => missing,
    }
}

/// Decides one candidate's step, as [`spec_step`] says, noting a
/// newly missing base name in the shared state.  The reported set and
/// the index never change here.
pub fn handle_file(name: &String, table: &NameMap, infos: &mut ThreadInfos) -> (r: FileStep)
    requires
        old(infos).wf(),
    ensures
        final(infos).wf(),
        r.view() == spec_step(
            old(infos).missing_names(),
            *table,
            old(infos).og_directories,
            name@,
        ),
        final(infos).missing_names() == step_missing(
            old(infos).missing_names(),
            spec_step(old(infos).missing_names(), *table, old(infos).og_directories, name@),
        ),
        final(infos).reported_names() == old(infos).reported_names(),
        final(infos).og_directories == old(infos).og_directories,
    {
    match parse_filename(name.as_str()) {
        None => {
            let mut line = String::new();
            line.append(":x: `");
            let esc = crate::mover::escape_name(name);
            line.append(esc.as_str());
            line.append("` did not match the filename pattern. Please rename the file or move it manually");
            assert(line@ =~= msg_unparseable(name@));
            FileStep::Unparseable { line }
        },
        Some(p) => {
            if infos.contains_missing(&p.base_name) {
                FileStep::SkipMissing
            } else {
                match crate::state::resolve_destination(table, infos, &p.base_name) {
                    None => {
                        let mut command = String::new();
                        command.append("`/map new alt:");
                        command.append(p.base_name.as_str());
                        command.append(" og:<series name on the server>`");
                        assert(command@ =~= prompt_command(p.base_name@));
                        let base_copy = p.base_name.clone();
                        let noted = infos.note_missing(p.base_name);
                        assert(noted);
                        FileStep::Prompt { base: base_copy, command }
                    },
                    Some(d) => match p.season {
                        Some(s) => {
                            let plan = plan_move(&d, s, p.episode, &p.extension);
                            FileStep::TryMove { plan }
                        },
                        None => FileStep::NeedSeason {
                            base: p.base_name,
                            dest: d,
                            episode: p.episode,
                            extension: p.extension,
                        },
                    },
                }
            }
        },
    }
}

/// What comes after the missing-episode lookup for a seasonless file.
pub enum SeasonStep {
    /// The lookup named the one missing episode and it matches the
    /// file: attempt the move with that season.
    Move { plan: MovePlan },
    /// No unambiguous answer: report and ignore the file for this
    /// session.
    ReportIgnore { line: String },
}

/// The step after the lookup, in mathematical form.
pub open spec fn spec_after_season(
    name: Seq<char>,
    dest: DirEntryV,
    episode: int,
    ext: Seq<char>,
    answer: Option<(u32, u32)>,
) -> StepV {
    match answer {
        Some((s, e)) => if e == episode {
            StepV::TryMove {
                bucket_path: crate::mover::spec_bucket_path(dest.path, s as int),
                target_name: crate::mover::spec_target_name(dest.name, s as int, episode, ext),
                target_path: crate::mover::spec_target_path(
                    dest.path,
                    dest.name,
                    s as int,
                    episode,
                    ext,
                ),
            }
        } else {
            StepV::Unparseable { line: msg_no_season(name) }
        },
        None => StepV::Unparseable { line: msg_no_season(name) },
    }
}

/// Applies the lookup's answer, as [`spec_after_season`] says: the
/// move goes ahead only when the lookup named exactly one missing
/// episode and it is the one the filename carries; otherwise the file
/// is reported as needing a season and ignored for the session.
pub fn after_season_lookup(
    name: &String,
    dest: &DirEntry,
    episode: u32,
    extension: &String,
    answer: Option<(u32, u32)>,
) -> (r: SeasonStep)
    ensures
        match r {
            SeasonStep::Move { plan } => spec_after_season(
                name@,
                dest@,
                episode as int,
                extension@,
                answer,
            ) == (StepV::TryMove {
                bucket_path: plan.bucket_path@,
                target_name: plan.target_name@,
                target_path: plan.target_path@,
            }),
            SeasonStep::ReportIgnore { line } => spec_after_season(
                name@,
                dest@,
                episode as int,
                extension@,
                answer,
            ) == (StepV::Unparseable { line: line@ }),
        },
{
    match answer {
        Some((s, e)) => {
            if e == episode {
                let plan = plan_move(dest, s, episode, extension);
                return SeasonStep::Move { plan };
            }
            let mut line = String::new();
            line.append(":x: `");
            let esc = crate::mover::escape_name(name);
            line.append(esc.as_str());
            line.append("` does not have a Season. Please add a Season or move it manually");
            assert(line@ =~= msg_no_season(name@));
            SeasonStep::ReportIgnore { line }
        },
        None => {
            let mut line = String::new();
            line.append(":x: `");
            let esc = crate::mover::escape_name(name);
            line.append(esc.as_str());
            line.append("` does not have a Season. Please add a Season or move it manually");
            assert(line@ =~= msg_no_season(name@));
            SeasonStep::ReportIgnore { line }
        },
    }
}


/// The mathematical state a pass works on: the two bookkeeping sets
/// and which target paths exist on disk.
pub struct PassState {
    pub missing: Seq<Seq<char>>,
    pub reported: Seq<Seq<char>>,
    pub existing: Set<Seq<char>>,
}

/// What the outside world decides during a pass: whether a season
/// bucket can be made, whether a rename goes through, and what the
/// missing-episode lookup answers for a given file.
pub struct ScanEnv {
    pub mkdir_ok: Map<Seq<char>, bool>,
    pub rename_ok: Map<Seq<char>, bool>,
    pub answer: Map<Seq<char>, Option<(u32, u32)>>,
}

/// What one candidate's processing did.
pub struct FileOutcome {
    pub prompted: Option<Seq<char>>,
    pub dup: Option<Seq<char>>,
    pub moved: bool,
    pub ignored: bool,
}

pub open spec fn outcome_none() -> FileOutcome {
    FileOutcome { prompted: None, dup: None, moved: false, ignored: false }
}

/// A move attempt against the modelled file system.
pub open spec fn spec_move_attempt(
    st: PassState,
    name: Seq<char>,
    bucket: Seq<char>,
    target: Seq<char>,
    env: ScanEnv,
) -> (PassState, FileOutcome) {
    if !env.mkdir_ok[bucket] {
        (st, outcome_none())
    } else if st.existing.contains(target) {
        if st.reported.contains(name) {
            (st, outcome_none())
        } else {
            (
                PassState { reported: st.reported.push(name), ..st },
                FileOutcome { dup: Some(name), ..outcome_none() },
            )
        }
    } else if env.rename_ok[target] {
        (
            PassState { existing: st.existing.insert(target), ..st },
            FileOutcome { moved: true, ..outcome_none() },
        )
    } else {
        (st, outcome_none())
    }
}

/// One candidate's processing: the step decision, then the lookup or
/// the move attempt it calls for.
pub open spec fn spec_process_file(
    st: PassState,
    table: NameMap,
    og: NameMap,
    name: Seq<char>,
    env: ScanEnv,
) -> (PassState, FileOutcome) {
    match spec_step(st.missing, table, og, name) {
        StepV::Unparseable { line } => (st, FileOutcome { ignored: true, ..outcome_none() }),
        StepV::SkipMissing => (st, outcome_none()),
        StepV::Prompt { base, command } => (
            PassState { missing: st.missing.push(base), ..st },
            FileOutcome { prompted: Some(base), ..outcome_none() },
        ),
        StepV::NeedSeason { base, dest, episode, ext } => match spec_after_season(
            name,
            dest,
            episode,
            ext,
            env.answer[name],
        ) {
            StepV::TryMove { bucket_path, target_name, target_path } => spec_move_attempt(
                st,
                name,
                bucket_path,
                target_path,
                env,
            ),
            _ => (st, FileOutcome { ignored: true, ..outcome_none() }),
        },
        StepV::TryMove { bucket_path, target_name, target_path } => spec_move_attempt(
            st,
            name,
            bucket_path,
            target_path,
            env,
        ),
    }
}

/// Everything one pass's action sub-pass produced.
pub struct PassResult {
    pub state: PassState,
    pub prompted: Seq<Seq<char>>,
    pub dups: Seq<Seq<char>>,
    pub moved: Seq<Seq<char>>,
    pub ignored: Seq<Seq<char>>,
}

pub open spec fn opt_seq(o: Option<Seq<char>>) -> Seq<Seq<char>> {
    match o {
        Some(x) => seq![x],
        None => Seq::empty(),
    }
}

/// The action sub-pass over the candidates, in listing order.
pub open spec fn spec_pass_files(
    st: PassState,
    files: Seq<Seq<char>>,
    table: NameMap,
    og: NameMap,
    env: ScanEnv,
) -> PassResult
    decreases files.len(),
{
    if files.len() == 0 {
        PassResult {
            state: st,
            prompted: Seq::empty(),
            dups: Seq::empty(),
            moved: Seq::empty(),
            ignored: Seq::empty(),
        }
    } else {
        let sr = spec_process_file(st, table, og, files[0], env);
        let r = spec_pass_files(sr.0, files.drop_first(), table, og, env);
        PassResult {
            state: r.state,
            prompted: opt_seq(sr.1.prompted) + r.prompted,
            dups: opt_seq(sr.1.dup) + r.dups,
            moved: (if sr.1.moved {
                seq![files[0]]
            } else {
                Seq::empty()
            }) + r.moved,
            ignored: (if sr.1.ignored {
                seq![files[0]]
            } else {
                Seq::empty()
            }) + r.ignored,
        }
    }
}

/// One whole scan pass: refresh the candidates, prune the missing
/// set against the base names present, then act on each candidate.
pub open spec fn spec_full_pass(
    missing: Seq<Seq<char>>,
    reported: Seq<Seq<char>>,
    existing: Set<Seq<char>>,
    files: Seq<Seq<char>>,
    ignore: Seq<Seq<char>>,
    table: NameMap,
    og: NameMap,
    env: ScanEnv,
) -> PassResult {
    let cands = spec_candidates(files, ignore);
    let m1 = crate::state::spec_prune(missing, spec_bases(cands));
    spec_pass_files(
        PassState { missing: m1, reported, existing },
        cands,
        table,
        og,
        env,
    )
}

/// The ignore set a pass leaves behind: the surviving old entries
/// followed by this pass's newly ignored files.
pub open spec fn spec_full_ignore(
    missing: Seq<Seq<char>>,
    reported: Seq<Seq<char>>,
    existing: Set<Seq<char>>,
    files: Seq<Seq<char>>,
    ignore: Seq<Seq<char>>,
    table: NameMap,
    og: NameMap,
    env: ScanEnv,
) -> Seq<Seq<char>> {
    spec_kept_ignore(files, ignore) + spec_full_pass(
        missing,
        reported,
        existing,
        files,
        ignore,
        table,
        og,
        env,
    ).ignored
}

/// The files still in the folder after a pass: those that did not
/// move, in listing order.
pub open spec fn spec_remaining(files: Seq<Seq<char>>, moved: Seq<Seq<char>>) -> Seq<Seq<char>>
    decreases files.len(),
{
    if files.len() == 0 {
        Seq::empty()
    } else {
        (if moved.contains(files[0]) {
            Seq::empty()
        } else {
            seq![files[0]]
        }) + spec_remaining(files.drop_first(), moved)
    }
}

/// The base name a parsed file carries.
pub open spec fn base_of(name: Seq<char>) -> Seq<char> {
    match spec_parse(name) {
        Some(p) => p.base,
        None => Seq::empty(),
    }
}


/// Processing never removes a noted name or a recorded duplicate.
pub proof fn lemma_pass_monotone(
    st: PassState,
    files: Seq<Seq<char>>,
    table: NameMap,
    og: NameMap,
    env: ScanEnv,
)
    ensures
        ({
            let r = spec_pass_files(st, files, table, og, env);
            &&& forall|b: Seq<char>| st.missing.contains(b) ==> r.state.missing.contains(b)
            &&& forall|x: Seq<char>| st.reported.contains(x) ==> r.state.reported.contains(x)
        }),
    decreases files.len(),
{
    if files.len() > 0 {
        let sr = spec_process_file(st, table, og, files[0], env);
        lemma_pass_monotone(sr.0, files.drop_first(), table, og, env);
        assert forall|b: Seq<char>| st.missing.contains(b) implies sr.0.missing.contains(b) by {
            if sr.0.missing != st.missing {
                let i = choose|i: int| 0 <= i < st.missing.len() && st.missing[i] == b;
                assert(sr.0.missing[i] == b);
            }
        }
        assert forall|x: Seq<char>| st.reported.contains(x) implies sr.0.reported.contains(x) by {
            if sr.0.reported != st.reported {
                let i = choose|i: int| 0 <= i < st.reported.len() && st.reported[i] == x;
                assert(sr.0.reported[i] == x);
            }
        }
    }
}

/// Everything a pass moves or ignores is one of its files.
pub proof fn lemma_pass_outputs_from_files(
    st: PassState,
    files: Seq<Seq<char>>,
    table: NameMap,
    og: NameMap,
    env: ScanEnv,
)
    ensures
        forall|x: Seq<char>|
            #[trigger] spec_pass_files(st, files, table, og, env).moved.contains(x)
                ==> files.contains(x),
        forall|x: Seq<char>|
            #[trigger] spec_pass_files(st, files, table, og, env).ignored.contains(x)
                ==> files.contains(x),
    decreases files.len(),
{
    let r = spec_pass_files(st, files, table, og, env);
    if files.len() > 0 {
        let sr = spec_process_file(st, table, og, files[0], env);
        lemma_pass_outputs_from_files(sr.0, files.drop_first(), table, og, env);
        let rr = spec_pass_files(sr.0, files.drop_first(), table, og, env);
        assert forall|x: Seq<char>|
            #[trigger] spec_pass_files(st, files, table, og, env).moved.contains(x) implies files
            .contains(x) by {
            let i = choose|i: int| 0 <= i < r.moved.len() && r.moved[i] == x;
            let head: Seq<Seq<char>> = if sr.1.moved {
                seq![files[0]]
            } else {
                Seq::empty()
            };
            if i < head.len() {
                assert(x == files[0]);
            } else {
                assert(rr.moved[i - head.len()] == x);
                assert(spec_pass_files(sr.0, files.drop_first(), table, og, env).moved.contains(
                    x,
                ));
                assert(files.drop_first().contains(x));
                let j = choose|j: int|
                    0 <= j < files.drop_first().len() && files.drop_first()[j] == x;
                assert(files[j + 1] == x);
            }
        }
        assert forall|x: Seq<char>|
            #[trigger] spec_pass_files(st, files, table, og, env).ignored.contains(x) implies files
            .contains(x) by {
            let i = choose|i: int| 0 <= i < r.ignored.len() && r.ignored[i] == x;
            let head: Seq<Seq<char>> = if sr.1.ignored {
                seq![files[0]]
            } else {
                Seq::empty()
            };
            if i < head.len() {
                assert(x == files[0]);
            } else {
                assert(rr.ignored[i - head.len()] == x);
                assert(spec_pass_files(sr.0, files.drop_first(), table, og, env).ignored.contains(
                    x,
                ));
                assert(files.drop_first().contains(x));
                let j = choose|j: int|
                    0 <= j < files.drop_first().len() && files.drop_first()[j] == x;
                assert(files[j + 1] == x);
            }
        }
    }
}

/// A base name that is already waiting for a mapping keeps its files
/// in place: they are skipped silently, neither moved nor ignored.
pub proof fn lemma_pass_skips_missing(
    st: PassState,
    files: Seq<Seq<char>>,
    table: NameMap,
    og: NameMap,
    env: ScanEnv,
    f: Seq<char>,
)
    requires
        files.contains(f),
        spec_parse(f).is_some(),
        st.missing.contains(base_of(f)),
        files.no_duplicates(),
    ensures
        ({
            let r = spec_pass_files(st, files, table, og, env);
            &&& !r.moved.contains(f)
            &&& !r.ignored.contains(f)
        }),
    decreases files.len(),
{
    let r = spec_pass_files(st, files, table, og, env);
    let sr = spec_process_file(st, table, og, files[0], env);
    let rr = spec_pass_files(sr.0, files.drop_first(), table, og, env);
    if files[0] == f {
        assert(spec_step(st.missing, table, og, f) == StepV::SkipMissing);
        assert(!sr.1.moved && !sr.1.ignored);
        assert(!files.drop_first().contains(f)) by {
            if files.drop_first().contains(f) {
                let j = choose|j: int|
                    0 <= j < files.drop_first().len() && files.drop_first()[j] == f;
                assert(files[j + 1] == f);
                assert(files[0] == files[j + 1]);
            }
        }
        lemma_pass_outputs_from_files(sr.0, files.drop_first(), table, og, env);
        assert(!rr.moved.contains(f));
        assert(!rr.ignored.contains(f));
        assert forall|i: int| 0 <= i < r.moved.len() implies r.moved[i] != f by {
            assert(r.moved[i] == rr.moved[i]);
            assert(rr.moved.contains(rr.moved[i]));
        }
        assert forall|i: int| 0 <= i < r.ignored.len() implies r.ignored[i] != f by {
            assert(r.ignored[i] == rr.ignored[i]);
            assert(rr.ignored.contains(rr.ignored[i]));
        }
        assert(!r.moved.contains(f));
        assert(!r.ignored.contains(f));
    } else {
        let j = choose|j: int| 0 <= j < files.len() && files[j] == f;
        assert(files.drop_first()[j - 1] == f);
        assert(files.drop_first().contains(f));
        assert(files.drop_first().no_duplicates());
        lemma_pass_monotone_one(st, sr.0, table, og, files[0], env, base_of(f));
        lemma_pass_skips_missing(sr.0, files.drop_first(), table, og, env, f);
        let head_m: Seq<Seq<char>> = if sr.1.moved {
            seq![files[0]]
        } else {
            Seq::empty()
        };
        let head_i: Seq<Seq<char>> = if sr.1.ignored {
            seq![files[0]]
        } else {
            Seq::empty()
        };
        assert forall|i: int| 0 <= i < r.moved.len() implies r.moved[i] != f by {
            if i < head_m.len() {
                assert(r.moved[i] == files[0]);
            } else {
                assert(r.moved[i] == rr.moved[i - head_m.len()]);
                assert(rr.moved.contains(rr.moved[i - head_m.len()]));
            }
        }
        assert forall|i: int| 0 <= i < r.ignored.len() implies r.ignored[i] != f by {
            if i < head_i.len() {
                assert(r.ignored[i] == files[0]);
            } else {
                assert(r.ignored[i] == rr.ignored[i - head_i.len()]);
                assert(rr.ignored.contains(rr.ignored[i - head_i.len()]));
            }
        }
        assert(!r.moved.contains(f));
        assert(!r.ignored.contains(f));
    }
}

/// One processing step keeps a noted name noted.
proof fn lemma_pass_monotone_one(
    st: PassState,
    st1: PassState,
    table: NameMap,
    og: NameMap,
    name: Seq<char>,
    env: ScanEnv,
    b: Seq<char>,
)
    requires
        st1 == spec_process_file(st, table, og, name, env).0,
        st.missing.contains(b),
    ensures
        st1.missing.contains(b),
{
    if st1.missing != st.missing {
        let i = choose|i: int| 0 <= i < st.missing.len() && st.missing[i] == b;
        assert(st1.missing[i] == b);
    }
}


/// Membership in a concatenation.
pub proof fn lemma_concat_contains(a: Seq<Seq<char>>, b: Seq<Seq<char>>, x: Seq<char>)
    ensures
        (a + b).contains(x) <==> a.contains(x) || b.contains(x),
{
    if (a + b).contains(x) {
        let i = choose|i: int| 0 <= i < (a + b).len() && (a + b)[i] == x;
        if i < a.len() {
            assert(a[i] == x);
        } else {
            assert(b[i - a.len()] == x);
        }
    }
    if a.contains(x) {
        let i = choose|i: int| 0 <= i < a.len() && a[i] == x;
        assert((a + b)[i] == x);
    }
    if b.contains(x) {
        let i = choose|i: int| 0 <= i < b.len() && b[i] == x;
        assert((a + b)[a.len() + i] == x);
    }
}

/// A single fresh element in front keeps a list duplicate-free.
pub proof fn lemma_cons_no_dup(x: Seq<char>, s: Seq<Seq<char>>)
    requires
        s.no_duplicates(),
        !s.contains(x),
    ensures
        (seq![x] + s).no_duplicates(),
{
    let c = seq![x] + s;
    assert forall|i: int, j: int| 0 <= i < j < c.len() implies c[i] != c[j] by {
        if i == 0 {
            assert(c[j] == s[j - 1]);
            assert(s.contains(s[j - 1]));
        } else {
            assert(c[i] == s[i - 1] && c[j] == s[j - 1]);
        }
    }
}

/// Within one pass no base name is prompted twice, a name already
/// waiting is never prompted at all, and every prompted name is
/// waiting afterwards.
pub proof fn lemma_pass_prompts(
    st: PassState,
    files: Seq<Seq<char>>,
    table: NameMap,
    og: NameMap,
    env: ScanEnv,
)
    ensures
        spec_pass_files(st, files, table, og, env).prompted.no_duplicates(),
        forall|b: Seq<char>|
            #[trigger] spec_pass_files(st, files, table, og, env).prompted.contains(b)
                ==> !st.missing.contains(b) && spec_pass_files(
                st,
                files,
                table,
                og,
                env,
            ).state.missing.contains(b),
    decreases files.len(),
{
    let r = spec_pass_files(st, files, table, og, env);
    if files.len() > 0 {
        let sr = spec_process_file(st, table, og, files[0], env);
        let rr = spec_pass_files(sr.0, files.drop_first(), table, og, env);
        lemma_pass_prompts(sr.0, files.drop_first(), table, og, env);
        lemma_pass_monotone(sr.0, files.drop_first(), table, og, env);
        let head = opt_seq(sr.1.prompted);
        assert(r.prompted == head + rr.prompted);
        match sr.1.prompted {
            Some(base) => {
                assert(head =~= seq![base]);
                assert(!st.missing.contains(base));
                assert(sr.0.missing == st.missing.push(base));
                assert(sr.0.missing.contains(base)) by {
                    assert(sr.0.missing[st.missing.len() as int] == base);
                }
                if spec_pass_files(sr.0, files.drop_first(), table, og, env).prompted.contains(
                    base,
                ) {
                    assert(!sr.0.missing.contains(base));
                    assert(false);
                }
                lemma_cons_no_dup(base, rr.prompted);
                assert(r.prompted.no_duplicates());
                assert forall|b: Seq<char>| #[trigger] r.prompted.contains(b) implies !st.missing
                    .contains(b) && r.state.missing.contains(b) by {
                    lemma_concat_contains(head, rr.prompted, b);
                    if head.contains(b) {
                        assert(b == base);
                        assert(r.state.missing.contains(b));
                    } else {
                        assert(spec_pass_files(
                            sr.0,
                            files.drop_first(),
                            table,
                            og,
                            env,
                        ).prompted.contains(b));
                        assert(!sr.0.missing.contains(b));
                        if st.missing.contains(b) {
                            let i = choose|i: int|
                                0 <= i < st.missing.len() && st.missing[i] == b;
                            assert(sr.0.missing[i] == b);
                            assert(false);
                        }
                    }
                }
            },
            None => {
                assert(head =~= Seq::<Seq<char>>::empty());
                assert(r.prompted =~= rr.prompted);
                assert(sr.0.missing == st.missing);
                assert forall|b: Seq<char>| #[trigger] r.prompted.contains(b) implies !st.missing
                    .contains(b) && r.state.missing.contains(b) by {
                    assert(spec_pass_files(
                        sr.0,
                        files.drop_first(),
                        table,
                        og,
                        env,
                    ).prompted.contains(b));
                }
            },
        }
    }
}

/// Within one pass no duplicate is reported twice for the same source
/// filename, a source already recorded is never reported again, and
/// every reported source is recorded afterwards.
pub proof fn lemma_pass_dups(
    st: PassState,
    files: Seq<Seq<char>>,
    table: NameMap,
    og: NameMap,
    env: ScanEnv,
)
    ensures
        spec_pass_files(st, files, table, og, env).dups.no_duplicates(),
        forall|x: Seq<char>|
            #[trigger] spec_pass_files(st, files, table, og, env).dups.contains(x)
                ==> !st.reported.contains(x) && spec_pass_files(
                st,
                files,
                table,
                og,
                env,
            ).state.reported.contains(x),
    decreases files.len(),
{
    let r = spec_pass_files(st, files, table, og, env);
    if files.len() > 0 {
        let sr = spec_process_file(st, table, og, files[0], env);
        let rr = spec_pass_files(sr.0, files.drop_first(), table, og, env);
        lemma_pass_dups(sr.0, files.drop_first(), table, og, env);
        lemma_pass_monotone(sr.0, files.drop_first(), table, og, env);
        let head = opt_seq(sr.1.dup);
        assert(r.dups == head + rr.dups);
        match sr.1.dup {
            Some(src) => {
                assert(head =~= seq![src]);
                assert(!st.reported.contains(src));
                assert(sr.0.reported == st.reported.push(src));
                assert(sr.0.reported.contains(src)) by {
                    assert(sr.0.reported[st.reported.len() as int] == src);
                }
                if spec_pass_files(sr.0, files.drop_first(), table, og, env).dups.contains(src) {
                    assert(!sr.0.reported.contains(src));
                    assert(false);
                }
                lemma_cons_no_dup(src, rr.dups);
                assert(r.dups.no_duplicates());
                assert forall|x: Seq<char>| #[trigger] r.dups.contains(x) implies !st.reported
                    .contains(x) && r.state.reported.contains(x) by {
                    lemma_concat_contains(head, rr.dups, x);
                    if head.contains(x) {
                        assert(x == src);
                        assert(r.state.reported.contains(x));
                    } else {
                        assert(spec_pass_files(
                            sr.0,
                            files.drop_first(),
                            table,
                            og,
                            env,
                        ).dups.contains(x));
                        assert(!sr.0.reported.contains(x));
                        if st.reported.contains(x) {
                            let i = choose|i: int|
                                0 <= i < st.reported.len() && st.reported[i] == x;
                            assert(sr.0.reported[i] == x);
                            assert(false);
                        }
                    }
                }
            },
            None => {
                assert(head =~= Seq::<Seq<char>>::empty());
                assert(r.dups =~= rr.dups);
                assert forall|x: Seq<char>| #[trigger] r.dups.contains(x) implies !st.reported
                    .contains(x) && r.state.reported.contains(x) by {
                    assert(spec_pass_files(
                        sr.0,
                        files.drop_first(),
                        table,
                        og,
                        env,
                    ).dups.contains(x));
                    assert(!sr.0.reported.contains(x));
                    if st.reported.contains(x) && sr.0.reported != st.reported {
                        let i = choose|i: int|
                            0 <= i < st.reported.len() && st.reported[i] == x;
                        assert(sr.0.reported[i] == x);
                    }
                }
            },
        }
    }
}


/// When the file system cooperates (buckets can be made, renames go
/// through), every candidate that stays behind and is not ignored is
/// accounted for: its base name waits for a mapping, or its duplicate
/// is recorded and its destination resolves.
pub proof fn lemma_pass_leftovers(
    st: PassState,
    files: Seq<Seq<char>>,
    table: NameMap,
    og: NameMap,
    env: ScanEnv,
)
    requires
        forall|b: Seq<char>| env.mkdir_ok[b],
        forall|t: Seq<char>| env.rename_ok[t],
    ensures
        forall|f: Seq<char>|
            #[trigger] files.contains(f) && !spec_pass_files(st, files, table, og, env).moved.contains(f)
                && !spec_pass_files(st, files, table, og, env).ignored.contains(f) ==> spec_parse(
                f,
            ).is_some() && (spec_pass_files(st, files, table, og, env).state.missing.contains(
                base_of(f),
            ) || (spec_pass_files(st, files, table, og, env).state.reported.contains(f)
                && spec_resolve(table, og, base_of(f)).is_some())),
    decreases files.len(),
{
    let r = spec_pass_files(st, files, table, og, env);
    if files.len() > 0 {
        let g = files[0];
        let sr = spec_process_file(st, table, og, g, env);
        let rr = spec_pass_files(sr.0, files.drop_first(), table, og, env);
        lemma_pass_leftovers(sr.0, files.drop_first(), table, og, env);
        lemma_pass_monotone(sr.0, files.drop_first(), table, og, env);
        let head_m: Seq<Seq<char>> = if sr.1.moved {
            seq![g]
        } else {
            Seq::empty()
        };
        let head_i: Seq<Seq<char>> = if sr.1.ignored {
            seq![g]
        } else {
            Seq::empty()
        };
        assert(r.moved == head_m + rr.moved);
        assert(r.ignored == head_i + rr.ignored);
        assert forall|f: Seq<char>|
            #[trigger] files.contains(f) && !r.moved.contains(f) && !r.ignored.contains(f) implies
            spec_parse(f).is_some() && (r.state.missing.contains(base_of(f)) || (
            r.state.reported.contains(f) && spec_resolve(table, og, base_of(f)).is_some())) by {
            lemma_concat_contains(head_m, rr.moved, f);
            lemma_concat_contains(head_i, rr.ignored, f);
            if files.drop_first().contains(f) {
                assert(files.drop_first().contains(f)
                    && !spec_pass_files(sr.0, files.drop_first(), table, og, env).moved.contains(f)
                    && !spec_pass_files(sr.0, files.drop_first(), table, og, env).ignored.contains(
                    f,
                ));
            } else {
                let i = choose|i: int| 0 <= i < files.len() && files[i] == f;
                if i > 0 {
                    assert(files.drop_first()[i - 1] == f);
                    assert(false);
                }
                assert(f == g);
                if sr.1.moved {
                    assert(head_m[0] == f);
                    assert(false);
                }
                if sr.1.ignored {
                    assert(head_i[0] == f);
                    assert(false);
                }
                match spec_step(st.missing, table, og, g) {
                    StepV::Unparseable { line } => {
                        assert(false);
                    },
                    StepV::SkipMissing => {
                        assert(spec_parse(f).is_some());
                        assert(st.missing.contains(base_of(f)));
                        lemma_pass_monotone(sr.0, files.drop_first(), table, og, env);
                        assert(r.state.missing.contains(base_of(f)));
                    },
                    StepV::Prompt { base, command } => {
                        assert(spec_parse(f).is_some());
                        assert(base == base_of(f));
                        assert(sr.0.missing.contains(base)) by {
                            assert(sr.0.missing[st.missing.len() as int] == base);
                        }
                        assert(r.state.missing.contains(base_of(f)));
                    },
                    StepV::NeedSeason { base, dest, episode, ext } => {
                        assert(spec_parse(f).is_some());
                        assert(spec_resolve(table, og, base_of(f)).is_some());
                        match spec_after_season(g, dest, episode, ext, env.answer[g]) {
                            StepV::TryMove { bucket_path, target_name, target_path } => {
                                assert(env.mkdir_ok[bucket_path]);
                                assert(env.rename_ok[target_path]);
                                assert(st.existing.contains(target_path));
                                if st.reported.contains(f) {
                                    let i2 = choose|i2: int|
                                        0 <= i2 < st.reported.len() && st.reported[i2] == f;
                                    assert(sr.0.reported[i2] == f);
                                    assert(sr.0.reported.contains(f));
                                } else {
                                    assert(sr.0.reported == st.reported.push(f));
                                    assert(sr.0.reported[st.reported.len() as int] == f);
                                    assert(sr.0.reported.contains(f));
                                }
                                assert(r.state.reported.contains(f));
                            },
                            _ => {
                                assert(false);
                            },
                        }
                    },
                    StepV::TryMove { bucket_path, target_name, target_path } => {
                        assert(spec_parse(f).is_some());
                        assert(spec_resolve(table, og, base_of(f)).is_some());
                        assert(env.mkdir_ok[bucket_path]);
                        assert(env.rename_ok[target_path]);
                        assert(st.existing.contains(target_path));
                        if st.reported.contains(f) {
                            let i2 = choose|i2: int|
                                0 <= i2 < st.reported.len() && st.reported[i2] == f;
                            assert(sr.0.reported[i2] == f);
                            assert(sr.0.reported.contains(f));
                        } else {
                            assert(sr.0.reported == st.reported.push(f));
                            assert(sr.0.reported[st.reported.len() as int] == f);
                            assert(sr.0.reported.contains(f));
                        }
                        assert(r.state.reported.contains(f));
                    },
                }
            }
        }
    }
}

/// Every name waiting for a mapping after a pass was waiting before
/// it, or belongs to a parseable file that the pass left in place and
/// did not ignore.
pub proof fn lemma_pass_missing_provenance(
    st: PassState,
    files: Seq<Seq<char>>,
    table: NameMap,
    og: NameMap,
    env: ScanEnv,
)
    requires
        files.no_duplicates(),
    ensures
        forall|b: Seq<char>|
            #[trigger] spec_pass_files(st, files, table, og, env).state.missing.contains(b)
                ==> st.missing.contains(b) || (exists|f: Seq<char>|
                files.contains(f) && spec_parse(f).is_some() && base_of(f) == b
                    && !spec_pass_files(st, files, table, og, env).moved.contains(f)
                    && !spec_pass_files(st, files, table, og, env).ignored.contains(f)),
    decreases files.len(),
{
    let r = spec_pass_files(st, files, table, og, env);
    if files.len() > 0 {
        let g = files[0];
        let sr = spec_process_file(st, table, og, g, env);
        let rr = spec_pass_files(sr.0, files.drop_first(), table, og, env);
        lemma_pass_missing_provenance(sr.0, files.drop_first(), table, og, env);
        lemma_pass_outputs_from_files(sr.0, files.drop_first(), table, og, env);
        let head_m: Seq<Seq<char>> = if sr.1.moved {
            seq![g]
        } else {
            Seq::empty()
        };
        let head_i: Seq<Seq<char>> = if sr.1.ignored {
            seq![g]
        } else {
            Seq::empty()
        };
        assert(!files.drop_first().contains(g)) by {
            if files.drop_first().contains(g) {
                let j = choose|j: int|
                    0 <= j < files.drop_first().len() && files.drop_first()[j] == g;
                assert(files[j + 1] == g);
            }
        }
        assert forall|b: Seq<char>| #[trigger] r.state.missing.contains(b) implies st.missing
            .contains(b) || (exists|f: Seq<char>|
            files.contains(f) && spec_parse(f).is_some() && base_of(f) == b && !r.moved.contains(f)
                && !r.ignored.contains(f)) by {
            assert(spec_pass_files(sr.0, files.drop_first(), table, og, env).state.missing.contains(
                b,
            ));
            if sr.0.missing.contains(b) {
                match spec_step(st.missing, table, og, g) {
                    StepV::Prompt { base, command } => {
                        let i = choose|i: int|
                            0 <= i < sr.0.missing.len() && sr.0.missing[i] == b;
                        if i < st.missing.len() {
                            assert(st.missing[i] == b);
                        } else {
                            assert(b == base);
                            assert(files.contains(g)) by {
                                assert(files[0] == g);
                            }
                            assert(spec_parse(g).is_some() && base_of(g) == b);
                            assert(!r.moved.contains(g)) by {
                                lemma_concat_contains(head_m, rr.moved, g);
                                assert(head_m =~= Seq::<Seq<char>>::empty());
                                if spec_pass_files(
                                    sr.0,
                                    files.drop_first(),
                                    table,
                                    og,
                                    env,
                                ).moved.contains(g) {
                                    assert(files.drop_first().contains(g));
                                }
                            }
                            assert(!r.ignored.contains(g)) by {
                                lemma_concat_contains(head_i, rr.ignored, g);
                                assert(head_i =~= Seq::<Seq<char>>::empty());
                                if spec_pass_files(
                                    sr.0,
                                    files.drop_first(),
                                    table,
                                    og,
                                    env,
                                ).ignored.contains(g) {
                                    assert(files.drop_first().contains(g));
                                }
                            }
                        }
                    },
                    _ => {
                        assert(sr.0.missing == st.missing);
                    },
                }
            } else {
                let f = choose|f: Seq<char>|
                    files.drop_first().contains(f) && spec_parse(f).is_some() && base_of(f) == b
                        && !spec_pass_files(sr.0, files.drop_first(), table, og, env).moved.contains(
                        f,
                    ) && !spec_pass_files(
                        sr.0,
                        files.drop_first(),
                        table,
                        og,
                        env,
                    ).ignored.contains(f);
                let j = choose|j: int|
                    0 <= j < files.drop_first().len() && files.drop_first()[j] == f;
                assert(files[j + 1] == f);
                assert(files.contains(f));
                assert(f != g);
                assert(!r.moved.contains(f)) by {
                    lemma_concat_contains(head_m, rr.moved, f);
                    if head_m.contains(f) {
                        assert(head_m[0] == f);
                        assert(f == g);
                    }
                }
                assert(!r.ignored.contains(f)) by {
                    lemma_concat_contains(head_i, rr.ignored, f);
                    if head_i.contains(f) {
                        assert(head_i[0] == f);
                        assert(f == g);
                    }
                }
            }
        }
    }
}

/// When every candidate is accounted for in advance (its base waits
/// for a mapping, or its duplicate is recorded and its destination
/// resolves), a pass changes neither the waiting names nor the
/// recorded duplicates, whatever the file system and the lookups do.
pub proof fn lemma_pass_stable(
    st: PassState,
    files: Seq<Seq<char>>,
    table: NameMap,
    og: NameMap,
    env: ScanEnv,
)
    requires
        forall|f: Seq<char>|
            #[trigger] files.contains(f) ==> spec_parse(f).is_some() && (st.missing.contains(
                base_of(f),
            ) || (st.reported.contains(f) && spec_resolve(table, og, base_of(f)).is_some())),
    ensures
        spec_pass_files(st, files, table, og, env).state.missing == st.missing,
        spec_pass_files(st, files, table, og, env).state.reported == st.reported,
    decreases files.len(),
{
    if files.len() > 0 {
        let g = files[0];
        assert(files.contains(g)) by {
            assert(files[0] == g);
        }
        let sr = spec_process_file(st, table, og, g, env);
        assert(sr.0.missing == st.missing && sr.0.reported == st.reported) by {
            assert(spec_parse(g).is_some());
            match spec_step(st.missing, table, og, g) {
                StepV::Unparseable { line } => {
                    assert(false);
                },
                StepV::SkipMissing => {},
                StepV::Prompt { base, command } => {
                    assert(spec_resolve(table, og, base_of(g)).is_none());
                    assert(st.missing.contains(base_of(g)));
                    assert(false);
                },
                StepV::NeedSeason { base, dest, episode, ext } => {
                    if !st.missing.contains(base_of(g)) {
                        assert(st.reported.contains(g));
                    } else {
                        assert(false);
                    }
                },
                StepV::TryMove { bucket_path, target_name, target_path } => {
                    if !st.missing.contains(base_of(g)) {
                        assert(st.reported.contains(g));
                    } else {
                        assert(false);
                    }
                },
            }
        }
        assert forall|f: Seq<char>| #[trigger] files.drop_first().contains(f) implies spec_parse(
            f,
        ).is_some() && (sr.0.missing.contains(base_of(f)) || (sr.0.reported.contains(f)
            && spec_resolve(table, og, base_of(f)).is_some())) by {
            let j = choose|j: int|
                0 <= j < files.drop_first().len() && files.drop_first()[j] == f;
            assert(files[j + 1] == f);
            assert(files.contains(f));
        }
        lemma_pass_stable(sr.0, files.drop_first(), table, og, env);
    }
}


pub proof fn lemma_candidates_contains(files: Seq<Seq<char>>, ignore: Seq<Seq<char>>, f: Seq<char>)
    ensures
        spec_candidates(files, ignore).contains(f) <==> (files.contains(f) && spec_candidate(f)
            && !ignore.contains(f)),
    decreases files.len(),
{
    if files.len() > 0 {
        lemma_candidates_contains(files.drop_first(), ignore, f);
        let head: Seq<Seq<char>> = if spec_candidate(files[0]) && !ignore.contains(files[0]) {
            seq![files[0]]
        } else {
            Seq::empty()
        };
        let rest = spec_candidates(files.drop_first(), ignore);
        lemma_concat_contains(head, rest, f);
        if head.contains(f) {
            assert(head[0] == f);
        }
        if files.contains(f) {
            let i = choose|i: int| 0 <= i < files.len() && files[i] == f;
            if i > 0 {
                assert(files.drop_first()[i - 1] == f);
            }
        }
        if files.drop_first().contains(f) {
            let i = choose|i: int|
                0 <= i < files.drop_first().len() && files.drop_first()[i] == f;
            assert(files[i + 1] == f);
        }
        if f == files[0] && spec_candidate(f) && !ignore.contains(f) {
            assert(head[0] == f);
        }
    }
}

pub proof fn lemma_kept_contains(files: Seq<Seq<char>>, ignore: Seq<Seq<char>>, f: Seq<char>)
    ensures
        spec_kept_ignore(files, ignore).contains(f) <==> (files.contains(f) && spec_candidate(f)
            && ignore.contains(f)),
    decreases files.len(),
{
    if files.len() > 0 {
        lemma_kept_contains(files.drop_first(), ignore, f);
        let head: Seq<Seq<char>> = if spec_candidate(files[0]) && ignore.contains(files[0]) {
            seq![files[0]]
        } else {
            Seq::empty()
        };
        let rest = spec_kept_ignore(files.drop_first(), ignore);
        lemma_concat_contains(head, rest, f);
        if head.contains(f) {
            assert(head[0] == f);
        }
        if files.contains(f) {
            let i = choose|i: int| 0 <= i < files.len() && files[i] == f;
            if i > 0 {
                assert(files.drop_first()[i - 1] == f);
            }
        }
        if files.drop_first().contains(f) {
            let i = choose|i: int|
                0 <= i < files.drop_first().len() && files.drop_first()[i] == f;
            assert(files[i + 1] == f);
        }
        if f == files[0] && spec_candidate(f) && ignore.contains(f) {
            assert(head[0] == f);
        }
    }
}

pub proof fn lemma_remaining_contains(files: Seq<Seq<char>>, moved: Seq<Seq<char>>, f: Seq<char>)
    ensures
        spec_remaining(files, moved).contains(f) <==> (files.contains(f) && !moved.contains(f)),
    decreases files.len(),
{
    if files.len() > 0 {
        lemma_remaining_contains(files.drop_first(), moved, f);
        let head: Seq<Seq<char>> = if moved.contains(files[0]) {
            Seq::empty()
        } else {
            seq![files[0]]
        };
        let rest = spec_remaining(files.drop_first(), moved);
        lemma_concat_contains(head, rest, f);
        if head.contains(f) {
            assert(head[0] == f);
        }
        if files.contains(f) {
            let i = choose|i: int| 0 <= i < files.len() && files[i] == f;
            if i > 0 {
                assert(files.drop_first()[i - 1] == f);
            }
        }
        if files.drop_first().contains(f) {
            let i = choose|i: int|
                0 <= i < files.drop_first().len() && files.drop_first()[i] == f;
            assert(files[i + 1] == f);
        }
        if f == files[0] && !moved.contains(f) {
            assert(head[0] == f);
        }
    }
}

pub proof fn lemma_bases_contains(fs: Seq<Seq<char>>, b: Seq<char>)
    ensures
        spec_bases(fs).contains(b) <==> (exists|f: Seq<char>|
            #[trigger] fs.contains(f) && spec_parse(f).is_some() && base_of(f) == b),
    decreases fs.len(),
{
    if fs.len() == 0 {
        if exists|f: Seq<char>| #[trigger] fs.contains(f) && spec_parse(f).is_some() && base_of(f)
            == b {
            let f = choose|f: Seq<char>|
                #[trigger] fs.contains(f) && spec_parse(f).is_some() && base_of(f) == b;
            assert(false);
        }
    } else {
        lemma_bases_contains(fs.drop_first(), b);
        let head: Seq<Seq<char>> = match spec_parse(fs[0]) {
            Some(p) => seq![p.base],
            None => Seq::empty(),
        };
        let rest = spec_bases(fs.drop_first());
        lemma_concat_contains(head, rest, b);
        if spec_bases(fs).contains(b) {
            if head.contains(b) {
                assert(head[0] == b);
                assert(fs.contains(fs[0])) by {
                    assert(fs[0] == fs[0]);
                }
                assert(fs.contains(fs[0]) && spec_parse(fs[0]).is_some() && base_of(fs[0]) == b);
            } else {
                let f = choose|f: Seq<char>|
                    #[trigger] fs.drop_first().contains(f) && spec_parse(f).is_some() && base_of(f)
                        == b;
                let i = choose|i: int|
                    0 <= i < fs.drop_first().len() && fs.drop_first()[i] == f;
                assert(fs[i + 1] == f);
                assert(fs.contains(f) && spec_parse(f).is_some() && base_of(f) == b);
            }
        }
        if exists|f: Seq<char>| #[trigger] fs.contains(f) && spec_parse(f).is_some() && base_of(f)
            == b {
            let f = choose|f: Seq<char>|
                #[trigger] fs.contains(f) && spec_parse(f).is_some() && base_of(f) == b;
            let i = choose|i: int| 0 <= i < fs.len() && fs[i] == f;
            if i == 0 {
                assert(head.contains(b)) by {
                    assert(head[0] == b);
                }
            } else {
                assert(fs.drop_first()[i - 1] == f);
                assert(fs.drop_first().contains(f) && spec_parse(f).is_some() && base_of(f) == b);
                assert(rest.contains(b));
            }
            assert(spec_bases(fs).contains(b));
        }
    }
}

/// Filtering a duplicate-free listing keeps it duplicate-free.
pub proof fn lemma_candidates_no_dup(files: Seq<Seq<char>>, ignore: Seq<Seq<char>>)
    requires
        files.no_duplicates(),
    ensures
        spec_candidates(files, ignore).no_duplicates(),
    decreases files.len(),
{
    if files.len() > 0 {
        assert(files.drop_first().no_duplicates());
        lemma_candidates_no_dup(files.drop_first(), ignore);
        let rest = spec_candidates(files.drop_first(), ignore);
        if spec_candidate(files[0]) && !ignore.contains(files[0]) {
            if rest.contains(files[0]) {
                lemma_candidates_contains(files.drop_first(), ignore, files[0]);
                let i = choose|i: int|
                    0 <= i < files.drop_first().len() && files.drop_first()[i] == files[0];
                assert(files[i + 1] == files[0]);
                assert(false);
            }
            lemma_cons_no_dup(files[0], rest);
        } else {
            assert(spec_candidates(files, ignore) =~= rest);
        }
    }
}


/// Once a base name is waiting for a mapping, a scan pass prompts for
/// it at most once, and not at all while it is already waiting and a
/// file with that base name is still present: a prompt for it can
/// only return after a mapping is registered (which removes it from
/// the waiting set) or no matching file remains (which prunes it).
pub proof fn lemma_no_reprompt(
    missing: Seq<Seq<char>>,
    reported: Seq<Seq<char>>,
    existing: Set<Seq<char>>,
    files: Seq<Seq<char>>,
    ignore: Seq<Seq<char>>,
    table: NameMap,
    og: NameMap,
    env: ScanEnv,
)
    ensures
        spec_full_pass(missing, reported, existing, files, ignore, table, og, env).prompted.no_duplicates(),
        forall|b: Seq<char>|
            missing.contains(b) && spec_bases(spec_candidates(files, ignore)).contains(b)
                ==> !(#[trigger] spec_full_pass(
                missing,
                reported,
                existing,
                files,
                ignore,
                table,
                og,
                env,
            ).prompted.contains(b)),
{
    let cands = spec_candidates(files, ignore);
    let bases = spec_bases(cands);
    let m1 = crate::state::spec_prune(missing, bases);
    let st = PassState { missing: m1, reported, existing };
    lemma_pass_prompts(st, cands, table, og, env);
    assert forall|b: Seq<char>|
        missing.contains(b) && spec_bases(spec_candidates(files, ignore)).contains(b) implies !(
        #[trigger] spec_full_pass(
        missing,
        reported,
        existing,
        files,
        ignore,
        table,
        og,
        env,
    ).prompted.contains(b)) by {
        crate::state::lemma_prune_keeps(missing, bases, b);
        if spec_pass_files(st, cands, table, og, env).prompted.contains(b) {
            assert(!st.missing.contains(b));
            assert(false);
        }
    }
}

/// A duplicate is reported at most once within a pass, and a source
/// filename whose duplicate was ever recorded is never reported
/// again.
pub proof fn lemma_duplicate_reported_once(
    missing: Seq<Seq<char>>,
    reported: Seq<Seq<char>>,
    existing: Set<Seq<char>>,
    files: Seq<Seq<char>>,
    ignore: Seq<Seq<char>>,
    table: NameMap,
    og: NameMap,
    env: ScanEnv,
)
    ensures
        spec_full_pass(missing, reported, existing, files, ignore, table, og, env).dups.no_duplicates(),
        forall|x: Seq<char>|
            reported.contains(x) ==> !(#[trigger] spec_full_pass(
                missing,
                reported,
                existing,
                files,
                ignore,
                table,
                og,
                env,
            ).dups.contains(x)),
        forall|x: Seq<char>|
            #[trigger] spec_full_pass(missing, reported, existing, files, ignore, table, og, env).dups.contains(
                x,
            ) ==> spec_full_pass(
                missing,
                reported,
                existing,
                files,
                ignore,
                table,
                og,
                env,
            ).state.reported.contains(x),
{
    let cands = spec_candidates(files, ignore);
    let m1 = crate::state::spec_prune(missing, spec_bases(cands));
    let st = PassState { missing: m1, reported, existing };
    lemma_pass_dups(st, cands, table, og, env);
}

/// Across two passes, a duplicate reported in the first is never
/// reported again in the second, whatever files remain and whatever
/// the outside world answers.
pub proof fn lemma_duplicate_never_rereported(
    missing: Seq<Seq<char>>,
    reported: Seq<Seq<char>>,
    existing: Set<Seq<char>>,
    files: Seq<Seq<char>>,
    ignore: Seq<Seq<char>>,
    table: NameMap,
    og: NameMap,
    env: ScanEnv,
    files2: Seq<Seq<char>>,
    ignore2: Seq<Seq<char>>,
    existing2: Set<Seq<char>>,
    env2: ScanEnv,
)
    ensures
        ({
            let r1 = spec_full_pass(missing, reported, existing, files, ignore, table, og, env);
            let r2 = spec_full_pass(
                r1.state.missing,
                r1.state.reported,
                existing2,
                files2,
                ignore2,
                table,
                og,
                env2,
            );
            forall|x: Seq<char>| r1.dups.contains(x) ==> !(#[trigger] r2.dups.contains(x))
        }),
{
    let r1 = spec_full_pass(missing, reported, existing, files, ignore, table, og, env);
    lemma_duplicate_reported_once(missing, reported, existing, files, ignore, table, og, env);
    lemma_duplicate_reported_once(
        r1.state.missing,
        r1.state.reported,
        existing2,
        files2,
        ignore2,
        table,
        og,
        env2,
    );
    let r2 = spec_full_pass(
        r1.state.missing,
        r1.state.reported,
        existing2,
        files2,
        ignore2,
        table,
        og,
        env2,
    );
    assert forall|x: Seq<char>| r1.dups.contains(x) implies !(#[trigger] r2.dups.contains(
        x,
    )) by {
        assert(spec_full_pass(
            missing,
            reported,
            existing,
            files,
            ignore,
            table,
            og,
            env,
        ).dups.contains(x));
        assert(r1.state.reported.contains(x));
        if spec_full_pass(
            r1.state.missing,
            r1.state.reported,
            existing2,
            files2,
            ignore2,
            table,
            og,
            env2,
        ).dups.contains(x) {
            assert(false);
        }
    }
}

/// Re-running a pass with no new files and no signals changes neither
/// the missing-mapping set nor the reported-duplicate set.  The first
/// pass must have had a cooperating file system (no failed bucket
/// creations or renames): after a pass with transient file-system
/// failures, a re-run may move or report what failed before.
pub proof fn lemma_rescan_stable(
    missing: Seq<Seq<char>>,
    reported: Seq<Seq<char>>,
    existing: Set<Seq<char>>,
    files: Seq<Seq<char>>,
    ignore: Seq<Seq<char>>,
    table: NameMap,
    og: NameMap,
    env: ScanEnv,
    env2: ScanEnv,
)
    requires
        files.no_duplicates(),
        forall|b: Seq<char>| env.mkdir_ok[b] == true,
        forall|t: Seq<char>| env.rename_ok[t] == true,
    ensures
        ({
            let r1 = spec_full_pass(missing, reported, existing, files, ignore, table, og, env);
            let ig1 = spec_full_ignore(missing, reported, existing, files, ignore, table, og, env);
            let files2 = spec_remaining(files, r1.moved);
            let r2 = spec_full_pass(
                r1.state.missing,
                r1.state.reported,
                r1.state.existing,
                files2,
                ig1,
                table,
                og,
                env2,
            );
            r2.state.missing == r1.state.missing && r2.state.reported == r1.state.reported
        }),
{
    let cands1 = spec_candidates(files, ignore);
    let bases1 = spec_bases(cands1);
    let m1 = crate::state::spec_prune(missing, bases1);
    let st1 = PassState { missing: m1, reported, existing };
    let r1f = spec_pass_files(st1, cands1, table, og, env);
    let r1 = spec_full_pass(missing, reported, existing, files, ignore, table, og, env);
    assert(r1 == r1f);
    let m = r1f.state.missing;
    let rep = r1f.state.reported;
    let files2 = spec_remaining(files, r1f.moved);
    let kept = spec_kept_ignore(files, ignore);
    let ig1 = kept + r1f.ignored;
    assert(spec_full_ignore(missing, reported, existing, files, ignore, table, og, env) == ig1);
    let cands2 = spec_candidates(files2, ig1);
    let bases2 = spec_bases(cands2);
    lemma_candidates_no_dup(files, ignore);
    lemma_pass_leftovers(st1, cands1, table, og, env);
    lemma_pass_missing_provenance(st1, cands1, table, og, env);

    // Every candidate of the second pass survived the first pass
    // untouched: it was a first-pass candidate, neither moved nor
    // ignored.
    assert forall|f: Seq<char>| #[trigger] cands2.contains(f) implies cands1.contains(f)
        && !r1f.moved.contains(f) && !r1f.ignored.contains(f) by {
        lemma_candidates_contains(files2, ig1, f);
        lemma_remaining_contains(files, r1f.moved, f);
        lemma_concat_contains(kept, r1f.ignored, f);
        lemma_kept_contains(files, ignore, f);
        lemma_candidates_contains(files, ignore, f);
    }

    // Every waiting name still has a parseable candidate file, so the
    // second pass's pruning is a no-op.
    assert forall|b: Seq<char>| #[trigger] m.contains(b) implies bases2.contains(b) by {
        assert(spec_pass_files(st1, cands1, table, og, env).state.missing.contains(b));
        let f = if st1.missing.contains(b) {
            crate::state::lemma_prune_contains(missing, bases1, b);
            lemma_bases_contains(cands1, b);
            let f = choose|f: Seq<char>|
                #[trigger] cands1.contains(f) && spec_parse(f).is_some() && base_of(f) == b;
            lemma_pass_skips_missing(st1, cands1, table, og, env, f);
            f
        } else {
            let f = choose|f: Seq<char>|
                cands1.contains(f) && spec_parse(f).is_some() && base_of(f) == b
                    && !spec_pass_files(st1, cands1, table, og, env).moved.contains(f)
                    && !spec_pass_files(st1, cands1, table, og, env).ignored.contains(f);
            f
        };
        assert(cands1.contains(f) && spec_parse(f).is_some() && base_of(f) == b
            && !r1f.moved.contains(f) && !r1f.ignored.contains(f));
        lemma_candidates_contains(files, ignore, f);
        lemma_remaining_contains(files, r1f.moved, f);
        assert(files2.contains(f));
        lemma_kept_contains(files, ignore, f);
        assert(!kept.contains(f));
        lemma_concat_contains(kept, r1f.ignored, f);
        assert(!ig1.contains(f));
        lemma_candidates_contains(files2, ig1, f);
        assert(cands2.contains(f));
        lemma_bases_contains(cands2, b);
    }
    assert forall|i: int| 0 <= i < m.len() implies bases2.contains(#[trigger] m[i]) by {
        assert(m.contains(m[i]));
    }
    crate::state::lemma_prune_noop(m, bases2);
    assert(crate::state::spec_prune(m, bases2) == m);

    // Every second-pass candidate is accounted for, so the second
    // pass cannot change the two sets.
    let st2 = PassState { missing: m, reported: rep, existing: r1f.state.existing };
    assert forall|f: Seq<char>| #[trigger] cands2.contains(f) implies spec_parse(f).is_some() && (
    st2.missing.contains(base_of(f)) || (st2.reported.contains(f) && spec_resolve(
        table,
        og,
        base_of(f),
    ).is_some())) by {
        assert(cands1.contains(f) && !r1f.moved.contains(f) && !r1f.ignored.contains(f));
        assert(cands1.contains(f) && !spec_pass_files(st1, cands1, table, og, env).moved.contains(f)
            && !spec_pass_files(st1, cands1, table, og, env).ignored.contains(f));
    }
    lemma_pass_stable(st2, cands2, table, og, env2);
    let r2 = spec_full_pass(m, rep, r1f.state.existing, files2, ig1, table, og, env2);
    assert(r2 == spec_pass_files(
        PassState { missing: crate::state::spec_prune(m, bases2), reported: rep, existing: r1f.state.existing },
        cands2,
        table,
        og,
        env2,
    ));
    assert(PassState {
        missing: crate::state::spec_prune(m, bases2),
        reported: rep,
        existing: r1f.state.existing,
    } == st2);
}


/// A seasonless file for which the lookup does not name exactly the
/// file's own episode stays unmoved, changes no bookkeeping, and
/// joins the session ignore set (so later passes leave it alone); its
/// report line asks for a season.
pub proof fn lemma_ambiguous_season_ignored(
    st: PassState,
    table: NameMap,
    og: NameMap,
    name: Seq<char>,
    env: ScanEnv,
)
    requires
        match spec_step(st.missing, table, og, name) {
            StepV::NeedSeason { base, dest, episode, ext } => match env.answer[name] {
                None => true,
                Some((s, e)) => e != episode,
            },
            _ => false,
        },
    ensures
        spec_process_file(st, table, og, name, env).0 == st,
        spec_process_file(st, table, og, name, env).1.ignored,
        !spec_process_file(st, table, og, name, env).1.moved,
        spec_process_file(st, table, og, name, env).1.prompted.is_none(),
        spec_process_file(st, table, og, name, env).1.dup.is_none(),
{
}

} // verus!
