//! Move planning and reporting.  The library computes the season
//! bucket and target names and decides what to report; the actual
//! directory creation and rename happen outside, and their outcome
//! comes back as a [`MoveProbe`].

use vstd::prelude::*;

use crate::index::DirEntry;
use crate::state::ThreadInfos;
use crate::text::{dec2_digits, push_dec2};

verus! {

/// A backtick inside a reported name would end the code span the
/// report wraps names in, so it is replaced.
pub open spec fn escape(s: Seq<char>) -> Seq<char> {
    s.map_values(|c: char| if c == '`' { '\'' } else { c })
}

/// Escapes a name for the report, as [`escape`] says.
pub fn escape_name(s: &String) -> (r: String)
    ensures
        r@ == escape(s@),
{
    let cs = crate::text::str_chars(s.as_str());
    let mut out: Vec<char> = Vec::new();
    let mut i: usize = 0;
    while i < cs.len()
        invariant
            i <= cs@.len(),
            cs@ == s@,
            out@.len() == i,
            forall|j: int|
                0 <= j < i ==> out@[j] == (if s@[j] == '`' {
                    '\''
                } else {
                    s@[j]
                }),
        decreases cs@.len() - i,
    {
        let c = cs[i];
        if c == '`' {
            out.push('\'');
        } else {
            out.push(c);
        }
        i = i + 1;
    }
    proof {
        assert(out@ =~= escape(s@));
    }
    crate::text::chars_to_string(&out)
}

/// The season bucket's name: `Season NN`.
pub open spec fn spec_bucket_name(season: int) -> Seq<char> {
    "Season "@ + dec2_digits(season)
}

/// The bucket's full path under the destination directory.
pub open spec fn spec_bucket_path(dest_path: Seq<char>, season: int) -> Seq<char> {
    dest_path + "/"@ + spec_bucket_name(season)
}

/// The target filename: `<series> - sNNeMM.<ext>`.
pub open spec fn spec_target_name(series: Seq<char>, season: int, episode: int, ext: Seq<char>) -> Seq<char> {
    series + " - s"@ + dec2_digits(season) + "e"@ + dec2_digits(episode) + "."@ + ext
}

/// The target's full path inside the bucket.
pub open spec fn spec_target_path(
    dest_path: Seq<char>,
    series: Seq<char>,
    season: int,
    episode: int,
    ext: Seq<char>,
) -> Seq<char> {
    spec_bucket_path(dest_path, season) + "/"@ + spec_target_name(series, season, episode, ext)
}

/// A planned move: where the season bucket lies, and the target name
/// and path inside it.
#[derive(Debug)]
pub struct MovePlan {
    pub bucket_path: String,
    pub target_name: String,
    pub target_path: String,
}

impl MovePlan {
    /// The plan for `dest`, `season`, `episode` and `ext`, all names
    /// as the specs above say.
    pub open spec fn matches(self, dest: DirEntry, season: int, episode: int, ext: Seq<char>) -> bool {
        &&& self.bucket_path@ == spec_bucket_path(dest.path@, season)
        &&& self.target_name@ == spec_target_name(dest.name@, season, episode, ext)
        &&& self.target_path@ == spec_target_path(dest.path@, dest.name@, season, episode, ext)
    }
}

/// Computes the season bucket and target names for a move.
pub fn plan_move(dest: &DirEntry, season: u32, episode: u32, ext: &String) -> (r: MovePlan)
    ensures
        r.matches(*dest, season as int, episode as int, ext@),
{
    let mut bucket = String::new();
    bucket.append("Season ");
    push_dec2(&mut bucket, season);
    let mut bucket_path = dest.path.clone();
    bucket_path.append("/");
    bucket_path.append(bucket.as_str());
    let mut target_name = dest.name.clone();
    target_name.append(" - s");
    push_dec2(&mut target_name, season);
    target_name.append("e");
    push_dec2(&mut target_name, episode);
    target_name.append(".");
    target_name.append(ext.as_str());
    let mut target_path = bucket_path.clone();
    target_path.append("/");
    target_path.append(target_name.as_str());
    let r = MovePlan { bucket_path, target_name, target_path };
    proof {
        assert(r.bucket_path@ =~= spec_bucket_path(dest.path@, season as int));
        assert(r.target_name@ =~= spec_target_name(
            dest.name@,
            season as int,
            episode as int,
            ext@,
        ));
        assert(r.target_path@ =~= spec_target_path(
            dest.path@,
            dest.name@,
            season as int,
            episode as int,
            ext@,
        ));
    }
    r
}

/// What the surrounding binary observed while carrying a planned move
/// out.
#[derive(Debug, PartialEq, Eq, Clone, Copy)]
pub enum MoveProbe {
    /// The season bucket was missing and could not be created.
    DirCreateFailed,
    /// The target file already exists; nothing was touched.
    TargetExists,
    /// The rename went through.
    Renamed,
    /// The rename failed; the source is untouched.
    RenameFailed,
}

pub open spec fn msg_create_dir_failed(bucket_path: Seq<char>) -> Seq<char> {
    ":x: Something went wrong while trying to create the directory `"@ + escape(bucket_path)
        + "`. Please look at the logs"@
}

pub open spec fn msg_duplicate(source: Seq<char>) -> Seq<char> {
    ":x: File already present: `"@ + escape(source) + "`"@
}

pub open spec fn msg_moved(source: Seq<char>, target: Seq<char>) -> Seq<char> {
    "Moved `"@ + escape(source) + "` as `"@ + escape(target) + "` to known folder."@
}

pub open spec fn msg_move_failed(source: Seq<char>) -> Seq<char> {
    ":x: Something went wrong while trying to move the file `"@ + escape(source)
        + "`. Please look at the logs"@
}

/// The report line of a finished move attempt, given what the file
/// system showed, as one of the message specs says.
pub open spec fn spec_move_report(
    probe: MoveProbe,
    source: Seq<char>,
    bucket_path: Seq<char>,
    target_name: Seq<char>,
    already_reported: bool,
) -> Option<Seq<char>> {
    match probe {
        MoveProbe::DirCreateFailed => Some(msg_create_dir_failed(bucket_path)),
        MoveProbe::TargetExists => if already_reported {
            None
        } else {
            Some(msg_duplicate(source))
        },
        MoveProbe::Renamed => Some(msg_moved(source, target_name)),
        MoveProbe::RenameFailed => Some(msg_move_failed(source)),
    }
}

/// Turns a move attempt's outcome into the report line, recording a
/// duplicate the first time it is seen and never again: a duplicate
/// target leaves a line only on its first sighting for that source
/// filename.
pub fn move_report(
    probe: MoveProbe,
    source_name: &String,
    plan: &MovePlan,
    infos: &mut ThreadInfos,
) -> (r: Option<String>)
    requires
        old(infos).wf(),
    ensures
        final(infos).wf(),
        final(infos).missing_names() == old(infos).missing_names(),
        final(infos).og_directories == old(infos).og_directories,
        match r {
            Some(line) => spec_move_report(
                probe,
                source_name@,
                plan.bucket_path@,
                plan.target_name@,
                old(infos).reported_names().contains(source_name@),
            ) == Some(line@),
            None => spec_move_report(
                probe,
                source_name@,
                plan.bucket_path@,
                plan.target_name@,
                old(infos).reported_names().contains(source_name@),
            ).is_none(),
        },
        final(infos).reported_names() == if probe == MoveProbe::TargetExists && !old(
            infos,
        ).reported_names().contains(source_name@) {
            old(infos).reported_names().push(source_name@)
        } else {
            old(infos).reported_names()
        },
{
    match probe {
        MoveProbe::DirCreateFailed => {
            let mut line = String::new();
            line.append(":x: Something went wrong while trying to create the directory `");
            let esc = escape_name(&plan.bucket_path);
            line.append(esc.as_str());
            line.append("`. Please look at the logs");
            assert(line@ =~= msg_create_dir_failed(plan.bucket_path@));
            Some(line)
        },
        MoveProbe::TargetExists => {
            let first = infos.record_duplicate(source_name);
            if first {
                let mut line = String::new();
                line.append(":x: File already present: `");
                let esc = escape_name(source_name);
                line.append(esc.as_str());
                line.append("`");
                assert(line@ =~= msg_duplicate(source_name@));
                Some(line)
            } else {
                None
            }
        },
        MoveProbe::Renamed => {
            let mut line = String::new();
            line.append("Moved `");
            let esc = escape_name(source_name);
            line.append(esc.as_str());
            line.append("` as `");
            let esc2 = escape_name(&plan.target_name);
            line.append(esc2.as_str());
            line.append("` to known folder.");
            assert(line@ =~= msg_moved(source_name@, plan.target_name@));
            Some(line)
        },
        MoveProbe::RenameFailed => {
            let mut line = String::new();
            line.append(":x: Something went wrong while trying to move the file `");
            let esc = escape_name(source_name);
            line.append(esc.as_str());
            line.append("`. Please look at the logs");
            assert(line@ =~= msg_move_failed(source_name@));
            Some(line)
        },
    }
}

} // verus!
