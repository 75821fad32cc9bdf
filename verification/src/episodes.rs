//! Missing-episode resolution.  When a filename carries no season,
//! the watcher asks which single episode of the series is missing on
//! disk.  The metadata lookup itself happens outside; this module
//! holds the decision policy over plain per-season facts.
//!
//! Policy, over the seasons in season-number order: trailing seasons
//! with zero aired episodes are dropped as unreleased; every remaining
//! season but one must be complete (file count equal to aired count);
//! the one incomplete season must be short exactly one file, and the
//! episode numbered by its aired count must be the one without a
//! file.  Anything else gives no unambiguous answer.

use vstd::prelude::*;

verus! {

/// One season of a series: its number, how many episodes have aired,
/// and the episode numbers that have a file on disk.
#[derive(Debug)]
pub struct SeasonInfo {
    pub number: u32,
    pub aired: u32,
    pub present: Vec<u32>,
}

/// Every aired episode of the season has a file.
pub open spec fn season_complete(s: SeasonInfo) -> bool {
    s.present@.len() == s.aired
}

/// Exactly one file short, and the episode numbered by the aired
/// count is the one without a file.
pub open spec fn season_single_gap(s: SeasonInfo) -> bool {
    s.present@.len() + 1 == s.aired && !s.present@.contains(s.aired)
}

/// The seasons with the trailing zero-aired (unreleased) ones
/// dropped.
pub open spec fn spec_trim(ss: Seq<SeasonInfo>) -> Seq<SeasonInfo>
    decreases ss.len(),
{
    if ss.len() > 0 && ss.last().aired == 0 {
        spec_trim(ss.drop_last())
    } else {
        ss
    }
}

/// `i` is the only incomplete season.
pub open spec fn lone_incomplete(t: Seq<SeasonInfo>, i: int) -> bool {
    &&& 0 <= i < t.len()
    &&& !season_complete(t[i])
    &&& forall|j: int| 0 <= j < t.len() && j != i ==> season_complete(#[trigger] t[j])
}

/// The single unambiguous missing episode, if there is one: the only
/// incomplete season must be short exactly one file, and the answer
/// is that season's number with the episode numbered by its aired
/// count.
pub open spec fn spec_resolve_missing(ss: Seq<SeasonInfo>) -> Option<(u32, u32)> {
    let t = spec_trim(ss);
    if exists|i: int| lone_incomplete(t, i) && season_single_gap(t[i]) {
        let i = choose|i: int| lone_incomplete(t, i) && season_single_gap(t[i]);
        Some((t[i].number, t[i].aired))
    } else {
        None
    }
}

/// Whether `v` holds `x`.
pub fn contains_u32(v: &Vec<u32>, x: u32) -> (r: bool)
    ensures
        r == v@.contains(x),
{
    let mut i: usize = 0;
    while i < v.len()
        invariant
            i <= v@.len(),
            forall|j: int| 0 <= j < i ==> v@[j] != x,
        decreases v@.len() - i,
    {
        if v[i] == x {
            return true;
        }
        i = i + 1;
    }
    assert(!v@.contains(x));
    false
}

/// Finds the single unambiguous missing episode, as
/// [`spec_resolve_missing`] says.  The caller hands the seasons in
/// season-number order; a metadata lookup that failed is simply not
/// called through here, and counts as no answer.
pub fn resolve_missing_episode(seasons: &Vec<SeasonInfo>) -> (r: Option<(u32, u32)>)
    ensures
        r == spec_resolve_missing(seasons@),
{
    let ghost ss = seasons@;
    let mut j: usize = seasons.len();
    proof {
        assert(ss.take(ss.len() as int) =~= ss);
    }
    while j > 0 && seasons[j - 1].aired == 0
        invariant
            j <= ss.len(),
            ss == seasons@,
            spec_trim(ss) == spec_trim(ss.take(j as int)),
        decreases j,
    {
        proof {
            let u = ss.take(j as int);
            assert(u.last() == ss[j - 1]);
            assert(u.drop_last() =~= ss.take(j - 1));
        }
        j = j - 1;
    }
    proof {
        let u = ss.take(j as int);
        assert(u.len() == 0 || u.last().aired != 0);
        assert(spec_trim(u) == u);
    }
    let ghost t = spec_trim(ss);
    assert(t == ss.take(j as int));
    let mut incomplete: usize = 0;
    let mut idx: usize = 0;
    let mut idx2: usize = 0;
    let mut i: usize = 0;
    while i < j
        invariant
            i <= j <= ss.len(),
            ss == seasons@,
            t == ss.take(j as int),
            t.len() == j,
            incomplete == 0 ==> forall|k: int| 0 <= k < i ==> season_complete(#[trigger] t[k]),
            incomplete == 1 ==> idx < i && !season_complete(t[idx as int]) && (forall|k: int|
                0 <= k < i && k != idx ==> season_complete(#[trigger] t[k])),
            incomplete >= 2 ==> idx < idx2 < i && !season_complete(t[idx as int])
                && !season_complete(t[idx2 as int]),
        decreases j - i,
    {
        assert(t[i as int] == ss[i as int]);
        let complete = seasons[i].present.len() == seasons[i].aired as usize;
        if !complete {
            assert(!season_complete(t[i as int]));
            if incomplete == 0 {
                idx = i;
            } else if incomplete == 1 {
                idx2 = i;
            }
            if incomplete < 2 {
                incomplete = incomplete + 1;
            }
        } else {
            assert(season_complete(t[i as int]));
        }
        i = i + 1;
    }
    if incomplete == 0 {
        proof {
            if exists|k: int| lone_incomplete(t, k) && season_single_gap(t[k]) {
                let k = choose|k: int| lone_incomplete(t, k) && season_single_gap(t[k]);
                assert(season_complete(t[k]));
                assert(false);
            }
        }
        return None;
    }
    if incomplete >= 2 {
        proof {
            if exists|k: int| lone_incomplete(t, k) && season_single_gap(t[k]) {
                let k = choose|k: int| lone_incomplete(t, k) && season_single_gap(t[k]);
                if k != idx as int {
                    assert(season_complete(t[idx as int]));
                } else {
                    assert(season_complete(t[idx2 as int]));
                }
                assert(false);
            }
        }
        return None;
    }
    let s = &seasons[idx];
    assert(t[idx as int] == ss[idx as int]);
    let a = s.aired as usize;
    let single = a > 0 && s.present.len() == a - 1 && !contains_u32(&s.present, s.aired);
    if single {
        proof {
            assert(season_single_gap(t[idx as int]));
            assert(lone_incomplete(t, idx as int));
            assert(exists|k: int| lone_incomplete(t, k) && season_single_gap(#[trigger] t[k])) by {
                assert(lone_incomplete(t, idx as int) && season_single_gap(t[idx as int]));
            }
            let k = choose|k: int| lone_incomplete(t, k) && season_single_gap(t[k]);
            if k != idx as int {
                assert(season_complete(t[k]));
                assert(false);
            }
        }
        Some((s.number, s.aired))
    } else {
        proof {
            if exists|k: int| lone_incomplete(t, k) && season_single_gap(t[k]) {
                let k = choose|k: int| lone_incomplete(t, k) && season_single_gap(t[k]);
                if k != idx as int {
                    assert(season_complete(t[idx as int]));
                    assert(false);
                }
                assert(season_single_gap(t[idx as int]));
                assert(false);
            }
        }
        None
    }
}

} // verus!
