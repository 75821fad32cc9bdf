//! The filename grammar.
//!
//! A release filename is read, case-insensitively, as
//!
//! ```text
//! [bracket tag] name segment [year tag] [season marker] episode marker ... '.' extension
//! ```
//!
//! * the extension is everything after the last dot;
//! * an optional leading `[...]` tag is skipped;
//! * the name segment is the shortest prefix after which a marker
//!   matches;
//! * a season marker is `s` followed by a maximal digit run, optionally
//!   followed by one space or dash;
//! * the episode digits follow the season marker, optionally prefixed
//!   with `e`; without a season marker the `e` prefix is required;
//! * a trailing parenthesised four-digit year tag is dropped from the
//!   name segment;
//! * the name segment is normalized: dots, dashes and commas become
//!   spaces, space runs collapse, and the ends are trimmed.
//!
//! Season or episode numbers too large for `u32` make the whole name
//! unparseable.  A marker written without any separator, such as
//! `s0102`, is not recognized: the season digit run is maximal, so no
//! episode digits remain.

use vstd::prelude::*;

use crate::text::{
    all_digits, chars_to_string, dec_value, is_digit, lower, lower_chars, parse_u32_range,
    str_chars,
};

verus! {

/// A parsed release filename.  The base name is lowercased and
/// normalized; the extension is lowercased.
#[derive(Debug, PartialEq, Eq)]
pub struct ParsedFilename {
    pub base_name: String,
    pub season: Option<u32>,
    pub episode: u32,
    pub extension: String,
}

/// The mathematical shape of a parsed filename.
pub struct ParsedView {
    pub base: Seq<char>,
    pub season: Option<int>,
    pub episode: int,
    pub ext: Seq<char>,
}

impl View for ParsedFilename {
    type V = ParsedView;

    open spec fn view(&self) -> ParsedView {
        ParsedView {
            base: self.base_name@,
            season: match self.season {
                Some(n) => Some(n as int),
                None => None,
            },
            episode: self.episode as int,
            ext: self.extension@,
        }
    }
}

/// Index of the last occurrence of `c`.
pub open spec fn find_last(s: Seq<char>, c: char) -> Option<int>
    decreases s.len(),
{
    if s.len() == 0 {
        None
    } else if s.last() == c {
        Some(s.len() - 1)
    } else {
        find_last(s.drop_last(), c)
    }
}

/// Index of the first occurrence of `c` at or after `from`.
pub open spec fn find_first_from(s: Seq<char>, c: char, from: int) -> Option<int>
    decreases s.len() - from,
{
    if !(0 <= from < s.len()) {
        None
    } else if s[from] == c {
        Some(from)
    } else {
        find_first_from(s, c, from + 1)
    }
}

/// Length of the digit run starting at `i`.
pub open spec fn digit_run_len(s: Seq<char>, i: int) -> int
    decreases s.len() - i,
{
    if !(0 <= i < s.len()) || !is_digit(s[i]) {
        0
    } else {
        1 + digit_run_len(s, i + 1)
    }
}

/// A season/episode marker found in a filename stem: the digit ranges
/// of the season (if any) and of the episode.
pub struct MarkerSpec {
    pub season: Option<(int, int)>,
    pub episode: (int, int),
}

/// The marker match attempted at position `i`, mirroring the grammar:
/// `s<digits>[ -]?[e]?<digits>` or `e<digits>`.
pub open spec fn marker_at(s: Seq<char>, i: int) -> Option<MarkerSpec> {
    if !(0 <= i < s.len()) {
        None
    } else if s[i] == 's' && digit_run_len(s, i + 1) > 0 {
        let a = i + 1 + digit_run_len(s, i + 1);
        let b = if a < s.len() && (s[a] == ' ' || s[a] == '-') {
            a + 1
        } else {
            a
        };
        let c = if b < s.len() && s[b] == 'e' {
            b + 1
        } else {
            b
        };
        if digit_run_len(s, c) > 0 {
            Some(MarkerSpec { season: Some((i + 1, i + 1 + digit_run_len(s, i + 1))), episode: (c, c + digit_run_len(s, c)) })
        } else {
            None
        }
    } else if s[i] == 'e' && digit_run_len(s, i + 1) > 0 {
        Some(MarkerSpec { season: None, episode: (i + 1, i + 1 + digit_run_len(s, i + 1)) })
    } else {
        None
    }
}

/// The first position at or after `from` where a marker matches.
pub open spec fn first_marker(s: Seq<char>, from: int) -> Option<int>
    decreases s.len() - from,
{
    if !(0 <= from < s.len()) {
        None
    } else if marker_at(s, from).is_some() {
        Some(from)
    } else {
        first_marker(s, from + 1)
    }
}

/// Where the name scan starts: after a leading closed bracket tag, if
/// there is one.
pub open spec fn scan_start(stem: Seq<char>) -> int {
    if stem.len() > 0 && stem[0] == '[' {
        match find_first_from(stem, ']', 0) {
            Some(j) => j + 1,
            None => 0,
        }
    } else {
        0
    }
}

/// Dots, dashes and commas turn into spaces.
pub open spec fn blankify(c: char) -> char {
    if c == '.' || c == '-' || c == ',' {
        ' '
    } else {
        c
    }
}

/// One step of normalization over the rest of the characters.
/// `started` says whether anything has been emitted; `pending` whether
/// a separating space is owed before the next word.
pub open spec fn norm_rest(s: Seq<char>, started: bool, pending: bool) -> Seq<char>
    decreases s.len(),
{
    if s.len() == 0 {
        Seq::empty()
    } else {
        let b = blankify(s[0]);
        if b == ' ' {
            norm_rest(s.drop_first(), started, started)
        } else {
            (if pending {
                seq![' ']
            } else {
                Seq::empty()
            }) + seq![b] + norm_rest(s.drop_first(), true, false)
        }
    }
}

/// Full name normalization: blanked separators, collapsed space runs,
/// trimmed ends.
pub open spec fn normalize(s: Seq<char>) -> Seq<char> {
    norm_rest(s, false, false)
}

/// Trailing spaces dropped.
pub open spec fn rtrim_spaces(t: Seq<char>) -> Seq<char>
    decreases t.len(),
{
    if t.len() > 0 && t.last() == ' ' {
        rtrim_spaces(t.drop_last())
    } else {
        t
    }
}

/// A trailing parenthesised four-digit year tag, if present, is
/// removed together with the spaces before the closing name end.
pub open spec fn strip_year(t: Seq<char>) -> Seq<char> {
    let u = rtrim_spaces(t);
    if u.len() >= 6 && u[u.len() - 6] == '(' && u.last() == ')' && all_digits(
        u.subrange(u.len() - 5, u.len() - 1),
    ) {
        u.take(u.len() - 6)
    } else {
        t
    }
}

/// The grammar applied to an already lowercased name.
pub open spec fn parse_lowered(s: Seq<char>) -> Option<ParsedView> {
    match find_last(s, '.') {
        None => None,
        Some(dot) => {
            let stem = s.take(dot);
            let ext = s.skip(dot + 1);
            let start = scan_start(stem);
            match first_marker(stem, start) {
                None => None,
                Some(i) => match marker_at(stem, i) {
                    None => None,
                    Some(mk) => {
                        let ev = dec_value(stem.subrange(mk.episode.0, mk.episode.1));
                        let sv = match mk.season {
                            Some((a, b)) => Some(dec_value(stem.subrange(a, b))),
                            None => None,
                        };
                        if ev > u32::MAX || (match sv {
                            Some(v) => v > u32::MAX,
                            None => false,
                        }) {
                            None
                        } else {
                            Some(
                                ParsedView {
                                    base: normalize(strip_year(stem.subrange(start, i))),
                                    season: sv,
                                    episode: ev,
                                    ext,
                                },
                            )
                        }
                    },
                },
            }
        },
    }
}

/// The grammar applied to a raw name: parsing is case-insensitive.
pub open spec fn spec_parse(name: Seq<char>) -> Option<ParsedView> {
    parse_lowered(lower(name))
}

/// Names equal up to letter case parse identically.  In particular,
/// for any filename the grammar accepts, every casing of it yields the
/// same base name, season, episode and extension.
pub proof fn lemma_parse_case_insensitive(a: Seq<char>, b: Seq<char>)
    requires
        lower(a) == lower(b),
    ensures
        spec_parse(a) == spec_parse(b),
{
}

pub proof fn lemma_find_last_at(s: Seq<char>, c: char, i: int)
    requires
        0 <= i < s.len(),
        s[i] == c,
        forall|j: int| i < j < s.len() ==> s[j] != c,
    ensures
        find_last(s, c) == Some(i),
    decreases s.len(),
{
    if i == s.len() - 1 {
    } else {
        assert(s.last() != c);
        lemma_find_last_at(s.drop_last(), c, i);
    }
}

pub proof fn lemma_find_last_none(s: Seq<char>, c: char)
    requires
        forall|j: int| 0 <= j < s.len() ==> s[j] != c,
    ensures
        find_last(s, c).is_none(),
    decreases s.len(),
{
    if s.len() > 0 {
        lemma_find_last_none(s.drop_last(), c);
    }
}

/// Finds the last occurrence of `c` in `v`, as [`find_last`] does.
pub fn find_last_exec(v: &Vec<char>, c: char) -> (r: Option<usize>)
    ensures
        match r {
            Some(i) => i < v@.len() && find_last(v@, c) == Some(i as int),
            None => find_last(v@, c).is_none(),
        },
{
    let mut i: usize = v.len();
    while i > 0
        invariant
            i <= v@.len(),
            forall|j: int| i <= j < v@.len() ==> v@[j] != c,
        decreases i,
    {
        i = i - 1;
        if v[i] == c {
            proof {
                lemma_find_last_at(v@, c, i as int);
            }
            return Some(i);
        }
    }
    proof {
        lemma_find_last_none(v@, c);
    }
    None
}

pub proof fn lemma_digit_run_all(s: Seq<char>, i: int)
    requires
        0 <= i,
    ensures
        i + digit_run_len(s, i) <= s.len() || digit_run_len(s, i) == 0,
        forall|j: int| i <= j < i + digit_run_len(s, i) ==> is_digit(s[j]),
        digit_run_len(s, i) >= 0,
    decreases s.len() - i,
{
    if 0 <= i < s.len() && is_digit(s[i]) {
        lemma_digit_run_all(s, i + 1);
    }
}

pub proof fn lemma_digit_run_count(s: Seq<char>, i: int, k: int)
    requires
        0 <= i,
        i + k <= s.len(),
        k >= 0,
        forall|j: int| i <= j < i + k ==> is_digit(s[j]),
        i + k == s.len() || !is_digit(s[i + k]),
    ensures
        digit_run_len(s, i) == k,
    decreases k,
{
    if k == 0 {
    } else {
        assert(is_digit(s[i]));
        lemma_digit_run_count(s, i + 1, k - 1);
    }
}

/// Exec counterpart of [`is_digit`].
pub fn is_digit_exec(c: char) -> (r: bool)
    ensures
        r == is_digit(c),
{
    let x = c as u32;
    48 <= x && x <= 57
}

/// Counts the digit run starting at `i`, as [`digit_run_len`] does.
pub fn digit_run_exec(v: &Vec<char>, i: usize) -> (k: usize)
    requires
        i <= v@.len(),
    ensures
        k == digit_run_len(v@, i as int),
        i + k <= v@.len(),
{
    let mut j: usize = i;
    while j < v.len() && is_digit_exec(v[j])
        invariant
            i <= j <= v@.len(),
            forall|t: int| i <= t < j ==> is_digit(v@[t]),
        decreases v@.len() - j,
    {
        j = j + 1;
    }
    proof {
        lemma_digit_run_count(v@, i as int, j - i);
    }
    j - i
}

/// Copies the characters `v[from..to]`.
pub fn sub_vec(v: &Vec<char>, from: usize, to: usize) -> (r: Vec<char>)
    requires
        from <= to <= v@.len(),
    ensures
        r@ == v@.subrange(from as int, to as int),
{
    let mut r: Vec<char> = Vec::new();
    let mut i: usize = from;
    while i < to
        invariant
            from <= i <= to <= v@.len(),
            r@ == v@.subrange(from as int, i as int),
        decreases to - i,
    {
        r.push(v[i]);
        i = i + 1;
        assert(r@ =~= v@.subrange(from as int, i as int));
    }
    r
}

pub proof fn lemma_find_first_at(s: Seq<char>, c: char, from: int, i: int)
    requires
        0 <= from <= i < s.len(),
        s[i] == c,
        forall|j: int| from <= j < i ==> s[j] != c,
    ensures
        find_first_from(s, c, from) == Some(i),
    decreases i - from,
{
    if from < i {
        lemma_find_first_at(s, c, from + 1, i);
    }
}

pub proof fn lemma_find_first_none(s: Seq<char>, c: char, from: int)
    requires
        0 <= from,
        forall|j: int| from <= j < s.len() ==> s[j] != c,
    ensures
        find_first_from(s, c, from).is_none(),
    decreases s.len() - from,
{
    if from < s.len() {
        lemma_find_first_none(s, c, from + 1);
    }
}

/// Finds the first occurrence of `c` at or after `from`, as
/// [`find_first_from`] does.
pub fn find_first_exec(v: &Vec<char>, c: char, from: usize) -> (r: Option<usize>)
    ensures
        match r {
            Some(i) => from <= i < v@.len() && find_first_from(v@, c, from as int) == Some(i as int),
            None => find_first_from(v@, c, from as int).is_none(),
        },
{
    let mut i: usize = from;
    while i < v.len()
        invariant
            from <= i,
            forall|j: int| from <= j < i ==> j < v@.len() && v@[j] != c,
        decreases v@.len() - i,
    {
        if v[i] == c {
            proof {
                lemma_find_first_at(v@, c, from as int, i as int);
            }
            return Some(i);
        }
        i = i + 1;
    }
    proof {
        lemma_find_first_none(v@, c, from as int);
    }
    None
}

/// Where the name scan starts, as [`scan_start`] says.
pub fn scan_start_exec(stem: &Vec<char>) -> (r: usize)
    ensures
        r as int == scan_start(stem@),
        r <= stem@.len(),
{
    if stem.len() > 0 && stem[0] == '[' {
        match find_first_exec(stem, ']', 0) {
            Some(j) => j + 1,
            None => 0,
        }
    } else {
        0
    }
}

/// A marker's digit ranges with executable indices.
pub struct MarkerRanges {
    pub season: Option<(usize, usize)>,
    pub episode: (usize, usize),
}

impl MarkerRanges {
    /// The [`MarkerSpec`] these ranges stand for.
    pub open spec fn view(self) -> MarkerSpec {
        MarkerSpec {
            season: match self.season {
                Some((a, b)) => Some((a as int, b as int)),
                None => None,
            },
            episode: (self.episode.0 as int, self.episode.1 as int),
        }
    }
}

/// Both digit ranges of a matched marker lie inside the stem, are
/// nonempty, and hold digits only.
pub proof fn lemma_marker_ranges(s: Seq<char>, i: int)
    requires
        marker_at(s, i).is_some(),
    ensures
        ({
            let mk = match marker_at(s, i) {
                Some(m) => m,
                None => arbitrary(),
            };
            &&& 0 <= mk.episode.0 < mk.episode.1 <= s.len()
            &&& all_digits(s.subrange(mk.episode.0, mk.episode.1))
            &&& match mk.season {
                Some((a, b)) => 0 <= a < b <= s.len() && all_digits(s.subrange(a, b)),
                None => true,
            }
        }),
{
    let mk = match marker_at(s, i) {
        Some(m) => m,
        None => arbitrary(),
    };
    lemma_digit_run_all(s, i + 1);
    if s[i] == 's' && digit_run_len(s, i + 1) > 0 {
        let a = i + 1 + digit_run_len(s, i + 1);
        let b = if a < s.len() && (s[a] == ' ' || s[a] == '-') {
            a + 1
        } else {
            a
        };
        let c = if b < s.len() && s[b] == 'e' {
            b + 1
        } else {
            b
        };
        lemma_digit_run_all(s, c);
        assert(all_digits(s.subrange(mk.episode.0, mk.episode.1)));
        assert(all_digits(s.subrange(i + 1, a)));
    } else {
        assert(all_digits(s.subrange(i + 1, i + 1 + digit_run_len(s, i + 1))));
    }
}

/// Tries the marker match at position `i`, as [`marker_at`] says.
pub fn marker_at_exec(stem: &Vec<char>, i: usize) -> (r: Option<MarkerRanges>)
    requires
        i < stem@.len(),
    ensures
        match r {
            Some(m) => marker_at(stem@, i as int) == Some(m.view()),
            None => marker_at(stem@, i as int).is_none(),
        },
{
    let n = stem.len();
    assert(i < n);
    if stem[i] == 's' {
        let k1 = digit_run_exec(stem, i + 1);
        if k1 > 0 {
            let a = i + 1 + k1;
            let b = if a < stem.len() && (stem[a] == ' ' || stem[a] == '-') {
                a + 1
            } else {
                a
            };
            let c = if b < stem.len() && stem[b] == 'e' {
                b + 1
            } else {
                b
            };
            let k2 = digit_run_exec(stem, c);
            if k2 > 0 {
                return Some(MarkerRanges { season: Some((i + 1, a)), episode: (c, c + k2) });
            }
        }
        return None;
    }
    if stem[i] == 'e' {
        let k = digit_run_exec(stem, i + 1);
        if k > 0 {
            return Some(MarkerRanges { season: None, episode: (i + 1, i + 1 + k) });
        }
    }
    None
}

pub proof fn lemma_first_marker_at(s: Seq<char>, from: int, i: int)
    requires
        0 <= from <= i < s.len(),
        marker_at(s, i).is_some(),
        forall|j: int| from <= j < i ==> marker_at(s, j).is_none(),
    ensures
        first_marker(s, from) == Some(i),
    decreases i - from,
{
    if from < i {
        lemma_first_marker_at(s, from + 1, i);
    }
}

pub proof fn lemma_first_marker_none(s: Seq<char>, from: int)
    requires
        0 <= from,
        forall|j: int| from <= j < s.len() ==> marker_at(s, j).is_none(),
    ensures
        first_marker(s, from).is_none(),
    decreases s.len() - from,
{
    if from < s.len() {
        lemma_first_marker_none(s, from + 1);
    }
}

/// Finds the first marker at or after `from` and its ranges.
pub fn first_marker_exec(stem: &Vec<char>, from: usize) -> (r: Option<(usize, MarkerRanges)>)
    ensures
        match r {
            Some((i, m)) => from <= i < stem@.len() && first_marker(stem@, from as int) == Some(
                i as int,
            ) && marker_at(stem@, i as int) == Some(m.view()),
            None => first_marker(stem@, from as int).is_none(),
        },
{
    let mut i: usize = from;
    while i < stem.len()
        invariant
            from <= i,
            forall|j: int| from <= j < i ==> marker_at(stem@, j).is_none(),
        decreases stem@.len() - i,
    {
        match marker_at_exec(stem, i) {
            Some(m) => {
                proof {
                    lemma_first_marker_at(stem@, from as int, i as int);
                }
                return Some((i, m));
            },
            None => {},
        }
        i = i + 1;
    }
    proof {
        lemma_first_marker_none(stem@, from as int);
    }
    None
}

/// Exec counterpart of [`blankify`].
pub fn blankify_exec(c: char) -> (r: char)
    ensures
        r == blankify(c),
{
    if c == '.' || c == '-' || c == ',' {
        ' '
    } else {
        c
    }
}

/// Normalizes a name segment, as [`normalize`] says.
pub fn normalize_chars(v: &Vec<char>) -> (r: Vec<char>)
    ensures
        r@ == normalize(v@),
{
    let mut out: Vec<char> = Vec::new();
    let mut pending: bool = false;
    let mut i: usize = 0;
    proof {
        assert(v@.skip(0) =~= v@);
        assert(out@ + norm_rest(v@, false, false) =~= norm_rest(v@, false, false));
    }
    while i < v.len()
        invariant
            i <= v@.len(),
            pending ==> out@.len() > 0,
            normalize(v@) == out@ + norm_rest(v@.skip(i as int), out@.len() > 0, pending),
        decreases v@.len() - i,
    {
        let ghost pre = v@.skip(i as int);
        let ghost out0 = out@;
        let ghost pending0 = pending;
        let b = blankify_exec(v[i]);
        assert(pre[0] == v@[i as int]);
        if b == ' ' {
            if out.len() > 0 {
                pending = true;
            }
        } else {
            if pending {
                out.push(' ');
                pending = false;
            }
            out.push(b);
        }
        i = i + 1;
        proof {
            let rest = v@.skip(i as int);
            assert(pre.drop_first() =~= rest);
            if blankify(pre[0]) == ' ' {
                assert(norm_rest(pre, out0.len() > 0, pending0) == norm_rest(
                    rest,
                    out0.len() > 0,
                    out0.len() > 0,
                ));
                assert(out@ + norm_rest(rest, out@.len() > 0, pending) =~= out0 + norm_rest(
                    pre,
                    out0.len() > 0,
                    pending0,
                ));
            } else {
                let emitted: Seq<char> = if pending0 {
                    seq![' ']
                } else {
                    Seq::empty()
                };
                assert(norm_rest(pre, out0.len() > 0, pending0) == emitted + seq![blankify(pre[0])]
                    + norm_rest(rest, true, false));
                assert(out@ =~= out0 + emitted + seq![blankify(pre[0])]);
                assert(out@ + norm_rest(rest, out@.len() > 0, pending) =~= out0 + norm_rest(
                    pre,
                    out0.len() > 0,
                    pending0,
                ));
            }
        }
    }
    proof {
        assert(v@.skip(i as int) =~= Seq::<char>::empty());
        assert(normalize(v@) =~= out@);
    }
    out
}

pub proof fn lemma_rtrim_fixed(t: Seq<char>)
    requires
        t.len() == 0 || t.last() != ' ',
    ensures
        rtrim_spaces(t) == t,
{
}

/// Whether `v[from..to]` holds digits only.
pub fn all_digits_range(v: &Vec<char>, from: usize, to: usize) -> (r: bool)
    requires
        from <= to <= v@.len(),
    ensures
        r == all_digits(v@.subrange(from as int, to as int)),
{
    let ghost sub = v@.subrange(from as int, to as int);
    let mut k: usize = from;
    while k < to
        invariant
            from <= k <= to <= v@.len(),
            sub == v@.subrange(from as int, to as int),
            forall|x: int| from <= x < k ==> is_digit(v@[x]),
        decreases to - k,
    {
        if !is_digit_exec(v[k]) {
            assert(sub[k - from] == v@[k as int]);
            return false;
        }
        k = k + 1;
    }
    assert forall|x: int| 0 <= x < sub.len() implies is_digit(#[trigger] sub[x]) by {
        assert(sub[x] == v@[from + x]);
    }
    true
}

/// Drops a trailing year tag, as [`strip_year`] says.
pub fn strip_year_exec(t: &Vec<char>) -> (r: Vec<char>)
    ensures
        r@ == strip_year(t@),
{
    let mut j: usize = t.len();
    proof {
        assert(t@.take(t@.len() as int) =~= t@);
    }
    while j > 0 && t[j - 1] == ' '
        invariant
            j <= t@.len(),
            rtrim_spaces(t@) == rtrim_spaces(t@.take(j as int)),
        decreases j,
    {
        proof {
            let u = t@.take(j as int);
            assert(u.last() == ' ');
            assert(u.drop_last() =~= t@.take(j - 1));
        }
        j = j - 1;
    }
    proof {
        let u = t@.take(j as int);
        assert(u.len() == 0 || u.last() != ' ');
        lemma_rtrim_fixed(u);
    }
    let ghost u = rtrim_spaces(t@);
    assert(u == t@.take(j as int));
    if j >= 6 && t[j - 6] == '(' && t[j - 1] == ')' {
        proof {
            assert(u.subrange(u.len() - 5, u.len() - 1) =~= t@.subrange(j - 5, j - 1));
        }
        if all_digits_range(t, j - 5, j - 1) {
            let r = sub_vec(t, 0, j - 6);
            assert(r@ =~= u.take(u.len() - 6));
            return r;
        }
        return sub_vec(t, 0, t.len());
    }
    sub_vec(t, 0, t.len())
}

/// Parses a release filename, as [`spec_parse`] says: the grammar is
/// applied to the lowercased name; `None` on any name the grammar does
/// not accept.
pub fn parse_filename(name: &str) -> (r: Option<ParsedFilename>)
    ensures
        match r {
            Some(p) => spec_parse(name@) == Some(p@),
            None => spec_parse(name@).is_none(),
        },
{
    let raw = str_chars(name);
    let low = lower_chars(&raw);
    let dot = match find_last_exec(&low, '.') {
        None => {
            return None;
        },
        Some(d) => d,
    };
    let stem = sub_vec(&low, 0, dot);
    let ext = sub_vec(&low, dot + 1, low.len());
    assert(stem@ == lower(name@).take(dot as int));
    let start = scan_start_exec(&stem);
    let (mpos, mk) = match first_marker_exec(&stem, start) {
        None => {
            return None;
        },
        Some(x) => x,
    };
    proof {
        lemma_marker_ranges(stem@, mpos as int);
    }
    let season = match mk.season {
        Some((a, b)) => {
            match parse_u32_range(&stem, a, b) {
                None => {
                    return None;
                },
                Some(n) => Some(n),
            }
        },
        None => None,
    };
    let episode = match parse_u32_range(&stem, mk.episode.0, mk.episode.1) {
        None => {
            return None;
        },
        Some(n) => n,
    };
    let seg = sub_vec(&stem, start, mpos);
    let stripped = strip_year_exec(&seg);
    let normd = normalize_chars(&stripped);
    let p = ParsedFilename {
        base_name: chars_to_string(&normd),
        season,
        episode,
        extension: chars_to_string(&ext),
    };
    Some(p)
}

} // verus!
