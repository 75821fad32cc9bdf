//! The same-cycle redirect for hoster placeholder downloads.  A file
//! downloaded from the VOE hoster arrives under a placeholder name;
//! the real name stands in the title of the hoster's embed page.  The
//! page fetch and the rename happen outside; recognizing a
//! placeholder, naming the remote id to ask for, and reading the real
//! name out of the page body are decided here.  When a redirect
//! happens, the pass is re-run immediately.

use vstd::prelude::*;

use crate::parse::{rtrim_spaces, sub_vec};
use crate::text::{chars_to_string, str_chars};

verus! {

/// How often `c` occurs.
pub open spec fn count_char(s: Seq<char>, c: char) -> int
    decreases s.len(),
{
    if s.len() == 0 {
        0
    } else {
        (if s[0] == c {
            1int
        } else {
            0int
        }) + count_char(s.drop_first(), c)
    }
}

pub open spec fn has_prefix(s: Seq<char>, p: Seq<char>) -> bool {
    s.len() >= p.len() && s.subrange(0, p.len() as int) == p
}

pub open spec fn has_suffix(s: Seq<char>, p: Seq<char>) -> bool {
    s.len() >= p.len() && s.subrange(s.len() - p.len(), s.len() as int) == p
}

/// A VOE placeholder name: `voe_` in front, no space, exactly one
/// dot, and the `.mp4` ending.
pub open spec fn spec_is_voe(s: Seq<char>) -> bool {
    &&& has_prefix(s, "voe_"@)
    &&& forall|i: int| 0 <= i < s.len() ==> s[i] != ' '
    &&& count_char(s, '.') == 1
    &&& has_suffix(s, ".mp4"@)
}

/// Whether the filename is a VOE placeholder, as [`spec_is_voe`]
/// says.
pub fn is_voe_placeholder(name: &String) -> (r: bool)
    ensures
        r == spec_is_voe(name@),
{
    let v = str_chars(name.as_str());
    let n = v.len();
    proof {
        reveal_strlit("voe_");
        reveal_strlit(".mp4");
    }
    if n < 4 {
        return false;
    }
    let pre = v[0] == 'v' && v[1] == 'o' && v[2] == 'e' && v[3] == '_';
    proof {
        if pre {
            assert(v@.subrange(0, 4) =~= "voe_"@);
        } else {
            assert(v@.subrange(0, 4) != "voe_"@) by {
                if v@.subrange(0, 4) == "voe_"@ {
                    assert(v@.subrange(0, 4)[0] == 'v');
                    assert(v@.subrange(0, 4)[1] == 'o');
                    assert(v@.subrange(0, 4)[2] == 'e');
                    assert(v@.subrange(0, 4)[3] == '_');
                }
            }
        }
    }
    if !pre {
        return false;
    }
    let suf = v[n - 4] == '.' && v[n - 3] == 'm' && v[n - 2] == 'p' && v[n - 1] == '4';
    proof {
        if suf {
            assert(v@.subrange(n - 4, n as int) =~= ".mp4"@);
        } else {
            assert(v@.subrange(n - 4, n as int) != ".mp4"@) by {
                if v@.subrange(n - 4, n as int) == ".mp4"@ {
                    assert(v@.subrange(n - 4, n as int)[0] == '.');
                    assert(v@.subrange(n - 4, n as int)[1] == 'm');
                    assert(v@.subrange(n - 4, n as int)[2] == 'p');
                    assert(v@.subrange(n - 4, n as int)[3] == '4');
                }
            }
        }
    }
    if !suf {
        return false;
    }
    let mut dots: usize = 0;
    let mut spaces = false;
    let mut i: usize = 0;
    proof {
        assert(v@.skip(0) =~= v@);
    }
    while i < n
        invariant
            i <= n,
            n == v@.len(),
            dots <= i,
            dots + count_char(v@.skip(i as int), '.') == count_char(v@, '.'),
            spaces == !(forall|j: int| 0 <= j < i ==> v@[j] != ' '),
        decreases n - i,
    {
        let ghost pre_s = v@.skip(i as int);
        assert(pre_s[0] == v@[i as int]);
        if v[i] == '.' {
            dots = dots + 1;
        }
        if v[i] == ' ' {
            spaces = true;
        }
        i = i + 1;
        proof {
            assert(pre_s.drop_first() =~= v@.skip(i as int));
        }
    }
    proof {
        assert(v@.skip(i as int) =~= Seq::<char>::empty());
    }
    !spaces && dots == 1
}

/// The remote id a placeholder asks the hoster about: the name with
/// the `voe_` front and the `.mp4` ending cut off.
pub fn voe_remote_id(name: &String) -> (r: String)
    requires
        spec_is_voe(name@),
    ensures
        r@ == name@.subrange(4, name@.len() - 4),
{
    let v = str_chars(name.as_str());
    proof {
        reveal_strlit("voe_");
        reveal_strlit(".mp4");
        assert(v@.len() >= 8) by {
            if v@.len() < 8 {
                let k = v@.len() - 4;
                assert(0 <= k < 4);
                assert(v@.subrange(v@.len() - 4, v@.len() as int)[0] == '.');
                assert(v@[k] == '.');
                assert(v@.subrange(0, 4)[k] == v@[k]);
                assert("voe_"@[0] == 'v' && "voe_"@[1] == 'o' && "voe_"@[2] == 'e' && "voe_"@[3]
                    == '_');
                assert(false);
            }
        }
    }
    let n = v.len();
    let r = sub_vec(&v, 4, n - 4);
    chars_to_string(&r)
}

/// Whether `pat` stands at position `i`.
pub open spec fn sub_at(s: Seq<char>, pat: Seq<char>, i: int) -> bool {
    0 <= i && i + pat.len() <= s.len() && s.subrange(i, i + pat.len()) == pat
}

/// The first position at or after `from` where `pat` stands.
pub open spec fn first_sub_from(s: Seq<char>, pat: Seq<char>, from: int) -> Option<int>
    decreases s.len() + 1 - from,
{
    if !(0 <= from && from + pat.len() <= s.len()) {
        None
    } else if sub_at(s, pat, from) {
        Some(from)
    } else {
        first_sub_from(s, pat, from + 1)
    }
}

/// The last position before `upto` where `pat` stands.
pub open spec fn last_sub_before(s: Seq<char>, pat: Seq<char>, upto: int) -> Option<int>
    decreases upto,
{
    if upto <= 0 {
        None
    } else if sub_at(s, pat, upto - 1) {
        Some(upto - 1)
    } else {
        last_sub_before(s, pat, upto - 1)
    }
}

/// The last position before `upto` holding the character `c`.
pub open spec fn last_char_before(s: Seq<char>, c: char, upto: int) -> Option<int>
    decreases upto,
{
    if upto <= 0 || upto > s.len() {
        None
    } else if s[upto - 1] == c {
        Some(upto - 1)
    } else {
        last_char_before(s, c, upto - 1)
    }
}

/// Whether `pat` stands at `i`, as [`sub_at`] says.
pub fn sub_at_exec(v: &Vec<char>, pat: &Vec<char>, i: usize) -> (r: bool)
    requires
        i + pat@.len() <= v@.len(),
    ensures
        r == sub_at(v@, pat@, i as int),
{
    let m = pat.len();
    let n = v.len();
    assert(i + m <= n);
    let mut k: usize = 0;
    while k < m
        invariant
            k <= m,
            m == pat@.len(),
            n == v@.len(),
            i + m <= n,
            forall|j: int| 0 <= j < k ==> v@[i + j] == pat@[j],
        decreases m - k,
    {
        if v[i + k] != pat[k] {
            assert(v@.subrange(i as int, i + m) != pat@) by {
                if v@.subrange(i as int, i + m) == pat@ {
                    assert(v@.subrange(i as int, i + m)[k as int] == pat@[k as int]);
                }
            }
            return false;
        }
        k = k + 1;
    }
    assert(v@.subrange(i as int, i + m) =~= pat@);
    true
}

proof fn lemma_first_sub_at(s: Seq<char>, pat: Seq<char>, from: int, i: int)
    requires
        0 <= from <= i,
        i + pat.len() <= s.len(),
        sub_at(s, pat, i),
        forall|j: int| from <= j < i ==> !sub_at(s, pat, j),
    ensures
        first_sub_from(s, pat, from) == Some(i),
    decreases i - from,
{
    if from < i {
        lemma_first_sub_at(s, pat, from + 1, i);
    }
}

proof fn lemma_first_sub_none(s: Seq<char>, pat: Seq<char>, from: int)
    requires
        0 <= from,
    ensures
        (forall|j: int| from <= j ==> !sub_at(s, pat, j)) ==> first_sub_from(
            s,
            pat,
            from,
        ).is_none(),
    decreases s.len() + 1 - from,
{
    if 0 <= from && from + pat.len() <= s.len() {
        lemma_first_sub_none(s, pat, from + 1);
    }
}

/// Finds the first stand of `pat` at or after `from`, as
/// [`first_sub_from`] says.
pub fn find_first_sub(v: &Vec<char>, pat: &Vec<char>, from: usize) -> (r: Option<usize>)
    requires
        pat@.len() >= 1,
    ensures
        match r {
            Some(i) => from <= i && i + pat@.len() <= v@.len() && first_sub_from(
                v@,
                pat@,
                from as int,
            ) == Some(i as int),
            None => first_sub_from(v@, pat@, from as int).is_none(),
        },
{
    let n = v.len();
    let m = pat.len();
    if from > n || m > n - from {
        proof {
            lemma_first_sub_none(v@, pat@, from as int);
        }
        return None;
    }
    let mut i: usize = from;
    while i <= n - m
        invariant
            from <= i,
            i <= n - m + 1,
            1 <= m <= n,
            from <= n,
            n == v@.len(),
            m == pat@.len(),
            forall|j: int| from <= j < i ==> !sub_at(v@, pat@, j),
        decreases n - m - i + 1,
    {
        if sub_at_exec(v, pat, i) {
            proof {
                lemma_first_sub_at(v@, pat@, from as int, i as int);
            }
            return Some(i);
        }
        i = i + 1;
    }
    proof {
        assert forall|j: int| from <= j implies !sub_at(v@, pat@, j) by {
            if j < i {
            } else {
                assert(j + pat@.len() > v@.len());
            }
        }
        lemma_first_sub_none(v@, pat@, from as int);
    }
    None
}

proof fn lemma_last_sub_at(s: Seq<char>, pat: Seq<char>, upto: int, i: int)
    requires
        0 <= i < upto,
        sub_at(s, pat, i),
        forall|j: int| i < j < upto ==> !sub_at(s, pat, j),
    ensures
        last_sub_before(s, pat, upto) == Some(i),
    decreases upto - i,
{
    if i < upto - 1 {
        lemma_last_sub_at(s, pat, upto - 1, i);
    }
}

proof fn lemma_last_sub_none(s: Seq<char>, pat: Seq<char>, upto: int)
    requires
        forall|j: int| 0 <= j < upto ==> !sub_at(s, pat, j),
    ensures
        last_sub_before(s, pat, upto).is_none(),
    decreases upto,
{
    if upto > 0 {
        lemma_last_sub_none(s, pat, upto - 1);
    }
}

/// Finds the last stand of `pat`, as [`last_sub_before`] over the
/// whole text says.
pub fn find_last_sub(v: &Vec<char>, pat: &Vec<char>) -> (r: Option<usize>)
    requires
        pat@.len() >= 1,
    ensures
        match r {
            Some(i) => i + pat@.len() <= v@.len() && last_sub_before(v@, pat@, v@.len() as int + 1)
                == Some(i as int),
            None => last_sub_before(v@, pat@, v@.len() as int + 1).is_none(),
        },
{
    let n = v.len();
    let m = pat.len();
    if m > n {
        proof {
            assert forall|j: int| 0 <= j < v@.len() as int + 1 implies !sub_at(v@, pat@, j) by {}
            lemma_last_sub_none(v@, pat@, v@.len() as int + 1);
        }
        return None;
    }
    let mut i: usize = n - m + 1;
    while i > 0
        invariant
            i <= n - m + 1,
            m <= n,
            n == v@.len(),
            m == pat@.len(),
            forall|j: int| i <= j < v@.len() as int + 1 ==> !sub_at(v@, pat@, j),
        decreases i,
    {
        i = i - 1;
        if sub_at_exec(v, pat, i) {
            proof {
                lemma_last_sub_at(v@, pat@, v@.len() as int + 1, i as int);
            }
            return Some(i);
        }
    }
    proof {
        lemma_last_sub_none(v@, pat@, v@.len() as int + 1);
    }
    None
}

/// Leading spaces dropped.
pub open spec fn ltrim_spaces(s: Seq<char>) -> Seq<char>
    decreases s.len(),
{
    if s.len() > 0 && s[0] == ' ' {
        ltrim_spaces(s.drop_first())
    } else {
        s
    }
}

/// Spaces dropped at both ends.
pub open spec fn trim_spaces(s: Seq<char>) -> Seq<char> {
    rtrim_spaces(ltrim_spaces(s))
}

/// Trims spaces off both ends, as [`trim_spaces`] says.
pub fn trim_spaces_exec(v: &Vec<char>) -> (r: Vec<char>)
    ensures
        r@ == trim_spaces(v@),
{
    let n = v.len();
    let mut a: usize = 0;
    proof {
        assert(v@.skip(0) =~= v@);
    }
    while a < n && v[a] == ' '
        invariant
            a <= n,
            n == v@.len(),
            ltrim_spaces(v@) == ltrim_spaces(v@.skip(a as int)),
        decreases n - a,
    {
        proof {
            let u = v@.skip(a as int);
            assert(u[0] == ' ');
            assert(u.drop_first() =~= v@.skip(a + 1));
        }
        a = a + 1;
    }
    proof {
        let u = v@.skip(a as int);
        assert(u.len() == 0 || u[0] != ' ');
        assert(ltrim_spaces(u) == u);
    }
    let ghost lt = ltrim_spaces(v@);
    assert(lt == v@.skip(a as int));
    let mut b: usize = n;
    proof {
        assert(lt =~= v@.skip(a as int));
        assert(v@.skip(a as int).take(n - a) =~= v@.skip(a as int));
        assert(rtrim_spaces(lt) == rtrim_spaces(lt.take(n - a)));
    }
    while b > a && v[b - 1] == ' '
        invariant
            a <= b <= n,
            n == v@.len(),
            lt == v@.skip(a as int),
            rtrim_spaces(lt) == rtrim_spaces(lt.take(b - a)),
        decreases b,
    {
        proof {
            let u = lt.take(b - a);
            assert(u.last() == v@[b - 1]);
            assert(u.drop_last() =~= lt.take(b - 1 - a));
        }
        b = b - 1;
    }
    proof {
        let u = lt.take(b - a);
        assert(u.len() == 0 || u.last() != ' ');
        assert(rtrim_spaces(u) == u);
    }
    let r = sub_vec(v, a, b);
    proof {
        assert(r@ =~= lt.take(b - a));
    }
    r
}

/// The real name the hoster's page title names for the placeholder,
/// read from one page line: the text between the first `Watch ` and
/// the last hoster-title tail, which must end in `.mp4`, trimmed.
pub open spec fn spec_extract_title(line: Seq<char>) -> Option<Seq<char>> {
    match first_sub_from(line, "Watch "@, 0) {
        None => None,
        Some(w) => match last_sub_before(
            line,
            " - VOE | Content Delivery Network (CDN) & Video Cloud"@,
            line.len() as int + 1,
        ) {
            None => None,
            Some(j) => if j >= w + 6 && has_suffix(line.subrange(w + 6, j), ".mp4"@) {
                Some(trim_spaces(line.subrange(w + 6, j)))
            } else {
                None
            },
        },
    }
}

/// The title line of a page body: the line holding the first
/// `<title>` tag.
pub open spec fn spec_title_line(body: Seq<char>) -> Option<Seq<char>> {
    match first_sub_from(body, "<title>"@, 0) {
        None => None,
        Some(p) => {
            let start = match last_char_before(body, '\n', p) {
                Some(k) => k + 1,
                None => 0,
            };
            let end = match crate::parse::find_first_from(body, '\n', p) {
                Some(k) => k,
                None => body.len() as int,
            };
            Some(body.subrange(start, end))
        },
    }
}

/// The real name the page body carries, if its title line matches.
pub open spec fn spec_voe_title(body: Seq<char>) -> Option<Seq<char>> {
    match spec_title_line(body) {
        None => None,
        Some(line) => spec_extract_title(line),
    }
}

proof fn lemma_last_char_at(s: Seq<char>, c: char, upto: int, i: int)
    requires
        0 <= i < upto <= s.len(),
        s[i] == c,
        forall|j: int| i < j < upto ==> s[j] != c,
    ensures
        last_char_before(s, c, upto) == Some(i),
    decreases upto - i,
{
    if i < upto - 1 {
        lemma_last_char_at(s, c, upto - 1, i);
    }
}

proof fn lemma_last_char_none(s: Seq<char>, c: char, upto: int)
    requires
        upto <= s.len(),
        forall|j: int| 0 <= j < upto ==> s[j] != c,
    ensures
        last_char_before(s, c, upto).is_none(),
    decreases upto,
{
    if upto > 0 {
        lemma_last_char_none(s, c, upto - 1);
    }
}

/// Finds the last stand of `c` before `upto`, as
/// [`last_char_before`] says.
fn find_last_char_before(v: &Vec<char>, c: char, upto: usize) -> (r: Option<usize>)
    requires
        upto <= v@.len(),
    ensures
        match r {
            Some(i) => i < upto && last_char_before(v@, c, upto as int) == Some(i as int),
            None => last_char_before(v@, c, upto as int).is_none(),
        },
{
    let mut i: usize = upto;
    while i > 0
        invariant
            i <= upto <= v@.len(),
            forall|j: int| i <= j < upto ==> v@[j] != c,
        decreases i,
    {
        i = i - 1;
        if v[i] == c {
            proof {
                lemma_last_char_at(v@, c, upto as int, i as int);
            }
            return Some(i);
        }
    }
    proof {
        lemma_last_char_none(v@, c, upto as int);
    }
    None
}

/// Reads the real name out of a fetched page body, as
/// [`spec_voe_title`] says: `None` when no title line is there or it
/// does not carry one.
pub fn voe_title_from_body(body: &String) -> (r: Option<String>)
    ensures
        match r {
            Some(s) => spec_voe_title(body@) == Some(s@),
            None => spec_voe_title(body@).is_none(),
        },
{
    let v = str_chars(body.as_str());
    let title_pat = str_chars("<title>");
    proof {
        reveal_strlit("<title>");
        reveal_strlit("Watch ");
        reveal_strlit(" - VOE | Content Delivery Network (CDN) & Video Cloud");
    }
    let p = match find_first_sub(&v, &title_pat, 0) {
        None => {
            return None;
        },
        Some(p) => p,
    };
    let start = match find_last_char_before(&v, '\n', p) {
        Some(k) => k + 1,
        None => 0,
    };
    let end = match crate::parse::find_first_exec(&v, '\n', p) {
        Some(k) => k,
        None => v.len(),
    };
    assert(start <= p && p <= end && end <= v@.len());
    let line = sub_vec(&v, start, end);
    assert(Some(line@) == spec_title_line(body@));
    let watch_pat = str_chars("Watch ");
    let w = match find_first_sub(&line, &watch_pat, 0) {
        None => {
            return None;
        },
        Some(w) => w,
    };
    let tail_pat = str_chars(" - VOE | Content Delivery Network (CDN) & Video Cloud");
    let j = match find_last_sub(&line, &tail_pat) {
        None => {
            return None;
        },
        Some(j) => j,
    };
    let ll = line.len();
    assert(w + 6 <= ll);
    if j < w + 6 {
        return None;
    }
    let cap = sub_vec(&line, w + 6, j);
    proof {
        reveal_strlit(".mp4");
    }
    let m = cap.len();
    if m < 4 {
        assert(!has_suffix(line@.subrange(w + 6, j as int), ".mp4"@));
        return None;
    }
    let suf = cap[m - 4] == '.' && cap[m - 3] == 'm' && cap[m - 2] == 'p' && cap[m - 1] == '4';
    proof {
        if suf {
            assert(cap@.subrange(m - 4, m as int) =~= ".mp4"@);
        } else {
            assert(cap@.subrange(m - 4, m as int) != ".mp4"@) by {
                if cap@.subrange(m - 4, m as int) == ".mp4"@ {
                    assert(cap@.subrange(m - 4, m as int)[0] == '.');
                    assert(cap@.subrange(m - 4, m as int)[1] == 'm');
                    assert(cap@.subrange(m - 4, m as int)[2] == 'p');
                    assert(cap@.subrange(m - 4, m as int)[3] == '4');
                }
            }
        }
    }
    if !suf {
        return None;
    }
    let t = trim_spaces_exec(&cap);
    Some(chars_to_string(&t))
}

} // verus!
