//! Character-level helpers shared by the whole library: ASCII
//! lowercasing, decimal digits, and building strings character by
//! character.

use vstd::prelude::*;

verus! {

/// ASCII lowercasing of a single character; everything outside
/// `'A'..='Z'` is left alone.
pub open spec fn lower_char(c: char) -> char {
    if 65 <= c as u32 && c as u32 <= 90 {
        (((c as u32) + 32) as u8) as char
    } else {
        c
    }
}

/// ASCII lowercasing of a whole character sequence.
pub open spec fn lower(s: Seq<char>) -> Seq<char> {
    s.map_values(|c: char| lower_char(c))
}

pub open spec fn is_digit(c: char) -> bool {
    48 <= c as u32 && c as u32 <= 57
}

pub open spec fn digit_val(c: char) -> int {
    c as u32 - 48
}

pub open spec fn digit_char(d: int) -> char {
    ((d + 48) as u8) as char
}

/// Value of a digit string read as a decimal number.
pub open spec fn dec_value(s: Seq<char>) -> int
    decreases s.len(),
{
    if s.len() == 0 {
        0
    } else {
        dec_value(s.drop_last()) * 10 + digit_val(s.last())
    }
}

pub open spec fn all_digits(s: Seq<char>) -> bool {
    forall|i: int| 0 <= i < s.len() ==> is_digit(#[trigger] s[i])
}

/// Decimal digits of `n`, without leading zeroes.
pub open spec fn dec_digits(n: int) -> Seq<char>
    decreases n,
{
    if n < 10 {
        seq![digit_char(if n < 0 { 0 } else { n })]
    } else {
        dec_digits(n / 10).push(digit_char(n % 10))
    }
}

/// Decimal digits of `n`, zero-padded on the left to at least two
/// places (the season and episode number convention).
pub open spec fn dec2_digits(n: int) -> Seq<char> {
    if n < 10 {
        seq!['0'].push(digit_char(if n < 0 { 0 } else { n }))
    } else {
        dec_digits(n)
    }
}

/// Relies on `String::push`: appends exactly one character.
#[verifier::external_body]
pub(crate) fn push_char(s: &mut String, c: char)
    ensures
        final(s)@ == old(s)@.push(c),
{
    s.push(c);
}

/// The characters of `s`, in order, as a vector.
pub fn str_chars(s: &str) -> (r: Vec<char>)
    ensures
        r@ == s@,
{
    let n = s.unicode_len();
    let mut r: Vec<char> = Vec::new();
    let mut i: usize = 0;
    while i < n
        invariant
            i <= n,
            n == s@.len(),
            r@ == s@.subrange(0, i as int),
        decreases n - i,
    {
        r.push(s.get_char(i));
        i = i + 1;
        assert(r@ =~= s@.subrange(0, i as int));
    }
    assert(r@ =~= s@);
    r
}

/// A `String` holding exactly the given characters.
pub fn chars_to_string(v: &Vec<char>) -> (s: String)
    ensures
        s@ == v@,
{
    let mut s = String::new();
    let mut i: usize = 0;
    while i < v.len()
        invariant
            i <= v.len(),
            s@ == v@.subrange(0, i as int),
        decreases v.len() - i,
    {
        push_char(&mut s, v[i]);
        i = i + 1;
        assert(s@ =~= v@.subrange(0, i as int));
    }
    assert(s@ =~= v@);
    s
}

/// An ASCII-lowercased copy of a string.
pub fn lower_string(s: &str) -> (r: String)
    ensures
        r@ == lower(s@),
{
    let cs = str_chars(s);
    let lc = lower_chars(&cs);
    chars_to_string(&lc)
}

/// Character-wise string equality.
pub fn str_eq(a: &str, b: &str) -> (r: bool)
    ensures
        r == (a@ == b@),
{
    let na = a.unicode_len();
    let nb = b.unicode_len();
    if na != nb {
        return false;
    }
    let mut i: usize = 0;
    while i < na
        invariant
            i <= na,
            na == a@.len(),
            na == b@.len(),
            forall|j: int| 0 <= j < i ==> a@[j] == b@[j],
        decreases na - i,
    {
        if a.get_char(i) != b.get_char(i) {
            return false;
        }
        i = i + 1;
    }
    assert(a@ =~= b@);
    true
}

/// Exec counterpart of [`lower_char`].
pub fn lower_char_exec(c: char) -> (r: char)
    ensures
        r == lower_char(c),
{
    let x = c as u32;
    if 65 <= x && x <= 90 {
        ((x + 32) as u8) as char
    } else {
        c
    }
}

/// Exec counterpart of [`lower`]: ASCII-lowercases a character vector.
pub fn lower_chars(v: &Vec<char>) -> (r: Vec<char>)
    ensures
        r@ == lower(v@),
{
    let mut r: Vec<char> = Vec::new();
    let mut i: usize = 0;
    while i < v.len()
        invariant
            i <= v.len(),
            r@.len() == i,
            forall|j: int| 0 <= j < i ==> r@[j] == lower_char(v@[j]),
        decreases v.len() - i,
    {
        r.push(lower_char_exec(v[i]));
        i = i + 1;
    }
    assert(r@ =~= lower(v@));
    r
}

/// Lowercasing is idempotent.
pub proof fn lemma_lower_idempotent(s: Seq<char>)
    ensures
        lower(lower(s)) == lower(s),
{
    assert forall|c: char| #[trigger] lower_char(lower_char(c)) == lower_char(c) by {
    }
    assert(lower(lower(s)) =~= lower(s));
}

/// A digit string's value only grows as digits are appended, so once a
/// prefix is too large the whole string is too large.
pub proof fn lemma_dec_value_prefix_le(s: Seq<char>, i: int, j: int)
    requires
        0 <= i <= j <= s.len(),
        all_digits(s),
    ensures
        dec_value(s.subrange(0, i)) <= dec_value(s.subrange(0, j)),
    decreases j - i,
{
    if i < j {
        lemma_dec_value_prefix_le(s, i, j - 1);
        let p = s.subrange(0, j - 1);
        let q = s.subrange(0, j);
        assert(q.drop_last() =~= p);
        lemma_dec_value_nonneg(p);
        assert(dec_value(q) == dec_value(p) * 10 + digit_val(q.last()));
        assert(dec_value(p) * 10 >= dec_value(p)) by (nonlinear_arith)
            requires dec_value(p) >= 0;
        assert(digit_val(q.last()) >= 0);
    }
}

pub proof fn lemma_dec_value_nonneg(s: Seq<char>)
    requires
        all_digits(s),
    ensures
        dec_value(s) >= 0,
    decreases s.len(),
{
    if s.len() > 0 {
        assert(all_digits(s.drop_last()));
        lemma_dec_value_nonneg(s.drop_last());
        assert(dec_value(s.drop_last()) * 10 >= 0) by (nonlinear_arith)
            requires dec_value(s.drop_last()) >= 0;
    }
}

/// Reads the digit run `v[from..to]` as a decimal `u32`; `None` when
/// the value does not fit.
pub fn parse_u32_range(v: &Vec<char>, from: usize, to: usize) -> (r: Option<u32>)
    requires
        from <= to <= v@.len(),
        all_digits(v@.subrange(from as int, to as int)),
    ensures
        match r {
            Some(n) => n == dec_value(v@.subrange(from as int, to as int)),
            None => dec_value(v@.subrange(from as int, to as int)) > u32::MAX,
        },
{
    let ghost whole = v@.subrange(from as int, to as int);
    let mut acc: u32 = 0;
    let mut i: usize = from;
    while i < to
        invariant
            from <= i <= to <= v@.len(),
            whole == v@.subrange(from as int, to as int),
            all_digits(whole),
            acc == dec_value(v@.subrange(from as int, i as int)),
        decreases to - i,
    {
        let c = v[i];
        assert(whole[i - from] == v@[i as int]);
        let d = (c as u32) - 48;
        if acc > (u32::MAX - d) / 10 {
            proof {
                let p = v@.subrange(from as int, i + 1);
                assert(p.drop_last() =~= v@.subrange(from as int, i as int));
                assert(forall|k: int| 0 <= k < p.len() ==> p[k] == whole[k]);
                assert(all_digits(p));
                assert(dec_value(p) == acc * 10 + d);
                assert(acc * 10 + d > u32::MAX) by (nonlinear_arith)
                    requires
                        acc > (u32::MAX - d) / 10,
                        0 <= d <= 9,
                        acc <= u32::MAX;
                assert(forall|k: int| 0 <= k < whole.len() ==> whole.subrange(0, whole.len() as int)[k] == whole[k]);
                assert(whole.subrange(0, whole.len() as int) =~= whole);
                assert(p =~= whole.subrange(0, (i + 1 - from) as int));
                lemma_dec_value_prefix_le(whole, i + 1 - from, whole.len() as int);
            }
            return None;
        }
        proof {
            assert(acc * 10 + d <= u32::MAX) by (nonlinear_arith)
                requires
                    acc <= (u32::MAX - d) / 10,
                    0 <= d <= 9;
        }
        acc = acc * 10 + d;
        i = i + 1;
        proof {
            let p = v@.subrange(from as int, i as int);
            assert(p.drop_last() =~= v@.subrange(from as int, i - 1));
            assert(acc == dec_value(p));
        }
    }
    assert(v@.subrange(from as int, i as int) =~= whole);
    Some(acc)
}

/// Reads a whole character vector as a decimal `u64`: digits only,
/// at least one, and the value must fit.
pub fn parse_u64(v: &Vec<char>) -> (r: Option<u64>)
    ensures
        match r {
            Some(n) => v@.len() >= 1 && all_digits(v@) && n == dec_value(v@),
            None => v@.len() == 0 || !all_digits(v@) || dec_value(v@) > u64::MAX,
        },
{
    if v.len() == 0 {
        return None;
    }
    let ghost whole = v@;
    let mut acc: u64 = 0;
    let mut i: usize = 0;
    proof {
        assert(v@.subrange(0, 0) =~= Seq::<char>::empty());
    }
    while i < v.len()
        invariant
            i <= v@.len(),
            whole == v@,
            forall|j: int| 0 <= j < i ==> is_digit(v@[j]),
            acc == dec_value(v@.subrange(0, i as int)),
        decreases v@.len() - i,
    {
        let c = v[i];
        let x = c as u32;
        if !(48 <= x && x <= 57) {
            assert(!is_digit(v@[i as int]));
            assert(!all_digits(v@));
            return None;
        }
        let d = (x - 48) as u64;
        if acc > (u64::MAX - d) / 10 {
            proof {
                let p = v@.subrange(0, i + 1);
                assert(p.drop_last() =~= v@.subrange(0, i as int));
                assert(all_digits(p));
                assert(dec_value(p) == acc * 10 + d);
                assert(acc * 10 + d > u64::MAX) by (nonlinear_arith)
                    requires
                        acc > (u64::MAX - d) / 10,
                        0 <= d <= 9,
                        acc <= u64::MAX;
                if all_digits(v@) {
                    assert(p =~= v@.subrange(0, v@.len() as int).subrange(0, i + 1));
                    assert(v@.subrange(0, v@.len() as int) =~= v@);
                    assert(p =~= v@.subrange(0, i + 1));
                    lemma_dec_value_prefix_le(v@, i + 1, v@.len() as int);
                    assert(v@.subrange(0, v@.len() as int) =~= v@);
                    assert(dec_value(v@) > u64::MAX);
                }
            }
            return None;
        }
        proof {
            assert(acc * 10 + d <= u64::MAX) by (nonlinear_arith)
                requires
                    acc <= (u64::MAX - d) / 10,
                    0 <= d <= 9;
        }
        acc = acc * 10 + d;
        i = i + 1;
        proof {
            let p = v@.subrange(0, i as int);
            assert(p.drop_last() =~= v@.subrange(0, i - 1));
            assert(acc == dec_value(p));
        }
    }
    assert(v@.subrange(0, i as int) =~= v@);
    assert(all_digits(v@));
    Some(acc)
}

/// Appends the decimal digits of `n`.
pub fn push_dec(s: &mut String, n: u32)
    ensures
        final(s)@ == old(s)@ + dec_digits(n as int),
    decreases n,
{
    if n < 10 {
        push_char(s, ((n + 48) as u8) as char);
        assert(final(s)@ =~= old(s)@ + dec_digits(n as int));
    } else {
        push_dec(s, n / 10);
        push_char(s, (((n % 10) + 48) as u8) as char);
        assert(final(s)@ =~= old(s)@ + dec_digits(n as int));
    }
}

/// Appends the decimal digits of `n`, zero-padded to at least two
/// places.
pub fn push_dec2(s: &mut String, n: u32)
    ensures
        final(s)@ == old(s)@ + dec2_digits(n as int),
{
    if n < 10 {
        push_char(s, '0');
        push_char(s, ((n + 48) as u8) as char);
        assert(final(s)@ =~= old(s)@ + dec2_digits(n as int));
    } else {
        push_dec(s, n);
    }
}

} // verus!
