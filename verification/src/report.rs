//! Chunked report assembly.  Report lines accumulate during a scan
//! pass and are flushed to the operator channel in chunks that stay
//! under a fixed byte budget; a line is never split across chunks, and
//! a single line over the budget goes out alone.

use vstd::prelude::*;

use vstd::utf8::encode_utf8;

use crate::state::name_views;
use crate::text::push_char;

verus! {

/// The byte ceiling of one flushed message.
pub const REPORT_BYTE_LIMIT: usize = 1999;

/// How many bytes a character sequence takes in UTF-8.
pub open spec fn bytes_len(s: Seq<char>) -> int {
    encode_utf8(s).len() as int
}

pub proof fn lemma_encode_concat(a: Seq<char>, b: Seq<char>)
    ensures
        encode_utf8(a + b) == encode_utf8(a) + encode_utf8(b),
    decreases a.len(),
{
    if a.len() == 0 {
        assert(a + b =~= b);
        assert(encode_utf8(a) + encode_utf8(b) =~= encode_utf8(b));
    } else {
        assert((a + b).drop_first() =~= a.drop_first() + b);
        lemma_encode_concat(a.drop_first(), b);
        assert(encode_utf8(a + b) =~= encode_utf8(a) + encode_utf8(b));
    }
}

pub proof fn lemma_bytes_concat(a: Seq<char>, b: Seq<char>)
    ensures
        bytes_len(a + b) == bytes_len(a) + bytes_len(b),
{
    lemma_encode_concat(a, b);
}

pub proof fn lemma_bytes_newline()
    ensures
        bytes_len(seq!['\n']) == 1,
{
    let s = seq!['\n'];
    assert(s[0] == '\n');
    assert(s.drop_first() =~= Seq::<char>::empty());
    assert(encode_utf8(s.drop_first()) =~= Seq::<u8>::empty());
    assert('\n' as u32 == 10);
    assert(vstd::utf8::has_width_1_encoding(10));
    assert(vstd::utf8::encode_scalar(10).len() == 1);
    assert(encode_utf8(s).len() == 1);
}

pub proof fn lemma_bytes_nonneg(s: Seq<char>)
    ensures
        bytes_len(s) >= 0,
        s.len() == 0 ==> bytes_len(s) == 0,
{
}

/// The chunks that greedy packing produces, starting with `cur`
/// already accumulated: a line (with its newline) joins the open
/// chunk while the budget allows; otherwise the open chunk is flushed
/// first; a single line over the budget is flushed alone.
pub open spec fn spec_chunks(lines: Seq<Seq<char>>, cur: Seq<char>) -> Seq<Seq<char>>
    decreases lines.len(), cur.len(),
{
    if lines.len() == 0 {
        if cur.len() == 0 {
            Seq::empty()
        } else {
            seq![cur]
        }
    } else {
        let ln = lines[0] + seq!['\n'];
        if cur.len() == 0 {
            if bytes_len(ln) > REPORT_BYTE_LIMIT as int {
                seq![ln] + spec_chunks(lines.drop_first(), Seq::empty())
            } else {
                spec_chunks(lines.drop_first(), ln)
            }
        } else if bytes_len(cur + ln) <= REPORT_BYTE_LIMIT as int {
            spec_chunks(lines.drop_first(), cur + ln)
        } else {
            seq![cur] + spec_chunks(lines, Seq::empty())
        }
    }
}

/// All chunks run together.
pub open spec fn concat_all(cs: Seq<Seq<char>>) -> Seq<char>
    decreases cs.len(),
{
    if cs.len() == 0 {
        Seq::empty()
    } else {
        cs[0] + concat_all(cs.drop_first())
    }
}

/// All lines run together, each with its newline.
pub open spec fn joined_lines(lines: Seq<Seq<char>>) -> Seq<char>
    decreases lines.len(),
{
    if lines.len() == 0 {
        Seq::empty()
    } else {
        (lines[0] + seq!['\n']) + joined_lines(lines.drop_first())
    }
}

/// Chunking loses nothing, reorders nothing, and never splits a line:
/// the chunks run together are exactly the lines run together.
pub proof fn lemma_chunks_flatten(lines: Seq<Seq<char>>, cur: Seq<char>)
    ensures
        concat_all(spec_chunks(lines, cur)) == cur + joined_lines(lines),
    decreases lines.len(), cur.len(),
{
    if lines.len() == 0 {
        if cur.len() == 0 {
            assert(concat_all(spec_chunks(lines, cur)) =~= cur + joined_lines(lines));
        } else {
            assert(seq![cur].drop_first() =~= Seq::<Seq<char>>::empty());
            assert(seq![cur][0] == cur);
            assert(concat_all(seq![cur]) == cur + concat_all(Seq::<Seq<char>>::empty()));
            assert(concat_all(spec_chunks(lines, cur)) =~= cur + joined_lines(lines));
        }
    } else {
        let ln = lines[0] + seq!['\n'];
        if cur.len() == 0 {
            if bytes_len(ln) > REPORT_BYTE_LIMIT as int {
                lemma_chunks_flatten(lines.drop_first(), Seq::empty());
                let rest = spec_chunks(lines.drop_first(), Seq::empty());
                assert((seq![ln] + rest).drop_first() =~= rest);
                assert(concat_all(seq![ln] + rest) == ln + concat_all(rest));
                assert(Seq::<char>::empty() + joined_lines(lines.drop_first()) =~= joined_lines(
                    lines.drop_first(),
                ));
                assert(concat_all(spec_chunks(lines, cur)) =~= cur + joined_lines(lines));
            } else {
                lemma_chunks_flatten(lines.drop_first(), ln);
                assert(cur + joined_lines(lines) =~= ln + joined_lines(lines.drop_first()));
                assert(concat_all(spec_chunks(lines, cur)) =~= cur + joined_lines(lines));
            }
        } else if bytes_len(cur + ln) <= REPORT_BYTE_LIMIT as int {
            lemma_chunks_flatten(lines.drop_first(), cur + ln);
            assert(cur + joined_lines(lines) =~= (cur + ln) + joined_lines(lines.drop_first()));
            assert(concat_all(spec_chunks(lines, cur)) =~= cur + joined_lines(lines));
        } else {
            lemma_chunks_flatten(lines, Seq::empty());
            let rest = spec_chunks(lines, Seq::empty());
            assert((seq![cur] + rest).drop_first() =~= rest);
            assert(concat_all(seq![cur] + rest) == cur + concat_all(rest));
            assert(Seq::<char>::empty() + joined_lines(lines) =~= joined_lines(lines));
            assert(concat_all(spec_chunks(lines, cur)) =~= cur + joined_lines(lines));
        }
    }
}

/// A chunk is acceptable when it stays under the byte ceiling or is
/// a single line (with its newline) flushed alone.
pub open spec fn chunk_ok(lines: Seq<Seq<char>>, c: Seq<char>) -> bool {
    bytes_len(c) <= REPORT_BYTE_LIMIT as int || (exists|i: int|
        0 <= i < lines.len() && c == lines[i] + seq!['\n'])
}

proof fn lemma_chunk_ok_cons(lines: Seq<Seq<char>>, c: Seq<char>)
    requires
        lines.len() > 0,
        chunk_ok(lines.drop_first(), c),
    ensures
        chunk_ok(lines, c),
{
    if bytes_len(c) > REPORT_BYTE_LIMIT as int {
        let i = choose|i: int|
            0 <= i < lines.drop_first().len() && c == lines.drop_first()[i] + seq!['\n'];
        assert(lines.drop_first()[i] == lines[i + 1]);
        assert(0 <= i + 1 < lines.len() && c == lines[i + 1] + seq!['\n']);
    }
}

/// Every chunk stays under the byte ceiling, except a chunk that is a
/// single over-budget line flushed alone.
pub proof fn lemma_chunks_bounded(lines: Seq<Seq<char>>, cur: Seq<char>)
    requires
        bytes_len(cur) <= REPORT_BYTE_LIMIT as int,
    ensures
        forall|k: int|
            0 <= k < spec_chunks(lines, cur).len() ==> chunk_ok(
                lines,
                #[trigger] spec_chunks(lines, cur)[k],
            ),
    decreases lines.len(), cur.len(),
{
    let cs = spec_chunks(lines, cur);
    if lines.len() == 0 {
    } else {
        let ln = lines[0] + seq!['\n'];
        if cur.len() == 0 {
            if bytes_len(ln) > REPORT_BYTE_LIMIT as int {
                lemma_chunks_bounded(lines.drop_first(), Seq::empty());
                let rest = spec_chunks(lines.drop_first(), Seq::empty());
                assert forall|k: int| 0 <= k < cs.len() implies chunk_ok(lines, #[trigger] cs[k]) by {
                    if k == 0 {
                        assert(cs[0] == lines[0] + seq!['\n']);
                    } else {
                        assert(cs[k] == rest[k - 1]);
                        assert(chunk_ok(lines.drop_first(), rest[k - 1]));
                        lemma_chunk_ok_cons(lines, cs[k]);
                    }
                }
            } else {
                lemma_chunks_bounded(lines.drop_first(), ln);
                let rest = spec_chunks(lines.drop_first(), ln);
                assert forall|k: int| 0 <= k < cs.len() implies chunk_ok(lines, #[trigger] cs[k]) by {
                    assert(cs[k] == rest[k]);
                    assert(chunk_ok(lines.drop_first(), rest[k]));
                    lemma_chunk_ok_cons(lines, cs[k]);
                }
            }
        } else if bytes_len(cur + ln) <= REPORT_BYTE_LIMIT as int {
            lemma_chunks_bounded(lines.drop_first(), cur + ln);
            let rest = spec_chunks(lines.drop_first(), cur + ln);
            assert forall|k: int| 0 <= k < cs.len() implies chunk_ok(lines, #[trigger] cs[k]) by {
                assert(cs[k] == rest[k]);
                assert(chunk_ok(lines.drop_first(), rest[k]));
                lemma_chunk_ok_cons(lines, cs[k]);
            }
        } else {
            lemma_chunks_bounded(lines, Seq::empty());
            let rest = spec_chunks(lines, Seq::empty());
            assert forall|k: int| 0 <= k < cs.len() implies chunk_ok(lines, #[trigger] cs[k]) by {
                if k > 0 {
                    assert(cs[k] == rest[k - 1]);
                    assert(chunk_ok(lines, rest[k - 1]));
                }
            }
        }
    }
}

/// No chunk is empty.
pub proof fn lemma_chunks_nonempty(lines: Seq<Seq<char>>, cur: Seq<char>)
    ensures
        forall|k: int|
            0 <= k < spec_chunks(lines, cur).len() ==> (#[trigger] spec_chunks(lines, cur)[k]).len()
                > 0,
    decreases lines.len(), cur.len(),
{
    let cs = spec_chunks(lines, cur);
    if lines.len() == 0 {
    } else {
        let ln = lines[0] + seq!['\n'];
        if cur.len() == 0 {
            if bytes_len(ln) > REPORT_BYTE_LIMIT as int {
                lemma_chunks_nonempty(lines.drop_first(), Seq::empty());
                let rest = spec_chunks(lines.drop_first(), Seq::empty());
                assert forall|k: int| 0 <= k < cs.len() implies (#[trigger] cs[k]).len() > 0 by {
                    if k > 0 {
                        assert(cs[k] == rest[k - 1]);
                    }
                }
            } else {
                lemma_chunks_nonempty(lines.drop_first(), ln);
                let rest = spec_chunks(lines.drop_first(), ln);
                assert forall|k: int| 0 <= k < cs.len() implies (#[trigger] cs[k]).len() > 0 by {
                    assert(cs[k] == rest[k]);
                }
            }
        } else if bytes_len(cur + ln) <= REPORT_BYTE_LIMIT as int {
            lemma_chunks_nonempty(lines.drop_first(), cur + ln);
            let rest = spec_chunks(lines.drop_first(), cur + ln);
            assert forall|k: int| 0 <= k < cs.len() implies (#[trigger] cs[k]).len() > 0 by {
                assert(cs[k] == rest[k]);
            }
        } else {
            lemma_chunks_nonempty(lines, Seq::empty());
            let rest = spec_chunks(lines, Seq::empty());
            assert forall|k: int| 0 <= k < cs.len() implies (#[trigger] cs[k]).len() > 0 by {
                if k > 0 {
                    assert(cs[k] == rest[k - 1]);
                }
            }
        }
    }
}

/// Packs the report lines into chunks, as [`spec_chunks`] says.  The
/// length bound on each line is a machine limit: a line of a real
/// report always fits it.
pub fn chunk_lines(lines: &Vec<String>) -> (chunks: Vec<String>)
    requires
        forall|i: int|
            0 <= i < lines@.len() ==> bytes_len((#[trigger] lines@[i])@) + 1 <= usize::MAX,
    ensures
        name_views(chunks@) == spec_chunks(name_views(lines@), Seq::<char>::empty()),
{
    let ghost lv = name_views(lines@);
    let mut chunks: Vec<String> = Vec::new();
    let mut cur = String::new();
    let mut i: usize = 0;
    proof {
        assert(lv.skip(0) =~= lv);
        assert(name_views(chunks@) + spec_chunks(lv, Seq::<char>::empty()) =~= spec_chunks(
            lv,
            Seq::<char>::empty(),
        ));
        lemma_bytes_nonneg(cur@);
    }
    while i < lines.len()
        invariant
            i <= lines@.len(),
            lv == name_views(lines@),
            forall|j: int| 0 <= j < lines@.len() ==> bytes_len((#[trigger] lines@[j])@) + 1 <= usize::MAX,
            bytes_len(cur@) <= REPORT_BYTE_LIMIT as int,
            bytes_len(cur@) >= 0,
            name_views(chunks@) + spec_chunks(lv.skip(i as int), cur@) == spec_chunks(
                lv,
                Seq::<char>::empty(),
            ),
        decreases lines@.len() - i,
    {
        let ghost pre = lv.skip(i as int);
        let ghost chunks0 = name_views(chunks@);
        let ghost cur0 = cur@;
        assert(pre[0] == lv[i as int]);
        let mut ln = lines[i].clone();
        push_char(&mut ln, '\n');
        proof {
            assert(ln@ =~= lines@[i as int]@ + seq!['\n']);
            lemma_bytes_concat(lines@[i as int]@, seq!['\n']);
            lemma_bytes_newline();
            lemma_bytes_nonneg(lines@[i as int]@);
        }
        let ln_len = ln.as_str().len();
        assert(ln_len == bytes_len(ln@));
        let cur_empty = cur.as_str().is_empty();
        if cur_empty {
            proof {
                assert(cur@ =~= Seq::<char>::empty());
            }
            if ln_len > REPORT_BYTE_LIMIT {
                chunks.push(ln);
                proof {
                    assert(name_views(chunks@) =~= chunks0.push(pre[0] + seq!['\n']));
                    assert(pre.drop_first() =~= lv.skip(i + 1));
                    let rest = spec_chunks(lv.skip(i + 1), Seq::<char>::empty());
                    assert(spec_chunks(pre, cur0) == seq![pre[0] + seq!['\n']] + rest);
                    assert(name_views(chunks@) + rest =~= chunks0 + spec_chunks(pre, cur0));
                    lemma_bytes_nonneg(cur@);
                }
            } else {
                cur = ln;
                proof {
                    assert(pre.drop_first() =~= lv.skip(i + 1));
                    assert(spec_chunks(pre, cur0) == spec_chunks(lv.skip(i + 1), cur@));
                }
            }
        } else {
            let cur_len = cur.as_str().len();
            assert(cur_len == bytes_len(cur@));
            if REPORT_BYTE_LIMIT - cur_len >= ln_len {
                proof {
                    lemma_bytes_concat(cur@, ln@);
                }
                cur.append(ln.as_str());
                proof {
                    assert(cur@ == cur0 + (pre[0] + seq!['\n']));
                    assert(pre.drop_first() =~= lv.skip(i + 1));
                    assert(spec_chunks(pre, cur0) == spec_chunks(lv.skip(i + 1), cur@));
                }
            } else {
                proof {
                    lemma_bytes_concat(cur@, ln@);
                }
                chunks.push(cur);
                cur = String::new();
                proof {
                    assert(name_views(chunks@) =~= chunks0.push(cur0));
                    assert(spec_chunks(pre, cur0) == seq![cur0] + spec_chunks(pre, cur@));
                }
                if ln_len > REPORT_BYTE_LIMIT {
                    chunks.push(ln);
                    proof {
                        assert(name_views(chunks@) =~= chunks0.push(cur0).push(
                            pre[0] + seq!['\n'],
                        ));
                        assert(pre.drop_first() =~= lv.skip(i + 1));
                        let rest = spec_chunks(lv.skip(i + 1), Seq::<char>::empty());
                        assert(spec_chunks(pre, Seq::<char>::empty()) == seq![pre[0] + seq!['\n']]
                            + rest);
                        assert(name_views(chunks@) + rest =~= chunks0 + spec_chunks(pre, cur0));
                        lemma_bytes_nonneg(cur@);
                    }
                } else {
                    cur = ln;
                    proof {
                        assert(pre.drop_first() =~= lv.skip(i + 1));
                        assert(spec_chunks(pre, Seq::<char>::empty()) == spec_chunks(
                            lv.skip(i + 1),
                            cur@,
                        ));
                        assert(name_views(chunks@) + spec_chunks(lv.skip(i + 1), cur@) =~= chunks0
                            + spec_chunks(pre, cur0));
                    }
                }
            }
        }
        i = i + 1;
        proof {
            assert(name_views(chunks@) + spec_chunks(lv.skip(i as int), cur@) =~= spec_chunks(
                lv,
                Seq::<char>::empty(),
            ));
        }
    }
    proof {
        assert(lv.skip(i as int) =~= Seq::<Seq<char>>::empty());
    }
    let cur_empty = cur.as_str().is_empty();
    if !cur_empty {
        chunks.push(cur);
        proof {
            assert(name_views(chunks@) =~= spec_chunks(lv, Seq::<char>::empty()));
        }
    } else {
        proof {
            assert(cur@ =~= Seq::<char>::empty());
            assert(name_views(chunks@) =~= spec_chunks(lv, Seq::<char>::empty()));
        }
    }
    chunks
}

} // verus!
