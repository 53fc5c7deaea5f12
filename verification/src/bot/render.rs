//! Rendering for Discord: chunking long markdown into message-sized pages,
//! embeds and pagination buttons.
//!
//! Discord limits handled here: message content <= 2000 characters, embed
//! description <= 4096, title <= 256.

use vstd::prelude::*;

use crate::text::{clip, clip_chars, decimal, push_decimal, push_str, string_from_chars, to_chars};

verus! {

broadcast use vstd::seq_lib::group_seq_properties;

// ---------------------------------------------------------------------
// Lines (`str::split_inclusive('\n')`)
// ---------------------------------------------------------------------

/// The lines of `s`, each keeping its terminating `'\n'`; `cur` is the
/// line being read.
pub open spec fn lines_from(s: Seq<char>, cur: Seq<char>) -> Seq<Seq<char>>
    decreases s.len(),
{
    if s.len() == 0 {
        if cur.len() > 0 {
            seq![cur]
        } else {
            Seq::empty()
        }
    } else if s[0] == '\n' {
        seq![cur.push('\n')] + lines_from(s.drop_first(), Seq::empty())
    } else {
        lines_from(s.drop_first(), cur.push(s[0]))
    }
}

/// `str::split_inclusive('\n')`.
pub open spec fn lines(s: Seq<char>) -> Seq<Seq<char>> {
    lines_from(s, Seq::empty())
}

/// The character views of a vector of character vectors.
pub open spec fn char_rows(v: Seq<Vec<char>>) -> Seq<Seq<char>> {
    v.map_values(|w: Vec<char>| w@)
}

/// The character views of a vector of strings.
pub open spec fn string_rows(v: Seq<String>) -> Seq<Seq<char>> {
    v.map_values(|w: String| w@)
}

/// `str::split_inclusive('\n')` on a character slice.
fn split_lines_inclusive(s: &[char]) -> (r: Vec<Vec<char>>)
    ensures
        char_rows(r@) == lines(s@),
{
    let n = s.len();
    let mut out: Vec<Vec<char>> = Vec::new();
    let mut cur: Vec<char> = Vec::new();
    let mut i: usize = 0;
    proof {
        assert(s@.subrange(0, n as int) =~= s@);
        assert(cur@ =~= Seq::<char>::empty());
    }
    while i < n
        invariant
            n == s@.len(),
            i <= n,
            char_rows(out@) + lines_from(s@.subrange(i as int, n as int), cur@) == lines(s@),
        decreases n - i,
    {
        let ghost rest = s@.subrange(i as int, n as int);
        proof {
            assert(rest.drop_first() =~= s@.subrange(i as int + 1, n as int));
        }
        let c = s[i];
        cur.push(c);
        if c == '\n' {
            let ghost old_out = char_rows(out@);
            let ghost w = cur@;
            out.push(cur);
            cur = Vec::new();
            proof {
                assert(char_rows(out@) =~= old_out.push(w));
                assert(old_out + (seq![w] + lines_from(rest.drop_first(), Seq::<char>::empty()))
                    =~= old_out.push(w) + lines_from(rest.drop_first(), Seq::<char>::empty()));
                assert(cur@ =~= Seq::<char>::empty());
            }
        }
        i = i + 1;
    }
    proof {
        assert(s@.subrange(n as int, n as int).len() == 0);
    }
    if cur.len() > 0 {
        let ghost old_out = char_rows(out@);
        let ghost w = cur@;
        out.push(cur);
        proof {
            assert(char_rows(out@) =~= old_out.push(w));
            assert(old_out + seq![w] =~= old_out.push(w));
        }
    } else {
        proof {
            assert(char_rows(out@) + Seq::<Seq<char>>::empty() =~= char_rows(out@));
        }
    }
    out
}

// ---------------------------------------------------------------------
// Chunking
// ---------------------------------------------------------------------

/// Hard split of an over-long line: characters are gathered into `buf`
/// and every time `buf` reaches `limit` characters it becomes a chunk.
/// Returns the chunks (appended to `chunks`) and what is left in `buf`.
pub open spec fn hard_split_from(
    line: Seq<char>,
    limit: nat,
    chunks: Seq<Seq<char>>,
    buf: Seq<char>,
) -> (Seq<Seq<char>>, Seq<char>)
    decreases line.len(),
{
    if line.len() == 0 {
        (chunks, buf)
    } else {
        let b = buf.push(line[0]);
        if b.len() >= limit {
            hard_split_from(line.drop_first(), limit, chunks.push(b), Seq::empty())
        } else {
            hard_split_from(line.drop_first(), limit, chunks, b)
        }
    }
}

/// One line of the chunking walk: the state is (finished chunks, current
/// chunk).
pub open spec fn chunk_step(
    state: (Seq<Seq<char>>, Seq<char>),
    line: Seq<char>,
    limit: nat,
) -> (Seq<Seq<char>>, Seq<char>) {
    let l = line.len();
    let flushed = state.1.len() + l > limit && state.1.len() > 0;
    let chunks1 = if flushed {
        state.0.push(state.1)
    } else {
        state.0
    };
    let cur1 = if flushed {
        Seq::<char>::empty()
    } else {
        state.1
    };
    if l > limit {
        let split = hard_split_from(line, limit, chunks1, Seq::empty());
        (split.0, cur1 + split.1)
    } else {
        (chunks1, cur1 + line)
    }
}

/// The chunking walk over a sequence of lines.
pub open spec fn chunk_lines(ls: Seq<Seq<char>>, limit: nat) -> (Seq<Seq<char>>, Seq<char>)
    decreases ls.len(),
{
    if ls.len() == 0 {
        (Seq::empty(), Seq::empty())
    } else {
        chunk_step(chunk_lines(ls.drop_last(), limit), ls.last(), limit)
    }
}

/// The pages `chunk_markdown` produces: the whole text when it has at most
/// `limit` characters; otherwise the lines are packed greedily into chunks
/// of at most `limit` characters, a line longer than `limit` being cut
/// into `limit`-character pieces.
pub open spec fn chunks_of(md: Seq<char>, limit: nat) -> Seq<Seq<char>> {
    if md.len() <= limit {
        seq![md]
    } else {
        let st = chunk_lines(lines(md), limit);
        if st.1.len() > 0 {
            st.0.push(st.1)
        } else {
            st.0
        }
    }
}

/// Every chunk is non-empty and, when `limit` is positive, holds at most
/// `limit` characters.
pub open spec fn well_sized(cs: Seq<Seq<char>>, limit: nat) -> bool {
    forall|j: int|
        0 <= j < cs.len() ==> #[trigger] cs[j].len() >= 1 && (limit >= 1 ==> cs[j].len() <= limit)
}

/// Flattening distributes over concatenation.
pub proof fn lemma_flatten_concat(a: Seq<Seq<char>>, b: Seq<Seq<char>>)
    ensures
        (a + b).flatten() == a.flatten() + b.flatten(),
    decreases b.len(),
{
    if b.len() == 0 {
        assert(a + b =~= a);
        assert(a.flatten() + b.flatten() =~= a.flatten());
    } else {
        lemma_flatten_concat(a, b.drop_last());
        (a + b.drop_last()).lemma_flatten_push(b.last());
        b.drop_last().lemma_flatten_push(b.last());
        assert(a + b =~= (a + b.drop_last()).push(b.last()));
        assert(b =~= b.drop_last().push(b.last()));
        assert((a.flatten() + b.drop_last().flatten()) + b.last() =~= a.flatten() + (
        b.drop_last().flatten() + b.last()));
    }
}

/// The lines of `s` are non-empty and put back together give `cur + s`.
pub proof fn lemma_lines_from(s: Seq<char>, cur: Seq<char>)
    ensures
        lines_from(s, cur).flatten() == cur + s,
        forall|j: int|
            0 <= j < lines_from(s, cur).len() ==> #[trigger] lines_from(s, cur)[j].len() >= 1,
    decreases s.len(),
{
    if s.len() == 0 {
        assert(cur + s =~= cur);
        if cur.len() > 0 {
            Seq::<Seq<char>>::empty().lemma_flatten_push(cur);
            assert(seq![cur] =~= Seq::<Seq<char>>::empty().push(cur));
        }
    } else if s[0] == '\n' {
        let rest = lines_from(s.drop_first(), Seq::empty());
        lemma_lines_from(s.drop_first(), Seq::empty());
        let head = seq![cur.push('\n')];
        lemma_flatten_concat(head, rest);
        Seq::<Seq<char>>::empty().lemma_flatten_push(cur.push('\n'));
        assert(head =~= Seq::<Seq<char>>::empty().push(cur.push('\n')));
        assert(cur.push('\n') + (Seq::<char>::empty() + s.drop_first()) =~= cur + s);
        assert forall|j: int| 0 <= j < (head + rest).len() implies #[trigger] (head + rest)[j].len()
            >= 1 by {
            if j > 0 {
                assert((head + rest)[j] == rest[j - 1]);
            }
        }
    } else {
        lemma_lines_from(s.drop_first(), cur.push(s[0]));
        assert(cur.push(s[0]) + s.drop_first() =~= cur + s);
    }
}

/// What the hard split of one line produces.
pub proof fn lemma_hard_split(line: Seq<char>, limit: nat, chunks: Seq<Seq<char>>, buf: Seq<char>)
    requires
        buf.len() < limit || (limit == 0 && buf.len() == 0),
    ensures
        ({
            let r = hard_split_from(line, limit, chunks, buf);
            &&& r.0.flatten() + r.1 == chunks.flatten() + buf + line
            &&& r.0.len() >= chunks.len()
            &&& r.0.take(chunks.len() as int) == chunks
            &&& forall|j: int|
                chunks.len() <= j < r.0.len() ==> #[trigger] r.0[j].len() >= 1 && (limit >= 1
                    ==> r.0[j].len() <= limit)
            &&& (r.1.len() < limit || (limit == 0 && r.1.len() == 0))
        }),
    decreases line.len(),
{
    if line.len() == 0 {
        assert(chunks.flatten() + buf + line =~= chunks.flatten() + buf);
        assert(chunks.take(chunks.len() as int) =~= chunks);
    } else {
        let b = buf.push(line[0]);
        assert(buf + line =~= b + line.drop_first());
        if b.len() >= limit {
            let c2 = chunks.push(b);
            lemma_hard_split(line.drop_first(), limit, c2, Seq::empty());
            let r = hard_split_from(line.drop_first(), limit, c2, Seq::empty());
            chunks.lemma_flatten_push(b);
            assert(c2.flatten() + Seq::<char>::empty() + line.drop_first() =~= chunks.flatten() + buf
                + line);
            assert(r.0.take(chunks.len() as int) =~= r.0.take(c2.len() as int).take(
                chunks.len() as int,
            ));
            assert(c2.take(chunks.len() as int) =~= chunks);
            assert(r.0[chunks.len() as int] == r.0.take(c2.len() as int)[chunks.len() as int]);
        } else {
            lemma_hard_split(line.drop_first(), limit, chunks, b);
            assert(chunks.flatten() + b + line.drop_first() =~= chunks.flatten() + buf + line);
        }
    }
}

/// The chunking walk keeps the text, and keeps every chunk well sized.
pub proof fn lemma_chunk_lines(ls: Seq<Seq<char>>, limit: nat)
    requires
        forall|j: int| 0 <= j < ls.len() ==> #[trigger] ls[j].len() >= 1,
    ensures
        chunk_lines(ls, limit).0.flatten() + chunk_lines(ls, limit).1 == ls.flatten(),
        well_sized(chunk_lines(ls, limit).0, limit),
        chunk_lines(ls, limit).1.len() <= limit,
    decreases ls.len(),
{
    if ls.len() == 0 {
        assert(Seq::<Seq<char>>::empty().flatten() + Seq::<char>::empty() =~= Seq::<char>::empty());
    } else {
        let prev = ls.drop_last();
        lemma_chunk_lines(prev, limit);
        let st = chunk_lines(prev, limit);
        let line = ls.last();
        let l = line.len();
        let flushed = st.1.len() + l > limit && st.1.len() > 0;
        let chunks1 = if flushed {
            st.0.push(st.1)
        } else {
            st.0
        };
        let cur1 = if flushed {
            Seq::<char>::empty()
        } else {
            st.1
        };
        st.0.lemma_flatten_push(st.1);
        assert(chunks1.flatten() + cur1 == st.0.flatten() + st.1) by {
            if !flushed {
            } else {
                assert(st.0.push(st.1).flatten() + Seq::<char>::empty() =~= st.0.push(st.1).flatten());
            }
        }
        assert(well_sized(chunks1, limit)) by {
            if flushed {
                assert forall|j: int| 0 <= j < chunks1.len() implies #[trigger] chunks1[j].len()
                    >= 1 && (limit >= 1 ==> chunks1[j].len() <= limit) by {
                    if j < st.0.len() {
                        assert(chunks1[j] == st.0[j]);
                    }
                }
            }
        }
        ls.drop_last().lemma_flatten_push(line);
        assert(ls =~= prev.push(line));
        if l > limit {
            lemma_hard_split(line, limit, chunks1, Seq::empty());
            let r = hard_split_from(line, limit, chunks1, Seq::empty());
            assert(cur1.len() == 0);
            assert(cur1 + r.1 =~= r.1);
            assert(chunks1.flatten() + Seq::<char>::empty() =~= chunks1.flatten());
            assert(r.0.flatten() + r.1 =~= (st.0.flatten() + st.1) + line);
            assert forall|j: int| 0 <= j < r.0.len() implies #[trigger] r.0[j].len() >= 1 && (limit
                >= 1 ==> r.0[j].len() <= limit) by {
                if j < chunks1.len() {
                    assert(r.0[j] == r.0.take(chunks1.len() as int)[j]);
                }
            }
        } else {
            assert(chunks1.flatten() + (cur1 + line) =~= (chunks1.flatten() + cur1) + line);
        }
    }
}

/// The chunking walk itself.
fn chunk_walk(md: &str, limit: usize) -> (r: Vec<String>)
    ensures
        string_rows(r@) == chunks_of(md@, limit as nat),
{
    let cs = to_chars(md);
    if cs.len() <= limit {
        let only = md.to_owned();
        let r = vec![only];
        proof {
            assert(string_rows(r@) =~= seq![md@]);
        }
        return r;
    }
    let ls = split_lines_inclusive(cs.as_slice());
    let ghost lsv = lines(md@);
    let mut chunks: Vec<String> = Vec::new();
    let mut cur: Vec<char> = Vec::new();
    let mut i: usize = 0;
    proof {
        assert(lsv.take(0) =~= Seq::<Seq<char>>::empty());
        assert(string_rows(chunks@) =~= Seq::<Seq<char>>::empty());
        assert(cur@ =~= Seq::<char>::empty());
    }
    while i < ls.len()
        invariant
            char_rows(ls@) == lsv,
            i <= ls@.len(),
            (string_rows(chunks@), cur@) == chunk_lines(lsv.take(i as int), limit as nat),
            cur@.len() <= limit,
        decreases ls@.len() - i,
    {
        let line = &ls[i];
        let l = line.len();
        let ghost lv = line@;
        proof {
            assert(lsv[i as int] == lv);
            assert(lsv.take(i as int + 1).drop_last() =~= lsv.take(i as int));
            assert(lsv.take(i as int + 1).last() == lv);
        }
        let ghost st0 = (string_rows(chunks@), cur@);
        let flushed = cur.len() > 0 && l > limit - cur.len();
        if flushed {
            let s = string_from_chars(cur.as_slice());
            chunks.push(s);
            cur = Vec::new();
        }
        proof {
            assert(string_rows(chunks@) =~= (if flushed {
                st0.0.push(st0.1)
            } else {
                st0.0
            }));
            assert(cur@ =~= (if flushed {
                Seq::<char>::empty()
            } else {
                st0.1
            }));
        }
        if l > limit {
            let ghost chunks1 = string_rows(chunks@);
            let mut buf: Vec<char> = Vec::new();
            let mut k: usize = 0;
            proof {
                assert(lv.skip(0) =~= lv);
                assert(buf@ =~= Seq::<char>::empty());
            }
            while k < l
                invariant
                    l == lv.len(),
                    lv == line@,
                    k <= l,
                    buf@.len() < limit || (limit == 0 && buf@.len() == 0),
                    hard_split_from(lv.skip(k as int), limit as nat, string_rows(chunks@), buf@)
                        == hard_split_from(lv, limit as nat, chunks1, Seq::<char>::empty()),
                decreases l - k,
            {
                proof {
                    assert(lv.skip(k as int).drop_first() =~= lv.skip(k as int + 1));
                    assert(lv.skip(k as int)[0] == lv[k as int]);
                }
                buf.push(line[k]);
                if buf.len() >= limit {
                    let s = string_from_chars(buf.as_slice());
                    let ghost before = string_rows(chunks@);
                    chunks.push(s);
                    buf = Vec::new();
                    proof {
                        assert(string_rows(chunks@) =~= before.push(s@));
                        assert(buf@ =~= Seq::<char>::empty());
                    }
                }
                k = k + 1;
            }
            proof {
                assert(lv.skip(l as int) =~= Seq::<char>::empty());
            }
            let ghost cur_before = cur@;
            cur.append(&mut buf);
            proof {
                assert(cur@ =~= cur_before + hard_split_from(lv, limit as nat, chunks1, Seq::<char>::empty()).1);
            }
        } else {
            let ghost cur_before = cur@;
            let mut k: usize = 0;
            while k < l
                invariant
                    l == lv.len(),
                    lv == line@,
                    k <= l,
                    cur@ == cur_before + lv.take(k as int),
                decreases l - k,
            {
                cur.push(line[k]);
                proof {
                    assert(lv.take(k as int + 1) =~= lv.take(k as int).push(lv[k as int]));
                }
                k = k + 1;
            }
            proof {
                assert(lv.take(l as int) =~= lv);
            }
        }
        i = i + 1;
    }
    proof {
        assert(lsv.take(ls@.len() as int) =~= lsv);
    }
    if cur.len() > 0 {
        let s = string_from_chars(cur.as_slice());
        let ghost before = string_rows(chunks@);
        chunks.push(s);
        proof {
            assert(string_rows(chunks@) =~= before.push(s@));
        }
    }
    chunks
}

/// Split markdown into chunks of at most `limit` characters, preferring to
/// cut at line ends.  The chunks put back together are the text; every
/// chunk of a non-empty text is non-empty; with a positive `limit` no
/// chunk is longer than `limit` characters.
pub fn chunk_markdown(md: &str, limit: usize) -> (r: Vec<String>)
    ensures
        string_rows(r@) == chunks_of(md@, limit as nat),
        string_rows(r@).flatten() == md@,
        limit >= 1 ==> forall|j: int| 0 <= j < r@.len() ==> #[trigger] r@[j]@.len() <= limit,
        md@.len() > 0 ==> forall|j: int| 0 <= j < r@.len() ==> #[trigger] r@[j]@.len() >= 1,
{
    let r = chunk_walk(md, limit);
    proof {
        lemma_chunks_of(md@, limit as nat);
        assert forall|j: int| 0 <= j < r@.len() implies #[trigger] r@[j]@ == string_rows(r@)[j] by {}
    }
    r
}

/// The pages of `chunks_of` put back together are the text; they are
/// well sized when the text is not empty, and never longer than `limit`.
pub proof fn lemma_chunks_of(md: Seq<char>, limit: nat)
    ensures
        chunks_of(md, limit).flatten() == md,
        limit >= 1 ==> forall|j: int|
            0 <= j < chunks_of(md, limit).len() ==> #[trigger] chunks_of(md, limit)[j].len() <= limit,
        md.len() > 0 ==> well_sized(chunks_of(md, limit), limit),
{
    if md.len() <= limit {
        Seq::<Seq<char>>::empty().lemma_flatten_push(md);
        assert(seq![md] =~= Seq::<Seq<char>>::empty().push(md));
    } else {
        lemma_lines_from(md, Seq::empty());
        assert(Seq::<char>::empty() + md =~= md);
        lemma_chunk_lines(lines(md), limit);
        let st = chunk_lines(lines(md), limit);
        if st.1.len() > 0 {
            st.0.lemma_flatten_push(st.1);
            assert forall|j: int| 0 <= j < st.0.push(st.1).len() implies #[trigger] st.0.push(
                st.1,
            )[j].len() >= 1 && (limit >= 1 ==> st.0.push(st.1)[j].len() <= limit) by {
                if j < st.0.len() {
                    assert(st.0.push(st.1)[j] == st.0[j]);
                }
            }
        } else {
            assert(st.0.flatten() + st.1 =~= st.0.flatten());
        }
    }
}

/// Every line but the last ends with a newline.
proof fn lemma_lines_end(s: Seq<char>, cur: Seq<char>)
    ensures
        forall|j: int|
            0 <= j < lines_from(s, cur).len() - 1 ==> #[trigger] lines_from(s, cur)[j].last() == '\n',
    decreases s.len(),
{
    if s.len() == 0 {
    } else if s[0] == '\n' {
        let rest = lines_from(s.drop_first(), Seq::empty());
        lemma_lines_end(s.drop_first(), Seq::empty());
        let head = seq![cur.push('\n')];
        assert(lines_from(s, cur) == head + rest);
        assert forall|j: int| 0 <= j < (head + rest).len() - 1 implies #[trigger] (head + rest)[j].last()
            == '\n' by {
            if j > 0 {
                assert((head + rest)[j] == rest[j - 1]);
            } else {
                assert((head + rest)[0] == cur.push('\n'));
            }
        }
    } else {
        lemma_lines_end(s.drop_first(), cur.push(s[0]));
        assert(lines_from(s, cur) == lines_from(s.drop_first(), cur.push(s[0])));
    }
}

/// Packing lines that each fit: every closed chunk ends with a newline,
/// and the open chunk ends like the last line.
proof fn lemma_chunk_lines_whole(ls: Seq<Seq<char>>, limit: nat)
    requires
        forall|j: int| 0 <= j < ls.len() ==> 1 <= #[trigger] ls[j].len() <= limit,
        forall|j: int| 0 <= j < ls.len() - 1 ==> #[trigger] ls[j].last() == '\n',
    ensures
        forall|j: int|
            0 <= j < chunk_lines(ls, limit).0.len() ==> #[trigger] chunk_lines(ls, limit).0[j].len() > 0
                && chunk_lines(ls, limit).0[j].last() == '\n',
        chunk_lines(ls, limit).1.len() > 0 ==> ls.len() > 0 && chunk_lines(ls, limit).1.last()
            == ls.last().last(),
    decreases ls.len(),
{
    if ls.len() > 0 {
        let d = ls.drop_last();
        assert forall|j: int| 0 <= j < d.len() implies 1 <= #[trigger] d[j].len() <= limit by {
            assert(d[j] == ls[j]);
        }
        assert forall|j: int| 0 <= j < d.len() - 1 implies #[trigger] d[j].last() == '\n' by {
            assert(d[j] == ls[j]);
        }
        lemma_chunk_lines_whole(d, limit);
        let st = chunk_lines(d, limit);
        let line = ls.last();
        assert(1 <= ls[ls.len() - 1].len() <= limit);
        if st.1.len() > 0 {
            assert(d.len() > 0);
            assert(d[d.len() - 1] == ls[ls.len() - 2]);
            assert(st.1.last() == '\n');
        }
        let flushed = st.1.len() + line.len() > limit && st.1.len() > 0;
        let cur1 = if flushed {
            Seq::<char>::empty()
        } else {
            st.1
        };
        assert((cur1 + line).last() == line.last());
        if flushed {
            assert forall|j: int| 0 <= j < st.0.push(st.1).len() implies #[trigger] st.0.push(st.1)[j].len()
                > 0 && st.0.push(st.1)[j].last() == '\n' by {
                if j < st.0.len() {
                    assert(st.0.push(st.1)[j] == st.0[j]);
                }
            }
        }
    }
}

/// When every line of the text (newline included) fits in `limit`, the
/// pages are whole lines: every page but the last ends with a newline.
pub proof fn lemma_chunks_keep_lines(md: Seq<char>, limit: nat)
    requires
        limit >= 1,
        forall|j: int| 0 <= j < lines(md).len() ==> #[trigger] lines(md)[j].len() <= limit,
    ensures
        forall|j: int|
            0 <= j < chunks_of(md, limit).len() - 1 ==> #[trigger] chunks_of(md, limit)[j].len() > 0
                && chunks_of(md, limit)[j].last() == '\n',
{
    if md.len() > limit {
        lemma_lines_from(md, Seq::empty());
        lemma_lines_end(md, Seq::empty());
        let ls = lines(md);
        assert forall|j: int| 0 <= j < ls.len() implies 1 <= #[trigger] ls[j].len() <= limit by {}
        lemma_chunk_lines_whole(ls, limit);
        let st = chunk_lines(ls, limit);
        if st.1.len() > 0 {
            assert forall|j: int| 0 <= j < st.0.push(st.1).len() - 1 implies #[trigger] st.0.push(
                st.1,
            )[j].len() > 0 && st.0.push(st.1)[j].last() == '\n' by {
                assert(st.0.push(st.1)[j] == st.0[j]);
            }
        }
    }
}

// ---------------------------------------------------------------------
// Embeds
// ---------------------------------------------------------------------

/// A rich embed as the bot sends it: title, description, colour, footer
/// text and an optional link.
pub struct Embed {
    pub title: String,
    pub description: String,
    pub color: u32,
    pub footer: String,
    pub url: Option<String>,
}

/// `s` when it has at most `max` characters, else its first `max - 1`
/// characters and `'…'`.
pub open spec fn truncate_spec(s: Seq<char>, max: nat) -> Seq<char> {
    clip(s, max, if max >= 1 {
        (max - 1) as nat
    } else {
        0
    })
}

/// Shortens `s` to at most `max` characters, marking the cut with `'…'`.
fn truncate(s: &str, max: usize) -> (r: String)
    ensures
        r@ == truncate_spec(s@, max as nat),
{
    let cs = to_chars(s);
    let keep: usize = if max >= 1 {
        max - 1
    } else {
        0
    };
    let v = clip_chars(cs.as_slice(), max, keep);
    string_from_chars(v.as_slice())
}

/// Builds an embed: the description is cut to 4096 characters, the
/// title to 256 and the footer to 2048, as Discord requires.
pub fn build_embed(title: &str, description: &str, color: u32, footer: &str, url: Option<&str>) -> (r:
    Embed)
    ensures
        r.title@ == truncate_spec(title@, 256),
        r.description@ == truncate_spec(description@, 4096),
        r.color == color,
        r.footer@ == truncate_spec(footer@, 2048),
        r.url is Some <==> url is Some,
        url is Some ==> r.url.unwrap()@ == url.unwrap()@,
{
    let u = match url {
        Some(s) => Some(s.to_owned()),
        None => None,
    };
    Embed {
        title: truncate(title, 256),
        description: truncate(description, 4096),
        color,
        footer: truncate(footer, 2048),
        url: u,
    }
}

// ---------------------------------------------------------------------
// Pagination buttons
// ---------------------------------------------------------------------

/// A secondary-style button.
pub struct Button {
    pub custom_id: String,
    pub label: String,
    pub disabled: bool,
}

/// A row of buttons.
pub struct ActionRow {
    pub buttons: Vec<Button>,
}

/// Custom id of a pagination button: `docs:<dir>:<page>`.
pub open spec fn page_button_id(dir: Seq<char>, page: nat) -> Seq<char> {
    seq!['d', 'o', 'c', 's', ':'] + dir + seq![':'] + decimal(page)
}

/// `docs:<dir>:<page>` as a string.
fn page_button_custom_id(prev: bool, page: usize) -> (r: String)
    ensures
        r@ == page_button_id(if prev {
            seq!['p', 'r', 'e', 'v']
        } else {
            seq!['n', 'e', 'x', 't']
        }, page as nat),
{
    let mut v: Vec<char> = Vec::new();
    v.push('d');
    v.push('o');
    v.push('c');
    v.push('s');
    v.push(':');
    if prev {
        v.push('p');
        v.push('r');
        v.push('e');
        v.push('v');
    } else {
        v.push('n');
        v.push('e');
        v.push('x');
        v.push('t');
    }
    v.push(':');
    push_decimal(&mut v, page as u64);
    let ghost dir = if prev {
        seq!['p', 'r', 'e', 'v']
    } else {
        seq!['n', 'e', 'x', 't']
    };
    proof {
        assert(v@ =~= page_button_id(dir, page as nat));
    }
    string_from_chars(v.as_slice())
}

/// `rows` is the pagination row for page `page` (0-based) of `total`: a
/// "< Prev" button, disabled on the first page, and a "Next >" button,
/// disabled on the last page.  Their custom ids carry the current page.
pub open spec fn is_pagination_row(rows: Seq<ActionRow>, page: nat, total: nat) -> bool {
    &&& rows.len() == 1
    &&& rows[0].buttons@.len() == 2
    &&& rows[0].buttons@[0].custom_id@ == page_button_id(seq!['p', 'r', 'e', 'v'], page)
    &&& rows[0].buttons@[0].label@ == "< Prev"@
    &&& rows[0].buttons@[0].disabled == (page == 0)
    &&& rows[0].buttons@[1].custom_id@ == page_button_id(seq!['n', 'e', 'x', 't'], page)
    &&& rows[0].buttons@[1].label@ == "Next >"@
    &&& rows[0].buttons@[1].disabled == (page + 1 >= total)
}

/// The pagination row for page `page` of `total` (see `is_pagination_row`).
pub fn pagination_row(page: usize, total: usize) -> (r: Vec<ActionRow>)
    ensures
        is_pagination_row(r@, page as nat, total as nat),
{
    let prev = Button {
        custom_id: page_button_custom_id(true, page),
        label: "< Prev".to_owned(),
        disabled: page == 0,
    };
    let last = total == 0 || page >= total - 1;
    let next = Button {
        custom_id: page_button_custom_id(false, page),
        label: "Next >".to_owned(),
        disabled: last,
    };
    let buttons = vec![prev, next];
    vec![ActionRow { buttons }]
}

} // verus!
