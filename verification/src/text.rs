//! Character-level text model shared by the whole crate.
//!
//! Strings are reasoned about through their `Seq<char>` views.  The
//! functions here are the few `str` operations the bot relies on
//! (ASCII case folding, Unicode white space trimming and splitting,
//! substring search, UTF-8 byte lengths, decimal numbers), each stated
//! by a short spec function and implemented over character vectors.

use vstd::prelude::*;

verus! {

// ---------------------------------------------------------------------
// Trusted building block
// ---------------------------------------------------------------------

/// Appends one character to a `String`.
///
/// Trusted: `String::push` appends exactly `c` to the character sequence.
#[verifier::external_body]
pub(crate) fn push_char(s: &mut String, c: char)
    ensures
        final(s)@ == old(s)@.push(c),
{
    s.push(c);
}

/// Unicode lower-case mapping of a character (`char::to_lowercase`).
pub uninterp spec fn unicode_lowercase(c: char) -> Seq<char>;

/// Unicode `Alphabetic` or `Numeric` (`char::is_alphanumeric`).
pub uninterp spec fn unicode_alphanumeric(c: char) -> bool;

/// An ASCII letter or digit.
pub open spec fn is_ascii_alnum(c: char) -> bool {
    ('0' <= c && c <= '9') || ('a' <= c && c <= 'z') || ('A' <= c && c <= 'Z')
}

/// The characters `char::to_lowercase` yields: the ASCII lower-case
/// letter, or the character itself, on ASCII; the Unicode mapping
/// elsewhere.
pub open spec fn char_lower(c: char) -> Seq<char> {
    if (c as u32) < 128 {
        seq![ascii_lower_char(c)]
    } else {
        unicode_lowercase(c)
    }
}

/// `char::is_alphanumeric`: ASCII letters and digits on ASCII, the Unicode
/// test elsewhere.
pub open spec fn char_alnum(c: char) -> bool {
    if (c as u32) < 128 {
        is_ascii_alnum(c)
    } else {
        unicode_alphanumeric(c)
    }
}

/// The characters `char::to_lowercase` yields for `c`.
///
/// Trusted: the result is the fixed Unicode lower-case mapping of `c`
/// (named `unicode_lowercase`); for an ASCII character it is the ASCII
/// lower-case letter, or `c` itself when `c` is not a letter, as the
/// standard library documents.
#[verifier::external_body]
pub(crate) fn lowercase_of(c: char) -> (r: Vec<char>)
    ensures
        r@ == unicode_lowercase(c),
        r@ == char_lower(c),
{
    c.to_lowercase().collect()
}

/// `char::is_alphanumeric`.
///
/// Trusted: the result is the Unicode `Alphabetic`/`Numeric` test (named
/// `unicode_alphanumeric`); on ASCII it holds exactly for letters and
/// digits, as the standard library documents.
#[verifier::external_body]
pub(crate) fn is_alphanumeric(c: char) -> (r: bool)
    ensures
        r == unicode_alphanumeric(c),
        r == char_alnum(c),
{
    c.is_alphanumeric()
}

// ---------------------------------------------------------------------
// Conversions between strings and character vectors
// ---------------------------------------------------------------------

/// The characters of `s`, in order.
pub fn to_chars(s: &str) -> (r: Vec<char>)
    ensures
        r@ == s@,
{
    let mut r: Vec<char> = Vec::new();
    for c in it: s.chars()
        invariant
            r@ == it.seq().take(it.index() as int),
    {
        r.push(c);
    }
    r
}

/// Appends every character of `cs` to `out`.
pub fn push_chars(out: &mut String, cs: &[char])
    ensures
        final(out)@ == old(out)@ + cs@,
{
    let mut i: usize = 0;
    while i < cs.len()
        invariant
            i <= cs@.len(),
            out@ == old(out)@ + cs@.take(i as int),
        decreases cs@.len() - i,
    {
        push_char(out, cs[i]);
        proof {
            assert(cs@.take(i as int + 1) =~= cs@.take(i as int).push(cs@[i as int]));
        }
        i = i + 1;
    }
    proof {
        assert(cs@.take(cs@.len() as int) =~= cs@);
    }
}

/// A new `String` holding the characters of `cs`.
pub fn string_from_chars(cs: &[char]) -> (r: String)
    ensures
        r@ == cs@,
{
    let mut r = String::new();
    push_chars(&mut r, cs);
    r
}

/// Appends `s` to `out`.
pub fn push_str(out: &mut String, s: &str)
    ensures
        final(out)@ == old(out)@ + s@,
{
    let cs = to_chars(s);
    push_chars(out, cs.as_slice());
}

/// The concatenation of `a` and `b`.
pub fn concat2(a: &str, b: &str) -> (r: String)
    ensures
        r@ == a@ + b@,
{
    let mut r = String::new();
    push_str(&mut r, a);
    push_str(&mut r, b);
    proof {
        assert(Seq::<char>::empty() + a@ =~= a@);
    }
    r
}

// ---------------------------------------------------------------------
// ASCII case folding
// ---------------------------------------------------------------------

/// `c` is one of `'A'..='Z'`.
pub open spec fn is_ascii_upper(c: char) -> bool {
    'A' <= c && c <= 'Z'
}

/// ASCII lower-casing of one character; every other character is kept.
pub open spec fn ascii_lower_char(c: char) -> char {
    if is_ascii_upper(c) {
        ((c as u32) + 32) as char
    } else {
        c
    }
}

/// ASCII lower-casing of a character sequence (`str::to_ascii_lowercase`).
pub open spec fn ascii_lower(s: Seq<char>) -> Seq<char> {
    s.map_values(|c: char| ascii_lower_char(c))
}

/// ASCII lower-casing of one character.
pub fn lower_char(c: char) -> (r: char)
    ensures
        r == ascii_lower_char(c),
{
    if 'A' <= c && c <= 'Z' {
        let b: u8 = c as u8;
        let l: u8 = b + 32;
        proof {
            assert(b as u32 == c as u32);
        }
        l as char
    } else {
        c
    }
}

/// ASCII lower-casing of a character slice.
pub fn lower_chars(s: &[char]) -> (r: Vec<char>)
    ensures
        r@ == ascii_lower(s@),
{
    let mut r: Vec<char> = Vec::new();
    let mut i: usize = 0;
    while i < s.len()
        invariant
            i <= s@.len(),
            r@ == ascii_lower(s@.take(i as int)),
        decreases s@.len() - i,
    {
        let c = lower_char(s[i]);
        r.push(c);
        proof {
            assert(ascii_lower(s@.take(i as int + 1)) =~= ascii_lower(s@.take(i as int)).push(c));
        }
        i = i + 1;
    }
    proof {
        assert(s@.take(s@.len() as int) =~= s@);
    }
    r
}

/// ASCII lower-casing of a string (`str::to_ascii_lowercase`).
pub fn to_ascii_lowercase(s: &str) -> (r: Vec<char>)
    ensures
        r@ == ascii_lower(s@),
{
    let cs = to_chars(s);
    lower_chars(cs.as_slice())
}

/// Case-insensitive ASCII comparison (`str::eq_ignore_ascii_case`).
pub fn eq_ignore_ascii_case(a: &[char], b: &[char]) -> (r: bool)
    ensures
        r == (ascii_lower(a@) == ascii_lower(b@)),
{
    let la = lower_chars(a);
    let lb = lower_chars(b);
    chars_eq(la.as_slice(), lb.as_slice())
}

/// `a` equals the string `b`.
pub fn is_str_chars(a: &[char], b: &str) -> (r: bool)
    ensures
        r == (a@ == b@),
{
    let bc = to_chars(b);
    chars_eq(a, bc.as_slice())
}

/// Character-wise equality of two slices.
pub fn chars_eq(a: &[char], b: &[char]) -> (r: bool)
    ensures
        r == (a@ == b@),
{
    if a.len() != b.len() {
        return false;
    }
    let mut i: usize = 0;
    while i < a.len()
        invariant
            a@.len() == b@.len(),
            i <= a@.len(),
            forall|k: int| 0 <= k < i ==> a@[k] == b@[k],
        decreases a@.len() - i,
    {
        if a[i] != b[i] {
            return false;
        }
        i = i + 1;
    }
    proof {
        assert(a@ =~= b@);
    }
    true
}

// ---------------------------------------------------------------------
// Unicode white space
// ---------------------------------------------------------------------

/// The Unicode `White_Space` property, as tested by `char::is_whitespace`.
pub open spec fn is_ws(c: char) -> bool {
    let u = c as u32;
    ||| 0x09 <= u && u <= 0x0D
    ||| u == 0x20
    ||| u == 0x85
    ||| u == 0xA0
    ||| u == 0x1680
    ||| 0x2000 <= u && u <= 0x200A
    ||| u == 0x2028
    ||| u == 0x2029
    ||| u == 0x202F
    ||| u == 0x205F
    ||| u == 0x3000
}

/// `char::is_whitespace`.
pub fn is_whitespace(c: char) -> (r: bool)
    ensures
        r == is_ws(c),
{
    let u: u32 = c as u32;
    (0x09 <= u && u <= 0x0D) || u == 0x20 || u == 0x85 || u == 0xA0 || u == 0x1680 || (0x2000
        <= u && u <= 0x200A) || u == 0x2028 || u == 0x2029 || u == 0x202F || u == 0x205F || u
        == 0x3000
}

/// `s` without its leading white space (`str::trim_start`).
pub open spec fn trim_start(s: Seq<char>) -> Seq<char>
    decreases s.len(),
{
    if s.len() > 0 && is_ws(s[0]) {
        trim_start(s.drop_first())
    } else {
        s
    }
}

/// `s` without its trailing white space (`str::trim_end`).
pub open spec fn trim_end(s: Seq<char>) -> Seq<char>
    decreases s.len(),
{
    if s.len() > 0 && is_ws(s.last()) {
        trim_end(s.drop_last())
    } else {
        s
    }
}

/// `s` without leading and trailing white space (`str::trim`).
pub open spec fn trim(s: Seq<char>) -> Seq<char> {
    trim_end(trim_start(s))
}

/// `str::trim` on a character slice.
pub fn trim_chars(s: &[char]) -> (r: Vec<char>)
    ensures
        r@ == trim(s@),
{
    let n = s.len();
    let mut i: usize = 0;
    proof {
        assert(s@.subrange(0, n as int) =~= s@);
    }
    while i < n && is_whitespace(s[i])
        invariant
            n == s@.len(),
            i <= n,
            trim_start(s@) == trim_start(s@.subrange(i as int, n as int)),
        decreases n - i,
    {
        proof {
            assert(s@.subrange(i as int, n as int).drop_first() =~= s@.subrange(
                i as int + 1,
                n as int,
            ));
        }
        i = i + 1;
    }
    let ghost t = s@.subrange(i as int, n as int);
    assert(trim_start(s@) == t);
    let mut j: usize = n;
    while j > i && is_whitespace(s[j - 1])
        invariant
            n == s@.len(),
            i <= j <= n,
            t == s@.subrange(i as int, n as int),
            trim_end(t) == trim_end(s@.subrange(i as int, j as int)),
        decreases j,
    {
        proof {
            assert(s@.subrange(i as int, j as int).drop_last() =~= s@.subrange(
                i as int,
                j as int - 1,
            ));
        }
        j = j - 1;
    }
    let mut r: Vec<char> = Vec::new();
    let mut k: usize = i;
    while k < j
        invariant
            i <= k <= j <= n,
            n == s@.len(),
            r@ == s@.subrange(i as int, k as int),
        decreases j - k,
    {
        r.push(s[k]);
        proof {
            assert(s@.subrange(i as int, k as int + 1) =~= s@.subrange(i as int, k as int).push(
                s@[k as int],
            ));
        }
        k = k + 1;
    }
    r
}

/// `str::trim` on a string.
pub fn trim_str(s: &str) -> (r: Vec<char>)
    ensures
        r@ == trim(s@),
{
    let cs = to_chars(s);
    trim_chars(cs.as_slice())
}

/// The word sequence of `s`, where `cur` is the word being read
/// (`str::split_whitespace`).
pub open spec fn words_from(s: Seq<char>, cur: Seq<char>) -> Seq<Seq<char>>
    decreases s.len(),
{
    if s.len() == 0 {
        if cur.len() > 0 {
            seq![cur]
        } else {
            Seq::empty()
        }
    } else if is_ws(s[0]) {
        (if cur.len() > 0 {
            seq![cur]
        } else {
            Seq::empty()
        }) + words_from(s.drop_first(), Seq::empty())
    } else {
        words_from(s.drop_first(), cur.push(s[0]))
    }
}

/// The maximal runs of non-white-space characters of `s`
/// (`str::split_whitespace`).
pub open spec fn words(s: Seq<char>) -> Seq<Seq<char>> {
    words_from(s, Seq::empty())
}

/// There are no more words than characters.
pub proof fn lemma_words_from_len(s: Seq<char>, cur: Seq<char>)
    ensures
        words_from(s, cur).len() <= s.len() + (if cur.len() > 0 {
            1int
        } else {
            0int
        }),
    decreases s.len(),
{
    if s.len() > 0 {
        if is_ws(s[0]) {
            lemma_words_from_len(s.drop_first(), Seq::empty());
        } else {
            lemma_words_from_len(s.drop_first(), cur.push(s[0]));
        }
    }
}

/// `str::split_whitespace` on a character slice.
pub fn split_whitespace(s: &[char]) -> (r: Vec<Vec<char>>)
    ensures
        r@.len() == words(s@).len(),
        forall|k: int| 0 <= k < r@.len() ==> #[trigger] r@[k]@ == words(s@)[k],
{
    let n = s.len();
    let mut out: Vec<Vec<char>> = Vec::new();
    let mut cur: Vec<char> = Vec::new();
    let mut i: usize = 0;
    let ghost empty = Seq::<char>::empty();
    proof {
        assert(s@.subrange(0, n as int) =~= s@);
    }
    while i < n
        invariant
            n == s@.len(),
            i <= n,
            out@.map_values(|w: Vec<char>| w@) + words_from(
                s@.subrange(i as int, n as int),
                cur@,
            ) == words(s@),
        decreases n - i,
    {
        let ghost rest = s@.subrange(i as int, n as int);
        proof {
            assert(rest.drop_first() =~= s@.subrange(i as int + 1, n as int));
        }
        let c = s[i];
        if is_whitespace(c) {
            if cur.len() > 0 {
                let ghost old_out = out@.map_values(|w: Vec<char>| w@);
                let ghost w = cur@;
                out.push(cur);
                cur = Vec::new();
                proof {
                    assert(out@.map_values(|w: Vec<char>| w@) =~= old_out.push(w));
                    assert(old_out + (seq![w] + words_from(rest.drop_first(), empty)) =~= old_out.push(w)
                        + words_from(rest.drop_first(), empty));
                    assert(cur@ =~= Seq::<char>::empty());
                }
            } else {
                proof {
                    assert(cur@ =~= Seq::<char>::empty());
                    assert(Seq::<Seq<char>>::empty() + words_from(rest.drop_first(), empty)
                        =~= words_from(rest.drop_first(), empty));
                }
            }
        } else {
            cur.push(c);
        }
        i = i + 1;
    }
    if cur.len() > 0 {
        let ghost old_out = out@.map_values(|w: Vec<char>| w@);
        let ghost w = cur@;
        out.push(cur);
        proof {
            assert(out@.map_values(|w: Vec<char>| w@) =~= old_out.push(w));
            assert(s@.subrange(n as int, n as int).len() == 0);
            assert(old_out + seq![w] =~= old_out.push(w));
        }
    } else {
        proof {
            assert(s@.subrange(n as int, n as int).len() == 0);
            assert(out@.map_values(|w: Vec<char>| w@) + Seq::<Seq<char>>::empty() =~= out@.map_values(
                |w: Vec<char>| w@,
            ));
        }
    }
    proof {
        let m = out@.map_values(|w: Vec<char>| w@);
        assert forall|k: int| 0 <= k < out@.len() implies #[trigger] out@[k]@ == words(s@)[k] by {
            assert(m[k] == out@[k]@);
        }
    }
    out
}

// ---------------------------------------------------------------------
// Substring search
// ---------------------------------------------------------------------

/// `p` occurs in `s` at position `i`.
pub open spec fn occurs_at(s: Seq<char>, p: Seq<char>, i: int) -> bool {
    0 <= i && i + p.len() <= s.len() && s.subrange(i, i + p.len()) == p
}

/// `p` occurs somewhere in `s` (`str::contains`; the empty pattern occurs
/// everywhere).
pub open spec fn seq_contains(s: Seq<char>, p: Seq<char>) -> bool {
    exists|i: int| occurs_at(s, p, i)
}

/// An occurrence in `t` is an occurrence in `t + s`.
pub proof fn lemma_contains_prefix(t: Seq<char>, s: Seq<char>, w: Seq<char>)
    requires
        seq_contains(t, w),
    ensures
        seq_contains(t + s, w),
{
    let i = choose|i: int| occurs_at(t, w, i);
    assert((t + s).subrange(i, i + w.len()) =~= t.subrange(i, i + w.len()));
    assert(occurs_at(t + s, w, i));
}

/// Every word of `words_from(s, cur)` occurs in `t + s`, when `t` ends
/// with the pending word `cur`.
pub proof fn lemma_words_occur(t: Seq<char>, s: Seq<char>, cur: Seq<char>)
    requires
        cur.len() <= t.len(),
        t.subrange(t.len() - cur.len(), t.len() as int) == cur,
    ensures
        forall|k: int|
            0 <= k < words_from(s, cur).len() ==> seq_contains(t + s, #[trigger] words_from(s, cur)[k]),
    decreases s.len(),
{
    if cur.len() > 0 {
        assert(occurs_at(t, cur, t.len() - cur.len()));
        lemma_contains_prefix(t, s, cur);
    }
    if s.len() == 0 {
        if cur.len() > 0 {
            assert(words_from(s, cur)[0] == cur);
        }
    } else if is_ws(s[0]) {
        let t2 = t.push(s[0]);
        assert(t2.subrange(t2.len() as int, t2.len() as int) =~= Seq::<char>::empty());
        lemma_words_occur(t2, s.drop_first(), Seq::empty());
        assert(t2 + s.drop_first() =~= t + s);
        let head: Seq<Seq<char>> = if cur.len() > 0 {
            seq![cur]
        } else {
            Seq::empty()
        };
        let rest = words_from(s.drop_first(), Seq::empty());
        assert(words_from(s, cur) == head + rest);
        assert forall|k: int| 0 <= k < words_from(s, cur).len() implies seq_contains(
            t + s,
            #[trigger] words_from(s, cur)[k],
        ) by {
            if k < head.len() {
                assert(words_from(s, cur)[k] == cur);
            } else {
                assert(words_from(s, cur)[k] == rest[k - head.len()]);
            }
        }
    } else {
        let t2 = t.push(s[0]);
        let c2 = cur.push(s[0]);
        assert(t2.subrange(t2.len() - c2.len(), t2.len() as int) =~= c2);
        lemma_words_occur(t2, s.drop_first(), c2);
        assert(t2 + s.drop_first() =~= t + s);
        assert(words_from(s, cur) == words_from(s.drop_first(), c2));
        assert forall|k: int| 0 <= k < words_from(s, cur).len() implies seq_contains(
            t + s,
            #[trigger] words_from(s, cur)[k],
        ) by {
            assert(words_from(s, cur)[k] == words_from(s.drop_first(), c2)[k]);
        }
    }
}

/// Every word of `q` occurs in `q`.
pub proof fn lemma_words_in(q: Seq<char>)
    ensures
        forall|k: int| 0 <= k < words(q).len() ==> seq_contains(q, #[trigger] words(q)[k]),
{
    let e = Seq::<char>::empty();
    assert(e.subrange(0, 0) =~= e);
    lemma_words_occur(e, q, e);
    assert(e + q =~= q);
}

/// An occurrence of an occurrence is an occurrence.
pub proof fn lemma_contains_trans(h: Seq<char>, q: Seq<char>, w: Seq<char>)
    requires
        seq_contains(h, q),
        seq_contains(q, w),
    ensures
        seq_contains(h, w),
{
    let j = choose|j: int| occurs_at(h, q, j);
    let i = choose|i: int| occurs_at(q, w, i);
    assert(h.subrange(j + i, j + i + w.len()) =~= q.subrange(i, i + w.len()));
    assert(occurs_at(h, w, j + i));
}

/// `p` occurs in `s` at position `i` (checked character by character).
fn matches_at(s: &[char], p: &[char], i: usize) -> (r: bool)
    requires
        i + p@.len() <= s@.len(),
    ensures
        r == occurs_at(s@, p@, i as int),
{
    let n = s.len();
    let mut k: usize = 0;
    while k < p.len()
        invariant
            n == s@.len(),
            i + p@.len() <= s@.len(),
            k <= p@.len(),
            forall|m: int| 0 <= m < k ==> s@[i + m] == p@[m],
        decreases p@.len() - k,
    {
        if s[i + k] != p[k] {
            proof {
                assert(s@.subrange(i as int, i + p@.len())[k as int] != p@[k as int]);
            }
            return false;
        }
        k = k + 1;
    }
    proof {
        assert(s@.subrange(i as int, i + p@.len()) =~= p@);
    }
    true
}

/// `str::contains` on character slices.
pub fn contains(s: &[char], p: &[char]) -> (r: bool)
    ensures
        r == seq_contains(s@, p@),
{
    if p.len() > s.len() {
        return false;
    }
    let last = s.len() - p.len();
    let mut i: usize = 0;
    while i <= last
        invariant
            i <= last,
            last == s@.len() - p@.len(),
            p@.len() <= s@.len(),
            forall|j: int| 0 <= j < i ==> !occurs_at(s@, p@, j),
        decreases last + 1 - i,
    {
        if matches_at(s, p, i) {
            return true;
        }
        if i == last {
            return false;
        }
        i = i + 1;
    }
    false
}

/// Index of the first `c` in `s`.
pub open spec fn first_index_of(s: Seq<char>, c: char) -> Option<int> {
    if exists|i: int| 0 <= i < s.len() && s[i] == c {
        Some(choose|i: int| 0 <= i < s.len() && s[i] == c && forall|j: int| 0 <= j < i ==> s[j] != c)
    } else {
        None
    }
}

/// Index of the first occurrence of `c` (`str::find` on one character,
/// counted in characters).
pub fn find_char(s: &[char], c: char) -> (r: Option<usize>)
    ensures
        match r {
            Some(i) => i < s@.len() && s@[i as int] == c && forall|j: int| 0 <= j < i ==> s@[j] != c,
            None => forall|j: int| 0 <= j < s@.len() ==> s@[j] != c,
        },
{
    let mut i: usize = 0;
    while i < s.len()
        invariant
            i <= s@.len(),
            forall|j: int| 0 <= j < i ==> s@[j] != c,
        decreases s@.len() - i,
    {
        if s[i] == c {
            return Some(i);
        }
        i = i + 1;
    }
    None
}

/// Index of the last occurrence of `c` (`str::rfind` on one character,
/// counted in characters).
pub fn rfind_char(s: &[char], c: char) -> (r: Option<usize>)
    ensures
        match r {
            Some(i) => i < s@.len() && s@[i as int] == c && forall|j: int| i < j < s@.len() ==> s@[j]
                != c,
            None => forall|j: int| 0 <= j < s@.len() ==> s@[j] != c,
        },
{
    let mut i: usize = s.len();
    while i > 0
        invariant
            i <= s@.len(),
            forall|j: int| i <= j < s@.len() ==> s@[j] != c,
        decreases i,
    {
        if s[i - 1] == c {
            return Some(i - 1);
        }
        i = i - 1;
    }
    None
}

/// `s` with every trailing `c` removed (`str::trim_end_matches` with a
/// character pattern).
pub open spec fn trim_end_char(s: Seq<char>, c: char) -> Seq<char>
    decreases s.len(),
{
    if s.len() > 0 && s.last() == c {
        trim_end_char(s.drop_last(), c)
    } else {
        s
    }
}

/// `str::trim_end_matches` with a character pattern.
pub fn trim_end_matches(s: &[char], c: char) -> (r: Vec<char>)
    ensures
        r@ == trim_end_char(s@, c),
{
    let mut j: usize = s.len();
    proof {
        assert(s@.subrange(0, s@.len() as int) =~= s@);
    }
    while j > 0 && s[j - 1] == c
        invariant
            j <= s@.len(),
            trim_end_char(s@, c) == trim_end_char(s@.subrange(0, j as int), c),
        decreases j,
    {
        proof {
            assert(s@.subrange(0, j as int).drop_last() =~= s@.subrange(0, j as int - 1));
        }
        j = j - 1;
    }
    copy_range(s, 0, j)
}

/// A copy of `s[from..to]`.
pub fn copy_range(s: &[char], from: usize, to: usize) -> (r: Vec<char>)
    requires
        from <= to <= s@.len(),
    ensures
        r@ == s@.subrange(from as int, to as int),
{
    let mut r: Vec<char> = Vec::new();
    let mut k: usize = from;
    while k < to
        invariant
            from <= k <= to <= s@.len(),
            r@ == s@.subrange(from as int, k as int),
        decreases to - k,
    {
        r.push(s[k]);
        proof {
            assert(s@.subrange(from as int, k as int + 1) =~= s@.subrange(from as int, k as int).push(
                s@[k as int],
            ));
        }
        k = k + 1;
    }
    r
}


// ---------------------------------------------------------------------
// Shortening with an ellipsis
// ---------------------------------------------------------------------

/// `s` when it has at most `max` characters; otherwise its first `keep`
/// characters followed by `'…'`.
pub open spec fn clip(s: Seq<char>, max: nat, keep: nat) -> Seq<char> {
    if s.len() <= max {
        s
    } else {
        s.take(keep as int).push('…')
    }
}

/// Shortens `s` to `keep` characters plus `'…'` when it is longer than
/// `max` characters.
pub fn clip_chars(s: &[char], max: usize, keep: usize) -> (r: Vec<char>)
    requires
        keep <= max,
    ensures
        r@ == clip(s@, max as nat, keep as nat),
{
    if s.len() <= max {
        copy_range(s, 0, s.len())
    } else {
        let mut r = copy_range(s, 0, keep);
        r.push('…');
        proof {
            assert(s@.subrange(0, s@.len() as int) =~= s@);
        }
        r
    }
}

// ---------------------------------------------------------------------
// UTF-8 byte lengths
// ---------------------------------------------------------------------

/// Number of bytes of `c` in UTF-8 (`char::len_utf8`).
pub open spec fn char_utf8_len(c: char) -> nat {
    let u = c as u32;
    if u < 0x80 {
        1
    } else if u < 0x800 {
        2
    } else if u < 0x10000 {
        3
    } else {
        4
    }
}

/// Number of bytes of `s` in UTF-8 (`str::len`).
pub open spec fn utf8_len(s: Seq<char>) -> nat
    decreases s.len(),
{
    if s.len() == 0 {
        0
    } else {
        utf8_len(s.drop_last()) + char_utf8_len(s.last())
    }
}

/// `char::len_utf8`.
pub fn len_utf8(c: char) -> (r: usize)
    ensures
        r == char_utf8_len(c),
        1 <= r <= 4,
{
    let u: u32 = c as u32;
    if u < 0x80 {
        1
    } else if u < 0x800 {
        2
    } else if u < 0x10000 {
        3
    } else {
        4
    }
}

/// The UTF-8 length of a concatenation is the sum of the lengths.
pub proof fn lemma_utf8_len_concat(a: Seq<char>, b: Seq<char>)
    ensures
        utf8_len(a + b) == utf8_len(a) + utf8_len(b),
    decreases b.len(),
{
    if b.len() == 0 {
        assert(a + b =~= a);
    } else {
        lemma_utf8_len_concat(a, b.drop_last());
        assert((a + b).drop_last() =~= a + b.drop_last());
        assert((a + b).last() == b.last());
    }
}

/// A sequence has at least as many UTF-8 bytes as characters.
pub proof fn lemma_utf8_len_at_least_chars(s: Seq<char>)
    ensures
        utf8_len(s) >= s.len(),
    decreases s.len(),
{
    if s.len() > 0 {
        lemma_utf8_len_at_least_chars(s.drop_last());
    }
}

/// Number of leading characters of `s` that fit into `budget` UTF-8 bytes.
pub open spec fn fit_len(s: Seq<char>, budget: nat) -> nat
    decreases s.len(),
{
    if s.len() == 0 || char_utf8_len(s[0]) > budget {
        0
    } else {
        1 + fit_len(s.drop_first(), (budget - char_utf8_len(s[0])) as nat)
    }
}

/// The longest prefix of `s` whose UTF-8 encoding fits in `budget` bytes
/// (cutting a `str` at the last character boundary at or before `budget`).
pub open spec fn utf8_prefix(s: Seq<char>, budget: nat) -> Seq<char> {
    s.take(fit_len(s, budget) as int)
}

/// `fit_len` never exceeds the length, and the prefix it picks fits.
pub proof fn lemma_fit_len(s: Seq<char>, budget: nat)
    ensures
        fit_len(s, budget) <= s.len(),
        utf8_len(s.take(fit_len(s, budget) as int)) <= budget,
        fit_len(s, budget) < s.len() ==> utf8_len(s.take(fit_len(s, budget) as int + 1)) > budget,
        utf8_len(s) <= budget ==> fit_len(s, budget) == s.len(),
    decreases s.len(),
{
    if s.len() == 0 {
        assert(s.take(0) =~= Seq::<char>::empty());
    } else {
        let c = s[0];
        let head = seq![c];
        assert(utf8_len(head) == char_utf8_len(c)) by {
            assert(head.drop_last() =~= Seq::<char>::empty());
            assert(utf8_len(head.drop_last()) == 0);
        }
        assert(s =~= head + s.drop_first());
        lemma_utf8_len_concat(head, s.drop_first());
        if char_utf8_len(c) > budget {
            assert(s.take(0) =~= Seq::<char>::empty());
            assert(s.take(1) =~= head);
            lemma_utf8_len_at_least_chars(s.drop_first());
        } else {
            let b2 = (budget - char_utf8_len(c)) as nat;
            let t = s.drop_first();
            lemma_fit_len(t, b2);
            let k = fit_len(t, b2);
            assert(s.take(k as int + 1) =~= head + t.take(k as int));
            lemma_utf8_len_concat(head, t.take(k as int));
            if k < t.len() {
                assert(s.take(k as int + 2) =~= head + t.take(k as int + 1));
                lemma_utf8_len_concat(head, t.take(k as int + 1));
            }
        }
    }
}

/// The longest prefix of `s` that fits into `budget` UTF-8 bytes, with its
/// byte length.
pub fn utf8_prefix_len(s: &[char], budget: usize) -> (r: (usize, usize))
    ensures
        r.0 == fit_len(s@, budget as nat),
        r.1 == utf8_len(s@.take(r.0 as int)),
        r.1 <= budget,
{
    let n = s.len();
    let mut i: usize = 0;
    let mut used: usize = 0;
    proof {
        lemma_fit_len(s@, budget as nat);
        assert(s@.subrange(0, n as int) =~= s@);
        assert(s@.take(0) =~= Seq::<char>::empty());
    }
    while i < n
        invariant
            n == s@.len(),
            i <= n,
            used <= budget,
            used == utf8_len(s@.take(i as int)),
            fit_len(s@, budget as nat) == i + fit_len(
                s@.subrange(i as int, n as int),
                (budget - used) as nat,
            ),
        decreases n - i,
    {
        let l = len_utf8(s[i]);
        if l > budget - used {
            return (i, used);
        }
        proof {
            let rest = s@.subrange(i as int, n as int);
            assert(rest[0] == s@[i as int]);
            assert(rest.drop_first() =~= s@.subrange(i as int + 1, n as int));
            assert(s@.take(i as int + 1) =~= s@.take(i as int).push(s@[i as int]));
            assert(s@.take(i as int + 1).drop_last() =~= s@.take(i as int));
        }
        used = used + l;
        i = i + 1;
    }
    (i, used)
}

/// UTF-8 byte length of a character slice.
pub fn utf8_length(s: &[char]) -> (r: usize)
    requires
        utf8_len(s@) <= usize::MAX,
    ensures
        r == utf8_len(s@),
{
    let n = s.len();
    let mut i: usize = 0;
    let mut used: usize = 0;
    proof {
        assert(s@.take(0) =~= Seq::<char>::empty());
    }
    while i < n
        invariant
            n == s@.len(),
            i <= n,
            used == utf8_len(s@.take(i as int)),
            utf8_len(s@) <= usize::MAX,
        decreases n - i,
    {
        proof {
            assert(s@.take(i as int + 1).drop_last() =~= s@.take(i as int));
            assert(s@ =~= s@.take(i as int + 1) + s@.skip(i as int + 1));
            lemma_utf8_len_concat(s@.take(i as int + 1), s@.skip(i as int + 1));
        }
        used = used + len_utf8(s[i]);
        i = i + 1;
    }
    proof {
        assert(s@.take(n as int) =~= s@);
    }
    used
}

// ---------------------------------------------------------------------
// Decimal numbers
// ---------------------------------------------------------------------

/// The ASCII digit for `d < 10`.
pub open spec fn digit_char(d: nat) -> char {
    ((d + 48) as u32) as char
}

/// The decimal representation of `n`, without sign or leading zeros
/// (`u64::to_string`).
pub open spec fn decimal(n: nat) -> Seq<char>
    decreases n,
{
    if n < 10 {
        seq![digit_char(n)]
    } else {
        decimal(n / 10).push(digit_char(n % 10))
    }
}

/// The ASCII digit for `d`.
fn digit(d: u64) -> (r: char)
    requires
        d < 10,
    ensures
        r == digit_char(d as nat),
{
    let b: u8 = (d as u8) + 48;
    b as char
}

/// Appends the decimal representation of `n` to `out`.
pub fn push_decimal(out: &mut Vec<char>, n: u64)
    ensures
        final(out)@ == old(out)@ + decimal(n as nat),
    decreases n,
{
    if n >= 10 {
        push_decimal(out, n / 10);
    }
    let d = digit(n % 10);
    out.push(d);
    proof {
        if n < 10 {
            assert(old(out)@.push(d) =~= old(out)@ + seq![d]);
        } else {
            assert(final(out)@ =~= old(out)@ + decimal(n as nat / 10).push(d));
        }
    }
}

/// A decimal representation is a non-empty run of digits worth `n`.
pub proof fn lemma_decimal(n: nat)
    ensures
        decimal(n).len() > 0,
        forall|i: int| 0 <= i < decimal(n).len() ==> is_digit(#[trigger] decimal(n)[i]),
        digits_value(decimal(n)) == n,
    decreases n,
{
    if n >= 10 {
        lemma_decimal(n / 10);
        let d = decimal(n / 10);
        assert(decimal(n).drop_last() =~= d);
        let k = n % 10;
        assert((digit_char(k) as u32) == k + 48);
        assert(digits_value(decimal(n)) == digits_value(d) * 10 + k);
        assert((n / 10) * 10 + k == n);
        assert forall|i: int| 0 <= i < decimal(n).len() implies is_digit(#[trigger] decimal(n)[i]) by {
            if i < d.len() {
                assert(decimal(n)[i] == d[i]);
            }
        }
    } else {
        assert(decimal(n).drop_last() =~= Seq::<char>::empty());
        assert((digit_char(n) as u32) == n + 48);
        assert(digits_value(decimal(n).drop_last()) == 0);
    }
}

/// `str::parse` reads back what `decimal` writes.
pub proof fn lemma_parse_decimal(n: nat)
    requires
        n <= usize::MAX,
    ensures
        parse_usize_spec(decimal(n)) == Some(n as usize),
{
    lemma_decimal(n);
    assert(is_digit(decimal(n)[0]));
    assert(unsigned_digits(decimal(n)) == decimal(n));
}

/// An ASCII decimal digit.
pub open spec fn is_digit(c: char) -> bool {
    '0' <= c && c <= '9'
}

/// The value of a sequence of decimal digits.
pub open spec fn digits_value(s: Seq<char>) -> nat
    decreases s.len(),
{
    if s.len() == 0 {
        0
    } else {
        digits_value(s.drop_last()) * 10 + ((s.last() as u32) - 48) as nat
    }
}

/// The text after an optional leading `'+'`.
pub open spec fn unsigned_digits(s: Seq<char>) -> Seq<char> {
    if s.len() > 0 && s[0] == '+' {
        s.drop_first()
    } else {
        s
    }
}

/// The number written by `s` as `str::parse` reads an unsigned integer:
/// an optional `'+'` followed by one or more ASCII digits (no bound yet).
pub open spec fn parse_unsigned(s: Seq<char>) -> Option<nat> {
    let t = unsigned_digits(s);
    if t.len() > 0 && (forall|i: int| 0 <= i < t.len() ==> is_digit(t[i])) {
        Some(digits_value(t))
    } else {
        None
    }
}

/// `str::parse::<u64>()`: the value when it is well formed and fits.
pub open spec fn parse_u64_spec(s: Seq<char>) -> Option<u64> {
    match parse_unsigned(s) {
        Some(v) => if v <= u64::MAX {
            Some(v as u64)
        } else {
            None
        },
        None => None,
    }
}

/// A prefix of a digit string is worth no more than the whole string.
proof fn lemma_digits_prefix_le(t: Seq<char>, k: int)
    requires
        0 <= k <= t.len(),
    ensures
        digits_value(t.take(k)) <= digits_value(t),
    decreases t.len() - k,
{
    if k == t.len() {
        assert(t.take(k) =~= t);
    } else {
        lemma_digits_prefix_le(t, k + 1);
        assert(t.take(k + 1).drop_last() =~= t.take(k));
    }
}

/// `v * 10 + d` when it fits in a `u64`.
fn step_value(v: u64, d: u64) -> (r: Option<u64>)
    requires
        d < 10,
    ensures
        match r {
            Some(w) => w == v * 10 + d,
            None => v * 10 + d > u64::MAX,
        },
{
    match v.checked_mul(10) {
        Some(m) => m.checked_add(d),
        None => None,
    }
}

/// `str::parse::<u64>()` on a character slice.
pub fn parse_u64(s: &[char]) -> (r: Option<u64>)
    ensures
        r == parse_u64_spec(s@),
{
    let n = s.len();
    let start: usize = if n > 0 && s[0] == '+' {
        1
    } else {
        0
    };
    let ghost t = s@.subrange(start as int, n as int);
    proof {
        assert(t =~= unsigned_digits(s@));
    }
    if start == n {
        return None;
    }
    let mut i: usize = start;
    while i < n
        invariant
            n == s@.len(),
            start <= i <= n,
            t == s@.subrange(start as int, n as int),
            t == unsigned_digits(s@),
            forall|j: int| 0 <= j < i - start ==> is_digit(#[trigger] t[j]),
        decreases n - i,
    {
        if !('0' <= s[i] && s[i] <= '9') {
            proof {
                assert(t[i - start] == s@[i as int]);
                assert(!is_digit(t[i - start]));
            }
            return None;
        }
        i = i + 1;
    }
    let tv = copy_range(s, start, n);
    digits_to_u64(tv.as_slice())
}

/// One more digit: the value of `t.take(j + 1)`.
proof fn lemma_digits_step(t: Seq<char>, j: int)
    requires
        0 <= j < t.len(),
    ensures
        digits_value(t.take(j + 1)) == digits_value(t.take(j)) * 10 + ((t[j] as u32) - 48) as nat,
{
    assert(t.take(j + 1).drop_last() =~= t.take(j));
    assert(t.take(j + 1).last() == t[j]);
}

/// The value of a non-empty digit string, when it fits in a `u64`.
fn digits_to_u64(t: &[char]) -> (r: Option<u64>)
    requires
        forall|j: int| 0 <= j < t@.len() ==> is_digit(#[trigger] t@[j]),
    ensures
        match r {
            Some(v) => v == digits_value(t@),
            None => digits_value(t@) > u64::MAX,
        },
{
    let n = t.len();
    let mut v: u64 = 0;
    let mut k: usize = 0;
    proof {
        assert(t@.take(0) =~= Seq::<char>::empty());
    }
    while k < n
        invariant
            n == t@.len(),
            k <= n,
            forall|j: int| 0 <= j < t@.len() ==> is_digit(#[trigger] t@[j]),
            v == digits_value(t@.take(k as int)),
        decreases n - k,
    {
        let c = t[k];
        proof {
            assert(is_digit(t@[k as int]));
            lemma_digits_step(t@, k as int);
        }
        let d: u64 = ((c as u32) - 48) as u64;
        match step_value(v, d) {
            Some(w) => {
                v = w;
            },
            None => {
                proof {
                    lemma_digits_prefix_le(t@, k as int + 1);
                }
                return None;
            },
        }
        k = k + 1;
    }
    proof {
        assert(t@.take(n as int) =~= t@);
    }
    Some(v)
}

/// `str::parse::<usize>()`: the value when it is well formed and fits.
pub open spec fn parse_usize_spec(s: Seq<char>) -> Option<usize> {
    match parse_unsigned(s) {
        Some(v) => if v <= usize::MAX {
            Some(v as usize)
        } else {
            None
        },
        None => None,
    }
}

/// `str::parse::<usize>()` on a character slice.
pub fn parse_usize(s: &[char]) -> (r: Option<usize>)
    ensures
        r == parse_usize_spec(s@),
{
    match parse_u64(s) {
        Some(v) => if v <= (usize::MAX as u64) {
            Some(v as usize)
        } else {
            None
        },
        None => None,
    }
}

} // verus!
