//! Documentation sources, the section model, section extraction from
//! mdBook `print.html` pages and fuzzy ranking of sections.

use nucleo_matcher::pattern::{CaseMatching, Normalization, Pattern};
use vstd::prelude::*;

use crate::text::{
    ascii_lower, chars_eq, lemma_contains_trans, lemma_words_in, contains, copy_range, fit_len, is_alphanumeric, lemma_fit_len,
    lemma_utf8_len_concat, lowercase_of, seq_contains, string_from_chars, to_ascii_lowercase,
    to_chars, trim, trim_chars, trim_end_char, trim_end_matches, trim_str, char_alnum,
    char_lower, utf8_len, utf8_prefix, utf8_prefix_len, words, split_whitespace,
    lower_chars, lemma_words_from_len, is_ascii_upper,
};

verus! {

broadcast use vstd::seq_lib::group_seq_properties;

/// A documentation source (one `print.html` page).
#[derive(Debug, Clone, Copy, PartialEq, Eq, Hash, Structural)]
pub enum DocSource {
    Reference,
    ByExample,
    Nomicon,
    Book,
}

/// `p` occurs in `q` for at least one `p` of `keys`.
pub open spec fn hit_any(q: Seq<char>, keys: Seq<Seq<char>>) -> bool {
    exists|i: int| 0 <= i < keys.len() && seq_contains(q, #[trigger] keys[i])
}

/// The character views of a list of string slices.
pub open spec fn str_rows(v: Seq<&str>) -> Seq<Seq<char>> {
    v.map_values(|w: &str| w@)
}

/// Some key of `keys` occurs in `q`.
pub fn hit(q: &[char], keys: &[&str]) -> (r: bool)
    ensures
        r == hit_any(q@, str_rows(keys@)),
{
    let mut i: usize = 0;
    while i < keys.len()
        invariant
            i <= keys@.len(),
            forall|j: int| 0 <= j < i ==> !seq_contains(q@, #[trigger] str_rows(keys@)[j]),
        decreases keys@.len() - i,
    {
        let k = to_chars(keys[i]);
        if contains(q, k.as_slice()) {
            proof {
                assert(str_rows(keys@)[i as int] == k@);
            }
            return true;
        }
        proof {
            assert(str_rows(keys@)[i as int] == k@);
        }
        i = i + 1;
    }
    false
}

/// Reference keywords about language syntax.
pub open spec fn reference_syntax_keys() -> Seq<Seq<char>> {
    seq![
        "grammar"@,
        "syntax"@,
        "keyword"@,
        "lifetime"@,
        "abi"@,
        "attribute"@,
        "pattern"@,
        "expression"@,
        "statement"@,
        "item"@,
        "unsized"@,
    ]
}

/// Keywords naming the Reference itself.
pub open spec fn reference_name_keys() -> Seq<Seq<char>> {
    seq!["reference"@, "spec"@]
}

/// Keywords asking for examples.
pub open spec fn example_keys() -> Seq<Seq<char>> {
    seq!["example"@, "hello world"@, "sample"@, "how to write"@, "how do i"@]
}

/// Topics Rust by Example covers well.
pub open spec fn example_topic_keys() -> Seq<Seq<char>> {
    seq!["error handling"@, "generics"@, "traits"@, "macros"@]
}

/// Keywords of the Rustonomicon.
pub open spec fn nomicon_keys() -> Seq<Seq<char>> {
    seq![
        "unsafe"@,
        "raw pointer"@,
        "ffi"@,
        "transmute"@,
        "vtable"@,
        "drop check"@,
        "uninitialized"@,
        "aliasing"@,
        "data race"@,
        "nomicon"@,
    ]
}

/// Keywords of the Book.
pub open spec fn book_keys() -> Seq<Seq<char>> {
    seq![
        "ownership"@,
        "borrowing"@,
        "borrow checker"@,
        "cargo"@,
        "struct"@,
        "enum"@,
        "module"@,
        "getting started"@,
        "guessing game"@,
        "book"@,
    ]
}

/// The keyword score of `source` for a query whose ASCII lower-case form
/// is `q`.
#[verifier::opaque]
pub open spec fn heuristic_score_spec(source: DocSource, q: Seq<char>) -> int {
    match source {
        DocSource::Reference => (if hit_any(q, reference_syntax_keys()) {
            3int
        } else {
            0int
        }) + (if hit_any(q, reference_name_keys()) {
            2int
        } else {
            0int
        }),
        DocSource::ByExample => (if hit_any(q, example_keys()) {
            3int
        } else {
            0int
        }) + (if hit_any(q, example_topic_keys()) {
            1int
        } else {
            0int
        }),
        DocSource::Nomicon => if hit_any(q, nomicon_keys()) {
            3
        } else {
            0
        },
        DocSource::Book => if hit_any(q, book_keys()) {
            3
        } else {
            0
        },
    }
}

/// Short id of a source.
pub open spec fn source_id(s: DocSource) -> Seq<char> {
    match s {
        DocSource::Reference => "reference"@,
        DocSource::ByExample => "by-example"@,
        DocSource::Nomicon => "nomicon"@,
        DocSource::Book => "book"@,
    }
}

/// Display title of a source.
pub open spec fn source_title(s: DocSource) -> Seq<char> {
    match s {
        DocSource::Reference => "The Rust Reference"@,
        DocSource::ByExample => "Rust by Example"@,
        DocSource::Nomicon => "The Rustonomicon"@,
        DocSource::Book => "The Rust Book"@,
    }
}

/// Canonical base URL of a source.
pub open spec fn source_canonical_url(s: DocSource) -> Seq<char> {
    match s {
        DocSource::Reference => "https://doc.rust-lang.org/reference/"@,
        DocSource::ByExample => "https://doc.rust-lang.org/rust-by-example/"@,
        DocSource::Nomicon => "https://doc.rust-lang.org/nomicon/"@,
        DocSource::Book => "https://doc.rust-lang.org/book/"@,
    }
}

/// Embed colour of a source.
pub open spec fn source_color(s: DocSource) -> u32 {
    match s {
        DocSource::Reference => 0xCE412Bu32,
        DocSource::ByExample => 0xDEA584u32,
        DocSource::Nomicon => 0x8B0000u32,
        DocSource::Book => 0xB7410Eu32,
    }
}

/// The source an id or alias names (compared ASCII case-insensitively).
pub open spec fn source_from_id(id: Seq<char>) -> Option<DocSource> {
    let l = ascii_lower(id);
    if l == "reference"@ || l == "ref"@ || l == "spec"@ {
        Some(DocSource::Reference)
    } else if l == "by-example"@ || l == "example"@ || l == "examples"@ || l == "rbe"@ {
        Some(DocSource::ByExample)
    } else if l == "nomicon"@ || l == "nomi"@ {
        Some(DocSource::Nomicon)
    } else if l == "book"@ || l == "rust-book"@ || l == "trpl"@ {
        Some(DocSource::Book)
    } else {
        None
    }
}

/// `a` equals the string `b`.
pub fn is_str(a: &[char], b: &str) -> (r: bool)
    ensures
        r == (a@ == b@),
{
    let bc = to_chars(b);
    chars_eq(a, bc.as_slice())
}

impl DocSource {
    /// All sources, in search order.
    pub const ALL: [DocSource; 4] = [
        DocSource::Reference,
        DocSource::ByExample,
        DocSource::Nomicon,
        DocSource::Book,
    ];

    /// Short id, as used in commands and skill names.
    pub fn id(&self) -> (r: &'static str)
        ensures
            r@ == source_id(*self),
    {
        match self {
            DocSource::Reference => "reference",
            DocSource::ByExample => "by-example",
            DocSource::Nomicon => "nomicon",
            DocSource::Book => "book",
        }
    }

    /// Display title.
    pub fn title(&self) -> (r: &'static str)
        ensures
            r@ == source_title(*self),
    {
        match self {
            DocSource::Reference => "The Rust Reference",
            DocSource::ByExample => "Rust by Example",
            DocSource::Nomicon => "The Rustonomicon",
            DocSource::Book => "The Rust Book",
        }
    }

    /// URL of the single-page (`print.html`) rendering.
    pub fn url(&self) -> (r: &'static str)
        ensures
            r@ == (match *self {
                DocSource::Reference => "https://doc.rust-lang.org/reference/print.html"@,
                DocSource::ByExample => "https://rust-lang.github.io/rust-by-example/print.html"@,
                DocSource::Nomicon => "https://doc.rust-lang.org/nomicon/print.html"@,
                DocSource::Book => "https://doc.rust-lang.org/stable/book/print.html"@,
            }),
    {
        match self {
            DocSource::Reference => "https://doc.rust-lang.org/reference/print.html",
            DocSource::ByExample => "https://rust-lang.github.io/rust-by-example/print.html",
            DocSource::Nomicon => "https://doc.rust-lang.org/nomicon/print.html",
            DocSource::Book => "https://doc.rust-lang.org/stable/book/print.html",
        }
    }

    /// Base URL that section anchors are appended to.
    pub fn canonical_url(&self) -> (r: &'static str)
        ensures
            r@ == source_canonical_url(*self),
    {
        match self {
            DocSource::Reference => "https://doc.rust-lang.org/reference/",
            DocSource::ByExample => "https://doc.rust-lang.org/rust-by-example/",
            DocSource::Nomicon => "https://doc.rust-lang.org/nomicon/",
            DocSource::Book => "https://doc.rust-lang.org/book/",
        }
    }

    /// Embed colour of the source.
    pub fn embed_color(&self) -> (r: u32)
        ensures
            r == source_color(*self),
    {
        match self {
            DocSource::Reference => 0xCE412B,
            DocSource::ByExample => 0xDEA584,
            DocSource::Nomicon => 0x8B0000,
            DocSource::Book => 0xB7410E,
        }
    }

    /// The source named by an id or alias, ignoring ASCII case.
    pub fn from_id(id: &str) -> (r: Option<DocSource>)
        ensures
            r == source_from_id(id@),
    {
        let l = to_ascii_lowercase(id);
        let l = l.as_slice();
        if is_str(l, "reference") || is_str(l, "ref") || is_str(l, "spec") {
            Some(DocSource::Reference)
        } else if is_str(l, "by-example") || is_str(l, "example") || is_str(l, "examples") || is_str(
            l,
            "rbe",
        ) {
            Some(DocSource::ByExample)
        } else if is_str(l, "nomicon") || is_str(l, "nomi") {
            Some(DocSource::Nomicon)
        } else if is_str(l, "book") || is_str(l, "rust-book") || is_str(l, "trpl") {
            Some(DocSource::Book)
        } else {
            None
        }
    }

    /// Keyword score used to route a query when no AI endpoint answers:
    /// 3 for a strong keyword of the source, plus 2 (Reference) or 1 (By
    /// Example) for a weaker one; case is ignored.
    pub fn heuristic_score(&self, query: &str) -> (r: i32)
        ensures
            r == heuristic_score_spec(*self, ascii_lower(query@)),
    {
        proof {
            reveal(heuristic_score_spec);
        }
        let qv = to_ascii_lowercase(query);
        let q = qv.as_slice();
        match self {
            DocSource::Reference => {
                let keys: [&str; 11] = [
                    "grammar",
                    "syntax",
                    "keyword",
                    "lifetime",
                    "abi",
                    "attribute",
                    "pattern",
                    "expression",
                    "statement",
                    "item",
                    "unsized",
                ];
                let names: [&str; 2] = ["reference", "spec"];
                proof {
                    assert(str_rows(keys@) =~= reference_syntax_keys());
                    assert(str_rows(names@) =~= reference_name_keys());
                }
                let mut s: i32 = 0;
                if hit(q, &keys) {
                    s = s + 3;
                }
                if hit(q, &names) {
                    s = s + 2;
                }
                s
            },
            DocSource::ByExample => {
                let keys: [&str; 5] = [
                    "example",
                    "hello world",
                    "sample",
                    "how to write",
                    "how do i",
                ];
                let topics: [&str; 4] = ["error handling", "generics", "traits", "macros"];
                proof {
                    assert(str_rows(keys@) =~= example_keys());
                    assert(str_rows(topics@) =~= example_topic_keys());
                }
                let mut s: i32 = 0;
                if hit(q, &keys) {
                    s = s + 3;
                }
                if hit(q, &topics) {
                    s = s + 1;
                }
                s
            },
            DocSource::Nomicon => {
                let keys: [&str; 10] = [
                    "unsafe",
                    "raw pointer",
                    "ffi",
                    "transmute",
                    "vtable",
                    "drop check",
                    "uninitialized",
                    "aliasing",
                    "data race",
                    "nomicon",
                ];
                proof {
                    assert(str_rows(keys@) =~= nomicon_keys());
                }
                if hit(q, &keys) {
                    3
                } else {
                    0
                }
            },
            DocSource::Book => {
                let keys: [&str; 10] = [
                    "ownership",
                    "borrowing",
                    "borrow checker",
                    "cargo",
                    "struct",
                    "enum",
                    "module",
                    "getting started",
                    "guessing game",
                    "book",
                ];
                proof {
                    assert(str_rows(keys@) =~= book_keys());
                }
                if hit(q, &keys) {
                    3
                } else {
                    0
                }
            },
        }
    }
}

// ---------------------------------------------------------------------
// Sections
// ---------------------------------------------------------------------

/// Byte budget (UTF-8) of a section body.
pub const MAX_BODY_CHARS: usize = 3500;

/// Most sections kept per source.
pub const MAX_SECTIONS_PER_SOURCE: usize = 2500;

/// One parsed documentation section.
pub struct DocSection {
    pub source: DocSource,
    pub heading: String,
    pub level: u8,
    pub body: String,
    pub anchor: String,
}

/// The plain value of a section.
pub struct SectionView {
    pub source: DocSource,
    pub heading: Seq<char>,
    pub level: u8,
    pub body: Seq<char>,
    pub anchor: Seq<char>,
}

impl View for DocSection {
    type V = SectionView;

    open spec fn view(&self) -> SectionView {
        SectionView {
            source: self.source,
            heading: self.heading@,
            level: self.level,
            body: self.body@,
            anchor: self.anchor@,
        }
    }
}

impl Clone for DocSection {
    fn clone(&self) -> (r: Self)
        ensures
            r == *self,
    {
        DocSection {
            source: self.source,
            heading: self.heading.clone(),
            level: self.level,
            body: self.body.clone(),
            anchor: self.anchor.clone(),
        }
    }
}

/// A ranked search hit.
pub struct DocHit {
    pub section: DocSection,
    pub score: u32,
}

impl Clone for DocHit {
    fn clone(&self) -> (r: Self)
        ensures
            r == *self,
    {
        DocHit { section: self.section.clone(), score: self.score }
    }
}

// ---------------------------------------------------------------------
// Slugs
// ---------------------------------------------------------------------

/// The Unicode lower-case expansion of every character of `s`.
pub open spec fn lowered(s: Seq<char>) -> Seq<char> {
    s.map_values(|c: char| char_lower(c)).flatten()
}

/// The slug walk: alphanumerics are kept, every other run becomes one `-`
/// (never at the start).  Returns the output and whether it ends in a
/// dash that was just written.
pub open spec fn slug_walk(cs: Seq<char>, out: Seq<char>, prev_dash: bool) -> (Seq<char>, bool)
    decreases cs.len(),
{
    if cs.len() == 0 {
        (out, prev_dash)
    } else if char_alnum(cs[0]) {
        slug_walk(cs.drop_first(), out.push(cs[0]), false)
    } else if !prev_dash && out.len() > 0 {
        slug_walk(cs.drop_first(), out.push('-'), true)
    } else {
        slug_walk(cs.drop_first(), out, prev_dash)
    }
}

/// The URL anchor derived from a heading: lower-cased, alphanumerics
/// kept, other runs collapsed to a single `-`, no leading or trailing `-`.
pub open spec fn slug(s: Seq<char>) -> Seq<char> {
    trim_end_char(slug_walk(lowered(s), Seq::empty(), false).0, '-')
}

/// The URL anchor of a heading (see `slug`).
pub fn slugify(s: &str) -> (r: String)
    ensures
        r@ == slug(s@),
{
    let cs = to_chars(s);
    let n = cs.len();
    let mut flat: Vec<char> = Vec::new();
    let mut i: usize = 0;
    proof {
        assert(cs@.take(0).map_values(|c: char| char_lower(c)) =~= Seq::<Seq<char>>::empty());
        assert(flat@ =~= Seq::<Seq<char>>::empty().flatten());
    }
    while i < n
        invariant
            n == cs@.len(),
            cs@ == s@,
            i <= n,
            flat@ == lowered(cs@.take(i as int)),
        decreases n - i,
    {
        let low = lowercase_of(cs[i]);
        let ghost before = flat@;
        let mut k: usize = 0;
        while k < low.len()
            invariant
                k <= low@.len(),
                flat@ == before + low@.take(k as int),
            decreases low@.len() - k,
        {
            flat.push(low[k]);
            proof {
                assert(low@.take(k as int + 1) =~= low@.take(k as int).push(low@[k as int]));
            }
            k = k + 1;
        }
        proof {
            assert(low@.take(low@.len() as int) =~= low@);
            let m = cs@.take(i as int).map_values(|c: char| char_lower(c));
            assert(cs@.take(i as int + 1).map_values(|c: char| char_lower(c)) =~= m.push(
                char_lower(cs@[i as int]),
            ));
            m.lemma_flatten_push(char_lower(cs@[i as int]));
        }
        i = i + 1;
    }
    proof {
        assert(cs@.take(n as int) =~= cs@);
    }
    let m = flat.len();
    let mut out: Vec<char> = Vec::new();
    let mut prev_dash = false;
    let mut k: usize = 0;
    proof {
        assert(flat@.subrange(0, m as int) =~= flat@);
        assert(out@ =~= Seq::<char>::empty());
    }
    while k < m
        invariant
            m == flat@.len(),
            k <= m,
            slug_walk(flat@, Seq::empty(), false) == slug_walk(
                flat@.subrange(k as int, m as int),
                out@,
                prev_dash,
            ),
        decreases m - k,
    {
        proof {
            assert(flat@.subrange(k as int, m as int).drop_first() =~= flat@.subrange(
                k as int + 1,
                m as int,
            ));
        }
        let c = flat[k];
        if is_alphanumeric(c) {
            out.push(c);
            prev_dash = false;
        } else if !prev_dash && out.len() > 0 {
            out.push('-');
            prev_dash = true;
        }
        k = k + 1;
    }
    proof {
        assert(flat@.subrange(m as int, m as int).len() == 0);
    }
    let t = trim_end_matches(out.as_slice(), '-');
    string_from_chars(t.as_slice())
}

// ---------------------------------------------------------------------
// Laws of slugs
// ---------------------------------------------------------------------

/// Positions `i` and `i + 1` of `r` both hold `-`.
pub open spec fn dash_pair(r: Seq<char>, i: int) -> bool {
    r[i] == '-' && r[i + 1] == '-'
}

/// No `-` first, no two `-` in a row, every other character alphanumeric.
pub open spec fn dash_shape(r: Seq<char>) -> bool {
    &&& (r.len() > 0 ==> r[0] != '-')
    &&& forall|i: int| 0 <= i && i + 1 < r.len() ==> !#[trigger] dash_pair(r, i)
    &&& forall|i: int| 0 <= i < r.len() ==> #[trigger] r[i] == '-' || char_alnum(r[i])
}

/// A well-formed slug: `dash_shape` and no `-` last.
pub open spec fn dashed_well(r: Seq<char>) -> bool {
    &&& dash_shape(r)
    &&& (r.len() > 0 ==> r[r.len() - 1] != '-')
}

/// An ASCII lower-case letter, an ASCII digit or `-`.
pub open spec fn slug_char(c: char) -> bool {
    c == '-' || ('a' <= c && c <= 'z') || ('0' <= c && c <= '9')
}

/// Every character of `s` is ASCII.
pub open spec fn is_ascii_seq(s: Seq<char>) -> bool {
    forall|i: int| 0 <= i < s.len() ==> (#[trigger] s[i] as u32) < 128
}

/// The slug walk keeps its output in shape, and its flag says whether the
/// output ends in `-`.
proof fn lemma_slug_walk_shape(cs: Seq<char>, out: Seq<char>, prev: bool)
    requires
        dash_shape(out),
        prev == (out.len() > 0 && out[out.len() - 1] == '-'),
    ensures
        dash_shape(slug_walk(cs, out, prev).0),
        slug_walk(cs, out, prev).1 == (slug_walk(cs, out, prev).0.len() > 0
            && slug_walk(cs, out, prev).0[slug_walk(cs, out, prev).0.len() - 1] == '-'),
    decreases cs.len(),
{
    if cs.len() > 0 {
        assert(!char_alnum('-'));
        let c = cs[0];
        if char_alnum(c) {
            let o2 = out.push(c);
            assert forall|i: int| 0 <= i && i + 1 < o2.len() implies !#[trigger] dash_pair(o2, i) by {
                if i + 1 < out.len() {
                    assert(!dash_pair(out, i));
                }
            }
            assert forall|i: int| 0 <= i < o2.len() implies #[trigger] o2[i] == '-' || char_alnum(o2[i]) by {
                if i < out.len() {
                    assert(o2[i] == out[i]);
                }
            }
            lemma_slug_walk_shape(cs.drop_first(), o2, false);
        } else if !prev && out.len() > 0 {
            let o2 = out.push('-');
            assert forall|i: int| 0 <= i && i + 1 < o2.len() implies !#[trigger] dash_pair(o2, i) by {
                if i + 1 < out.len() {
                    assert(!dash_pair(out, i));
                }
            }
            assert forall|i: int| 0 <= i < o2.len() implies #[trigger] o2[i] == '-' || char_alnum(o2[i]) by {
                if i < out.len() {
                    assert(o2[i] == out[i]);
                }
            }
            lemma_slug_walk_shape(cs.drop_first(), o2, true);
        } else {
            lemma_slug_walk_shape(cs.drop_first(), out, prev);
        }
    }
}

/// Trimming the trailing `-` is a prefix, and keeps the shape.
proof fn lemma_trim_dashes(r: Seq<char>)
    ensures
        trim_end_char(r, '-').len() <= r.len(),
        forall|i: int| 0 <= i < trim_end_char(r, '-').len() ==> #[trigger] trim_end_char(r, '-')[i] == r[i],
        trim_end_char(r, '-').len() > 0 ==> trim_end_char(r, '-')[trim_end_char(r, '-').len() - 1] != '-',
        dash_shape(r) ==> dashed_well(trim_end_char(r, '-')),
    decreases r.len(),
{
    if r.len() > 0 && r[r.len() - 1] == '-' {
        let d = r.drop_last();
        lemma_trim_dashes(d);
        if dash_shape(r) {
            assert forall|i: int| 0 <= i && i + 1 < d.len() implies !#[trigger] dash_pair(d, i) by {
                assert(!dash_pair(r, i));
            }
            assert forall|i: int| 0 <= i < d.len() implies #[trigger] d[i] == '-' || char_alnum(d[i]) by {
                assert(d[i] == r[i]);
            }
        }
        assert forall|i: int| 0 <= i < trim_end_char(r, '-').len() implies #[trigger] trim_end_char(
            r,
            '-',
        )[i] == r[i] by {
            assert(trim_end_char(d, '-')[i] == d[i]);
        }
    }
}

/// The slug walk over ASCII text without upper-case letters writes only
/// `slug_char`s.
proof fn lemma_slug_walk_ascii(cs: Seq<char>, out: Seq<char>, prev: bool)
    requires
        forall|i: int| 0 <= i < cs.len() ==> (#[trigger] cs[i] as u32) < 128 && !is_ascii_upper(cs[i]),
        forall|i: int| 0 <= i < out.len() ==> slug_char(#[trigger] out[i]),
    ensures
        forall|i: int| 0 <= i < slug_walk(cs, out, prev).0.len() ==> slug_char(#[trigger] slug_walk(cs, out, prev).0[i]),
    decreases cs.len(),
{
    if cs.len() > 0 {
        let c = cs[0];
        assert((c as u32) < 128 && !is_ascii_upper(c));
        assert forall|i: int| 0 <= i < cs.drop_first().len() implies (#[trigger] cs.drop_first()[i] as u32) < 128
            && !is_ascii_upper(cs.drop_first()[i]) by {
            assert(cs.drop_first()[i] == cs[i + 1]);
        }
        if char_alnum(c) {
            let o2 = out.push(c);
            assert(slug_char(c));
            assert forall|i: int| 0 <= i < o2.len() implies slug_char(#[trigger] o2[i]) by {
                if i < out.len() {
                    assert(o2[i] == out[i]);
                }
            }
            lemma_slug_walk_ascii(cs.drop_first(), o2, false);
            assert(slug_walk(cs, out, prev) == slug_walk(cs.drop_first(), o2, false));
        } else if !prev && out.len() > 0 {
            let o2 = out.push('-');
            assert forall|i: int| 0 <= i < o2.len() implies slug_char(#[trigger] o2[i]) by {
                if i < out.len() {
                    assert(o2[i] == out[i]);
                }
            }
            lemma_slug_walk_ascii(cs.drop_first(), o2, true);
            assert(slug_walk(cs, out, prev) == slug_walk(cs.drop_first(), o2, true));
        } else {
            lemma_slug_walk_ascii(cs.drop_first(), out, prev);
            assert(slug_walk(cs, out, prev) == slug_walk(cs.drop_first(), out, prev));
        }
    }
}

/// On ASCII text, lower-casing is ASCII lower-casing.
proof fn lemma_lowered_ascii(s: Seq<char>)
    requires
        is_ascii_seq(s),
    ensures
        lowered(s) == ascii_lower(s),
    decreases s.len(),
{
    if s.len() == 0 {
        assert(s.map_values(|c: char| char_lower(c)) =~= Seq::<Seq<char>>::empty());
        assert(lowered(s) =~= ascii_lower(s));
    } else {
        let d = s.drop_last();
        assert forall|i: int| 0 <= i < d.len() implies (#[trigger] d[i] as u32) < 128 by {
            assert(d[i] == s[i]);
        }
        lemma_lowered_ascii(d);
        let m = d.map_values(|c: char| char_lower(c));
        assert(s.map_values(|c: char| char_lower(c)) =~= m.push(char_lower(s.last())));
        m.lemma_flatten_push(char_lower(s.last()));
        assert((s.last() as u32) < 128);
        assert(lowered(s) =~= ascii_lower(s));
    }
}

/// The slug walk reproduces text that is already a slug.
proof fn lemma_slug_walk_ident(r: Seq<char>, out: Seq<char>, prev: bool)
    requires
        dash_shape(out + r),
        prev == (out.len() > 0 && out[out.len() - 1] == '-'),
        forall|i: int| 0 <= i < r.len() ==> slug_char(#[trigger] r[i]),
    ensures
        slug_walk(r, out, prev).0 == out + r,
    decreases r.len(),
{
    let t = out + r;
    if r.len() == 0 {
        assert(t =~= out);
    } else {
        let c = r[0];
        assert(t[out.len() as int] == c);
        assert(out.push(c) + r.drop_first() =~= t);
        assert forall|i: int| 0 <= i < r.drop_first().len() implies slug_char(#[trigger] r.drop_first()[i]) by {
            assert(r.drop_first()[i] == r[i + 1]);
        }
        assert(!char_alnum('-'));
        if c == '-' {
            if out.len() == 0 {
                assert(t[0] == '-');
            }
            if prev {
                assert(t[out.len() - 1] == out[out.len() - 1]);
                assert(dash_pair(t, out.len() - 1));
            }
            lemma_slug_walk_ident(r.drop_first(), out.push(c), true);
        } else {
            assert(slug_char(c));
            assert(char_alnum(c));
            lemma_slug_walk_ident(r.drop_first(), out.push(c), false);
        }
    }
}

/// A slug has no leading, trailing or doubled `-`, and its other
/// characters are alphanumeric.  The slug of ASCII text is made of ASCII
/// lower-case letters, digits and `-`, and slugging it again changes
/// nothing.
pub proof fn lemma_slug_shape(s: Seq<char>)
    ensures
        dashed_well(slug(s)),
        is_ascii_seq(s) ==> forall|i: int| 0 <= i < slug(s).len() ==> slug_char(#[trigger] slug(s)[i]),
        is_ascii_seq(s) ==> slug(slug(s)) == slug(s),
{
    let w = slug_walk(lowered(s), Seq::empty(), false).0;
    lemma_slug_walk_shape(lowered(s), Seq::empty(), false);
    lemma_trim_dashes(w);
    let r = slug(s);
    if is_ascii_seq(s) {
        lemma_lowered_ascii(s);
        let l = ascii_lower(s);
        assert forall|i: int| 0 <= i < l.len() implies (#[trigger] l[i] as u32) < 128 && !is_ascii_upper(l[i]) by {
            assert((s[i] as u32) < 128);
        }
        lemma_slug_walk_ascii(l, Seq::empty(), false);
        assert forall|i: int| 0 <= i < r.len() implies slug_char(#[trigger] r[i]) by {
            assert(r[i] == w[i]);
        }
        assert forall|i: int| 0 <= i < r.len() implies (#[trigger] r[i] as u32) < 128 by {
            assert(slug_char(r[i]));
        }
        lemma_lowered_ascii(r);
        assert(ascii_lower(r) =~= r) by {
            assert forall|i: int| 0 <= i < r.len() implies #[trigger] ascii_lower(r)[i] == r[i] by {
                assert(slug_char(r[i]));
            }
        }
        let e = Seq::<char>::empty();
        assert(e + r =~= r);
        lemma_slug_walk_ident(r, e, false);
        lemma_trim_dashes(r);
        if r.len() > 0 {
            assert(r[r.len() - 1] != '-');
        }
        assert(trim_end_char(r, '-') == r);
    }
}

// ---------------------------------------------------------------------
// Section bodies
// ---------------------------------------------------------------------

/// `buf` extended by as much of `s` as fits into `cap` UTF-8 bytes
/// (cutting `s` at a character boundary); unchanged once `buf` is full.
pub open spec fn push_bounded_spec(buf: Seq<char>, s: Seq<char>, cap: nat) -> Seq<char> {
    if utf8_len(buf) >= cap {
        buf
    } else {
        buf + utf8_prefix(s, (cap - utf8_len(buf)) as nat)
    }
}

/// A section body being accumulated, with its UTF-8 length.
struct BodyBuf {
    chars: Vec<char>,
    bytes: usize,
}

impl BodyBuf {
    spec fn inv(&self) -> bool {
        &&& self.bytes == utf8_len(self.chars@)
        &&& self.bytes <= MAX_BODY_CHARS
    }

    /// Appends as much of `s` as the byte budget allows.
    fn push_bounded(&mut self, s: &[char])
        requires
            old(self).inv(),
        ensures
            final(self).inv(),
            final(self).chars@ == push_bounded_spec(old(self).chars@, s@, MAX_BODY_CHARS as nat),
    {
        if self.bytes >= MAX_BODY_CHARS {
            return;
        }
        let remaining = MAX_BODY_CHARS - self.bytes;
        let (k, used) = utf8_prefix_len(s, remaining);
        proof {
            lemma_fit_len(s@, remaining as nat);
        }
        let ghost before = self.chars@;
        let mut i: usize = 0;
        while i < k
            invariant
                k == fit_len(s@, remaining as nat),
                k <= s@.len(),
                self.bytes == utf8_len(before),
                self.bytes < MAX_BODY_CHARS,
                remaining == MAX_BODY_CHARS - self.bytes,
                used <= remaining,
                used == utf8_len(s@.take(k as int)),
                i <= k,
                self.chars@ == before + s@.take(i as int),
            decreases k - i,
        {
            self.chars.push(s[i]);
            proof {
                assert(s@.take(i as int + 1) =~= s@.take(i as int).push(s@[i as int]));
            }
            i = i + 1;
        }
        proof {
            lemma_fit_len(s@, remaining as nat);
            lemma_utf8_len_concat(before, s@.take(k as int));
        }
        self.bytes = self.bytes + used;
    }
}

// ---------------------------------------------------------------------
// HTML nodes
// ---------------------------------------------------------------------

/// An HTML element as the section walk sees it: lower-cased or not tag
/// name, its text content without markup, and its `id` attribute.
pub struct HtmlTag {
    pub name: String,
    pub text: String,
    pub id: Option<String>,
}

/// One node of a parsed document, in document order.
pub enum HtmlNode {
    Tag(HtmlTag),
    Other,
}

impl View for HtmlNode {
    type V = Option<(Seq<char>, Seq<char>, Option<Seq<char>>)>;

    open spec fn view(&self) -> Option<(Seq<char>, Seq<char>, Option<Seq<char>>)> {
        match self {
            HtmlNode::Tag(t) => Some(
                (
                    t.name@,
                    t.text@,
                    match &t.id {
                        Some(a) => Some(a@),
                        None => None,
                    },
                ),
            ),
            HtmlNode::Other => None,
        }
    }
}

/// The nodes `tl` parses out of a document, in document order: for an
/// element its name, its inner text and its `id` attribute; `None` for
/// text and comments.  `None` as a whole when `tl` refuses the input.
pub uninterp spec fn html_nodes(
    html: Seq<char>,
) -> Option<Seq<Option<(Seq<char>, Seq<char>, Option<Seq<char>>)>>>;

/// The views of a list of nodes.
pub open spec fn node_rows(v: Seq<HtmlNode>) -> Seq<Option<(Seq<char>, Seq<char>, Option<Seq<char>>)>> {
    v.map_values(|n: HtmlNode| n@)
}

/// Parses `html` with `tl::parse` (default options) and lists its nodes.
///
/// Trusted: the node list is a function of the input alone (named
/// `html_nodes`); for each element it carries `HTMLTag::name`,
/// `HTMLTag::inner_text` and the `id` attribute; `tl` refuses exactly
/// the inputs longer than `u32::MAX` bytes.
#[verifier::external_body]
fn parse_html_nodes(html: &str) -> (r: Option<Vec<HtmlNode>>)
    ensures
        r is Some <==> utf8_len(html@) <= u32::MAX,
        match r {
            Some(v) => html_nodes(html@) == Some(node_rows(v@)),
            None => html_nodes(html@) is None,
        },
{
    let dom = tl::parse(html, tl::ParserOptions::default()).ok()?;
    let parser = dom.parser();
    Some(dom.nodes().iter().map(|node| match node {
        tl::Node::Tag(tag) => HtmlNode::Tag(HtmlTag {
            name: tag.name().as_utf8_str().into_owned(),
            text: tag.inner_text(parser).into_owned(),
            id: tag.attributes().get("id").flatten().map(|v| v.as_utf8_str().into_owned()),
        }),
        _ => HtmlNode::Other,
    }).collect())
}

// ---------------------------------------------------------------------
// The section walk
// ---------------------------------------------------------------------

/// State of the section walk: finished sections and the open one.
pub struct Walk {
    pub sections: Seq<SectionView>,
    pub heading: Seq<char>,
    pub level: u8,
    pub anchor: Seq<char>,
    pub body: Seq<char>,
    pub stopped: bool,
}

/// The walk before the first node: an open "(intro)" section.
pub open spec fn walk_start() -> Walk {
    Walk {
        sections: Seq::empty(),
        heading: "(intro)"@,
        level: 1,
        anchor: Seq::empty(),
        body: Seq::empty(),
        stopped: false,
    }
}

/// A body cut to `MAX_BODY_CHARS` bytes, marked with `'…'` when cut.
pub open spec fn clip_body(b: Seq<char>) -> Seq<char> {
    if utf8_len(b) > MAX_BODY_CHARS {
        utf8_prefix(b, MAX_BODY_CHARS as nat).push('…')
    } else {
        b
    }
}

/// Closing the open section: it is kept unless both its heading and its
/// trimmed body are blank; keeping it empties heading, anchor and body.
pub open spec fn flush_spec(source: DocSource, w: Walk) -> Walk {
    let b = trim(w.body);
    if trim(w.heading).len() == 0 && b.len() == 0 {
        w
    } else {
        Walk {
            sections: w.sections.push(
                SectionView {
                    source,
                    heading: w.heading,
                    level: w.level,
                    body: clip_body(b),
                    anchor: w.anchor,
                },
            ),
            heading: Seq::empty(),
            anchor: Seq::empty(),
            body: Seq::empty(),
            ..w
        }
    }
}

/// Tag names that start a section.
pub open spec fn is_heading_name(n: Seq<char>) -> bool {
    n == "h1"@ || n == "h2"@ || n == "h3"@ || n == "h4"@
}

/// Tag names whose text goes into the body.
pub open spec fn is_block_name(n: Seq<char>) -> bool {
    n == "p"@ || n == "li"@ || n == "dt"@ || n == "dd"@ || n == "blockquote"@ || n == "td"@ || n
        == "th"@
}

/// Heading level of a heading tag name.
pub open spec fn heading_level(n: Seq<char>) -> u8 {
    if n == "h1"@ {
        1
    } else if n == "h2"@ {
        2
    } else if n == "h3"@ {
        3
    } else {
        4
    }
}

/// Appends a paragraph and a blank line to a body, within the budget.
pub open spec fn add_paragraph(body: Seq<char>, t: Seq<char>) -> Seq<char> {
    push_bounded_spec(push_bounded_spec(body, t, MAX_BODY_CHARS as nat), seq!['\n', '\n'], MAX_BODY_CHARS as nat)
}

/// One node of the walk.  A heading closes the open section and opens a
/// new one (its anchor is the `id` attribute, else the slug of the
/// heading); once `MAX_SECTIONS_PER_SOURCE` sections are closed the next
/// heading stops the walk.  `pre` text always, and non-blank text of
/// paragraph-like elements, is appended to the body.
pub open spec fn node_step(
    source: DocSource,
    w: Walk,
    node: Option<(Seq<char>, Seq<char>, Option<Seq<char>>)>,
) -> Walk {
    if w.stopped {
        w
    } else {
        match node {
            None => w,
            Some((name, text, id)) => {
                let n = ascii_lower(name);
                if is_heading_name(n) {
                    if w.sections.len() >= MAX_SECTIONS_PER_SOURCE {
                        Walk { stopped: true, ..w }
                    } else {
                        let f = flush_spec(source, w);
                        let h = trim(text);
                        let heading = if h.len() == 0 {
                            "(untitled)"@
                        } else {
                            h
                        };
                        Walk {
                            heading,
                            level: heading_level(n),
                            anchor: match id {
                                Some(a) => a,
                                None => slug(heading),
                            },
                            ..f
                        }
                    }
                } else if n == "pre"@ {
                    Walk { body: add_paragraph(w.body, trim(text)), ..w }
                } else if is_block_name(n) && trim(text).len() > 0 {
                    Walk { body: add_paragraph(w.body, trim(text)), ..w }
                } else {
                    w
                }
            },
        }
    }
}

/// The walk over a node list.
pub open spec fn walk_nodes(
    source: DocSource,
    nodes: Seq<Option<(Seq<char>, Seq<char>, Option<Seq<char>>)>>,
) -> Walk
    decreases nodes.len(),
{
    if nodes.len() == 0 {
        walk_start()
    } else {
        node_step(source, walk_nodes(source, nodes.drop_last()), nodes.last())
    }
}

/// The sections of a node list: the walk, then the open section closed.
pub open spec fn sections_of(
    source: DocSource,
    nodes: Seq<Option<(Seq<char>, Seq<char>, Option<Seq<char>>)>>,
) -> Seq<SectionView> {
    flush_spec(source, walk_nodes(source, nodes)).sections
}

/// The views of a list of sections.
pub open spec fn section_rows(v: Seq<DocSection>) -> Seq<SectionView> {
    v.map_values(|d: DocSection| d@)
}

/// The walk, executable.
struct Walker {
    sections: Vec<DocSection>,
    heading: Vec<char>,
    level: u8,
    anchor: Vec<char>,
    body: BodyBuf,
    stopped: bool,
}

impl Walker {
    spec fn view(&self) -> Walk {
        Walk {
            sections: section_rows(self.sections@),
            heading: self.heading@,
            level: self.level,
            anchor: self.anchor@,
            body: self.body.chars@,
            stopped: self.stopped,
        }
    }

    fn flush(&mut self, source: DocSource)
        requires
            old(self).body.inv(),
        ensures
            final(self).body.inv(),
            final(self).view() == flush_spec(source, old(self).view()),
    {
        let b = trim_chars(self.body.chars.as_slice());
        let h = trim_chars(self.heading.as_slice());
        if h.len() == 0 && b.len() == 0 {
            return;
        }
        let (k, _used) = utf8_prefix_len(b.as_slice(), MAX_BODY_CHARS);
        proof {
            lemma_fit_len(b@, MAX_BODY_CHARS as nat);
            assert(b@.take(b@.len() as int) =~= b@);
        }
        let body: Vec<char> = if k < b.len() {
            let mut c = copy_range(b.as_slice(), 0, k);
            c.push('…');
            c
        } else {
            b
        };
        let ghost old_rows = section_rows(self.sections@);
        let sec = DocSection {
            source,
            heading: string_from_chars(self.heading.as_slice()),
            level: self.level,
            body: string_from_chars(body.as_slice()),
            anchor: string_from_chars(self.anchor.as_slice()),
        };
        self.sections.push(sec);
        self.heading = Vec::new();
        self.anchor = Vec::new();
        self.body = BodyBuf { chars: Vec::new(), bytes: 0 };
        proof {
            assert(section_rows(self.sections@) =~= old_rows.push(sec@));
            assert(self.heading@ =~= Seq::<char>::empty());
            assert(self.anchor@ =~= Seq::<char>::empty());
            assert(self.body.chars@ =~= Seq::<char>::empty());
            assert(utf8_len(self.body.chars@) == 0);
        }
    }

    fn add_paragraph(&mut self, t: &[char])
        requires
            old(self).body.inv(),
        ensures
            final(self).body.inv(),
            final(self).view() == (Walk { body: add_paragraph(old(self).view().body, t@), ..old(self).view() }),
    {
        self.body.push_bounded(t);
        let nl: [char; 2] = ['\n', '\n'];
        proof {
            assert(nl@ =~= seq!['\n', '\n']);
        }
        self.body.push_bounded(&nl);
    }
}

impl Walker {
    fn step(&mut self, source: DocSource, node: &HtmlNode)
        requires
            old(self).body.inv(),
        ensures
            final(self).body.inv(),
            final(self).view() == node_step(source, old(self).view(), node@),
    {
        if self.stopped {
            return;
        }
        match node {
            HtmlNode::Other => {},
            HtmlNode::Tag(tag) => {
                let name = to_ascii_lowercase(tag.name.as_str());
                let n = name.as_slice();
                let h1 = is_str(n, "h1");
                let h2 = is_str(n, "h2");
                let h3 = is_str(n, "h3");
                let h4 = is_str(n, "h4");
                if h1 || h2 || h3 || h4 {
                    if self.sections.len() >= MAX_SECTIONS_PER_SOURCE {
                        self.stopped = true;
                        return;
                    }
                    self.flush(source);
                    let h = trim_str(tag.text.as_str());
                    let heading: Vec<char> = if h.len() == 0 {
                        to_chars("(untitled)")
                    } else {
                        h
                    };
                    let level: u8 = if h1 {
                        1
                    } else if h2 {
                        2
                    } else if h3 {
                        3
                    } else {
                        4
                    };
                    let anchor: Vec<char> = match &tag.id {
                        Some(a) => to_chars(a.as_str()),
                        None => {
                            let hs = string_from_chars(heading.as_slice());
                            let sl = slugify(hs.as_str());
                            to_chars(sl.as_str())
                        },
                    };
                    self.heading = heading;
                    self.level = level;
                    self.anchor = anchor;
                } else if is_str(n, "pre") {
                    let t = trim_str(tag.text.as_str());
                    self.add_paragraph(t.as_slice());
                } else if is_str(n, "p") || is_str(n, "li") || is_str(n, "dt") || is_str(n, "dd")
                    || is_str(n, "blockquote") || is_str(n, "td") || is_str(n, "th") {
                    let t = trim_str(tag.text.as_str());
                    if t.len() > 0 {
                        self.add_paragraph(t.as_slice());
                    }
                }
            },
        }
    }
}

/// Splits a node list into heading-delimited sections (see `node_step`).
pub fn sections_from_nodes(source: DocSource, nodes: &[HtmlNode]) -> (r: Vec<DocSection>)
    ensures
        section_rows(r@) == sections_of(source, node_rows(nodes@)),
{
    let mut w = Walker {
        sections: Vec::new(),
        heading: to_chars("(intro)"),
        level: 1,
        anchor: Vec::new(),
        body: BodyBuf { chars: Vec::new(), bytes: 0 },
        stopped: false,
    };
    let ghost rows = node_rows(nodes@);
    proof {
        assert(section_rows(w.sections@) =~= Seq::<SectionView>::empty());
        assert(w.anchor@ =~= Seq::<char>::empty());
        assert(w.body.chars@ =~= Seq::<char>::empty());
        assert(utf8_len(w.body.chars@) == 0);
        assert(rows.take(0) =~= Seq::<Option<(Seq<char>, Seq<char>, Option<Seq<char>>)>>::empty());
    }
    let mut i: usize = 0;
    while i < nodes.len()
        invariant
            rows == node_rows(nodes@),
            i <= nodes@.len(),
            w.body.inv(),
            w.view() == walk_nodes(source, rows.take(i as int)),
        decreases nodes@.len() - i,
    {
        proof {
            assert(rows.take(i as int + 1).drop_last() =~= rows.take(i as int));
            assert(rows.take(i as int + 1).last() == nodes@[i as int]@);
        }
        w.step(source, &nodes[i]);
        i = i + 1;
    }
    proof {
        assert(rows.take(nodes@.len() as int) =~= rows);
    }
    w.flush(source);
    w.sections
}

/// Parses an mdBook `print.html` page into heading-delimited sections;
/// no sections when the page cannot be parsed.
pub fn parse_print_html(source: DocSource, html: &str) -> (r: Vec<DocSection>)
    ensures
        section_rows(r@) == match html_nodes(html@) {
            Some(nodes) => sections_of(source, nodes),
            None => Seq::<SectionView>::empty(),
        },
        utf8_len(html@) > u32::MAX ==> r@.len() == 0,
        r@.len() <= MAX_SECTIONS_PER_SOURCE + 1,
        bodies_bounded(section_rows(r@)),
{
    match parse_html_nodes(html) {
        Some(nodes) => {
            proof {
                lemma_sections_bounded(source, node_rows(nodes@));
            }
            sections_from_nodes(source, nodes.as_slice())
        },
        None => {
            let r: Vec<DocSection> = Vec::new();
            proof {
                assert(section_rows(r@) =~= Seq::<SectionView>::empty());
            }
            r
        },
    }
}

// ---------------------------------------------------------------------
// Search
// ---------------------------------------------------------------------

/// The plain value of a hit.
pub struct HitView {
    pub section: SectionView,
    pub score: u32,
}

impl View for DocHit {
    type V = HitView;

    open spec fn view(&self) -> HitView {
        HitView { section: self.section@, score: self.score }
    }
}

/// The views of a list of hits.
pub open spec fn hit_rows(v: Seq<DocHit>) -> Seq<HitView> {
    v.map_values(|h: DocHit| h@)
}

/// The scores `nucleo_matcher` gives `heading` for each atom of the pattern
/// `query` (pattern syntax, case ignored, smart normalization), in atom
/// order; `None` for an atom that does not match.
pub uninterp spec fn fuzzy_atom_scores(query: Seq<char>, heading: Seq<char>) -> Seq<Option<u16>>;

/// Scores `heading` against each atom of
/// `Pattern::parse(query, CaseMatching::Ignore, Normalization::Smart)`
/// (`Atom::score`, with one `Matcher` of the default configuration).
///
/// Trusted: the scores depend on the two strings alone (named
/// `fuzzy_atom_scores`).  The matcher asserts that the haystack has at
/// most `u32::MAX` characters, hence the `requires`.
#[verifier::external_body]
fn atom_scores(query: &str, heading: &str) -> (r: Vec<Option<u16>>)
    requires
        heading@.len() <= u32::MAX,
    ensures
        r@ == fuzzy_atom_scores(query@, heading@),
{
    let pattern = Pattern::parse(query, CaseMatching::Ignore, Normalization::Smart);
    let mut matcher = nucleo_matcher::Matcher::new(nucleo_matcher::Config::DEFAULT);
    let mut buf: Vec<char> = Vec::new();
    let hay = nucleo_matcher::Utf32Str::new(heading, &mut buf);
    pattern.atoms.iter().map(|atom| atom.score(hay, &mut matcher)).collect()
}

/// `Pattern::score` from its atoms' scores: their sum in `u32` (wrapping,
/// as a release build adds them), `None` when an atom does not match, `0`
/// for a pattern without atoms.
pub open spec fn pattern_total(a: Seq<Option<u16>>) -> Option<u32>
    decreases a.len(),
{
    if a.len() == 0 {
        Some(0)
    } else {
        match (pattern_total(a.drop_last()), a.last()) {
            (Some(t), Some(x)) => Some(vstd::wrapping::u32_specs::wrapping_add(t, x as u32)),
            _ => None,
        }
    }
}

/// The fuzzy score of a heading: the pattern's score, `0` when it does not
/// match.
pub open spec fn heading_fuzzy(query: Seq<char>, heading: Seq<char>) -> u32 {
    match pattern_total(fuzzy_atom_scores(query, heading)) {
        Some(v) => v,
        None => 0,
    }
}

/// Sums the atoms' scores (see `pattern_total`).
fn pattern_score(a: &Vec<Option<u16>>) -> (r: Option<u32>)
    ensures
        r == pattern_total(a@),
{
    let mut t: u32 = 0;
    let mut i: usize = 0;
    proof {
        assert(a@.take(0) =~= Seq::<Option<u16>>::empty());
    }
    while i < a.len()
        invariant
            i <= a@.len(),
            pattern_total(a@.take(i as int)) == Some(t),
        decreases a@.len() - i,
    {
        proof {
            assert(a@.take(i as int + 1).drop_last() =~= a@.take(i as int));
            assert(a@.take(i as int + 1).last() == a@[i as int]);
        }
        match a[i] {
            Some(x) => {
                t = t.wrapping_add(x as u32);
            },
            None => {
                proof {
                    lemma_pattern_total_none(a@, i as int + 1);
                    assert(a@.take(a@.len() as int) =~= a@);
                }
                return None;
            },
        }
        i = i + 1;
    }
    proof {
        assert(a@.take(a@.len() as int) =~= a@);
    }
    Some(t)
}

/// Once an atom fails, the pattern fails.
proof fn lemma_pattern_total_none(a: Seq<Option<u16>>, k: int)
    requires
        0 < k <= a.len(),
        pattern_total(a.take(k)) is None,
    ensures
        pattern_total(a) is None,
    decreases a.len() - k,
{
    if k < a.len() {
        assert(a.take(k + 1).drop_last() =~= a.take(k));
        lemma_pattern_total_none(a, k + 1);
    } else {
        assert(a.take(k) =~= a);
    }
}

/// How many of `ws` occur in `h`.
pub open spec fn count_hits(h: Seq<char>, ws: Seq<Seq<char>>) -> nat
    decreases ws.len(),
{
    if ws.len() == 0 {
        0
    } else {
        count_hits(h, ws.drop_last()) + if seq_contains(h, ws.last()) {
            1nat
        } else {
            0nat
        }
    }
}

/// The heading bonus: 5000 when the whole query occurs in the heading,
/// plus 500 per query word in the heading, in `u32` (wrapping, as a
/// release build computes it).
pub open spec fn heading_bonus(h_lower: Seq<char>, q_lower: Seq<char>) -> u32 {
    vstd::wrapping::u32_specs::wrapping_add(
        if seq_contains(h_lower, q_lower) {
            5000u32
        } else {
            0u32
        },
        vstd::wrapping::u32_specs::wrapping_mul(count_hits(h_lower, words(q_lower)) as u32, 500u32),
    )
}

/// Score of one section for a (trimmed) query: the fuzzy heading score,
/// plus 5000 when the whole query occurs in the heading and 500 per query
/// word in the heading (all ASCII case-insensitive).  A section with none
/// of these scores 100 when the query occurs in its body, 25 when one of
/// its words does, and is dropped otherwise; a total of 0 (a sum that
/// wrapped) is dropped too.
pub open spec fn section_score(sec: SectionView, query: Seq<char>) -> Option<u32> {
    let q_lower = ascii_lower(query);
    let ws = words(q_lower);
    let fz = heading_fuzzy(query, sec.heading);
    let bonus = heading_bonus(ascii_lower(sec.heading), q_lower);
    if fz == 0 && bonus == 0 {
        let b_lower = ascii_lower(sec.body);
        if seq_contains(b_lower, q_lower) {
            Some(100)
        } else if hit_any(b_lower, ws) {
            Some(25)
        } else {
            None
        }
    } else {
        let total = vstd::wrapping::u32_specs::wrapping_add(fz, bonus);
        if total > 0 {
            Some(total)
        } else {
            None
        }
    }
}

/// The hits of `secs` in document order.
pub open spec fn scored(secs: Seq<SectionView>, query: Seq<char>) -> Seq<HitView>
    decreases secs.len(),
{
    if secs.len() == 0 {
        Seq::empty()
    } else {
        let prev = scored(secs.drop_last(), query);
        match section_score(secs.last(), query) {
            Some(s) => prev.push(HitView { section: secs.last(), score: s }),
            None => prev,
        }
    }
}

/// Position at which a hit of score `x` is inserted: after the leading
/// hits scoring at least `x`.
pub open spec fn insert_pos(s: Seq<HitView>, x: u32) -> nat
    decreases s.len(),
{
    if s.len() == 0 || s[0].score < x {
        0
    } else {
        1 + insert_pos(s.drop_first(), x)
    }
}

/// `h` inserted into `s` after every leading hit scoring at least as much.
pub open spec fn insert_desc(s: Seq<HitView>, h: HitView) -> Seq<HitView> {
    s.insert(insert_pos(s, h.score) as int, h)
}

/// Stable sort by descending score (`sort_by(|a, b| b.score.cmp(&a.score))`).
pub open spec fn sort_desc(s: Seq<HitView>) -> Seq<HitView>
    decreases s.len(),
{
    if s.len() == 0 {
        Seq::empty()
    } else {
        insert_desc(sort_desc(s.drop_last()), s.last())
    }
}

/// The first `n` elements (all of them when there are fewer).
pub open spec fn take_at_most<A>(s: Seq<A>, n: nat) -> Seq<A> {
    if n < s.len() {
        s.take(n as int)
    } else {
        s
    }
}

/// Scores are in descending order.
pub open spec fn sorted_desc(s: Seq<HitView>) -> bool {
    forall|i: int, j: int| 0 <= i < j < s.len() ==> s[i].score >= s[j].score
}

/// The ranked hits of a search: nothing for a blank query, no sections or
/// a zero limit; otherwise the scored sections, best first (ties keep
/// document order), at most `limit` of them.
pub open spec fn search_spec(secs: Seq<SectionView>, query: Seq<char>, limit: nat) -> Seq<HitView> {
    let q = trim(query);
    if q.len() == 0 || secs.len() == 0 || limit == 0 {
        Seq::empty()
    } else {
        take_at_most(sort_desc(scored(secs, q)), limit)
    }
}

/// Position of the first hit scoring less than `x` (or the length).
fn find_insert_pos(v: &Vec<DocHit>, x: u32) -> (r: usize)
    ensures
        r == insert_pos(hit_rows(v@), x),
        r <= v@.len(),
{
    let n = v.len();
    let mut i: usize = 0;
    let ghost rows = hit_rows(v@);
    proof {
        assert(rows.subrange(0, n as int) =~= rows);
    }
    while i < n
        invariant
            n == v@.len(),
            rows == hit_rows(v@),
            i <= n,
            insert_pos(rows, x) == i + insert_pos(rows.subrange(i as int, n as int), x),
        decreases n - i,
    {
        proof {
            assert(rows.subrange(i as int, n as int)[0] == rows[i as int]);
            assert(rows.subrange(i as int, n as int).drop_first() =~= rows.subrange(
                i as int + 1,
                n as int,
            ));
        }
        if v[i].score < x {
            return i;
        }
        i = i + 1;
    }
    proof {
        assert(rows.subrange(n as int, n as int).len() == 0);
    }
    i
}

/// Inserts `h` keeping descending order stable.
fn insert_hit(v: &mut Vec<DocHit>, h: DocHit)
    ensures
        hit_rows(final(v)@) == insert_desc(hit_rows(old(v)@), h@),
{
    let p = find_insert_pos(v, h.score);
    let ghost rows = hit_rows(v@);
    let ghost hv = h@;
    v.insert(p, h);
    proof {
        assert(hit_rows(v@) =~= rows.insert(p as int, hv));
    }
}

/// How many of `ws` occur in `h`.
fn count_word_hits(h: &[char], ws: &Vec<Vec<char>>) -> (r: usize)
    ensures
        r == count_hits(h@, ws@.map_values(|w: Vec<char>| w@)),
{
    let ghost wv = ws@.map_values(|w: Vec<char>| w@);
    let mut c: usize = 0;
    let mut i: usize = 0;
    proof {
        assert(wv.take(0) =~= Seq::<Seq<char>>::empty());
    }
    while i < ws.len()
        invariant
            wv == ws@.map_values(|w: Vec<char>| w@),
            i <= ws@.len(),
            c <= i,
            c == count_hits(h@, wv.take(i as int)),
        decreases ws@.len() - i,
    {
        proof {
            assert(wv.take(i as int + 1).drop_last() =~= wv.take(i as int));
            assert(wv.take(i as int + 1).last() == ws@[i as int]@);
        }
        if contains(h, ws[i].as_slice()) {
            c = c + 1;
        }
        i = i + 1;
    }
    proof {
        assert(wv.take(ws@.len() as int) =~= wv);
    }
    c
}

/// Some word of `ws` occurs in `h`.
fn any_word_hit(h: &[char], ws: &Vec<Vec<char>>) -> (r: bool)
    ensures
        r == hit_any(h@, ws@.map_values(|w: Vec<char>| w@)),
{
    let ghost wv = ws@.map_values(|w: Vec<char>| w@);
    let mut i: usize = 0;
    while i < ws.len()
        invariant
            wv == ws@.map_values(|w: Vec<char>| w@),
            i <= ws@.len(),
            forall|j: int| 0 <= j < i ==> !seq_contains(h@, #[trigger] wv[j]),
        decreases ws@.len() - i,
    {
        proof {
            assert(wv[i as int] == ws@[i as int]@);
        }
        if contains(h, ws[i].as_slice()) {
            return true;
        }
        i = i + 1;
    }
    false
}

/// Score of one section (see `section_score`).
fn score_section(
    sec: &DocSection,
    query: &str,
    q_lower: &Vec<char>,
    ws: &Vec<Vec<char>>,
) -> (r: Option<u32>)
    requires
        sec.heading@.len() <= u32::MAX,
        q_lower@ == ascii_lower(query@),
        ws@.map_values(|w: Vec<char>| w@) == words(ascii_lower(query@)),
    ensures
        r == section_score(sec@, query@),
{
    let atoms = atom_scores(query, sec.heading.as_str());
    let fz: u32 = match pattern_score(&atoms) {
        Some(v) => v,
        None => 0,
    };
    let h_lower = to_ascii_lowercase(sec.heading.as_str());
    let whole: u32 = if contains(h_lower.as_slice(), q_lower.as_slice()) {
        5000
    } else {
        0
    };
    let hits = count_word_hits(h_lower.as_slice(), ws);
    let bonus: u32 = whole.wrapping_add((hits as u32).wrapping_mul(500));
    if fz == 0 && bonus == 0 {
        let b_lower = to_ascii_lowercase(sec.body.as_str());
        if contains(b_lower.as_slice(), q_lower.as_slice()) {
            Some(100)
        } else if any_word_hit(b_lower.as_slice(), ws) {
            Some(25)
        } else {
            None
        }
    } else {
        let total = fz.wrapping_add(bonus);
        if total > 0 {
            Some(total)
        } else {
            None
        }
    }
}

/// Fuzzy-ranks sections against a query: heading fuzzy score plus
/// substring bonuses, best `limit` first (see `search_spec`).
pub fn search_sections(sections: &[DocSection], query: &str, limit: usize) -> (r: Vec<DocHit>)
    requires
        trim(query@).len() > 0 && limit > 0 ==> forall|i: int|
            0 <= i < sections@.len() ==> #[trigger] sections@[i].heading@.len() <= u32::MAX,
    ensures
        hit_rows(r@) == search_spec(section_rows(sections@), query@, limit as nat),
        sorted_desc(hit_rows(r@)),
        r@.len() <= limit,
{
    proof {
        lemma_search_ranked(section_rows(sections@), query@, limit as nat);
    }
    let qv = trim_str(query);
    let ghost secs = section_rows(sections@);
    if qv.len() == 0 || sections.len() == 0 || limit == 0 {
        let r: Vec<DocHit> = Vec::new();
        proof {
            assert(hit_rows(r@) =~= Seq::<HitView>::empty());
        }
        return r;
    }
    let q = string_from_chars(qv.as_slice());
    let q_lower = lower_chars(qv.as_slice());
    let ws = split_whitespace(q_lower.as_slice());
    proof {
        assert(ws@.map_values(|w: Vec<char>| w@) =~= words(ascii_lower(q@)));
        assert(secs.take(0) =~= Seq::<SectionView>::empty());
    }
    let mut ranked: Vec<DocHit> = Vec::new();
    let mut i: usize = 0;
    while i < sections.len()
        invariant
            secs == section_rows(sections@),
            i <= sections@.len(),
            q@ == trim(query@),
            q_lower@ == ascii_lower(q@),
            ws@.map_values(|w: Vec<char>| w@) == words(ascii_lower(q@)),
            forall|k: int| 0 <= k < sections@.len() ==> #[trigger] sections@[k].heading@.len() <= u32::MAX,
            hit_rows(ranked@) == sort_desc(scored(secs.take(i as int), q@)),
        decreases sections@.len() - i,
    {
        proof {
            assert(secs.take(i as int + 1).drop_last() =~= secs.take(i as int));
            assert(secs.take(i as int + 1).last() == sections@[i as int]@);
        }
        let sec = &sections[i];
        match score_section(sec, q.as_str(), &q_lower, &ws) {
            Some(score) => {
                let h = DocHit { section: sec.clone(), score };
                proof {
                    assert(h@ == HitView { section: sections@[i as int]@, score });
                    let pre = scored(secs.take(i as int), q@);
                    assert(pre.push(h@).drop_last() =~= pre);
                }
                insert_hit(&mut ranked, h);
            },
            None => {},
        }
        i = i + 1;
    }
    proof {
        assert(secs.take(sections@.len() as int) =~= secs);
    }
    ranked.truncate(limit);
    proof {
        let all = sort_desc(scored(secs, q@));
        assert(hit_rows(ranked@) =~= take_at_most(all, limit as nat));
    }
    ranked
}

/// Hits ranked best first; hits of equal score keep their order.
fn rank_hits(hits: Vec<DocHit>) -> (r: Vec<DocHit>)
    ensures
        hit_rows(r@) == sort_desc(hit_rows(hits@)),
        sorted_desc(hit_rows(r@)),
        hit_rows(r@).to_multiset() == hit_rows(hits@).to_multiset(),
{
    proof {
        lemma_sort_desc(hit_rows(hits@));
    }
    let ghost rows = hit_rows(hits@);
    let mut out: Vec<DocHit> = Vec::new();
    let mut i: usize = 0;
    let n = hits.len();
    proof {
        assert(rows.take(0) =~= Seq::<HitView>::empty());
        assert(hit_rows(out@) =~= Seq::<HitView>::empty());
    }
    while i < n
        invariant
            n == hits@.len(),
            rows == hit_rows(hits@),
            i <= n,
            hit_rows(out@) == sort_desc(rows.take(i as int)),
        decreases n - i,
    {
        proof {
            assert(rows.take(i as int + 1).drop_last() =~= rows.take(i as int));
            assert(rows.take(i as int + 1).last() == hits@[i as int]@);
        }
        let h = hits[i].clone();
        insert_hit(&mut out, h);
        i = i + 1;
    }
    proof {
        assert(rows.take(n as int) =~= rows);
    }
    out
}

/// The hits of several sources, one list after the other.
pub open spec fn source_rows(v: Seq<Vec<DocHit>>) -> Seq<HitView> {
    v.map_values(|h: Vec<DocHit>| hit_rows(h@)).flatten()
}

/// The hits of every source, in source order, merged best first; hits of
/// equal score keep that order.
pub fn merge_ranked(per_source: Vec<Vec<DocHit>>) -> (r: Vec<DocHit>)
    ensures
        hit_rows(r@) == sort_desc(source_rows(per_source@)),
        sorted_desc(hit_rows(r@)),
        hit_rows(r@).to_multiset() == source_rows(per_source@).to_multiset(),
{
    let ghost v = per_source@;
    let mut all: Vec<DocHit> = Vec::new();
    let mut i: usize = 0;
    proof {
        assert(v.take(0).map_values(|h: Vec<DocHit>| hit_rows(h@)) =~= Seq::<Seq<HitView>>::empty());
        assert(hit_rows(all@) =~= source_rows(v.take(0)));
    }
    while i < per_source.len()
        invariant
            v == per_source@,
            i <= v.len(),
            hit_rows(all@) == source_rows(v.take(i as int)),
        decreases v.len() - i,
    {
        let src = &per_source[i];
        let ghost before = hit_rows(all@);
        let mut j: usize = 0;
        proof {
            assert(hit_rows(src@).take(0) =~= Seq::<HitView>::empty());
            assert(before + hit_rows(src@).take(0) =~= before);
        }
        while j < src.len()
            invariant
                j <= src@.len(),
                hit_rows(all@) == before + hit_rows(src@).take(j as int),
            decreases src@.len() - j,
        {
            let h = src[j].clone();
            let ghost pre = hit_rows(all@);
            all.push(h);
            proof {
                assert(hit_rows(all@) =~= pre.push(src@[j as int]@));
                assert(hit_rows(src@).take(j as int + 1) =~= hit_rows(src@).take(j as int).push(
                    src@[j as int]@,
                ));
            }
            j = j + 1;
        }
        proof {
            assert(hit_rows(src@).take(src@.len() as int) =~= hit_rows(src@));
            let m = v.take(i as int).map_values(|h: Vec<DocHit>| hit_rows(h@));
            assert(v.take(i as int + 1).map_values(|h: Vec<DocHit>| hit_rows(h@)) =~= m.push(
                hit_rows(v[i as int]@),
            ));
            m.lemma_flatten_push(hit_rows(v[i as int]@));
        }
        i = i + 1;
    }
    proof {
        assert(v.take(v.len() as int) =~= v);
    }
    rank_hits(all)
}

// ---------------------------------------------------------------------
// Laws of the ranking
// ---------------------------------------------------------------------

/// Where `insert_pos` lands: after every leading hit scoring at least `x`,
/// before a hit scoring less.
proof fn lemma_insert_pos(s: Seq<HitView>, x: u32)
    ensures
        insert_pos(s, x) <= s.len(),
        forall|i: int| 0 <= i < insert_pos(s, x) ==> #[trigger] s[i].score >= x,
        insert_pos(s, x) < s.len() ==> s[insert_pos(s, x) as int].score < x,
    decreases s.len(),
{
    if s.len() > 0 && s[0].score >= x {
        lemma_insert_pos(s.drop_first(), x);
        assert forall|i: int| 0 <= i < insert_pos(s, x) implies #[trigger] s[i].score >= x by {
            if i > 0 {
                assert(s[i] == s.drop_first()[i - 1]);
            }
        }
    }
}

/// Inserting into a sorted list keeps it sorted and adds exactly `h`.
#[verifier::rlimit(50)]
proof fn lemma_insert_desc(s: Seq<HitView>, h: HitView)
    requires
        sorted_desc(s),
    ensures
        sorted_desc(insert_desc(s, h)),
        insert_desc(s, h).to_multiset() == s.to_multiset().insert(h),
        insert_desc(s, h).len() == s.len() + 1,
{
    let p = insert_pos(s, h.score) as int;
    lemma_insert_pos(s, h.score);
    let r = s.insert(p, h);
    vstd::seq_lib::to_multiset_insert(s, p, h);
    assert(r.len() == s.len() + 1);
    assert(forall|i: int| 0 <= i < p ==> r[i] == s[i]);
    assert(r[p] == h);
    assert(forall|i: int| p < i < r.len() ==> r[i] == s[i - 1]);
    assert(forall|i: int| 0 <= i < p ==> #[trigger] s[i].score >= h.score);
    assert(forall|k: int| p <= k < s.len() ==> #[trigger] s[k].score < h.score) by {
        assert forall|k: int| p <= k < s.len() implies #[trigger] s[k].score < h.score by {
            assert(s[p].score >= s[k].score);
        }
    }
    assert forall|i: int, j: int| 0 <= i < j < r.len() implies r[i].score >= r[j].score by {
        if j < p {
            assert(r[i] == s[i] && r[j] == s[j]);
        } else if j == p {
            assert(r[i] == s[i]);
        } else if i < p {
            assert(r[i] == s[i] && r[j] == s[j - 1]);
        } else if i == p {
            assert(r[j] == s[j - 1]);
        } else {
            assert(r[i] == s[i - 1] && r[j] == s[j - 1]);
        }
    }
}

/// Ranking orders hits best first and neither adds nor drops any.
pub proof fn lemma_sort_desc(s: Seq<HitView>)
    ensures
        sorted_desc(sort_desc(s)),
        sort_desc(s).to_multiset() == s.to_multiset(),
        sort_desc(s).len() == s.len(),
    decreases s.len(),
{
    broadcast use vstd::seq_lib::group_to_multiset_ensures;

    if s.len() == 0 {
        assert(sort_desc(s) =~= s);
    } else {
        lemma_sort_desc(s.drop_last());
        lemma_insert_desc(sort_desc(s.drop_last()), s.last());
        assert(s =~= s.drop_last().push(s.last()));
        vstd::seq_lib::to_multiset_build(s.drop_last(), s.last());
    }
}

/// Search results come best first, at most `limit` of them, each hit
/// being a section of the input with the score the scoring rules give it.
pub proof fn lemma_search_ranked(secs: Seq<SectionView>, query: Seq<char>, limit: nat)
    ensures
        sorted_desc(search_spec(secs, query, limit)),
        search_spec(secs, query, limit).len() <= limit,
        forall|i: int|
            0 <= i < search_spec(secs, query, limit).len() ==> {
                let h = #[trigger] search_spec(secs, query, limit)[i];
                &&& secs.contains(h.section)
                &&& section_score(h.section, trim(query)) == Some(h.score)
                &&& h.score > 0
            },
{
    let q = trim(query);
    if q.len() == 0 || secs.len() == 0 || limit == 0 {
    } else {
        let sc = scored(secs, q);
        lemma_scored(secs, q);
        lemma_sort_desc(sc);
        let srt = sort_desc(sc);
        let r = take_at_most(srt, limit);
        assert forall|i: int| 0 <= i < r.len() implies {
            let h = #[trigger] r[i];
            &&& secs.contains(h.section)
            &&& section_score(h.section, q) == Some(h.score)
        } by {
            assert(r[i] == srt[i]);
            assert(srt.to_multiset().count(srt[i]) > 0);
            assert(sc.to_multiset().count(srt[i]) > 0);
            assert(sc.contains(srt[i]));
        }
    }
}

/// Every scored hit is an input section with its score.
proof fn lemma_scored(secs: Seq<SectionView>, q: Seq<char>)
    ensures
        forall|h: HitView|
            scored(secs, q).contains(h) ==> secs.contains(h.section) && section_score(h.section, q)
                == Some(h.score),
    decreases secs.len(),
{
    if secs.len() > 0 {
        lemma_scored(secs.drop_last(), q);
        let prev = scored(secs.drop_last(), q);
        assert forall|h: HitView| scored(secs, q).contains(h) implies secs.contains(h.section)
            && section_score(h.section, q) == Some(h.score) by {
            match section_score(secs.last(), q) {
                Some(s) => {
                    let k = choose|k: int| 0 <= k < scored(secs, q).len() && scored(secs, q)[k] == h;
                    if k < prev.len() {
                        assert(prev[k] == h);
                        assert(prev.contains(h));
                        assert(secs.drop_last().contains(h.section));
                        let m = choose|m: int| 0 <= m < secs.drop_last().len() && secs.drop_last()[m]
                            == h.section;
                        assert(secs[m] == h.section);
                    } else {
                        assert(secs[secs.len() - 1] == h.section);
                    }
                },
                None => {
                    let k = choose|k: int| 0 <= k < prev.len() && prev[k] == h;
                    assert(prev.contains(h));
                    assert(secs.drop_last().contains(h.section));
                    let m = choose|m: int| 0 <= m < secs.drop_last().len() && secs.drop_last()[m]
                        == h.section;
                    assert(secs[m] == h.section);
                },
            }
        }
    }
}

/// When every word occurs, every word counts.
proof fn lemma_count_all(h: Seq<char>, ws: Seq<Seq<char>>)
    requires
        forall|k: int| 0 <= k < ws.len() ==> seq_contains(h, #[trigger] ws[k]),
    ensures
        count_hits(h, ws) == ws.len(),
    decreases ws.len(),
{
    if ws.len() > 0 {
        assert(seq_contains(h, ws[ws.len() - 1]));
        assert forall|k: int| 0 <= k < ws.drop_last().len() implies seq_contains(
            h,
            #[trigger] ws.drop_last()[k],
        ) by {
            assert(ws.drop_last()[k] == ws[k]);
        }
        lemma_count_all(h, ws.drop_last());
    }
}

/// A section whose heading contains the whole query (ASCII case ignored)
/// scores at least 5000 plus 500 per query word, when that sum plus its
/// fuzzy score stays within `u32`.
pub proof fn lemma_heading_match_score(sec: SectionView, query: Seq<char>)
    requires
        seq_contains(ascii_lower(sec.heading), ascii_lower(query)),
        heading_fuzzy(query, sec.heading) + 5000 + 500 * words(ascii_lower(query)).len() <= u32::MAX,
    ensures
        section_score(sec, query) matches Some(s) && s >= 5000 + 500 * words(ascii_lower(query)).len(),
{
    let q = ascii_lower(query);
    let h = ascii_lower(sec.heading);
    let ws = words(q);
    let n = ws.len();
    lemma_words_in(q);
    assert forall|k: int| 0 <= k < ws.len() implies seq_contains(h, #[trigger] ws[k]) by {
        lemma_contains_trans(h, q, ws[k]);
    }
    lemma_count_all(h, ws);
    let fz = heading_fuzzy(query, sec.heading);
    assert(n * 500 < 0x1_0000_0000);
    assert((n as u32) as nat == n);
    assert(((n as u32) as nat * 500u32 as nat) % 0x1_0000_0000 == n * 500) by (nonlinear_arith)
        requires
            n * 500 < 0x1_0000_0000,
            (n as u32) as nat == n,
    ;
    assert(heading_bonus(h, q) == 5000 + 500 * n);
}

/// Every atom of the pattern matched.
pub open spec fn all_atoms_match(a: Seq<Option<u16>>) -> bool {
    forall|k: int| 0 <= k < a.len() ==> (#[trigger] a[k]) is Some
}

/// The sum of the scores of the atoms that matched.
pub open spec fn atoms_sum(a: Seq<Option<u16>>) -> int
    decreases a.len(),
{
    if a.len() == 0 {
        0
    } else {
        atoms_sum(a.drop_last()) + match a.last() {
            Some(x) => x as int,
            None => 0,
        }
    }
}

/// A pattern scores the sum of its atoms' scores when every atom matches
/// (and the sum fits in `u32`), and fails as soon as one atom does not.
pub proof fn lemma_pattern_total(a: Seq<Option<u16>>)
    ensures
        all_atoms_match(a) && atoms_sum(a) <= u32::MAX ==> pattern_total(a) == Some(atoms_sum(a) as u32),
        !all_atoms_match(a) ==> pattern_total(a) is None,
        atoms_sum(a) >= 0,
    decreases a.len(),
{
    if a.len() > 0 {
        let d = a.drop_last();
        lemma_pattern_total(d);
        if all_atoms_match(a) {
            assert forall|k: int| 0 <= k < d.len() implies (#[trigger] d[k]) is Some by {
                assert(d[k] == a[k]);
            }
            assert(a[a.len() - 1] is Some);
        }
        if !all_atoms_match(a) {
            let k = choose|k: int| 0 <= k < a.len() && !((#[trigger] a[k]) is Some);
            if k < d.len() {
                assert(d[k] == a[k]);
                assert(!all_atoms_match(d));
            }
        }
    }
}

/// A section whose heading fuzzy-matches the query (every atom scores)
/// scores at least the sum of the atom scores, when that sum is positive
/// and, with the heading bonuses, stays within `u32`.
pub proof fn lemma_fuzzy_match_score(sec: SectionView, query: Seq<char>)
    requires
        all_atoms_match(fuzzy_atom_scores(query, sec.heading)),
        atoms_sum(fuzzy_atom_scores(query, sec.heading)) > 0,
        atoms_sum(fuzzy_atom_scores(query, sec.heading)) + 5000 + 500 * words(ascii_lower(query)).len()
            <= u32::MAX,
    ensures
        section_score(sec, query) matches Some(s) && s >= atoms_sum(
            fuzzy_atom_scores(query, sec.heading),
        ),
{
    let a = fuzzy_atom_scores(query, sec.heading);
    lemma_pattern_total(a);
    let q = ascii_lower(query);
    let h = ascii_lower(sec.heading);
    let n = count_hits(h, words(q));
    lemma_count_hits_le(h, words(q));
    assert(n * 500 < 0x1_0000_0000);
    assert((n as u32) as nat == n);
    assert(((n as u32) as nat * 500u32 as nat) % 0x1_0000_0000 == n * 500) by (nonlinear_arith)
        requires
            n * 500 < 0x1_0000_0000,
            (n as u32) as nat == n,
    ;
    assert(heading_bonus(h, q) <= 5000 + 500 * n);
}

/// No more words count than there are.
proof fn lemma_count_hits_le(h: Seq<char>, ws: Seq<Seq<char>>)
    ensures
        count_hits(h, ws) <= ws.len(),
    decreases ws.len(),
{
    if ws.len() > 0 {
        lemma_count_hits_le(h, ws.drop_last());
    }
}

/// A search that returns fewer than `limit` hits returns every section
/// whose heading fuzzy-matches the query with a positive score, scored at
/// least that much (when the score and bonuses stay within `u32`).
pub proof fn lemma_fuzzy_match_found(secs: Seq<SectionView>, query: Seq<char>, limit: nat, i: int)
    requires
        0 <= i < secs.len(),
        limit > 0,
        trim(query).len() > 0,
        all_atoms_match(fuzzy_atom_scores(trim(query), secs[i].heading)),
        atoms_sum(fuzzy_atom_scores(trim(query), secs[i].heading)) > 0,
        atoms_sum(fuzzy_atom_scores(trim(query), secs[i].heading)) + 5000 + 500 * words(
            ascii_lower(trim(query)),
        ).len() <= u32::MAX,
    ensures
        search_spec(secs, query, limit).len() < limit ==> exists|j: int|
            0 <= j < search_spec(secs, query, limit).len() && #[trigger] search_spec(
                secs,
                query,
                limit,
            )[j].section == secs[i] && search_spec(secs, query, limit)[j].score >= atoms_sum(
                fuzzy_atom_scores(trim(query), secs[i].heading),
            ),
{
    let q = trim(query);
    lemma_fuzzy_match_score(secs[i], q);
    lemma_scored_has(secs, q, i);
    let sc = scored(secs, q);
    let h = HitView { section: secs[i], score: section_score(secs[i], q).unwrap() };
    lemma_sort_desc(sc);
    let srt = sort_desc(sc);
    assert(sc.to_multiset().count(h) > 0);
    assert(srt.to_multiset().count(h) > 0);
    assert(srt.contains(h));
    let r = search_spec(secs, query, limit);
    assert(r == take_at_most(srt, limit));
    if r.len() < limit {
        assert(r == srt);
        let j = choose|j: int| 0 <= j < srt.len() && srt[j] == h;
        assert(r[j] == h);
        assert(0 <= j < r.len() && r[j].section == secs[i]);
    }
}

/// A scoring section appears among the scored hits with its score.
proof fn lemma_scored_has(secs: Seq<SectionView>, q: Seq<char>, i: int)
    requires
        0 <= i < secs.len(),
        section_score(secs[i], q) is Some,
    ensures
        scored(secs, q).contains(HitView { section: secs[i], score: section_score(secs[i], q).unwrap() }),
    decreases secs.len(),
{
    let h = HitView { section: secs[i], score: section_score(secs[i], q).unwrap() };
    let prev = scored(secs.drop_last(), q);
    if i == secs.len() - 1 {
        assert(scored(secs, q) == prev.push(h));
        assert(prev.push(h)[prev.len() as int] == h);
    } else {
        assert(secs.drop_last()[i] == secs[i]);
        lemma_scored_has(secs.drop_last(), q, i);
        let k = choose|k: int| 0 <= k < prev.len() && prev[k] == h;
        match section_score(secs.last(), q) {
            Some(sc) => {
                assert(prev.push(HitView { section: secs.last(), score: sc })[k] == h);
            },
            None => {},
        }
    }
}

/// A search that returns fewer than `limit` hits returns every section
/// whose heading contains the whole query, with a score of at least 5000
/// plus 500 per query word (when that sum plus its fuzzy score stays
/// within `u32`).
pub proof fn lemma_heading_match_found(secs: Seq<SectionView>, query: Seq<char>, limit: nat, i: int)
    requires
        0 <= i < secs.len(),
        limit > 0,
        trim(query).len() > 0,
        seq_contains(ascii_lower(secs[i].heading), ascii_lower(trim(query))),
        heading_fuzzy(trim(query), secs[i].heading) + 5000 + 500 * words(ascii_lower(trim(query))).len()
            <= u32::MAX,
    ensures
        search_spec(secs, query, limit).len() < limit ==> exists|j: int|
            0 <= j < search_spec(secs, query, limit).len() && #[trigger] search_spec(
                secs,
                query,
                limit,
            )[j].section == secs[i] && search_spec(secs, query, limit)[j].score >= 5000 + 500 * words(
                ascii_lower(trim(query)),
            ).len(),
{
    let q = trim(query);
    lemma_heading_match_score(secs[i], q);
    lemma_scored_has(secs, q, i);
    let sc = scored(secs, q);
    let h = HitView { section: secs[i], score: section_score(secs[i], q).unwrap() };
    lemma_sort_desc(sc);
    let srt = sort_desc(sc);
    assert(sc.to_multiset().count(h) > 0);
    assert(srt.to_multiset().count(h) > 0);
    assert(srt.contains(h));
    let r = search_spec(secs, query, limit);
    assert(r == take_at_most(srt, limit));
    if r.len() < limit {
        assert(r == srt);
        let j = choose|j: int| 0 <= j < srt.len() && srt[j] == h;
        assert(r[j] == h);
        assert(h.score >= 5000 + 500 * words(ascii_lower(q)).len());
        assert(0 <= j < r.len() && r[j].section == secs[i] && r[j].score >= 5000 + 500 * words(
            ascii_lower(q),
        ).len());
    }
}

// ---------------------------------------------------------------------
// Laws of source ids
// ---------------------------------------------------------------------

/// Lower-casing twice is lower-casing once.
pub proof fn lemma_ascii_lower_idempotent(s: Seq<char>)
    ensures
        ascii_lower(ascii_lower(s)) == ascii_lower(s),
{
    assert(ascii_lower(ascii_lower(s)) =~= ascii_lower(s));
}

/// Every documented alias names its source, ASCII case ignored:
/// `reference`, `ref`, `spec` the Reference; `by-example`, `example`,
/// `examples`, `rbe` Rust by Example; `nomicon`, `nomi` the Rustonomicon;
/// `book`, `rust-book`, `trpl` the Book.
pub proof fn lemma_source_aliases(s: Seq<char>)
    ensures
        ascii_lower(s) == "reference"@ || ascii_lower(s) == "ref"@ || ascii_lower(s) == "spec"@
            ==> source_from_id(s) == Some(DocSource::Reference),
        ascii_lower(s) == "by-example"@ || ascii_lower(s) == "example"@ || ascii_lower(s)
            == "examples"@ || ascii_lower(s) == "rbe"@ ==> source_from_id(s) == Some(
            DocSource::ByExample,
        ),
        ascii_lower(s) == "nomicon"@ || ascii_lower(s) == "nomi"@ ==> source_from_id(s) == Some(
            DocSource::Nomicon,
        ),
        ascii_lower(s) == "book"@ || ascii_lower(s) == "rust-book"@ || ascii_lower(s) == "trpl"@
            ==> source_from_id(s) == Some(DocSource::Book),
{
    reveal_strlit("reference");
    reveal_strlit("ref");
    reveal_strlit("spec");
    reveal_strlit("by-example");
    reveal_strlit("example");
    reveal_strlit("examples");
    reveal_strlit("rbe");
    reveal_strlit("nomicon");
    reveal_strlit("nomi");
    reveal_strlit("book");
    reveal_strlit("rust-book");
    reveal_strlit("trpl");
    let l = ascii_lower(s);
    if l == "example"@ || l == "rbe"@ || l == "examples"@ || l == "by-example"@ {
        assert(l != "reference"@ && l != "ref"@ && l != "spec"@) by {
            assert(l[0] != 'r' || l[1] != 'e');
            assert(l[0] != 's');
        }
    }
    if l == "nomicon"@ || l == "nomi"@ {
        assert(l[0] == 'n');
        assert(l != "reference"@ && l != "ref"@ && l != "spec"@);
        assert(l != "by-example"@ && l != "example"@ && l != "examples"@ && l != "rbe"@);
    }
    if l == "book"@ || l == "rust-book"@ || l == "trpl"@ {
        assert(l != "reference"@ && l != "ref"@ && l != "spec"@) by {
            assert(l[0] != 's');
            assert(l[0] != 'r' || l[1] != 'e');
        }
        assert(l != "by-example"@ && l != "example"@ && l != "examples"@ && l != "rbe"@) by {
            assert(l[0] != 'b' || l.len() == 4);
            assert(l[0] != 'e');
            assert(l[0] != 'r' || l[1] != 'b');
        }
        assert(l != "nomicon"@ && l != "nomi"@) by {
            assert(l[0] != 'n');
        }
    }
}

/// Every source id is lower case and names its source; ids differ.
pub proof fn lemma_source_ids(x: DocSource)
    ensures
        ascii_lower(source_id(x)) == source_id(x),
        source_from_id(source_id(x)) == Some(x),
        forall|y: DocSource| source_id(y) == source_id(x) ==> y == x,
{
    reveal_strlit("reference");
    reveal_strlit("ref");
    reveal_strlit("spec");
    reveal_strlit("by-example");
    reveal_strlit("example");
    reveal_strlit("examples");
    reveal_strlit("rbe");
    reveal_strlit("nomicon");
    reveal_strlit("nomi");
    reveal_strlit("book");
    let id = source_id(x);
    assert(ascii_lower(id) =~= id);
    assert("reference"@ != "ref"@) by {
        assert("reference"@.len() != "ref"@.len());
    }
    assert("reference"@ != "spec"@) by {
        assert("reference"@.len() != "spec"@.len());
    }
    assert("by-example"@ != "reference"@) by {
        assert("by-example"@.len() != "reference"@.len());
    }
    assert("by-example"@ != "ref"@) by {
        assert("by-example"@.len() != "ref"@.len());
    }
    assert("by-example"@ != "spec"@) by {
        assert("by-example"@.len() != "spec"@.len());
    }
    assert("nomicon"@ != "reference"@) by {
        assert("nomicon"@.len() != "reference"@.len());
    }
    assert("nomicon"@ != "ref"@) by {
        assert("nomicon"@.len() != "ref"@.len());
    }
    assert("nomicon"@ != "spec"@) by {
        assert("nomicon"@.len() != "spec"@.len());
    }
    assert("nomicon"@ != "by-example"@) by {
        assert("nomicon"@.len() != "by-example"@.len());
    }
    assert("nomicon"@ != "example"@) by {
        assert("nomicon"@[0] != "example"@[0]);
    }
    assert("nomicon"@ != "examples"@) by {
        assert("nomicon"@.len() != "examples"@.len());
    }
    assert("nomicon"@ != "rbe"@) by {
        assert("nomicon"@.len() != "rbe"@.len());
    }
    assert("book"@ != "reference"@) by {
        assert("book"@.len() != "reference"@.len());
    }
    assert("book"@ != "ref"@) by {
        assert("book"@.len() != "ref"@.len());
    }
    assert("book"@ != "spec"@) by {
        assert("book"@[0] != "spec"@[0]);
    }
    assert("book"@ != "by-example"@) by {
        assert("book"@.len() != "by-example"@.len());
    }
    assert("book"@ != "example"@) by {
        assert("book"@.len() != "example"@.len());
    }
    assert("book"@ != "examples"@) by {
        assert("book"@.len() != "examples"@.len());
    }
    assert("book"@ != "rbe"@) by {
        assert("book"@.len() != "rbe"@.len());
    }
    assert("book"@ != "nomicon"@) by {
        assert("book"@.len() != "nomicon"@.len());
    }
    assert("book"@ != "nomi"@) by {
        assert("book"@[0] != "nomi"@[0]);
    }
    assert("nomicon"@ != "book"@) by {
        assert("nomicon"@.len() != "book"@.len());
    }
}

// ---------------------------------------------------------------------
// Laws of the section walk
// ---------------------------------------------------------------------

/// Every body holds at most `MAX_BODY_CHARS` bytes plus the 3-byte `'…'`.
pub open spec fn bodies_bounded(secs: Seq<SectionView>) -> bool {
    forall|i: int| 0 <= i < secs.len() ==> utf8_len(#[trigger] secs[i].body) <= MAX_BODY_CHARS + 3
}

/// A clipped body fits the budget plus the ellipsis.
proof fn lemma_clip_body(b: Seq<char>)
    ensures
        utf8_len(clip_body(b)) <= MAX_BODY_CHARS + 3,
{
    if utf8_len(b) > MAX_BODY_CHARS {
        lemma_fit_len(b, MAX_BODY_CHARS as nat);
        let p = utf8_prefix(b, MAX_BODY_CHARS as nat);
        assert(p.push('…').drop_last() =~= p);
    }
}

/// A paragraph-like element (`p`, `li`, `dt`, `dd`, `blockquote`, `td`,
/// `th`, ASCII case ignored) with non-blank text appends that text, then a
/// blank line, to the open section's body within the byte budget; nothing
/// else changes.  When the budget has room, the body grows by exactly the
/// trimmed text and `"\n\n"`.
pub proof fn lemma_paragraph_kept(
    source: DocSource,
    nodes: Seq<Option<(Seq<char>, Seq<char>, Option<Seq<char>>)>>,
    name: Seq<char>,
    text: Seq<char>,
    id: Option<Seq<char>>,
)
    requires
        !walk_nodes(source, nodes).stopped,
        ascii_lower(name) == "p"@ || ascii_lower(name) == "li"@ || ascii_lower(name) == "dt"@
            || ascii_lower(name) == "dd"@ || ascii_lower(name) == "blockquote"@ || ascii_lower(name)
            == "td"@ || ascii_lower(name) == "th"@,
        trim(text).len() > 0,
    ensures
        ({
            let w = walk_nodes(source, nodes);
            let w2 = walk_nodes(source, nodes.push(Some((name, text, id))));
            &&& w2.body == push_bounded_spec(
                push_bounded_spec(w.body, trim(text), MAX_BODY_CHARS as nat),
                seq!['\n', '\n'],
                MAX_BODY_CHARS as nat,
            )
            &&& w2.sections == w.sections
            &&& w2.heading == w.heading
            &&& w2.level == w.level
            &&& w2.anchor == w.anchor
            &&& !w2.stopped
            &&& utf8_len(w.body) + utf8_len(trim(text)) + 2 <= MAX_BODY_CHARS ==> w2.body == w.body
                + trim(text) + seq!['\n', '\n']
        }),
{
    reveal_strlit("p");
    reveal_strlit("li");
    reveal_strlit("dt");
    reveal_strlit("dd");
    reveal_strlit("blockquote");
    reveal_strlit("td");
    reveal_strlit("th");
    reveal_strlit("h1");
    reveal_strlit("h2");
    reveal_strlit("h3");
    reveal_strlit("h4");
    reveal_strlit("pre");
    let ns = nodes.push(Some((name, text, id)));
    assert(ns.drop_last() =~= nodes);
    let n = ascii_lower(name);
    assert(!is_heading_name(n)) by {
        if n.len() == 2 {
            assert(n[0] != 'h');
        }
    }
    assert(n != "pre"@) by {
        assert(n.len() != 3 || n[0] != 'p');
    }
    let w = walk_nodes(source, nodes);
    let t = trim(text);
    let nl = seq!['\n', '\n'];
    if utf8_len(w.body) + utf8_len(t) + 2 <= MAX_BODY_CHARS {
        let cap = MAX_BODY_CHARS as nat;
        lemma_fit_len(t, (cap - utf8_len(w.body)) as nat);
        assert(t.take(t.len() as int) =~= t);
        let b1 = w.body + t;
        lemma_utf8_len_concat(w.body, t);
        assert(utf8_len(nl) == 2) by {
            let one = nl.drop_last();
            assert(one.drop_last() =~= Seq::<char>::empty());
            assert(utf8_len(one.drop_last()) == 0);
            assert(one.last() == '\n');
            assert(utf8_len(one) == 1);
            assert(nl.last() == '\n');
        }
        lemma_fit_len(nl, (cap - utf8_len(b1)) as nat);
        assert(nl.take(2) =~= nl);
    }
}

/// Closing a section adds at most one, well-bounded, section.
proof fn lemma_flush(source: DocSource, w: Walk)
    requires
        bodies_bounded(w.sections),
    ensures
        bodies_bounded(flush_spec(source, w).sections),
        flush_spec(source, w).sections.len() <= w.sections.len() + 1,
{
    lemma_clip_body(trim(w.body));
    let f = flush_spec(source, w);
    assert forall|i: int| 0 <= i < f.sections.len() implies utf8_len(#[trigger] f.sections[i].body)
        <= MAX_BODY_CHARS + 3 by {
        if i < w.sections.len() {
            assert(f.sections[i] == w.sections[i]);
        }
    }
}

/// While walking, at most `MAX_SECTIONS_PER_SOURCE` sections are closed
/// and every body is bounded.
proof fn lemma_walk_nodes(
    source: DocSource,
    nodes: Seq<Option<(Seq<char>, Seq<char>, Option<Seq<char>>)>>,
)
    ensures
        walk_nodes(source, nodes).sections.len() <= MAX_SECTIONS_PER_SOURCE,
        bodies_bounded(walk_nodes(source, nodes).sections),
    decreases nodes.len(),
{
    if nodes.len() > 0 {
        lemma_walk_nodes(source, nodes.drop_last());
        let w = walk_nodes(source, nodes.drop_last());
        lemma_flush(source, w);
    }
}

/// A page yields at most `MAX_SECTIONS_PER_SOURCE + 1` sections (the walk
/// stops at the first heading past the limit, and the open section is
/// still closed), each body holding at most `MAX_BODY_CHARS` bytes plus
/// the ellipsis that marks a cut.
pub proof fn lemma_sections_bounded(
    source: DocSource,
    nodes: Seq<Option<(Seq<char>, Seq<char>, Option<Seq<char>>)>>,
)
    ensures
        sections_of(source, nodes).len() <= MAX_SECTIONS_PER_SOURCE + 1,
        bodies_bounded(sections_of(source, nodes)),
{
    lemma_walk_nodes(source, nodes);
    lemma_flush(source, walk_nodes(source, nodes));
}

} // verus!
