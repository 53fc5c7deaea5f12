//! Doc skills: one per documentation source, a registry, keyword routing
//! and the markdown a skill answers with.

use vstd::prelude::*;

use crate::docs::{
    lemma_ascii_lower_idempotent, lemma_source_ids,
    hit_rows, is_str, section_rows, slug, slugify, source_canonical_url, source_from_id,
    source_id, source_title, heuristic_score_spec, DocHit, DocSection, DocSource, HitView,
    SectionView,
};
use crate::text::{
    ascii_lower, ascii_lower_char, clip, clip_chars, push_str, string_from_chars, to_chars,
    to_ascii_lowercase, trim_end_char, trim_end_matches, push_chars,
};

verus! {

broadcast use vstd::seq_lib::group_seq_properties;

/// A documentation skill: searches one source.
#[derive(Clone, Copy)]
pub struct DocSkill {
    pub source: DocSource,
    pub hints: &'static str,
}

impl DocSkill {
    /// A skill for `source`, described by `hints` for the router.
    pub fn new(source: DocSource, hints: &'static str) -> (r: Self)
        ensures
            r.source == source,
            r.hints == hints,
    {
        DocSkill { source, hints }
    }

    /// The skill's id: its source's id.
    pub fn id(&self) -> (r: &'static str)
        ensures
            r@ == source_id(self.source),
    {
        self.source.id()
    }

    /// The description given to the router.
    pub fn description(&self) -> (r: &'static str)
        ensures
            r == self.hints,
    {
        self.hints
    }

    /// The source the skill searches.
    pub fn source(&self) -> (r: DocSource)
        ensures
            r == self.source,
    {
        self.source
    }

    /// The answer for a search's hits: the best hit rendered as markdown,
    /// or `NoMatches` when there is none.
    pub fn output(&self, hits: Vec<DocHit>) -> (r: Result<SkillOutput, SkillError>)
        ensures
            hits@.len() == 0 ==> r == Err::<SkillOutput, SkillError>(SkillError::NoMatches(self.source)),
            hits@.len() > 0 ==> (r matches Ok(o) && o.source == self.source && o.title@
                == hits@[0].section.heading@ && o.markdown@ == section_markdown(hits@[0].section@)
                && hit_rows(o.hits@) == hit_rows(hits@)),
    {
        if hits.len() == 0 {
            return Err(SkillError::NoMatches(self.source));
        }
        let top = &hits[0];
        let title = top.section.heading.clone();
        let markdown = format_section_markdown(top);
        Ok(SkillOutput { source: self.source, title, markdown, hits })
    }
}

/// Output of a skill run.
pub struct SkillOutput {
    pub source: DocSource,
    pub title: String,
    /// Markdown ready for chunking.
    pub markdown: String,
    pub hits: Vec<DocHit>,
}

/// Why a skill has no answer.
#[derive(Debug, Clone, Copy, PartialEq, Eq, Structural)]
pub enum SkillError {
    /// The search found nothing in this source.
    NoMatches(DocSource),
}

impl SkillError {
    /// The message shown to users: "no matches in <title>".
    pub fn message(&self) -> (r: String)
        ensures
            r@ == (match *self {
                SkillError::NoMatches(s) => "no matches in "@ + source_title(s),
            }),
    {
        match self {
            SkillError::NoMatches(s) => {
                let mut m = "no matches in ".to_owned();
                push_str(&mut m, s.title());
                m
            },
        }
    }
}

/// `s` when it has at most `max` characters, else its first `max`
/// characters followed by `'…'`.
pub open spec fn truncate_chars_spec(s: Seq<char>, max: nat) -> Seq<char> {
    clip(s, max, max)
}

/// The anchor of a section: its own, or the slug of its heading.
pub open spec fn section_anchor(s: SectionView) -> Seq<char> {
    if s.anchor.len() == 0 {
        slug(s.heading)
    } else {
        s.anchor
    }
}

/// Link to a section: canonical URL without trailing `/`, `#`, anchor.
pub open spec fn section_url(s: SectionView) -> Seq<char> {
    trim_end_char(source_canonical_url(s.source), '/') + "#"@ + section_anchor(s)
}

/// The markdown of a hit: `## <title> — <heading>`, the link in angle
/// brackets, a blank line and the body cut to 1800 characters.
pub open spec fn section_markdown(s: SectionView) -> Seq<char> {
    "## "@ + source_title(s.source) + " — "@ + s.heading + "\n"@ + "<"@ + section_url(s) + ">\n\n"@
        + truncate_chars_spec(s.body, 1800)
}

/// Renders a hit as Discord-friendly markdown (see `section_markdown`).
pub fn format_section_markdown(hit: &DocHit) -> (r: String)
    ensures
        r@ == section_markdown(hit.section@),
{
    let s = &hit.section;
    let anchor: String = if s.anchor.as_str().is_empty() {
        slugify(s.heading.as_str())
    } else {
        s.anchor.clone()
    };
    let base = to_chars(s.source.canonical_url());
    let base = trim_end_matches(base.as_slice(), '/');
    let mut url = string_from_chars(base.as_slice());
    push_str(&mut url, "#");
    push_str(&mut url, anchor.as_str());
    let mut out = String::new();
    push_str(&mut out, "## ");
    push_str(&mut out, s.source.title());
    push_str(&mut out, " — ");
    push_str(&mut out, s.heading.as_str());
    push_str(&mut out, "\n");
    push_str(&mut out, "<");
    push_str(&mut out, url.as_str());
    push_str(&mut out, ">\n\n");
    let body = truncate_chars(s.body.as_str(), 1800);
    push_str(&mut out, body.as_str());
    proof {
        assert(anchor@ == section_anchor(s@));
        assert(out@ =~= section_markdown(s@));
    }
    out
}

/// Shortens `s` to `max` characters plus `'…'` when it is longer.
fn truncate_chars(s: &str, max: usize) -> (r: String)
    ensures
        r@ == truncate_chars_spec(s@, max as nat),
{
    let cs = to_chars(s);
    let v = clip_chars(cs.as_slice(), max, max);
    string_from_chars(v.as_slice())
}

// ---------------------------------------------------------------------
// Registry
// ---------------------------------------------------------------------

/// The first skill whose id is `id`.
pub open spec fn find_skill(sk: Seq<DocSkill>, id: Seq<char>) -> Option<DocSkill>
    decreases sk.len(),
{
    if sk.len() == 0 {
        None
    } else if source_id(sk[0].source) == id {
        Some(sk[0])
    } else {
        find_skill(sk.drop_first(), id)
    }
}

/// Skill lookup: an id or alias of a source (ASCII case ignored) names
/// that source's skill; otherwise the lower-cased text is taken as an id.
pub open spec fn registry_get(sk: Seq<DocSkill>, id: Seq<char>) -> Option<DocSkill> {
    let q = ascii_lower(id);
    match source_from_id(q) {
        Some(src) => find_skill(sk, source_id(src)),
        None => find_skill(sk, q),
    }
}

/// Best skill so far: (index, score) of the first highest keyword score,
/// starting from `i32::MIN`.
pub open spec fn route_fold(sk: Seq<DocSkill>, q: Seq<char>) -> (int, int)
    decreases sk.len(),
{
    if sk.len() == 0 {
        (0, i32::MIN as int)
    } else {
        let prev = route_fold(sk.drop_last(), q);
        let sc = heuristic_score_spec(sk.last().source, q);
        if sc > prev.1 {
            (sk.len() - 1, sc)
        } else {
            prev
        }
    }
}

/// Keyword routing: the first skill with the highest keyword score for
/// the query, or the Book skill when no score is positive.
pub open spec fn heuristic_route_spec(sk: Seq<DocSkill>, query: Seq<char>) -> DocSkill {
    let best = route_fold(sk, ascii_lower(query));
    if best.1 <= 0 {
        registry_get(sk, "book"@).unwrap()
    } else {
        sk[best.0]
    }
}

/// One catalogue line: `- <id>: <description>`.
pub open spec fn catalogue_line(s: DocSkill) -> Seq<char> {
    "- "@ + source_id(s.source) + ": "@ + s.hints@
}

/// The catalogue: one line per skill, joined by newlines.
pub open spec fn catalogue_spec(sk: Seq<DocSkill>) -> Seq<char>
    decreases sk.len(),
{
    if sk.len() == 0 {
        Seq::empty()
    } else if sk.len() == 1 {
        catalogue_line(sk[0])
    } else {
        catalogue_spec(sk.drop_last()) + "\n"@ + catalogue_line(sk.last())
    }
}

/// The registry of doc skills.
pub struct SkillRegistry {
    pub skills: Vec<DocSkill>,
}

/// `"book"` names the Book.
proof fn lemma_book_id()
    ensures
        source_from_id("book"@) == Some(DocSource::Book),
        ascii_lower("book"@) == "book"@,
        source_id(DocSource::Reference) != "book"@,
        source_id(DocSource::ByExample) != "book"@,
        source_id(DocSource::Nomicon) != "book"@,
        source_id(DocSource::Book) == "book"@,
{
    reveal_strlit("book");
    reveal_strlit("reference");
    reveal_strlit("ref");
    reveal_strlit("spec");
    reveal_strlit("by-example");
    reveal_strlit("example");
    reveal_strlit("examples");
    reveal_strlit("rbe");
    reveal_strlit("nomicon");
    reveal_strlit("nomi");
    assert(ascii_lower("book"@) =~= "book"@);
    assert("book"@ != "reference"@);
    assert("book"@ != "by-example"@);
    assert("book"@ != "nomicon"@);
    assert("book"@ != "spec"@) by {
        assert("book"@[0] != "spec"@[0]);
    }
    assert("book"@ != "nomi"@) by {
        assert("book"@[0] != "nomi"@[0]);
    }
}

impl SkillRegistry {
    /// The four doc skills: Reference, By Example, Nomicon, Book, each
    /// with the description the router reads.
    pub fn new() -> (r: Self)
        ensures
            r.skills@.len() == 4,
            r.skills@[0].source == DocSource::Reference,
            r.skills@[1].source == DocSource::ByExample,
            r.skills@[2].source == DocSource::Nomicon,
            r.skills@[3].source == DocSource::Book,
            r.skills@[0].hints@
                == "authoritative language semantics: syntax, types, lifetimes, keywords, attributes, grammar"@,
            r.skills@[1].hints@
                == "runnable code examples: hello world, formatting, control flow, functions, modules, generics, error handling"@,
            r.skills@[2].hints@
                == "unsafe Rust, FFI, transmuting, raw pointers, aliasing, drop-check, uninitialized memory"@,
            r.skills@[3].hints@
                == "gentle beginner guide: ownership, borrowing, structs, enums, cargo, projects, getting started"@,
            r.well_formed(),
    {
        let skills = vec![
            DocSkill::new(
                DocSource::Reference,
                "authoritative language semantics: syntax, types, lifetimes, keywords, attributes, grammar",
            ),
            DocSkill::new(
                DocSource::ByExample,
                "runnable code examples: hello world, formatting, control flow, functions, modules, generics, error handling",
            ),
            DocSkill::new(
                DocSource::Nomicon,
                "unsafe Rust, FFI, transmuting, raw pointers, aliasing, drop-check, uninitialized memory",
            ),
            DocSkill::new(
                DocSource::Book,
                "gentle beginner guide: ownership, borrowing, structs, enums, cargo, projects, getting started",
            ),
        ];
        let r = SkillRegistry { skills };
        proof {
            lemma_book_id();
            let sk = r.skills@;
            assert(sk.drop_first()[0] == sk[1]);
            assert(sk.drop_first().drop_first()[0] == sk[2]);
            assert(sk.drop_first().drop_first().drop_first()[0] == sk[3]);
            assert(find_skill(sk.drop_first().drop_first().drop_first(), "book"@) == Some(sk[3]));
            assert(find_skill(sk.drop_first().drop_first(), "book"@) == Some(sk[3]));
            assert(find_skill(sk.drop_first(), "book"@) == Some(sk[3]));
            assert(find_skill(sk, "book"@) == Some(sk[3]));
        }
        r
    }

    /// There is a skill, and one answers to "book".
    pub open spec fn well_formed(&self) -> bool {
        &&& self.skills@.len() > 0
        &&& registry_get(self.skills@, "book"@) is Some
    }

    /// The first skill whose id is `id`.
    fn find(&self, id: &[char]) -> (r: Option<DocSkill>)
        ensures
            r == find_skill(self.skills@, id@),
    {
        let n = self.skills.len();
        let mut i: usize = 0;
        let ghost sk = self.skills@;
        proof {
            assert(sk.subrange(0, n as int) =~= sk);
        }
        while i < n
            invariant
                n == sk.len(),
                sk == self.skills@,
                i <= n,
                find_skill(sk, id@) == find_skill(sk.subrange(i as int, n as int), id@),
            decreases n - i,
        {
            proof {
                assert(sk.subrange(i as int, n as int)[0] == sk[i as int]);
                assert(sk.subrange(i as int, n as int).drop_first() =~= sk.subrange(
                    i as int + 1,
                    n as int,
                ));
            }
            let s = self.skills[i];
            if is_str(id, s.id()) {
                return Some(s);
            }
            i = i + 1;
        }
        proof {
            assert(sk.subrange(n as int, n as int).len() == 0);
        }
        None
    }

    /// Looks up a skill by id or alias (see `registry_get`).
    pub fn get(&self, id: &str) -> (r: Option<DocSkill>)
        ensures
            r == registry_get(self.skills@, id@),
    {
        let q = to_ascii_lowercase(id);
        let qs = string_from_chars(q.as_slice());
        match DocSource::from_id(qs.as_str()) {
            Some(src) => {
                let sid = to_chars(src.id());
                self.find(sid.as_slice())
            },
            None => self.find(q.as_slice()),
        }
    }

    /// Keyword routing used when the AI endpoint is unavailable (see
    /// `heuristic_route_spec`).
    pub fn heuristic_route(&self, query: &str) -> (r: DocSkill)
        requires
            self.well_formed(),
        ensures
            r == heuristic_route_spec(self.skills@, query@),
    {
        let ghost q = ascii_lower(query@);
        let ghost sk = self.skills@;
        let n = self.skills.len();
        let mut best: usize = 0;
        let mut best_score: i32 = i32::MIN;
        let mut i: usize = 0;
        proof {
            assert(sk.take(0) =~= Seq::<DocSkill>::empty());
        }
        while i < n
            invariant
                n == sk.len(),
                sk == self.skills@,
                n > 0,
                i <= n,
                q == ascii_lower(query@),
                route_fold(sk.take(i as int), q) == (best as int, best_score as int),
                best < n,
            decreases n - i,
        {
            proof {
                assert(sk.take(i as int + 1).drop_last() =~= sk.take(i as int));
                assert(sk.take(i as int + 1).last() == sk[i as int]);
            }
            let sc = self.skills[i].source.heuristic_score(query);
            if sc > best_score {
                best_score = sc;
                best = i;
            }
            i = i + 1;
        }
        proof {
            assert(sk.take(n as int) =~= sk);
        }
        if best_score <= 0 {
            return self.get("book").unwrap();
        }
        self.skills[best]
    }

    /// The skill catalogue for the router's prompt (see `catalogue_spec`).
    pub fn catalogue(&self) -> (r: String)
        ensures
            r@ == catalogue_spec(self.skills@),
    {
        let ghost sk = self.skills@;
        let n = self.skills.len();
        let mut out = String::new();
        let mut i: usize = 0;
        proof {
            assert(sk.take(0) =~= Seq::<DocSkill>::empty());
        }
        while i < n
            invariant
                n == sk.len(),
                sk == self.skills@,
                i <= n,
                out@ == catalogue_spec(sk.take(i as int)),
            decreases n - i,
        {
            let s = self.skills[i];
            let ghost before = out@;
            if i > 0 {
                push_str(&mut out, "\n");
            }
            push_str(&mut out, "- ");
            push_str(&mut out, s.id());
            push_str(&mut out, ": ");
            push_str(&mut out, s.description());
            proof {
                let t = sk.take(i as int + 1);
                assert(t.drop_last() =~= sk.take(i as int));
                assert(t.last() == s);
                if i == 0 {
                    assert(t.len() == 1);
                    assert(t[0] == s);
                    assert(out@ =~= catalogue_line(s));
                } else {
                    assert(out@ =~= before + "\n"@ + catalogue_line(s));
                }
            }
            i = i + 1;
        }
        proof {
            assert(sk.take(n as int) =~= sk);
        }
        out
    }
}

impl Default for SkillRegistry {
    fn default() -> (r: Self)
        ensures
            r.skills@.len() == 4,
            r.well_formed(),
    {
        Self::new()
    }
}

// ---------------------------------------------------------------------
// Laws of the registry
// ---------------------------------------------------------------------

/// `find_skill` finds a skill of the list with that id, whenever the list
/// has one.
pub proof fn lemma_find_skill(sk: Seq<DocSkill>, id: Seq<char>)
    ensures
        find_skill(sk, id) matches Some(s) ==> sk.contains(s) && source_id(s.source) == id,
        (exists|i: int| 0 <= i < sk.len() && source_id(sk[i].source) == id) ==> find_skill(sk, id) is Some,
    decreases sk.len(),
{
    if sk.len() > 0 {
        lemma_find_skill(sk.drop_first(), id);
        if source_id(sk[0].source) == id {
            assert(sk[0] == sk[0]);
            assert(sk.contains(sk[0]));
        } else {
            if find_skill(sk, id) is Some {
                let s = find_skill(sk, id).unwrap();
                let k = choose|k: int| 0 <= k < sk.drop_first().len() && sk.drop_first()[k] == s;
                assert(sk[k + 1] == s);
            }
            if exists|i: int| 0 <= i < sk.len() && source_id(sk[i].source) == id {
                let i = choose|i: int| 0 <= i < sk.len() && source_id(sk[i].source) == id;
                assert(i > 0);
                assert(sk.drop_first()[i - 1] == sk[i]);
            }
        }
    }
}

/// The id of a registered skill names a registered skill of the same
/// source.
pub proof fn lemma_registered_id(sk: Seq<DocSkill>, s: DocSkill)
    requires
        sk.contains(s),
    ensures
        registry_get(sk, source_id(s.source)) matches Some(t) && t.source == s.source && sk.contains(t),
{
    lemma_source_ids(s.source);
    let k = choose|k: int| 0 <= k < sk.len() && sk[k] == s;
    assert(source_id(sk[k].source) == source_id(s.source));
    lemma_find_skill(sk, source_id(s.source));
}

/// The best-so-far of the keyword walk is an index of the list and its
/// score is no more than the best keyword score (or `i32::MIN`).
proof fn lemma_route_fold(sk: Seq<DocSkill>, q: Seq<char>)
    ensures
        sk.len() > 0 ==> 0 <= route_fold(sk, q).0 < sk.len(),
        (forall|i: int| 0 <= i < sk.len() ==> #[trigger] heuristic_score_spec(sk[i].source, q) <= 0)
            ==> route_fold(sk, q).1 <= 0,
    decreases sk.len(),
{
    if sk.len() > 0 {
        lemma_route_fold(sk.drop_last(), q);
        assert forall|i: int| 0 <= i < sk.drop_last().len() implies sk.drop_last()[i] == sk[i] by {}
        if forall|i: int| 0 <= i < sk.len() ==> #[trigger] heuristic_score_spec(sk[i].source, q) <= 0 {
            assert(heuristic_score_spec(sk[sk.len() - 1].source, q) <= 0);
            assert forall|i: int| 0 <= i < sk.drop_last().len() implies #[trigger] heuristic_score_spec(
                sk.drop_last()[i].source,
                q,
            ) <= 0 by {
                assert(heuristic_score_spec(sk[i].source, q) <= 0);
            }
        }
    }
}

/// Keyword routing always picks a registered skill, and picks the Book
/// skill when no source's keywords occur in the query.
pub proof fn lemma_heuristic_route(reg: SkillRegistry, query: Seq<char>)
    requires
        reg.well_formed(),
    ensures
        reg.skills@.contains(heuristic_route_spec(reg.skills@, query)),
        (forall|i: int|
            0 <= i < reg.skills@.len() ==> #[trigger] heuristic_score_spec(
                reg.skills@[i].source,
                ascii_lower(query),
            ) <= 0) ==> heuristic_route_spec(reg.skills@, query).source == DocSource::Book,
{
    let sk = reg.skills@;
    let q = ascii_lower(query);
    lemma_route_fold(sk, q);
    lemma_book_id();
    lemma_source_ids(DocSource::Book);
    lemma_find_skill(sk, source_id(DocSource::Book));
    let best = route_fold(sk, q);
    if best.1 <= 0 {
        let b = registry_get(sk, "book"@).unwrap();
        assert(source_id(b.source) == source_id(DocSource::Book));
    } else {
        assert(sk[best.0] == sk[best.0]);
    }
}

/// The keyword fold ends on the first skill with the highest score.
proof fn lemma_route_fold_best(sk: Seq<DocSkill>, q: Seq<char>)
    requires
        sk.len() > 0,
    ensures
        0 <= route_fold(sk, q).0 < sk.len(),
        route_fold(sk, q).1 == heuristic_score_spec(sk[route_fold(sk, q).0].source, q),
        forall|i: int| 0 <= i < sk.len() ==> #[trigger] heuristic_score_spec(sk[i].source, q)
            <= route_fold(sk, q).1,
        forall|i: int| 0 <= i < route_fold(sk, q).0 ==> #[trigger] heuristic_score_spec(sk[i].source, q)
            < route_fold(sk, q).1,
    decreases sk.len(),
{
    lemma_route_fold(sk, q);
    lemma_heuristic_score_nonneg(sk.last().source, q);
    assert(sk[sk.len() - 1] == sk.last());
    assert(route_fold(sk.drop_last(), q).1 >= i32::MIN) by {
        if sk.len() > 1 {
            lemma_route_fold_best(sk.drop_last(), q);
            lemma_heuristic_score_nonneg(sk.drop_last()[route_fold(sk.drop_last(), q).0].source, q);
        }
    }
    if sk.len() == 1 {
        assert(sk.drop_last().len() == 0);
        assert(sk[0] == sk.last());
    } else {
        let d = sk.drop_last();
        lemma_route_fold_best(d, q);
        assert forall|i: int| 0 <= i < d.len() implies d[i] == sk[i] by {}
        let prev = route_fold(d, q);
        assert(d[prev.0] == sk[prev.0]);
        assert forall|i: int| 0 <= i < sk.len() implies #[trigger] heuristic_score_spec(sk[i].source, q)
            <= route_fold(sk, q).1 by {
            if i < d.len() {
                assert(heuristic_score_spec(d[i].source, q) <= prev.1);
            }
        }
        assert forall|i: int| 0 <= i < route_fold(sk, q).0 implies #[trigger] heuristic_score_spec(
            sk[i].source,
            q,
        ) < route_fold(sk, q).1 by {
            assert(heuristic_score_spec(d[i].source, q) <= prev.1);
            if route_fold(sk, q).0 == prev.0 {
                assert(heuristic_score_spec(d[i].source, q) < prev.1);
            }
        }
    }
}

/// Keyword scores are never negative.
proof fn lemma_heuristic_score_nonneg(source: DocSource, q: Seq<char>)
    ensures
        heuristic_score_spec(source, q) >= 0,
{
    reveal(heuristic_score_spec);
}

/// With a positive best score, keyword routing takes the fold's skill.
proof fn lemma_route_pick(sk: Seq<DocSkill>, query: Seq<char>)
    requires
        route_fold(sk, ascii_lower(query)).1 > 0,
    ensures
        heuristic_route_spec(sk, query) == sk[route_fold(sk, ascii_lower(query)).0],
{
}

/// When some skill's keywords occur in the query, keyword routing picks a
/// registered skill whose score is at least every registered skill's
/// score, and no earlier skill reaches that score.
pub proof fn lemma_heuristic_route_best(sk: Seq<DocSkill>, query: Seq<char>, k: int)
    requires
        0 <= k < sk.len(),
        heuristic_score_spec(sk[k].source, ascii_lower(query)) > 0,
    ensures
        ({
            let q = ascii_lower(query);
            let r = heuristic_route_spec(sk, query);
            exists|j: int|
                0 <= j < sk.len() && sk[j] == r && (forall|i: int|
                    0 <= i < sk.len() ==> #[trigger] heuristic_score_spec(sk[i].source, q)
                        <= heuristic_score_spec(r.source, q)) && (forall|i: int|
                    0 <= i < j ==> #[trigger] heuristic_score_spec(sk[i].source, q)
                        < heuristic_score_spec(r.source, q))
        }),
{
    let q = ascii_lower(query);
    lemma_route_fold_best(sk, q);
    let best = route_fold(sk, q);
    assert(heuristic_score_spec(sk[k].source, q) <= best.1);
    lemma_route_pick(sk, query);
    let j = best.0;
    assert(sk[j] == heuristic_route_spec(sk, query));
}

} // verus!
