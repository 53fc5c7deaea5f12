//! The decisions taken while answering an interaction: which command does
//! what, which source a `/docs` search uses, the texts and pages of each
//! answer, and how a pagination button moves.

use vstd::prelude::*;

use crate::ai::RouteDecision;
use crate::bot::commands::{string_option, string_option_spec, OptionEntry};
use crate::bot::render::{
    build_embed, chunk_markdown, chunks_of, is_pagination_row, page_button_id, pagination_row,
    string_rows, truncate_spec, ActionRow, Embed,
};
use crate::docs::{
    is_str, source_canonical_url, source_from_id, source_id, source_title, DocHit, DocSource,
};
use crate::skills::{
    heuristic_route_spec, registry_get, section_markdown, DocSkill, SkillOutput,
    SkillRegistry,
};
use crate::text::{
    ascii_lower, decimal, eq_ignore_ascii_case, is_digit, lemma_decimal, lemma_parse_decimal, parse_usize, parse_usize_spec, push_chars,
    push_decimal, push_str, string_from_chars, to_chars, trim, trim_str, is_str_chars,
};
use crate::skills::format_section_markdown;

verus! {

broadcast use vstd::seq_lib::group_seq_properties;

/// Reply to `/ping`.
pub const PONG: &'static str = "Pong! Rust docs bot is alive.";

/// Reply to `/docs` without a query.
pub const MISSING_QUERY: &'static str = "Please provide a search query.";

/// Reply to `/ask` without a question.
pub const MISSING_QUESTION: &'static str = "Please ask a question.";

/// Follow-up when Context7 has no key.
pub const CONTEXT7_NOT_CONFIGURED: &'static str = "Context7 not configured. Set CONTEXT7_API_KEY (https://context7.com/dashboard).";

/// Follow-up when there is nothing to page through.
pub const NO_CONTENT: &'static str = "No content.";

/// Answer to a button whose pages are gone.
pub const PAGINATION_EXPIRED: &'static str = "This pagination expired — run the command again.";

/// The `/help` text.
pub open spec fn help_spec() -> Seq<char> {
    "Rust Docs Bot — fast, tiny, creative.\n\nCommands\n- /docs <query> [source] — search Reference / By Example / Nomicon / Book. source = auto, book, reference, by-example, nomicon.\n- /ask <question> — natural language; AI Router Skill picks the right docs Skill.\n- /context7 <library> <query> — fresh crate docs via Context7 (needs CONTEXT7_API_KEY).\n- /ping, /help\n\nTips: /docs ownership source:book, /ask how do I borrow across functions?, /context7 tokio spawn."@
}

/// The `/help` text.
pub fn help_text() -> (r: String)
    ensures
        r@ == help_spec(),
{
    "Rust Docs Bot — fast, tiny, creative.\n\nCommands\n- /docs <query> [source] — search Reference / By Example / Nomicon / Book. source = auto, book, reference, by-example, nomicon.\n- /ask <question> — natural language; AI Router Skill picks the right docs Skill.\n- /context7 <library> <query> — fresh crate docs via Context7 (needs CONTEXT7_API_KEY).\n- /ping, /help\n\nTips: /docs ownership source:book, /ask how do I borrow across functions?, /context7 tokio spawn.".to_owned()
}

// ---------------------------------------------------------------------
// Commands
// ---------------------------------------------------------------------

/// What to do with a slash command.
pub enum CommandPlan {
    /// Answer at once with this text.
    Reply(String),
    /// Defer, then search the docs.
    Docs { query: String, source: String },
    /// Defer, then route the question.
    Ask { question: String },
    /// Defer, then ask Context7.
    Context7 { library: String, query: String },
    /// Not a command of this bot.
    Ignore,
}

/// The plain value of a plan.
pub enum PlanView {
    Reply(Seq<char>),
    Docs(Seq<char>, Seq<char>),
    Ask(Seq<char>),
    Context7(Seq<char>, Seq<char>),
    Ignore,
}

impl View for CommandPlan {
    type V = PlanView;

    open spec fn view(&self) -> PlanView {
        match self {
            CommandPlan::Reply(t) => PlanView::Reply(t@),
            CommandPlan::Docs { query, source } => PlanView::Docs(query@, source@),
            CommandPlan::Ask { question } => PlanView::Ask(question@),
            CommandPlan::Context7 { library, query } => PlanView::Context7(library@, query@),
            CommandPlan::Ignore => PlanView::Ignore,
        }
    }
}

/// An option's string value, or the empty string.
pub open spec fn option_or_empty(opts: Seq<OptionEntry>, name: Seq<char>) -> Seq<char> {
    match string_option_spec(opts, name) {
        Some(s) => s,
        None => Seq::empty(),
    }
}

/// The plan for a command: `/ping` and `/help` answer at once; `/docs`
/// and `/ask` need a non-blank query or question; `/context7` always goes
/// ahead; anything else is ignored.
pub open spec fn plan_spec(name: Seq<char>, opts: Seq<OptionEntry>) -> PlanView {
    if name == "ping"@ {
        PlanView::Reply(PONG@)
    } else if name == "help"@ {
        PlanView::Reply(help_spec())
    } else if name == "docs"@ {
        let q = option_or_empty(opts, "query"@);
        if trim(q).len() == 0 {
            PlanView::Reply(MISSING_QUERY@)
        } else {
            PlanView::Docs(q, option_or_empty(opts, "source"@))
        }
    } else if name == "ask"@ {
        let q = option_or_empty(opts, "question"@);
        if trim(q).len() == 0 {
            PlanView::Reply(MISSING_QUESTION@)
        } else {
            PlanView::Ask(q)
        }
    } else if name == "context7"@ {
        PlanView::Context7(option_or_empty(opts, "library"@), option_or_empty(opts, "query"@))
    } else {
        PlanView::Ignore
    }
}

/// An option's string value, or the empty string.
fn option_string(options: &[OptionEntry], name: &str) -> (r: String)
    ensures
        r@ == option_or_empty(options@, name@),
{
    match string_option(options, name) {
        Some(s) => s,
        None => String::new(),
    }
}

/// Decides what a slash command does (see `plan_spec`).
pub fn plan_command(name: &str, options: &[OptionEntry]) -> (r: CommandPlan)
    ensures
        r@ == plan_spec(name@, options@),
{
    let n = to_chars(name);
    let n = n.as_slice();
    if is_str(n, "ping") {
        CommandPlan::Reply(PONG.to_owned())
    } else if is_str(n, "help") {
        CommandPlan::Reply(help_text())
    } else if is_str(n, "docs") {
        let query = option_string(options, "query");
        let source = option_string(options, "source");
        let t = trim_str(query.as_str());
        if t.len() == 0 {
            CommandPlan::Reply(MISSING_QUERY.to_owned())
        } else {
            CommandPlan::Docs { query, source }
        }
    } else if is_str(n, "ask") {
        let question = option_string(options, "question");
        let t = trim_str(question.as_str());
        if t.len() == 0 {
            CommandPlan::Reply(MISSING_QUESTION.to_owned())
        } else {
            CommandPlan::Ask { question }
        }
    } else if is_str(n, "context7") {
        let library = option_string(options, "library");
        let query = option_string(options, "query");
        CommandPlan::Context7 { library, query }
    } else {
        CommandPlan::Ignore
    }
}

// ---------------------------------------------------------------------
// /docs source
// ---------------------------------------------------------------------

/// Which source a `/docs` search uses.
#[derive(Debug, Clone, Copy, PartialEq, Eq, Structural)]
pub enum SourceChoice {
    /// Blank or `auto`: the router decides.
    Auto,
    /// A source named by id or alias.
    Explicit(DocSource),
    /// Not a source name.
    Unknown,
}

/// The source choice of a `/docs` `source` option.
pub open spec fn source_choice_spec(raw: Seq<char>) -> SourceChoice {
    if trim(raw).len() == 0 || ascii_lower(raw) == ascii_lower("auto"@) {
        SourceChoice::Auto
    } else {
        match source_from_id(raw) {
            Some(s) => SourceChoice::Explicit(s),
            None => SourceChoice::Unknown,
        }
    }
}

/// Reads the `source` option of `/docs` (see `source_choice_spec`).
pub fn docs_source_choice(source_raw: &str) -> (r: SourceChoice)
    ensures
        r == source_choice_spec(source_raw@),
{
    let t = trim_str(source_raw);
    let raw = to_chars(source_raw);
    let auto = to_chars("auto");
    if t.len() == 0 || eq_ignore_ascii_case(raw.as_slice(), auto.as_slice()) {
        SourceChoice::Auto
    } else {
        match DocSource::from_id(source_raw) {
            Some(s) => SourceChoice::Explicit(s),
            None => SourceChoice::Unknown,
        }
    }
}

/// The source an auto-routed `/docs` search uses: the routed skill's
/// source, or the Book when the id names no skill.
pub fn routed_source(registry: &SkillRegistry, skill_id: &str) -> (r: DocSource)
    ensures
        r == match registry_get(registry.skills@, skill_id@) {
            Some(s) => s.source,
            None => DocSource::Book,
        },
{
    match registry.get(skill_id) {
        Some(s) => s.source(),
        None => DocSource::Book,
    }
}

/// `Unknown source "<raw>". Use auto, book, reference, by-example, nomicon.`
pub fn unknown_source_message(source_raw: &str) -> (r: String)
    ensures
        r@ == "Unknown source \""@ + source_raw@ + "\". Use auto, book, reference, by-example, nomicon."@,
{
    let mut m = "Unknown source \"".to_owned();
    push_str(&mut m, source_raw);
    push_str(&mut m, "\". Use auto, book, reference, by-example, nomicon.");
    m
}

/// `No matches for "<query>". Try /ask or /context7.`
pub fn no_matches_message(query: &str) -> (r: String)
    ensures
        r@ == "No matches for \""@ + query@ + "\". Try /ask or /context7."@,
{
    let mut m = "No matches for \"".to_owned();
    push_str(&mut m, query);
    push_str(&mut m, "\". Try /ask or /context7.");
    m
}

/// An error as a follow-up line: a space, then the message.
pub fn error_followup(message: &str) -> (r: String)
    ensures
        r@ == " "@ + message@,
{
    let mut m = " ".to_owned();
    push_str(&mut m, message);
    m
}

// ---------------------------------------------------------------------
// Answers
// ---------------------------------------------------------------------

/// A paged answer: pages of at most 4000 characters, embed title, colour,
/// footer and link.
pub struct Answer {
    pub pages: Vec<String>,
    pub title: String,
    pub color: u32,
    pub footer: String,
    pub url: Option<String>,
}

/// Colour of multi-source answers.
pub const MULTI_SOURCE_COLOR: u32 = 0x5865F2;

/// Colour of Context7 answers.
pub const CONTEXT7_COLOR: u32 = 0x00BFFF;

/// `a` is the answer to `/docs` with `markdown` titled `title` from
/// `source`: its pages of 4000 characters, the source's colour and link,
/// and a footer naming the source (and saying when it was auto-routed).
pub open spec fn is_docs_answer(
    a: Answer,
    markdown: Seq<char>,
    title: Seq<char>,
    source: DocSource,
    auto: bool,
) -> bool {
    &&& string_rows(a.pages@) == chunks_of(markdown, 4000)
    &&& a.title@ == title
    &&& a.color == crate::docs::source_color(source)
    &&& a.footer@ == (if auto {
        source_title(source) + " - auto-routed"@
    } else {
        source_title(source)
    })
    &&& a.url matches Some(u) && u@ == source_canonical_url(source)
}

/// The answer to `/docs` from a skill's output.
pub fn docs_answer(out: &SkillOutput, source: DocSource, auto: bool) -> (r: Answer)
    ensures
        is_docs_answer(r, out.markdown@, out.title@, source, auto),
{
    let mut footer = source.title().to_owned();
    if auto {
        push_str(&mut footer, " - auto-routed");
    }
    Answer {
        pages: chunk_markdown(out.markdown.as_str(), 4000),
        title: out.title.clone(),
        color: source.embed_color(),
        footer,
        url: Some(source.canonical_url().to_owned()),
    }
}

/// Header of the `/docs` fallback.
pub const DOCS_CLOSEST_HEADER: &'static str = "Closest sections across all Rust docs:\n\n";

/// Header of the `/ask` fallback: `No direct hit in **<title>**; closest:`.
pub fn ask_closest_header(source: DocSource) -> (r: String)
    ensures
        r@ == "No direct hit in **"@ + source_title(source) + "**; closest:\n\n"@,
{
    let mut m = "No direct hit in **".to_owned();
    push_str(&mut m, source.title());
    push_str(&mut m, "**; closest:\n\n");
    m
}

/// The markdown of the closest hits: the header, then the first three
/// hits, each followed by a `---` rule.
pub open spec fn closest_markdown(header: Seq<char>, hits: Seq<DocHit>) -> Seq<char>
    decreases hits.len(),
{
    if hits.len() == 0 {
        header
    } else {
        closest_markdown(header, hits.drop_last()) + section_markdown(hits.last().section@)
            + "\n---\n"@
    }
}

/// The first `n` elements (all when there are fewer).
pub open spec fn first_n<A>(s: Seq<A>, n: nat) -> Seq<A> {
    if s.len() <= n {
        s
    } else {
        s.take(n as int)
    }
}

/// `a` is the multi-source answer listing the closest hits: the pages of
/// `closest_markdown` over the first three hits, titled "Closest matches".
pub open spec fn is_closest_answer(a: Answer, header: Seq<char>, hits: Seq<DocHit>) -> bool {
    &&& string_rows(a.pages@) == chunks_of(closest_markdown(header, first_n(hits, 3)), 4000)
    &&& a.title@ == "Closest matches"@
    &&& a.color == MULTI_SOURCE_COLOR
    &&& a.footer@ == "multi-source"@
    &&& a.url is None
}

/// The multi-source answer listing the closest hits (see
/// `is_closest_answer`).
pub fn closest_answer(header: &str, hits: &[DocHit]) -> (r: Answer)
    ensures
        is_closest_answer(r, header@, hits@),
{
    let n: usize = if hits.len() < 3 {
        hits.len()
    } else {
        3
    };
    let ghost hs = first_n(hits@, 3);
    let mut md = header.to_owned();
    let mut i: usize = 0;
    proof {
        assert(hs.len() == n);
        assert(hs.take(0) =~= Seq::<DocHit>::empty());
    }
    while i < n
        invariant
            hs == first_n(hits@, 3),
            hs.len() == n,
            n <= hits@.len(),
            i <= n,
            md@ == closest_markdown(header@, hs.take(i as int)),
        decreases n - i,
    {
        let m = format_section_markdown(&hits[i]);
        push_str(&mut md, m.as_str());
        push_str(&mut md, "\n---\n");
        proof {
            let t = hs.take(i as int + 1);
            assert(t.drop_last() =~= hs.take(i as int));
            assert(t.last() == hits@[i as int]);
        }
        i = i + 1;
    }
    proof {
        assert(hs.take(n as int) =~= hs);
    }
    Answer {
        pages: chunk_markdown(md.as_str(), 4000),
        title: "Closest matches".to_owned(),
        color: MULTI_SOURCE_COLOR,
        footer: "multi-source".to_owned(),
        url: None,
    }
}

/// The line that says how `/ask` was routed.
pub open spec fn ask_prefix(via_ai: bool, title: Seq<char>, refined: Seq<char>) -> Seq<char> {
    if via_ai {
        "AI routed to **"@ + title + "** (refined: \""@ + refined + "\")\n\n"@
    } else {
        "Heuristic routed to **"@ + title + "**\n\n"@
    }
}

/// `a` is the answer to `/ask` with `markdown` titled `title` from
/// `source`: the routing line and the markdown in pages of 4000
/// characters, the source's colour, title and link.
pub open spec fn is_ask_answer(
    a: Answer,
    markdown: Seq<char>,
    title: Seq<char>,
    source: DocSource,
    decision: RouteDecision,
) -> bool {
    &&& string_rows(a.pages@) == chunks_of(
        ask_prefix(decision.via_ai, source_title(source), decision.refined_query@) + markdown,
        4000,
    )
    &&& a.title@ == title
    &&& a.color == crate::docs::source_color(source)
    &&& a.footer@ == source_title(source)
    &&& a.url matches Some(u) && u@ == source_canonical_url(source)
}

/// The answer to `/ask` from the routed skill's output.
pub fn ask_answer(out: &SkillOutput, decision: &RouteDecision) -> (r: Answer)
    ensures
        is_ask_answer(r, out.markdown@, out.title@, out.source, *decision),
{
    let mut md: String = if decision.via_ai {
        let mut p = "AI routed to **".to_owned();
        push_str(&mut p, out.source.title());
        push_str(&mut p, "** (refined: \"");
        push_str(&mut p, decision.refined_query.as_str());
        push_str(&mut p, "\")\n\n");
        p
    } else {
        let mut p = "Heuristic routed to **".to_owned();
        push_str(&mut p, out.source.title());
        push_str(&mut p, "**\n\n");
        p
    };
    push_str(&mut md, out.markdown.as_str());
    Answer {
        pages: chunk_markdown(md.as_str(), 4000),
        title: out.title.clone(),
        color: out.source.embed_color(),
        footer: out.source.title().to_owned(),
        url: Some(out.source.canonical_url().to_owned()),
    }
}

/// The answer to `/context7`.
pub fn context7_answer(library: &str, query: &str, md: &str) -> (r: Answer)
    ensures
        string_rows(r.pages@) == chunks_of(
            "**Context7 - "@ + library@ + "** — "@ + query@ + "\n\n"@ + md@,
            4000,
        ),
        r.title@ == library@ + ": "@ + query@,
        r.color == CONTEXT7_COLOR,
        r.footer@ == "via Context7"@,
        r.url is None,
{
    let mut full = "**Context7 - ".to_owned();
    push_str(&mut full, library);
    push_str(&mut full, "** — ");
    push_str(&mut full, query);
    push_str(&mut full, "\n\n");
    push_str(&mut full, md);
    let mut title = library.to_owned();
    push_str(&mut title, ": ");
    push_str(&mut title, query);
    Answer {
        pages: chunk_markdown(full.as_str(), 4000),
        title,
        color: CONTEXT7_COLOR,
        footer: "via Context7".to_owned(),
        url: None,
    }
}

/// The text of a plain follow-up: the first 2000-character chunk.
pub fn followup_content(text: &str) -> (r: String)
    ensures
        r@ == chunks_of(text@, 2000)[0],
{
    let chunks = chunk_markdown(text, 2000);
    proof {
        crate::bot::render::lemma_chunks_of(text@, 2000);
    }
    if chunks.len() > 0 {
        chunks[0].clone()
    } else {
        String::new()
    }
}

// ---------------------------------------------------------------------
// Pagination
// ---------------------------------------------------------------------

/// The pieces of `s` between occurrences of `c` (`str::split` with a
/// character pattern); `cur` is the piece being read.
pub open spec fn split_from(s: Seq<char>, c: char, cur: Seq<char>) -> Seq<Seq<char>>
    decreases s.len(),
{
    if s.len() == 0 {
        seq![cur]
    } else if s[0] == c {
        seq![cur] + split_from(s.drop_first(), c, Seq::empty())
    } else {
        split_from(s.drop_first(), c, cur.push(s[0]))
    }
}

/// `str::split` with a character pattern.
pub open spec fn split_on(s: Seq<char>, c: char) -> Seq<Seq<char>> {
    split_from(s, c, Seq::empty())
}

/// `str::split` with a character pattern, on a character slice.
fn split_char(s: &[char], c: char) -> (r: Vec<Vec<char>>)
    ensures
        r@.map_values(|w: Vec<char>| w@) == split_on(s@, c),
{
    let n = s.len();
    let mut out: Vec<Vec<char>> = Vec::new();
    let mut cur: Vec<char> = Vec::new();
    let mut i: usize = 0;
    proof {
        assert(s@.subrange(0, n as int) =~= s@);
        assert(cur@ =~= Seq::<char>::empty());
        assert(out@.map_values(|w: Vec<char>| w@) + split_from(s@, c, cur@) =~= split_on(s@, c));
    }
    while i < n
        invariant
            n == s@.len(),
            i <= n,
            out@.map_values(|w: Vec<char>| w@) + split_from(s@.subrange(i as int, n as int), c, cur@)
                == split_on(s@, c),
        decreases n - i,
    {
        let ghost rest = s@.subrange(i as int, n as int);
        proof {
            assert(rest.drop_first() =~= s@.subrange(i as int + 1, n as int));
        }
        let ch = s[i];
        if ch == c {
            let ghost old_out = out@.map_values(|w: Vec<char>| w@);
            let ghost w = cur@;
            out.push(cur);
            cur = Vec::new();
            proof {
                assert(out@.map_values(|w: Vec<char>| w@) =~= old_out.push(w));
                assert(old_out + (seq![w] + split_from(rest.drop_first(), c, Seq::<char>::empty()))
                    =~= old_out.push(w) + split_from(rest.drop_first(), c, Seq::<char>::empty()));
                assert(cur@ =~= Seq::<char>::empty());
            }
        } else {
            cur.push(ch);
        }
        i = i + 1;
    }
    let ghost old_out = out@.map_values(|w: Vec<char>| w@);
    let ghost w = cur@;
    out.push(cur);
    proof {
        assert(s@.subrange(n as int, n as int).len() == 0);
        assert(out@.map_values(|w: Vec<char>| w@) =~= old_out.push(w));
        assert(old_out + seq![w] =~= old_out.push(w));
    }
    out
}

/// A pagination button's id `docs:<dir>:<page>`: whether it moves
/// forward (`dir` is `next`) and the page it was on (0 when the page is
/// not a number).  `None` for any other id.
pub open spec fn page_button_spec(id: Seq<char>) -> Option<(bool, usize)> {
    let parts = split_on(id, ':');
    if parts.len() == 3 && parts[0] == "docs"@ {
        Some(
            (
                parts[1] == "next"@,
                match parse_usize_spec(parts[2]) {
                    Some(p) => p,
                    None => 0,
                },
            ),
        )
    } else {
        None
    }
}

/// Reads a pagination button's id (see `page_button_spec`).
pub fn parse_page_button(custom_id: &str) -> (r: Option<(bool, usize)>)
    ensures
        r == page_button_spec(custom_id@),
{
    let cs = to_chars(custom_id);
    let parts = split_char(cs.as_slice(), ':');
    proof {
        let v = parts@.map_values(|w: Vec<char>| w@);
        if parts@.len() == 3 {
            assert(v[0] == parts@[0]@);
            assert(v[1] == parts@[1]@);
            assert(v[2] == parts@[2]@);
        }
    }
    if parts.len() != 3 || !is_str_chars(parts[0].as_slice(), "docs") {
        return None;
    }
    let next = is_str_chars(parts[1].as_slice(), "next");
    let page: usize = match parse_usize(parts[2].as_slice()) {
        Some(p) => p,
        None => 0,
    };
    Some((next, page))
}

/// The page a button leads to: one forward for `next`, otherwise one
/// back (not below 0).
pub fn target_page(next: bool, page: usize) -> (r: usize)
    requires
        next ==> page < usize::MAX,
    ensures
        r == (if next {
            page + 1
        } else if page > 0 {
            page - 1
        } else {
            0
        }),
{
    if next {
        page + 1
    } else if page > 0 {
        page - 1
    } else {
        0
    }
}

/// `<text>/<total>` footer part: `page <n>/<total>`.
pub open spec fn page_of(n: nat, total: nat) -> Seq<char> {
    "page "@ + decimal(n) + "/"@ + decimal(total)
}

/// Footer of page `target` (0-based) of `total`: `page <target+1>/<total>`.
pub fn page_footer(target: usize, total: usize) -> (r: String)
    requires
        target < total,
    ensures
        r@ == page_of(target as nat + 1, total as nat),
{
    let mut v: Vec<char> = to_chars("page ");
    push_decimal(&mut v, (target + 1) as u64);
    v.push('/');
    push_decimal(&mut v, total as u64);
    proof {
        reveal_strlit("/");
        assert(v@ =~= page_of(target as nat + 1, total as nat));
    }
    string_from_chars(v.as_slice())
}

/// Footer of the first page of an answer: the answer's footer (at most
/// 1500 characters of it), ` - `, then `page 1/<total>`.
pub fn first_page_footer(footer: &str, total: usize) -> (r: String)
    ensures
        r@ == (if footer@.len() <= 1500 {
            footer@
        } else {
            footer@.take(1500)
        }) + " - "@ + page_of(1, total as nat),
{
    let cs = to_chars(footer);
    let keep: usize = if cs.len() <= 1500 {
        cs.len()
    } else {
        1500
    };
    let mut v: Vec<char> = crate::text::copy_range(cs.as_slice(), 0, keep);
    let tail = to_chars(" - page ");
    let mut i: usize = 0;
    let ghost start = v@;
    while i < tail.len()
        invariant
            i <= tail@.len(),
            v@ == start + tail@.take(i as int),
        decreases tail@.len() - i,
    {
        v.push(tail[i]);
        proof {
            assert(tail@.take(i as int + 1) =~= tail@.take(i as int).push(tail@[i as int]));
        }
        i = i + 1;
    }
    push_decimal(&mut v, 1);
    v.push('/');
    push_decimal(&mut v, total as u64);
    proof {
        reveal_strlit(" - page ");
        reveal_strlit(" - ");
        reveal_strlit("page ");
        reveal_strlit("/");
        assert(tail@.take(tail@.len() as int) =~= tail@);
        assert(cs@.subrange(0, cs@.len() as int) =~= cs@);
        assert(v@ =~= (if footer@.len() <= 1500 {
            footer@
        } else {
            footer@.take(1500)
        }) + " - "@ + page_of(1, total as nat));
    }
    string_from_chars(v.as_slice())
}

/// Colour of paged answers after a button press.
pub const PAGE_COLOR: u32 = 0xCE412B;

/// The embed showing page `target` of `total` after a button press.
pub fn page_embed(page: &str, target: usize, total: usize) -> (r: Embed)
    requires
        target < total,
    ensures
        r.title@ == truncate_spec("Rust docs"@, 256),
        r.description@ == truncate_spec(page@, 4096),
        r.color == PAGE_COLOR,
        r.footer@ == truncate_spec(page_of(target as nat + 1, total as nat), 2048),
        r.url is None,
{
    let footer = page_footer(target, total);
    build_embed("Rust docs", page, PAGE_COLOR, footer.as_str(), None)
}

/// What a button press does.
#[derive(Debug, Clone, Copy, PartialEq, Eq, Structural)]
pub enum PageAction {
    /// Not a pagination button, or no page to move to: nothing happens.
    Ignore,
    /// The pages of the message are gone.
    Expired,
    /// Show page `target` of `total`.
    Show { target: usize, total: usize },
}

/// The action of a button with id `id` on a message whose stored pages
/// number `stored` (`None` when none are stored): ids that are not
/// pagination buttons are ignored, missing pages expire, and a move past
/// either end does nothing.
pub open spec fn page_action_spec(id: Seq<char>, stored: Option<usize>) -> PageAction {
    match page_button_spec(id) {
        None => PageAction::Ignore,
        Some((next, page)) => match stored {
            None => PageAction::Expired,
            Some(total) => {
                let target: int = if next {
                    page + 1
                } else if page > 0 {
                    page - 1
                } else {
                    0
                };
                if target < total {
                    PageAction::Show { target: target as usize, total }
                } else {
                    PageAction::Ignore
                }
            },
        },
    }
}

/// Decides a button press (see `page_action_spec`).  A shown page is
/// always one of the stored pages.
pub fn page_action(custom_id: &str, stored: Option<usize>) -> (r: PageAction)
    requires
        page_button_spec(custom_id@) matches Some((next, page)) ==> (!next || page < usize::MAX),
    ensures
        r == page_action_spec(custom_id@, stored),
        (r matches PageAction::Show { target, total } ==> target < total),
{
    match parse_page_button(custom_id) {
        None => PageAction::Ignore,
        Some((next, page)) => match stored {
            None => PageAction::Expired,
            Some(total) => {
                let target = target_page(next, page);
                if target < total {
                    PageAction::Show { target, total }
                } else {
                    PageAction::Ignore
                }
            },
        },
    }
}

/// The first message of a paged answer.
pub struct FirstPage {
    pub embed: Embed,
    /// The pagination row, when there is more than one page.
    pub rows: Option<Vec<ActionRow>>,
}

/// The view of an optional string.
pub open spec fn opt_str(v: Option<String>) -> Option<Seq<char>> {
    match v {
        Some(s) => Some(s@),
        None => None,
    }
}

/// The first message of `answer`: an embed of its first page with the
/// answer's title, colour and link and the footer of `first_page_footer`,
/// and the pagination row for page 0 when there are more pages; `None`
/// when the answer has no page (it is then sent as `NO_CONTENT`).
pub fn first_page(answer: &Answer) -> (r: Option<FirstPage>)
    ensures
        answer.pages@.len() == 0 <==> r is None,
        r matches Some(p) ==> {
            let total = answer.pages@.len();
            &&& p.embed.title@ == truncate_spec(answer.title@, 256)
            &&& p.embed.description@ == truncate_spec(answer.pages@[0]@, 4096)
            &&& p.embed.color == answer.color
            &&& p.embed.footer@ == truncate_spec(
                (if answer.footer@.len() <= 1500 {
                    answer.footer@
                } else {
                    answer.footer@.take(1500)
                }) + " - "@ + page_of(1, total),
                2048,
            )
            &&& opt_str(p.embed.url) == opt_str(answer.url)
            &&& (p.rows is Some <==> total > 1)
            &&& (p.rows matches Some(rows) ==> is_pagination_row(rows@, 0, total))
        },
{
    let total = answer.pages.len();
    if total == 0 {
        return None;
    }
    let footer = first_page_footer(answer.footer.as_str(), total);
    let url: Option<&str> = match &answer.url {
        Some(u) => Some(u.as_str()),
        None => None,
    };
    let embed = build_embed(
        answer.title.as_str(),
        answer.pages[0].as_str(),
        answer.color,
        footer.as_str(),
        url,
    );
    let rows = if total > 1 {
        Some(pagination_row(0, total))
    } else {
        None
    };
    Some(FirstPage { embed, rows })
}

/// The skill that answers `/ask`: the routed one, or the keyword route of
/// the question when the decision names no registered skill.
pub fn ask_skill(registry: &SkillRegistry, decision: &RouteDecision, question: &str) -> (r:
    DocSkill)
    requires
        registry.well_formed(),
    ensures
        r == match registry_get(registry.skills@, decision.skill_id@) {
            Some(s) => s,
            None => heuristic_route_spec(registry.skills@, question@),
        },
{
    match registry.get(decision.skill_id.as_str()) {
        Some(s) => s,
        None => registry.heuristic_route(question),
    }
}

/// The answer of `/docs` once `skill` searched its source (`None` when
/// the search failed): the skill's answer when it found something, `None`
/// when the search must fall back to every source.
pub fn docs_outcome(skill: &DocSkill, search: Option<Vec<DocHit>>, auto: bool) -> (r: Option<
    Answer,
>)
    ensures
        match search {
            Some(hits) if hits@.len() > 0 => r matches Some(a) && is_docs_answer(
                a,
                section_markdown(hits@[0].section@),
                hits@[0].section.heading@,
                skill.source,
                auto,
            ),
            _ => r is None,
        },
{
    match search {
        Some(hits) => match skill.output(hits) {
            Ok(out) => Some(docs_answer(&out, skill.source, auto)),
            Err(_) => None,
        },
        None => None,
    }
}

/// The answer of `/ask` once `skill` searched its source (`Err` with the
/// reason when the search failed): the routed answer when it found
/// something, else the error message with which the answer falls back to
/// every source.
pub fn ask_outcome(skill: &DocSkill, search: Result<Vec<DocHit>, String>, decision: &RouteDecision)
    -> (r: Result<Answer, String>)
    ensures
        match search {
            Err(m) => r == Err::<Answer, String>(m),
            Ok(hits) => if hits@.len() == 0 {
                r matches Err(m) && m@ == "no matches in "@ + source_title(skill.source)
            } else {
                r matches Ok(a) && is_ask_answer(
                    a,
                    section_markdown(hits@[0].section@),
                    hits@[0].section.heading@,
                    skill.source,
                    *decision,
                )
            },
        },
{
    match search {
        Err(m) => Err(m),
        Ok(hits) => match skill.output(hits) {
            Ok(out) => Ok(ask_answer(&out, decision)),
            Err(e) => Err(e.message()),
        },
    }
}

/// The answer when the chosen source found nothing: the closest hits
/// across all sources under `header` (see `closest_answer`), or the error
/// message `err` when there are none.
pub fn fallback_answer(header: &str, hits: &[DocHit], err: String) -> (r: Result<Answer, String>)
    ensures
        hits@.len() == 0 ==> r == Err::<Answer, String>(err),
        hits@.len() > 0 ==> (r matches Ok(a) && is_closest_answer(a, header@, hits@)),
{
    if hits.len() == 0 {
        Err(err)
    } else {
        Ok(closest_answer(header, hits))
    }
}

// ---------------------------------------------------------------------
// Laws of pagination
// ---------------------------------------------------------------------

/// Without a separator, splitting yields one piece.
proof fn lemma_split_no_sep(b: Seq<char>, c: char, cur: Seq<char>)
    requires
        !b.contains(c),
    ensures
        split_from(b, c, cur) == seq![cur + b],
    decreases b.len(),
{
    if b.len() == 0 {
        assert(cur + b =~= cur);
    } else {
        assert(b[0] != c);
        assert(!b.drop_first().contains(c)) by {
            if b.drop_first().contains(c) {
                let k = choose|k: int| 0 <= k < b.drop_first().len() && b.drop_first()[k] == c;
                assert(b[k + 1] == c);
            }
        }
        lemma_split_no_sep(b.drop_first(), c, cur.push(b[0]));
        assert(cur.push(b[0]) + b.drop_first() =~= cur + b);
    }
}

/// Splitting at the first separator.
proof fn lemma_split_sep(a: Seq<char>, b: Seq<char>, c: char, cur: Seq<char>)
    requires
        !a.contains(c),
    ensures
        split_from(a + seq![c] + b, c, cur) == seq![cur + a] + split_from(b, c, Seq::empty()),
    decreases a.len(),
{
    let s = a + seq![c] + b;
    if a.len() == 0 {
        assert(s[0] == c);
        assert(s.drop_first() =~= b);
        assert(cur + a =~= cur);
    } else {
        assert(s[0] == a[0]);
        assert(a[0] != c);
        assert(!a.drop_first().contains(c)) by {
            if a.drop_first().contains(c) {
                let k = choose|k: int| 0 <= k < a.drop_first().len() && a.drop_first()[k] == c;
                assert(a[k + 1] == c);
            }
        }
        assert(s.drop_first() =~= a.drop_first() + seq![c] + b);
        lemma_split_sep(a.drop_first(), b, c, cur.push(a[0]));
        assert(cur.push(a[0]) + a.drop_first() =~= cur + a);
    }
}

/// A pagination button reads back as the direction and page it was made
/// for: `parse_page_button` undoes the ids `pagination_row` writes.
pub proof fn lemma_page_button_roundtrip(next: bool, page: nat)
    requires
        page <= usize::MAX,
    ensures
        page_button_spec(page_button_id(if next {
            seq!['n', 'e', 'x', 't']
        } else {
            seq!['p', 'r', 'e', 'v']
        }, page)) == Some((next, page as usize)),
{
    reveal_strlit("docs");
    reveal_strlit("next");
    let dir = if next {
        seq!['n', 'e', 'x', 't']
    } else {
        seq!['p', 'r', 'e', 'v']
    };
    let d = decimal(page);
    lemma_decimal(page);
    lemma_parse_decimal(page);
    let docs = seq!['d', 'o', 'c', 's'];
    let id = page_button_id(dir, page);
    assert(id =~= docs + seq![':'] + (dir + seq![':'] + d));
    assert(!docs.contains(':'));
    assert(!dir.contains(':'));
    assert(!d.contains(':')) by {
        if d.contains(':') {
            let k = choose|k: int| 0 <= k < d.len() && d[k] == ':';
            assert(is_digit(d[k]));
        }
    }
    lemma_split_sep(docs, dir + seq![':'] + d, ':', Seq::empty());
    lemma_split_sep(dir, d, ':', Seq::empty());
    lemma_split_no_sep(d, ':', Seq::empty());
    let parts = split_on(id, ':');
    assert(Seq::<char>::empty() + docs =~= docs);
    assert(Seq::<char>::empty() + dir =~= dir);
    assert(Seq::<char>::empty() + d =~= d);
    assert(parts =~= seq![docs, dir, d]);
    assert(docs =~= "docs"@);
    if next {
        assert(dir =~= "next"@);
    } else {
        assert(dir[0] != "next"@[0]);
    }
}


/// Pressing the buttons of the row for page `page` of `total` while the
/// pages are stored: an enabled "Next >" shows the following page and a
/// disabled one does nothing; an enabled "< Prev" shows the page before.
pub proof fn lemma_buttons_move(rows: Seq<ActionRow>, page: nat, total: nat)
    requires
        is_pagination_row(rows, page, total),
        page < total,
        total <= usize::MAX,
    ensures
        page_action_spec(rows[0].buttons@[1].custom_id@, Some(total as usize)) == (if rows[0].buttons@[1].disabled {
            PageAction::Ignore
        } else {
            PageAction::Show { target: (page + 1) as usize, total: total as usize }
        }),
        !rows[0].buttons@[0].disabled ==> page_action_spec(
            rows[0].buttons@[0].custom_id@,
            Some(total as usize),
        ) == (PageAction::Show { target: (page - 1) as usize, total: total as usize }),
{
    lemma_page_button_roundtrip(true, page);
    lemma_page_button_roundtrip(false, page);
}

} // verus!
