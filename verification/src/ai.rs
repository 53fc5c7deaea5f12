//! The router: picks a doc skill for a question, from an OpenAI-compatible
//! model's JSON answer or, without one, by keywords.

use vstd::prelude::*;

use crate::docs::source_id;
use crate::config::opt_view;
use crate::docs::lemma_ascii_lower_idempotent;
use crate::skills::{
    heuristic_route_spec, lemma_heuristic_route, lemma_registered_id, registry_get, SkillRegistry,
};
use crate::text::{
    ascii_lower, copy_range, find_char, push_str, rfind_char, string_from_chars, to_chars,
    to_ascii_lowercase, trim, trim_end_char, trim_end_matches, trim_str,
};

verus! {

/// Where a query goes: the skill id, the query to search with, and
/// whether the model chose it.
#[derive(Debug, Clone)]
pub struct RouteDecision {
    pub skill_id: String,
    pub refined_query: String,
    pub via_ai: bool,
}

#[verifier::external_type_specification]
#[verifier::external_body]
pub struct ExJsonError(serde_json::Error);

/// Why a model answer could not be used.
#[derive(Debug)]
pub enum RouteError {
    /// The answer's JSON does not parse.
    InvalidJson(serde_json::Error),
    /// The answer's last `}` comes before its first `{`.
    BracesOutOfOrder,
}

/// What `serde_json` reads from `text` for the member `key`: `None` when
/// `text` is not JSON; otherwise the member's value when the document is
/// an object whose `key` member is a string, else `Some(None)`.
pub uninterp spec fn json_string_member(text: Seq<char>, key: Seq<char>) -> Option<Option<Seq<char>>>;

/// Parses `text` as a `serde_json::Value` and reads the string member
/// `key` (`Value::get` then `Value::as_str`).
///
/// Trusted: the outcome depends on `text` and `key` alone (named
/// `json_string_member`), and the error case is exactly the parse failure.
#[verifier::external_body]
fn json_str_member(text: &str, key: &str) -> (r: Result<Option<String>, serde_json::Error>)
    ensures
        match r {
            Ok(o) => json_string_member(text@, key@) == Some(
                match o {
                    Some(s) => Some(s@),
                    None => None,
                },
            ),
            Err(_) => json_string_member(text@, key@) is None,
        },
{
    let v: serde_json::Value = serde_json::from_str(text)?;
    Ok(v.get(key).and_then(|s| s.as_str()).map(|s| s.to_owned()))
}

/// Index of the last `c` in `s`.
pub open spec fn last_index_of(s: Seq<char>, c: char) -> Option<int> {
    if exists|i: int| 0 <= i < s.len() && s[i] == c {
        Some(choose|i: int| 0 <= i < s.len() && s[i] == c && forall|j: int| i < j < s.len() ==> s[j] != c)
    } else {
        None
    }
}

/// Start of the JSON object in a model answer: the first `{`, else 0.
pub open spec fn json_start(s: Seq<char>) -> int {
    match crate::text::first_index_of(s, '{') {
        Some(i) => i,
        None => 0,
    }
}

/// End of the JSON object in a model answer: after the last `}`, else the
/// end.
pub open spec fn json_end(s: Seq<char>) -> int {
    match last_index_of(s, '}') {
        Some(i) => i + 1,
        None => s.len() as int,
    }
}

/// The part of a model answer that is read as JSON (code fences and
/// chatter around the object are dropped).
pub open spec fn json_slice(s: Seq<char>) -> Seq<char> {
    s.subrange(json_start(s), json_end(s))
}

/// The answer can be cut: the first `{` does not come after the last `}`.
pub open spec fn json_span_ok(s: Seq<char>) -> bool {
    json_start(s) <= json_end(s)
}

/// The query a decision searches with: the model's query when it is not
/// blank, else the fallback.
pub open spec fn chosen_query(query: Option<Seq<char>>, fallback: Seq<char>) -> Seq<char> {
    match query {
        Some(q) => if trim(q).len() > 0 {
            q
        } else {
            fallback
        },
        None => fallback,
    }
}

/// The skill id a decision names: the model's skill (lower-cased) when the
/// registry knows it, else the keyword route of the query.  A missing
/// skill reads as "book".
pub open spec fn chosen_skill(
    reg: SkillRegistry,
    skill: Option<Seq<char>>,
    query: Option<Seq<char>>,
    fallback: Seq<char>,
) -> Seq<char> {
    let raw = match skill {
        Some(s) => s,
        None => "book"@,
    };
    if registry_get(reg.skills@, raw) is Some {
        ascii_lower(raw)
    } else {
        source_id(heuristic_route_spec(reg.skills@, chosen_query(query, fallback)).source)
    }
}

/// The decision for the `skill` and `query` members of a model answer.
pub fn decide_route(
    registry: &SkillRegistry,
    skill: Option<String>,
    query: Option<String>,
    fallback_query: &str,
) -> (r: RouteDecision)
    requires
        registry.well_formed(),
    ensures
        r.refined_query@ == chosen_query(
            opt_view(query),
            fallback_query@,
        ),
        r.skill_id@ == chosen_skill(
            *registry,
            opt_view(skill),
            opt_view(query),
            fallback_query@,
        ),
        r.via_ai,
        registry_get(registry.skills@, r.skill_id@) is Some,
{
    proof {
        lemma_decision_resolves(
            *registry,
            opt_view(skill),
            opt_view(query),
            fallback_query@,
        );
    }
    let q: String = match query {
        Some(s) => {
            let t = trim_str(s.as_str());
            if t.len() > 0 {
                s
            } else {
                fallback_query.to_owned()
            }
        },
        None => fallback_query.to_owned(),
    };
    let raw: String = match skill {
        Some(s) => s,
        None => "book".to_owned(),
    };
    let skill_id: String = if registry.get(raw.as_str()).is_some() {
        let l = to_ascii_lowercase(raw.as_str());
        string_from_chars(l.as_slice())
    } else {
        registry.heuristic_route(q.as_str()).id().to_owned()
    };
    RouteDecision { skill_id, refined_query: q, via_ai: true }
}

/// Reads a model answer: the text from its first `{` to its last `}` (see
/// `json_slice`) must parse as JSON, and its `skill` and `query` members
/// then decide (see `decide_route`).  An answer whose last `}` comes
/// before its first `{` is refused.
pub fn parse_route_json(content: &str, registry: &SkillRegistry, fallback_query: &str) -> (r: Result<
    RouteDecision,
    RouteError,
>)
    requires
        registry.well_formed(),
    ensures
        !json_span_ok(content@) ==> (r matches Err(RouteError::BracesOutOfOrder)),
        r matches Ok(d) ==> registry_get(registry.skills@, d.skill_id@) is Some,
        json_span_ok(content@) ==> match (
            json_string_member(json_slice(content@), "skill"@),
            json_string_member(json_slice(content@), "query"@),
        ) {
            (Some(skill), Some(query)) => r matches Ok(d) && d.via_ai && d.refined_query@
                == chosen_query(query, fallback_query@) && d.skill_id@ == chosen_skill(
                *registry,
                skill,
                query,
                fallback_query@,
            ),
            _ => r is Err,
        },
{
    let cs = to_chars(content);
    let n = cs.len();
    let start: usize = match find_char(cs.as_slice(), '{') {
        Some(i) => i,
        None => 0,
    };
    let end: usize = match rfind_char(cs.as_slice(), '}') {
        Some(i) => i + 1,
        None => n,
    };
    proof {
        if exists|i: int| 0 <= i < cs@.len() && cs@[i] == '{' {
            let w = choose|i: int|
                0 <= i < cs@.len() && cs@[i] == '{' && forall|j: int| 0 <= j < i ==> cs@[j] != '{';
            assert(w == start);
        }
        if exists|i: int| 0 <= i < cs@.len() && cs@[i] == '}' {
            let w = choose|i: int|
                0 <= i < cs@.len() && cs@[i] == '}' && forall|j: int| i < j < cs@.len() ==> cs@[j]
                    != '}';
            assert(w + 1 == end);
        }
        assert(start as int == json_start(content@));
        assert(end as int == json_end(content@));
    }
    if start > end {
        return Err(RouteError::BracesOutOfOrder);
    }
    let sl = copy_range(cs.as_slice(), start, end);
    let slice = string_from_chars(sl.as_slice());
    let skill = match json_str_member(slice.as_str(), "skill") {
        Ok(o) => o,
        Err(e) => {
            return Err(RouteError::InvalidJson(e));
        },
    };
    let query = match json_str_member(slice.as_str(), "query") {
        Ok(o) => o,
        Err(e) => {
            return Err(RouteError::InvalidJson(e));
        },
    };
    Ok(decide_route(registry, skill, query, fallback_query))
}

/// Settings of the OpenAI-compatible router endpoint.
#[derive(Debug, Clone)]
pub struct AiProvider {
    pub base_url: String,
    pub api_key: String,
    pub model: String,
}

/// Text of the router's system prompt before the catalogue.
pub open spec fn prompt_head() -> Seq<char> {
    "You are the Router Skill for a Rust documentation Discord bot.\nAvailable skills:\n"@
}

/// Text of the router's system prompt after the catalogue.
pub open spec fn prompt_tail() -> Seq<char> {
    "\n\nReply with ONLY compact JSON: {\"skill\": \"<id>\", \"query\": \"<refined search query>\"}.\nskill must be one of: reference, by-example, nomicon, book.\nRefine the query to 2-8 keywords naming the Rust concept (e.g. \"ownership borrowing rules\")."@
}

impl AiProvider {
    /// A provider for `base_url`, authenticated with `api_key`, asking
    /// `model`.
    pub fn new(base_url: String, api_key: String, model: String) -> (r: Self)
        ensures
            r.base_url == base_url,
            r.api_key == api_key,
            r.model == model,
    {
        AiProvider { base_url, api_key, model }
    }

    /// The endpoint is used only with a non-empty key.
    pub fn is_configured(&self) -> (r: bool)
        ensures
            r == (self.api_key@.len() > 0),
    {
        !self.api_key.as_str().is_empty()
    }

    /// `<base_url without trailing '/'>/chat/completions`.
    pub fn chat_url(&self) -> (r: String)
        ensures
            r@ == trim_end_char(self.base_url@, '/') + "/chat/completions"@,
    {
        let b = to_chars(self.base_url.as_str());
        let t = trim_end_matches(b.as_slice(), '/');
        let mut u = string_from_chars(t.as_slice());
        push_str(&mut u, "/chat/completions");
        u
    }

    /// Routes a query, given what the endpoint answered (`None` when it
    /// was not asked or the call failed): the endpoint's decision when a
    /// key is configured and it answered, the keyword route otherwise.
    /// The result always names a registered skill when the endpoint's
    /// decision does.
    pub fn route(&self, registry: &SkillRegistry, query: &str, reply: Option<RouteDecision>) -> (r:
        RouteDecision)
        requires
            registry.well_formed(),
        ensures
            self.api_key@.len() > 0 && reply is Some ==> r == reply.unwrap(),
            !(self.api_key@.len() > 0 && reply is Some) ==> {
                &&& r.skill_id@ == source_id(heuristic_route_spec(registry.skills@, query@).source)
                &&& r.refined_query@ == query@
                &&& !r.via_ai
                &&& registry_get(registry.skills@, r.skill_id@) is Some
            },
            (reply matches Some(d) && registry_get(registry.skills@, d.skill_id@) is Some)
                ==> registry_get(registry.skills@, r.skill_id@) is Some,
    {
        if !self.is_configured() {
            return heuristic_decision(registry, query);
        }
        match reply {
            Some(d) => d,
            None => heuristic_decision(registry, query),
        }
    }
}

/// The router's system prompt around the skill catalogue.
pub fn system_prompt(catalogue: &str) -> (r: String)
    ensures
        r@ == prompt_head() + catalogue@ + prompt_tail(),
{
    let mut p = "You are the Router Skill for a Rust documentation Discord bot.\nAvailable skills:\n".to_owned();
    push_str(&mut p, catalogue);
    push_str(
        &mut p,
        "\n\nReply with ONLY compact JSON: {\"skill\": \"<id>\", \"query\": \"<refined search query>\"}.\nskill must be one of: reference, by-example, nomicon, book.\nRefine the query to 2-8 keywords naming the Rust concept (e.g. \"ownership borrowing rules\").",
    );
    p
}

/// The message content of the first choice of a chat completion, or the
/// empty string when there is no choice or it has no content.
pub fn first_choice_content(contents: Vec<Option<String>>) -> (r: String)
    ensures
        r@ == (if contents@.len() > 0 && contents@[0] is Some {
            contents@[0].unwrap()@
        } else {
            Seq::<char>::empty()
        }),
{
    if contents.len() > 0 {
        match &contents[0] {
            Some(c) => c.clone(),
            None => String::new(),
        }
    } else {
        String::new()
    }
}

/// The keyword route of a query: the heuristic skill, the query as is.
pub fn heuristic_decision(registry: &SkillRegistry, query: &str) -> (r: RouteDecision)
    requires
        registry.well_formed(),
    ensures
        r.skill_id@ == source_id(heuristic_route_spec(registry.skills@, query@).source),
        r.refined_query@ == query@,
        !r.via_ai,
        registry_get(registry.skills@, r.skill_id@) is Some,
{
    proof {
        lemma_heuristic_route(*registry, query@);
        lemma_registered_id(registry.skills@, heuristic_route_spec(registry.skills@, query@));
    }
    let s = registry.heuristic_route(query);
    RouteDecision { skill_id: s.id().to_owned(), refined_query: query.to_owned(), via_ai: false }
}

/// Every route decision names a registered skill: the model's choice when
/// the registry knows it, the keyword route otherwise.
pub proof fn lemma_decision_resolves(
    reg: SkillRegistry,
    skill: Option<Seq<char>>,
    query: Option<Seq<char>>,
    fallback: Seq<char>,
)
    requires
        reg.well_formed(),
    ensures
        registry_get(reg.skills@, chosen_skill(reg, skill, query, fallback)) is Some,
{
    let raw = match skill {
        Some(s) => s,
        None => "book"@,
    };
    if registry_get(reg.skills@, raw) is Some {
        lemma_ascii_lower_idempotent(raw);
    } else {
        let q = chosen_query(query, fallback);
        lemma_heuristic_route(reg, q);
        lemma_registered_id(reg.skills@, heuristic_route_spec(reg.skills@, q));
    }
}

} // verus!
