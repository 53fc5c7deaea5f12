use rust_docs_bot::ai::{
    decide_route, first_choice_content, heuristic_decision, parse_route_json,
    system_prompt, AiProvider, RouteDecision, RouteError,
};
use rust_docs_bot::skills::SkillRegistry;

#[test]
fn parses_fenced_json() {
    let reg = SkillRegistry::new();
    let d = parse_route_json(
        "```json\n{\"skill\": \"nomicon\", \"query\": \"raw pointers\"}\n```",
        &reg,
        "fallback",
    )
    .unwrap();
    assert_eq!(d.skill_id, "nomicon");
    assert_eq!(d.refined_query, "raw pointers");
    assert!(d.via_ai);
}

#[test]
fn invalid_skill_falls_back_to_heuristic() {
    let reg = SkillRegistry::new();
    let d = parse_route_json(
        "{\"skill\": \"nope\", \"query\": \"unsafe transmute\"}",
        &reg,
        "fallback",
    )
    .unwrap();
    assert_eq!(d.skill_id, "nomicon");
}

#[test]
fn invalid_json_is_an_error() {
    let reg = SkillRegistry::new();
    let r = parse_route_json("no json here", &reg, "fallback");
    assert!(matches!(r, Err(RouteError::InvalidJson(_))));
}

#[test]
fn missing_members_use_defaults() {
    let reg = SkillRegistry::new();
    let d = parse_route_json("{\"query\": \"   \"}", &reg, "ownership rules").unwrap();
    assert_eq!(d.skill_id, "book");
    assert_eq!(d.refined_query, "ownership rules");
    let d = parse_route_json("{\"skill\": \"REF\", \"query\": \"patterns\"}", &reg, "f").unwrap();
    assert_eq!(d.skill_id, "ref");
    let d = parse_route_json("{\"skill\": 3}", &reg, "unsafe ffi").unwrap();
    assert_eq!(d.skill_id, "book");
    assert_eq!(d.refined_query, "unsafe ffi");
}

#[test]
fn braces_out_of_order_are_refused() {
    let reg = SkillRegistry::new();
    let r = parse_route_json("} then {", &reg, "fallback");
    assert!(matches!(r, Err(RouteError::BracesOutOfOrder)));
    let provider = AiProvider::new("u".to_owned(), "k".to_owned(), "m".to_owned());
    let d = provider.route(&reg, "unsafe ffi", r.ok());
    assert_eq!(d.skill_id, "nomicon");
    assert!(!d.via_ai);
    assert!(parse_route_json("no braces", &reg, "f").is_err());
}

#[test]
fn direct_decisions() {
    let reg = SkillRegistry::new();
    let d = decide_route(&reg, Some("nomicon".to_owned()), None, "q");
    assert_eq!(d.skill_id, "nomicon");
    assert_eq!(d.refined_query, "q");
    assert!(d.via_ai);
    let d = decide_route(&reg, Some("zzz".to_owned()), Some("hello world example".to_owned()), "q");
    assert_eq!(d.skill_id, "by-example");
    let h = heuristic_decision(&reg, "raw pointer aliasing");
    assert_eq!(h.skill_id, "nomicon");
    assert_eq!(h.refined_query, "raw pointer aliasing");
    assert!(!h.via_ai);
}

#[test]
fn provider_settings() {
    let p = AiProvider::new("http://localhost:11434/v1//".to_owned(), String::new(), "m".to_owned());
    assert!(!p.is_configured());
    assert_eq!(p.chat_url(), "http://localhost:11434/v1/chat/completions");
    let p = AiProvider::new("https://api.openai.com/v1".to_owned(), "k".to_owned(), "m".to_owned());
    assert!(p.is_configured());
    assert_eq!(p.chat_url(), "https://api.openai.com/v1/chat/completions");
}

#[test]
fn prompt_and_reply_content() {
    let p = system_prompt("- book: b");
    assert!(p.starts_with("You are the Router Skill for a Rust documentation Discord bot.\nAvailable skills:\n- book: b\n\nReply with ONLY compact JSON"));
    assert!(p.ends_with("(e.g. \"ownership borrowing rules\")."));
    assert_eq!(first_choice_content(vec![]), "");
    assert_eq!(first_choice_content(vec![None, Some("x".to_owned())]), "");
    assert_eq!(first_choice_content(vec![Some("{}".to_owned())]), "{}");
}

#[test]
fn provider_routes() {
    let reg = SkillRegistry::new();
    let reply = RouteDecision {
        skill_id: "reference".to_owned(),
        refined_query: "closures".to_owned(),
        via_ai: true,
    };
    let keyed = AiProvider::new("u".to_owned(), "k".to_owned(), "m".to_owned());
    let d = keyed.route(&reg, "unsafe ffi", Some(reply.clone()));
    assert_eq!(d.skill_id, "reference");
    assert_eq!(d.refined_query, "closures");
    assert!(d.via_ai);
    let d = keyed.route(&reg, "unsafe ffi", None);
    assert_eq!(d.skill_id, "nomicon");
    assert_eq!(d.refined_query, "unsafe ffi");
    assert!(!d.via_ai);
    let unkeyed = AiProvider::new("u".to_owned(), String::new(), "m".to_owned());
    let d = unkeyed.route(&reg, "cargo", Some(reply));
    assert_eq!(d.skill_id, "book");
    assert!(!d.via_ai);
}
