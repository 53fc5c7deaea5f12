use rust_docs_bot::ai::RouteDecision;
use rust_docs_bot::bot::commands::{global_commands, string_option, OptionEntry, OptionValue};
use rust_docs_bot::bot::handler::{
    ask_answer, ask_closest_header, ask_outcome, ask_skill, docs_outcome, closest_answer, context7_answer, docs_answer,
    docs_source_choice, error_followup, fallback_answer, first_page, first_page_footer,
    followup_content, help_text, no_matches_message, page_action, page_embed, page_footer,
    parse_page_button, plan_command, routed_source, target_page, unknown_source_message, Answer,
    CommandPlan, PageAction, SourceChoice, CONTEXT7_COLOR, DOCS_CLOSEST_HEADER, MISSING_QUERY,
    MISSING_QUESTION, MULTI_SOURCE_COLOR, PAGE_COLOR, PONG,
};
use rust_docs_bot::bot::render::pagination_row;
use rust_docs_bot::docs::{DocHit, DocSection, DocSource};
use rust_docs_bot::skills::{DocSkill, SkillOutput, SkillRegistry};

fn entry(name: &str, value: &str) -> OptionEntry {
    OptionEntry { name: name.to_owned(), value: OptionValue::Str(value.to_owned()) }
}

fn hit(heading: &str, body: &str) -> DocHit {
    DocHit {
        section: DocSection {
            source: DocSource::Book,
            heading: heading.to_owned(),
            level: 2,
            body: body.to_owned(),
            anchor: String::new(),
        },
        score: 10,
    }
}

#[test]
fn page_button_round_trip() {
    for (page, total) in [(0usize, 3usize), (1, 3), (2, 3), (41, 100)] {
        let row = pagination_row(page, total);
        let prev = parse_page_button(&row[0].buttons[0].custom_id);
        let next = parse_page_button(&row[0].buttons[1].custom_id);
        assert_eq!(prev, Some((false, page)));
        assert_eq!(next, Some((true, page)));
    }
}

#[test]
fn page_button_ids() {
    assert_eq!(parse_page_button("docs:next:4"), Some((true, 4)));
    assert_eq!(parse_page_button("docs:prev:0"), Some((false, 0)));
    assert_eq!(parse_page_button("docs:prev:abc"), Some((false, 0)));
    assert_eq!(parse_page_button("docs:sideways:7"), Some((false, 7)));
    assert_eq!(parse_page_button("other:next:4"), None);
    assert_eq!(parse_page_button("docs:next"), None);
    assert_eq!(parse_page_button("docs:next:1:2"), None);
}

#[test]
fn target_pages() {
    assert_eq!(target_page(true, 0), 1);
    assert_eq!(target_page(false, 3), 2);
    assert_eq!(target_page(false, 0), 0);
}

#[test]
fn footers() {
    assert_eq!(page_footer(0, 3), "page 1/3");
    assert_eq!(page_footer(9, 12), "page 10/12");
    assert_eq!(first_page_footer("The Rust Book", 2), "The Rust Book - page 1/2");
    let long = "f".repeat(2000);
    let f = first_page_footer(&long, 7);
    assert_eq!(f.chars().count(), 1500 + " - page 1/7".len());
    assert!(f.ends_with(" - page 1/7"));
    let e = page_embed("second page", 1, 2);
    assert_eq!(e.title, "Rust docs");
    assert_eq!(e.description, "second page");
    assert_eq!(e.color, PAGE_COLOR);
    assert_eq!(e.footer, "page 2/2");
    assert!(e.url.is_none());
}

#[test]
fn plans_for_commands() {
    assert!(matches!(plan_command("ping", &[]), CommandPlan::Reply(t) if t == PONG));
    assert!(matches!(plan_command("help", &[]), CommandPlan::Reply(t) if t == help_text()));
    assert!(
        matches!(plan_command("docs", &[entry("query", "   ")]), CommandPlan::Reply(t) if t == MISSING_QUERY)
    );
    assert!(matches!(plan_command("docs", &[]), CommandPlan::Reply(t) if t == MISSING_QUERY));
    match plan_command("docs", &[entry("source", "book"), entry("query", "ownership")]) {
        CommandPlan::Docs { query, source } => {
            assert_eq!(query, "ownership");
            assert_eq!(source, "book");
        }
        _ => panic!("expected a docs plan"),
    }
    assert!(
        matches!(plan_command("ask", &[entry("question", "")]), CommandPlan::Reply(t) if t == MISSING_QUESTION)
    );
    assert!(
        matches!(plan_command("ask", &[entry("question", "why?")]), CommandPlan::Ask { question } if question == "why?")
    );
    match plan_command("context7", &[entry("library", "tokio")]) {
        CommandPlan::Context7 { library, query } => {
            assert_eq!(library, "tokio");
            assert_eq!(query, "");
        }
        _ => panic!("expected a context7 plan"),
    }
    assert!(matches!(plan_command("nope", &[]), CommandPlan::Ignore));
}

#[test]
fn string_options() {
    let opts = vec![
        OptionEntry { name: "count".to_owned(), value: OptionValue::Other },
        entry("query", "first"),
        entry("query", "second"),
    ];
    assert_eq!(string_option(&opts, "query"), Some("first".to_owned()));
    assert_eq!(string_option(&opts, "count"), None);
    assert_eq!(string_option(&opts, "missing"), None);
}

#[test]
fn registered_commands() {
    let cmds = global_commands();
    let names: Vec<&str> = cmds.iter().map(|c| c.name.as_str()).collect();
    assert_eq!(names, vec!["docs", "ask", "context7", "help", "ping"]);
    assert_eq!(cmds[0].options.len(), 2);
    assert!(cmds[0].options[0].required);
    assert!(!cmds[0].options[1].required);
    assert_eq!(cmds[2].options[1].name, "query");
    assert!(cmds[4].options.is_empty());
}

#[test]
fn source_choices() {
    assert_eq!(docs_source_choice(""), SourceChoice::Auto);
    assert_eq!(docs_source_choice("  "), SourceChoice::Auto);
    assert_eq!(docs_source_choice("AUTO"), SourceChoice::Auto);
    assert_eq!(docs_source_choice("Nomicon"), SourceChoice::Explicit(DocSource::Nomicon));
    assert_eq!(docs_source_choice("rbe"), SourceChoice::Explicit(DocSource::ByExample));
    assert_eq!(docs_source_choice("blog"), SourceChoice::Unknown);
    let reg = SkillRegistry::new();
    assert_eq!(routed_source(&reg, "reference"), DocSource::Reference);
    assert_eq!(routed_source(&reg, "nothing"), DocSource::Book);
}

#[test]
fn messages() {
    assert_eq!(
        unknown_source_message("blog"),
        "Unknown source \"blog\". Use auto, book, reference, by-example, nomicon."
    );
    assert_eq!(no_matches_message("xyz"), "No matches for \"xyz\". Try /ask or /context7.");
    assert_eq!(error_followup("boom"), " boom");
    assert_eq!(
        ask_closest_header(DocSource::Nomicon),
        "No direct hit in **The Rustonomicon**; closest:\n\n"
    );
    assert_eq!(followup_content("short"), "short");
    let long = "x".repeat(2500);
    assert_eq!(followup_content(&long).chars().count(), 2000);
}

#[test]
fn docs_answers() {
    let out = SkillOutput {
        source: DocSource::Reference,
        title: "Patterns".to_owned(),
        markdown: "body".to_owned(),
        hits: vec![],
    };
    let a = docs_answer(&out, DocSource::Reference, true);
    assert_eq!(a.pages, vec!["body".to_owned()]);
    assert_eq!(a.title, "Patterns");
    assert_eq!(a.color, 0xCE412B);
    assert_eq!(a.footer, "The Rust Reference - auto-routed");
    assert_eq!(a.url.as_deref(), Some("https://doc.rust-lang.org/reference/"));
    let b = docs_answer(&out, DocSource::Reference, false);
    assert_eq!(b.footer, "The Rust Reference");
}

#[test]
fn ask_answers() {
    let out = SkillOutput {
        source: DocSource::Nomicon,
        title: "Transmutes".to_owned(),
        markdown: "md".to_owned(),
        hits: vec![],
    };
    let ai = RouteDecision {
        skill_id: "nomicon".to_owned(),
        refined_query: "transmute".to_owned(),
        via_ai: true,
    };
    let a = ask_answer(&out, &ai);
    assert_eq!(
        a.pages,
        vec!["AI routed to **The Rustonomicon** (refined: \"transmute\")\n\nmd".to_owned()]
    );
    assert_eq!(a.footer, "The Rustonomicon");
    let h = RouteDecision { via_ai: false, ..ai };
    let b = ask_answer(&out, &h);
    assert_eq!(b.pages, vec!["Heuristic routed to **The Rustonomicon**\n\nmd".to_owned()]);
}

#[test]
fn closest_answers_list_three() {
    let hits = vec![hit("A", "a"), hit("B", "b"), hit("C", "c"), hit("D", "d")];
    let a = closest_answer(DOCS_CLOSEST_HEADER, &hits);
    let text = a.pages.concat();
    assert!(text.starts_with(DOCS_CLOSEST_HEADER));
    assert!(text.contains("## The Rust Book — A\n<https://doc.rust-lang.org/book#a>\n\na\n---\n"));
    assert!(text.contains("— C"));
    assert!(!text.contains("— D"));
    assert_eq!(a.title, "Closest matches");
    assert_eq!(a.color, MULTI_SOURCE_COLOR);
    assert_eq!(a.footer, "multi-source");
    assert!(a.url.is_none());
}

#[test]
fn context7_answers() {
    let a = context7_answer("tokio", "spawn", "docs here");
    assert_eq!(a.pages, vec!["**Context7 - tokio** — spawn\n\ndocs here".to_owned()]);
    assert_eq!(a.title, "tokio: spawn");
    assert_eq!(a.color, CONTEXT7_COLOR);
    assert_eq!(a.footer, "via Context7");
}

#[test]
fn button_presses() {
    assert_eq!(page_action("docs:next:0", Some(3)), PageAction::Show { target: 1, total: 3 });
    assert_eq!(page_action("docs:next:2", Some(3)), PageAction::Ignore);
    assert_eq!(page_action("docs:prev:2", Some(3)), PageAction::Show { target: 1, total: 3 });
    assert_eq!(page_action("docs:prev:0", Some(3)), PageAction::Show { target: 0, total: 3 });
    assert_eq!(page_action("docs:prev:9", Some(3)), PageAction::Ignore);
    assert_eq!(page_action("docs:next:0", None), PageAction::Expired);
    assert_eq!(page_action("other", None), PageAction::Ignore);
    assert_eq!(page_action("other", Some(3)), PageAction::Ignore);
}

#[test]
fn enabled_buttons_move_one_page() {
    let total = 4;
    for page in 0..total {
        let row = pagination_row(page, total);
        let prev = &row[0].buttons[0];
        let next = &row[0].buttons[1];
        let n = page_action(&next.custom_id, Some(total));
        if next.disabled {
            assert_eq!(n, PageAction::Ignore);
        } else {
            assert_eq!(n, PageAction::Show { target: page + 1, total });
        }
        if !prev.disabled {
            assert_eq!(
                page_action(&prev.custom_id, Some(total)),
                PageAction::Show { target: page - 1, total }
            );
        }
    }
}

fn answer(pages: Vec<&str>) -> Answer {
    Answer {
        pages: pages.into_iter().map(|p| p.to_owned()).collect(),
        title: "Title".to_owned(),
        color: 42,
        footer: "The Rust Book".to_owned(),
        url: Some("https://doc.rust-lang.org/book/".to_owned()),
    }
}

#[test]
fn first_pages() {
    assert!(first_page(&answer(vec![])).is_none());
    let one = first_page(&answer(vec!["only"])).unwrap();
    assert_eq!(one.embed.description, "only");
    assert_eq!(one.embed.title, "Title");
    assert_eq!(one.embed.color, 42);
    assert_eq!(one.embed.footer, "The Rust Book - page 1/1");
    assert_eq!(one.embed.url.as_deref(), Some("https://doc.rust-lang.org/book/"));
    assert!(one.rows.is_none());
    let two = first_page(&answer(vec!["a", "b"])).unwrap();
    assert_eq!(two.embed.description, "a");
    assert_eq!(two.embed.footer, "The Rust Book - page 1/2");
    let rows = two.rows.unwrap();
    assert_eq!(rows[0].buttons[0].custom_id, "docs:prev:0");
    assert!(rows[0].buttons[0].disabled);
    assert!(!rows[0].buttons[1].disabled);
}

#[test]
fn ask_skill_choice() {
    let reg = SkillRegistry::new();
    let routed = RouteDecision {
        skill_id: "reference".to_owned(),
        refined_query: "q".to_owned(),
        via_ai: true,
    };
    assert_eq!(ask_skill(&reg, &routed, "unsafe").id(), "reference");
    let unknown = RouteDecision { skill_id: "zzz".to_owned(), ..routed };
    assert_eq!(ask_skill(&reg, &unknown, "unsafe ffi").id(), "nomicon");
}

#[test]
fn fallback_answers() {
    let none = fallback_answer(DOCS_CLOSEST_HEADER, &[], no_matches_message("q"));
    assert_eq!(none.err().as_deref(), Some("No matches for \"q\". Try /ask or /context7."));
    let some = fallback_answer(DOCS_CLOSEST_HEADER, &[hit("A", "a")], "unused".to_owned()).ok().unwrap();
    assert_eq!(some.title, "Closest matches");
    assert!(some.pages[0].starts_with(DOCS_CLOSEST_HEADER));
}

#[test]
fn search_outcomes() {
    let skill = DocSkill::new(DocSource::Book, "hints");
    assert!(docs_outcome(&skill, None, true).is_none());
    assert!(docs_outcome(&skill, Some(vec![]), true).is_none());
    let a = docs_outcome(&skill, Some(vec![hit("Ownership", "body")]), true).unwrap();
    assert_eq!(a.title, "Ownership");
    assert_eq!(a.footer, "The Rust Book - auto-routed");
    assert!(a.pages[0].starts_with("## The Rust Book — Ownership\n"));
    let d = RouteDecision { skill_id: "book".to_owned(), refined_query: "own".to_owned(), via_ai: false };
    assert_eq!(ask_outcome(&skill, Err("down".to_owned()), &d).err().as_deref(), Some("down"));
    assert_eq!(
        ask_outcome(&skill, Ok(vec![]), &d).err().as_deref(),
        Some("no matches in The Rust Book")
    );
    let a = ask_outcome(&skill, Ok(vec![hit("Ownership", "body")]), &d).ok().unwrap();
    assert!(a.pages[0].starts_with("Heuristic routed to **The Rust Book**\n\n## The Rust Book — Ownership"));
}
