use rust_docs_bot::docs::{DocHit, DocSection, DocSource};
use rust_docs_bot::skills::{format_section_markdown, DocSkill, SkillError, SkillRegistry};

fn hit(source: DocSource, heading: &str, body: &str, anchor: &str) -> DocHit {
    DocHit {
        section: DocSection {
            source,
            heading: heading.to_owned(),
            level: 2,
            body: body.to_owned(),
            anchor: anchor.to_owned(),
        },
        score: 1,
    }
}

#[test]
fn registry_holds_four_skills() {
    let reg = SkillRegistry::new();
    let ids: Vec<&str> = reg.skills.iter().map(|s| s.id()).collect();
    assert_eq!(ids, vec!["reference", "by-example", "nomicon", "book"]);
    assert!(reg.skills[2].description().starts_with("unsafe Rust, FFI"));
    assert_eq!(reg.skills[3].source(), DocSource::Book);
}

#[test]
fn registry_lookup_by_id_and_alias() {
    let reg = SkillRegistry::new();
    assert_eq!(reg.get("nomicon").map(|s| s.id()), Some("nomicon"));
    assert_eq!(reg.get("RBE").map(|s| s.id()), Some("by-example"));
    assert_eq!(reg.get("trpl").map(|s| s.id()), Some("book"));
    assert!(reg.get("nope").is_none());
}

#[test]
fn heuristic_routes() {
    let reg = SkillRegistry::new();
    assert_eq!(reg.heuristic_route("unsafe transmute").id(), "nomicon");
    assert_eq!(reg.heuristic_route("grammar of expressions").id(), "reference");
    assert_eq!(reg.heuristic_route("hello world example").id(), "by-example");
    assert_eq!(reg.heuristic_route("what is a closure").id(), "book");
    assert_eq!(reg.heuristic_route("").id(), "book");
}

#[test]
fn catalogue_lists_every_skill() {
    let reg = SkillRegistry::new();
    let cat = reg.catalogue();
    let lines: Vec<&str> = cat.lines().collect();
    assert_eq!(lines.len(), 4);
    assert!(lines[0].starts_with("- reference: authoritative language semantics"));
    assert!(lines[3].starts_with("- book: gentle beginner guide"));
    assert!(!cat.ends_with('\n'));
}

#[test]
fn section_markdown_format() {
    let h = hit(DocSource::Nomicon, "Transmutes", "body text", "");
    assert_eq!(
        format_section_markdown(&h),
        "## The Rustonomicon — Transmutes\n<https://doc.rust-lang.org/nomicon#transmutes>\n\nbody text"
    );
    let h = hit(DocSource::Reference, "Patterns", "b", "patterns-1");
    assert!(format_section_markdown(&h).contains("<https://doc.rust-lang.org/reference#patterns-1>"));
    let long = "x".repeat(2000);
    let h = hit(DocSource::Book, "Long", &long, "l");
    let md = format_section_markdown(&h);
    assert!(md.ends_with('…'));
    let body = md.split("\n\n").nth(1).unwrap();
    assert_eq!(body.chars().count(), 1801);
}

#[test]
fn skill_output_uses_top_hit() {
    let skill = DocSkill::new(DocSource::Book, "hints");
    assert_eq!(skill.id(), "book");
    assert_eq!(skill.description(), "hints");
    let hits = vec![
        hit(DocSource::Book, "First", "one", "first"),
        hit(DocSource::Book, "Second", "two", "second"),
    ];
    let out = skill.output(hits).ok().unwrap();
    assert_eq!(out.source, DocSource::Book);
    assert_eq!(out.title, "First");
    assert!(out.markdown.starts_with("## The Rust Book — First\n"));
    assert_eq!(out.hits.len(), 2);
}

#[test]
fn skill_without_hits_reports_no_matches() {
    let skill = DocSkill::new(DocSource::Reference, "hints");
    let err = skill.output(vec![]).err().unwrap();
    assert_eq!(err, SkillError::NoMatches(DocSource::Reference));
    assert_eq!(err.message(), "no matches in The Rust Reference");
}
