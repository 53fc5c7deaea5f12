use rust_docs_bot::docs::{
    merge_ranked, parse_print_html, search_sections, slugify, DocHit, DocSection, DocSource,
    MAX_BODY_CHARS,
};

fn section(source: DocSource, heading: &str, body: &str) -> DocSection {
    DocSection {
        source,
        heading: heading.to_owned(),
        level: 2,
        body: body.to_owned(),
        anchor: String::new(),
    }
}

#[test]
fn source_ids_titles_and_urls() {
    assert_eq!(DocSource::Reference.id(), "reference");
    assert_eq!(DocSource::ByExample.id(), "by-example");
    assert_eq!(DocSource::Nomicon.id(), "nomicon");
    assert_eq!(DocSource::Book.id(), "book");
    assert_eq!(DocSource::Nomicon.title(), "The Rustonomicon");
    assert_eq!(DocSource::Book.title(), "The Rust Book");
    assert_eq!(DocSource::Reference.url(), "https://doc.rust-lang.org/reference/print.html");
    assert_eq!(
        DocSource::ByExample.url(),
        "https://rust-lang.github.io/rust-by-example/print.html"
    );
    assert_eq!(DocSource::Book.canonical_url(), "https://doc.rust-lang.org/book/");
    assert_eq!(DocSource::Reference.embed_color(), 0xCE412B);
    assert_eq!(DocSource::Nomicon.embed_color(), 0x8B0000);
    assert_eq!(DocSource::ALL.len(), 4);
}

#[test]
fn source_aliases_ignore_ascii_case() {
    assert_eq!(DocSource::from_id("ref"), Some(DocSource::Reference));
    assert_eq!(DocSource::from_id("SPEC"), Some(DocSource::Reference));
    assert_eq!(DocSource::from_id("rbe"), Some(DocSource::ByExample));
    assert_eq!(DocSource::from_id("Examples"), Some(DocSource::ByExample));
    assert_eq!(DocSource::from_id("nomi"), Some(DocSource::Nomicon));
    assert_eq!(DocSource::from_id("TRPL"), Some(DocSource::Book));
    assert_eq!(DocSource::from_id("rust-book"), Some(DocSource::Book));
    assert_eq!(DocSource::from_id("cookbook"), None);
    assert_eq!(DocSource::from_id(""), None);
}

#[test]
fn every_source_id_maps_back() {
    for s in DocSource::ALL {
        assert_eq!(DocSource::from_id(s.id()), Some(s));
    }
}

#[test]
fn heuristic_scores() {
    assert_eq!(DocSource::Nomicon.heuristic_score("unsafe transmute"), 3);
    assert_eq!(DocSource::Book.heuristic_score("unsafe transmute"), 0);
    assert_eq!(DocSource::Reference.heuristic_score("Grammar of the SPEC"), 5);
    assert_eq!(DocSource::Reference.heuristic_score("reference"), 2);
    assert_eq!(DocSource::ByExample.heuristic_score("how do I use generics"), 4);
    assert_eq!(DocSource::ByExample.heuristic_score("macros"), 1);
    assert_eq!(DocSource::Book.heuristic_score("Ownership"), 3);
    assert_eq!(DocSource::Book.heuristic_score(""), 0);
}

#[test]
fn slugs() {
    assert_eq!(slugify("Hello, World!"), "hello-world");
    assert_eq!(slugify("  Ownership & Borrowing  "), "ownership-borrowing");
    assert_eq!(slugify("Déjà Vu"), "déjà-vu");
    assert_eq!(slugify("--"), "");
    assert_eq!(slugify("a--b"), "a-b");
    assert_eq!(slugify("Trait Objects?"), "trait-objects");
}

#[test]
fn parses_headings_and_bodies() {
    let html = "<h1 id=\"start\">Intro</h1><p>Hello</p><h2>Second Part</h2><pre>code</pre><li>item</li><p>  </p>";
    let secs = parse_print_html(DocSource::Book, html);
    assert_eq!(secs.len(), 3);
    assert_eq!(secs[0].heading, "(intro)");
    assert_eq!(secs[0].body, "");
    assert_eq!(secs[0].level, 1);
    assert_eq!(secs[1].heading, "Intro");
    assert_eq!(secs[1].anchor, "start");
    assert_eq!(secs[1].level, 1);
    assert_eq!(secs[1].body, "Hello");
    assert_eq!(secs[2].heading, "Second Part");
    assert_eq!(secs[2].anchor, "second-part");
    assert_eq!(secs[2].level, 2);
    assert_eq!(secs[2].body, "code\n\nitem");
    assert!(secs.iter().all(|s| s.source == DocSource::Book));
}

#[test]
fn untitled_headings_and_levels() {
    let html = "<h3></h3><p>x</p><H4>Deep</H4>";
    let secs = parse_print_html(DocSource::Nomicon, html);
    assert_eq!(secs.len(), 3);
    assert_eq!(secs[1].heading, "(untitled)");
    assert_eq!(secs[1].level, 3);
    assert_eq!(secs[1].anchor, "untitled");
    assert_eq!(secs[2].heading, "Deep");
    assert_eq!(secs[2].level, 4);
}

#[test]
fn long_bodies_are_bounded() {
    let para = "w".repeat(2000);
    let mut html = String::from("<h2>Big</h2>");
    for _ in 0..4 {
        html.push_str("<p>");
        html.push_str(&para);
        html.push_str("</p>");
    }
    let secs = parse_print_html(DocSource::Reference, &html);
    let big = &secs[1];
    assert!(big.body.len() <= MAX_BODY_CHARS + '…'.len_utf8());
    assert!(big.body.starts_with("www"));
}

#[test]
fn search_ranks_heading_matches_first() {
    let secs = vec![
        section(DocSource::Book, "Zzz", "all about ownership rules"),
        section(DocSource::Book, "Understanding Ownership", "text"),
        section(DocSource::Book, "Yyy", "nothing here"),
    ];
    let hits = search_sections(&secs, "ownership", 10);
    assert_eq!(hits.len(), 2);
    assert_eq!(hits[0].section.heading, "Understanding Ownership");
    assert!(hits[0].score >= 5500);
    assert_eq!(hits[1].section.heading, "Zzz");
    assert_eq!(hits[1].score, 100);
}

#[test]
fn body_word_match_scores_low() {
    let secs = vec![section(DocSource::Book, "Qqq", "the borrow checker")];
    let hits = search_sections(&secs, "xylophone borrow", 5);
    assert_eq!(hits.len(), 1);
    assert_eq!(hits[0].score, 25);
}

#[test]
fn search_edge_cases() {
    let secs = vec![section(DocSource::Book, "Ownership", "x")];
    assert!(search_sections(&secs, "   ", 5).is_empty());
    assert!(search_sections(&secs, "ownership", 0).is_empty());
    assert!(search_sections(&[], "ownership", 5).is_empty());
    let many: Vec<DocSection> =
        (0..6).map(|i| section(DocSource::Book, &format!("Ownership {i}"), "")).collect();
    let hits = search_sections(&many, "ownership", 3);
    assert_eq!(hits.len(), 3);
    assert!(hits.windows(2).all(|w| w[0].score >= w[1].score));
}

#[test]
fn merge_orders_by_score() {
    let hit = |h: &str, score: u32| DocHit { section: section(DocSource::Book, h, ""), score };
    let merged = merge_ranked(vec![vec![hit("a", 10), hit("b", 300)], vec![], vec![hit("c", 40), hit("d", 300)]]);
    let scores: Vec<u32> = merged.iter().map(|h| h.score).collect();
    assert_eq!(scores, vec![300, 300, 40, 10]);
    assert_eq!(merged[0].section.heading, "b");
    assert_eq!(merged[1].section.heading, "d");
}

#[test]
fn slug_shapes() {
    for s in ["Hello, World!", "--a--b--", "  x  ", "ÄBC déf", "1.2.3", "", "!!!"] {
        let r = slugify(s);
        assert!(!r.starts_with('-') && !r.ends_with('-') && !r.contains("--"));
        assert!(r.chars().all(|c| c == '-' || c.is_alphanumeric()));
        if s.is_ascii() {
            assert!(r.bytes().all(|c| c == b'-' || c.is_ascii_lowercase() || c.is_ascii_digit()));
            assert_eq!(slugify(&r), r);
        }
    }
}

#[test]
fn every_hit_scores_above_zero() {
    let secs = vec![
        section(DocSource::Book, "Ownership and borrowing", "text"),
        section(DocSource::Book, "Other", "ownership in the body"),
        section(DocSource::Book, "Owner", "nothing"),
    ];
    let hits = search_sections(&secs, "Ownership and", 10);
    assert!(!hits.is_empty());
    assert!(hits.iter().all(|h| h.score > 0));
    assert!(hits[0].section.heading == "Ownership and borrowing");
    assert!(hits[0].score >= 5000 + 500 * 2);
}

#[test]
fn long_queries_are_ranked() {
    let secs = vec![section(DocSource::Book, "Ownership", "the ownership rules")];
    let long = format!("ownership {}", "x".repeat(70000));
    let hits = search_sections(&secs, &long, 5);
    assert!(hits.iter().all(|h| h.score > 0));
    assert!(search_sections(&[], &long, 5).is_empty());
    assert!(search_sections(&secs, &long, 0).is_empty());
}
