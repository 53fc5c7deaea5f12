use rust_docs_bot::context7::{
    cache_key, compose_context, library_id, pick_library, Context7, Context7Error, FetchStart,
    LibEntry, Snippet,
};

fn lib(id: &str, name: &str) -> LibEntry {
    LibEntry { id: id.to_owned(), name: name.to_owned() }
}

fn snip(title: &str, content: &str) -> Snippet {
    Snippet { title: title.to_owned(), content: content.to_owned() }
}

#[test]
fn key_checks() {
    assert!(!Context7::new(None).is_configured());
    assert!(!Context7::new(Some(String::new())).is_configured());
    assert!(Context7::new(Some("k".to_owned())).is_configured());
    assert_eq!(Context7::new(None).api_key_for_fetch().err(), Some(Context7Error::MissingKey));
    assert_eq!(Context7::new(Some("k".to_owned())).api_key_for_fetch().ok().as_deref(), Some("k"));
    assert_eq!(Context7Error::MissingKey.message(), "CONTEXT7_API_KEY not set");
    assert_eq!(Context7Error::NoDocs.message(), "no Context7 documentation found");
}

#[test]
fn cache_keys() {
    assert_eq!(cache_key("tokio", "spawn"), "tokio::spawn");
    assert_eq!(cache_key("", ""), "::");
}

#[test]
fn library_choice() {
    assert_eq!(pick_library(&[]), None);
    assert_eq!(pick_library(&[lib("/tokio-rs/tokio", "tokio"), lib("/x", "x")]).as_deref(), Some("/tokio-rs/tokio"));
    assert_eq!(pick_library(&[lib("", "serenity")]).as_deref(), Some("serenity"));
    assert_eq!(pick_library(&[lib("", "")]), None);
}

#[test]
fn context_text_wins() {
    let md = compose_context("plain context", &[snip("t", "c")]).unwrap();
    assert_eq!(md, "plain context");
    let long = "c".repeat(2000);
    let md = compose_context(&long, &[]).unwrap();
    assert_eq!(md.chars().count(), 1801);
    assert!(md.ends_with('…'));
}

#[test]
fn snippets_are_listed() {
    let md = compose_context("", &[snip("Spawn", "tokio::spawn(fut)"), snip("", "bare")]).unwrap();
    assert_eq!(md, "### Spawn\ntokio::spawn(fut)\n\nbare\n\n");
    let four = vec![snip("a", "1"), snip("b", "2"), snip("c", "3"), snip("d", "4")];
    let md = compose_context("", &four).unwrap();
    assert!(md.contains("### c\n3"));
    assert!(!md.contains("### d"));
}

#[test]
fn nothing_found() {
    assert_eq!(compose_context("", &[]).err(), Some(Context7Error::NoDocs));
}

#[test]
fn fetch_steps() {
    let keyed = Context7::new(Some("k".to_owned()));
    assert!(matches!(keyed.fetch_start(Some("cached".to_owned())), FetchStart::Cached(v) if v == "cached"));
    assert!(matches!(keyed.fetch_start(None), FetchStart::Ask(k) if k == "k"));
    let unkeyed = Context7::new(None);
    assert!(matches!(unkeyed.fetch_start(Some("c".to_owned())), FetchStart::Cached(_)));
    assert!(matches!(unkeyed.fetch_start(None), FetchStart::Fail(Context7Error::MissingKey)));
    assert_eq!(library_id(Some("/tokio-rs/tokio".to_owned()), "tokio"), "/tokio-rs/tokio");
    assert_eq!(library_id(None, "tokio"), "tokio");
}
