use rust_docs_bot::bot::render::{build_embed, chunk_markdown, pagination_row};

#[test]
fn chunks_respect_limit() {
    let md = "a\n".repeat(5000);
    let chunks = chunk_markdown(&md, 2000);
    assert!(chunks.len() >= 3);
    for c in &chunks {
        assert!(c.chars().count() <= 2000);
    }
}

#[test]
fn pagination_first_page() {
    let row = pagination_row(0, 3);
    assert_eq!(row.len(), 1);
}

#[test]
fn short_markdown_is_one_chunk() {
    let chunks = chunk_markdown("hello\nworld", 2000);
    assert_eq!(chunks, vec!["hello\nworld".to_owned()]);
    let empty = chunk_markdown("", 10);
    assert_eq!(empty, vec![String::new()]);
}

#[test]
fn chunks_pack_lines_and_rejoin() {
    let md = "aaa\nbbb\nccc\n";
    let chunks = chunk_markdown(md, 8);
    assert_eq!(chunks, vec!["aaa\nbbb\n".to_owned(), "ccc\n".to_owned()]);
    assert_eq!(chunks.concat(), md);
}

#[test]
fn long_line_is_hard_split() {
    let md = "abcdefghij";
    let chunks = chunk_markdown(md, 4);
    assert_eq!(chunks, vec!["abcd".to_owned(), "efgh".to_owned(), "ij".to_owned()]);
}

#[test]
fn long_line_after_short_line() {
    let md = "xy\nabcdefg";
    let chunks = chunk_markdown(md, 3);
    assert_eq!(chunks, vec!["xy\n".to_owned(), "abc".to_owned(), "def".to_owned(), "g".to_owned()]);
    assert_eq!(chunks.concat(), md);
}

#[test]
fn multibyte_characters_count_as_one() {
    let md = "ééééé";
    let chunks = chunk_markdown(md, 2);
    assert_eq!(chunks, vec!["éé".to_owned(), "éé".to_owned(), "é".to_owned()]);
}

#[test]
fn pagination_buttons() {
    let row = pagination_row(0, 3);
    let b = &row[0].buttons;
    assert_eq!(b.len(), 2);
    assert_eq!(b[0].custom_id, "docs:prev:0");
    assert_eq!(b[0].label, "< Prev");
    assert!(b[0].disabled);
    assert_eq!(b[1].custom_id, "docs:next:0");
    assert_eq!(b[1].label, "Next >");
    assert!(!b[1].disabled);
    let last = pagination_row(12, 13);
    assert_eq!(last[0].buttons[0].custom_id, "docs:prev:12");
    assert!(!last[0].buttons[0].disabled);
    assert!(last[0].buttons[1].disabled);
}

#[test]
fn embed_truncates_title_and_description() {
    let long_title = "t".repeat(300);
    let e = build_embed(&long_title, "body", 7, "foot", Some("https://x"));
    assert_eq!(e.title.chars().count(), 256);
    assert!(e.title.ends_with('…'));
    assert_eq!(e.description, "body");
    assert_eq!(e.color, 7);
    assert_eq!(e.footer, "foot");
    assert_eq!(e.url.as_deref(), Some("https://x"));
    let long_desc = "d".repeat(5000);
    let e = build_embed("t", &long_desc, 1, "f", None);
    assert_eq!(e.description.chars().count(), 4096);
    assert!(e.url.is_none());
}
