use stacks::markdown::{collect_headings, parse_markdown, sections_from_events, MdEvent};

#[test]
fn parse_simple_markdown() {
    let md = "# Title\n\nIntro paragraph.\n\n## Section One\n\nContent one.\n\n## Section Two\n\nContent two.\n";
    let sections = parse_markdown(md, "test");
    assert_eq!(sections.len(), 3);
    assert_eq!(sections[0].heading, "Title");
    assert_eq!(sections[0].level, 1);
    assert_eq!(sections[0].content, "Intro paragraph.");
    assert_eq!(sections[1].heading, "Section One");
    assert_eq!(sections[1].level, 2);
    assert_eq!(sections[1].content, "Content one.");
    assert_eq!(sections[2].heading, "Section Two");
    assert_eq!(sections[2].level, 2);
    assert_eq!(sections[2].content, "Content two.");
}

#[test]
fn parse_nested_headings() {
    let md = "## Parent\n\nParent content.\n\n### Child\n\nChild content.\n";
    let sections = parse_markdown(md, "test");
    assert_eq!(sections.len(), 2);
    assert_eq!(sections[0].heading, "Parent");
    assert_eq!(sections[0].level, 2);
    assert_eq!(sections[1].heading, "Child");
    assert_eq!(sections[1].level, 3);
}

#[test]
fn parse_content_before_heading() {
    let md = "Some intro text.\n\n## First Heading\n\nContent.\n";
    let sections = parse_markdown(md, "README");
    assert_eq!(sections.len(), 2);
    assert_eq!(sections[0].heading, "README");
    assert_eq!(sections[0].level, 0);
    assert_eq!(sections[0].content, "Some intro text.");
    assert_eq!(sections[1].heading, "First Heading");
}

#[test]
fn parse_empty_file() {
    assert!(parse_markdown("", "test").is_empty());
}

#[test]
fn parse_headings_only() {
    let md = "# Title\n## Sub\n";
    let sections = parse_markdown(md, "test");
    assert_eq!(sections.len(), 2);
    assert_eq!(sections[0].content, "");
    assert_eq!(sections[1].content, "");
}

#[test]
fn parse_consecutive_headings() {
    let md = "# A\n## B\n## C\n\nContent under C.\n";
    let sections = parse_markdown(md, "test");
    assert_eq!(sections.len(), 3);
    assert_eq!(sections[0].content, "");
    assert_eq!(sections[1].content, "");
    assert!(sections[2].content.contains("Content under C."));
}

#[test]
fn parse_heading_with_inline_code() {
    let md = "## The `foo` function\n\nDetails here.\n";
    let sections = parse_markdown(md, "test");
    assert_eq!(sections[0].heading, "The `foo` function");
}

#[test]
fn parse_preserves_list_markers() {
    let md = "# Lists\n\n- alpha\n- beta\n- gamma\n";
    let sections = parse_markdown(md, "test");
    assert_eq!(sections[0].content, "- alpha\n- beta\n- gamma");
}

#[test]
fn parse_preserves_numbered_list() {
    let md = "# Steps\n\n1. first\n2. second\n3. third\n";
    let sections = parse_markdown(md, "test");
    assert!(sections[0].content.contains("1. first"));
    assert!(sections[0].content.contains("3. third"));
}

#[test]
fn parse_preserves_code_blocks() {
    let md = "# Code\n\n```rust\nfn main() {}\n```\n";
    let sections = parse_markdown(md, "test");
    assert!(sections[0].content.contains("```rust"));
    assert!(sections[0].content.contains("fn main() {}"));
}

#[test]
fn parse_preserves_inline_formatting() {
    let md = "# Fmt\n\nSome **bold** and *italic* and `code`.\n";
    let sections = parse_markdown(md, "test");
    assert!(sections[0].content.contains("**bold**"));
    assert!(sections[0].content.contains("*italic*"));
    assert!(sections[0].content.contains("`code`"));
}

#[test]
fn parse_preserves_blockquotes() {
    let md = "# Quote\n\n> Important note\n> continued\n";
    let sections = parse_markdown(md, "test");
    assert!(sections[0].content.contains("> Important note"));
}

#[test]
fn parse_preserves_tables() {
    let md = "# Data\n\n| A | B |\n|---|---|\n| 1 | 2 |\n";
    let sections = parse_markdown(md, "test");
    assert!(sections[0].content.contains("| A | B |"));
}

#[test]
fn parse_setext_and_multibyte_text() {
    let md = "Préface ✓\n\nTitre\n=====\n\nCorps — ici.\n";
    let sections = parse_markdown(md, "doc");
    assert_eq!(sections.len(), 2);
    assert_eq!(sections[0].content, "Préface ✓");
    assert_eq!(sections[1].heading, "Titre");
    assert_eq!(sections[1].level, 1);
    assert_eq!(sections[1].content, "Corps — ici.");
}

#[test]
fn parse_trims_unicode_whitespace() {
    let md = "# T\n\n\u{a0}\u{3000} body \u{2003}\n";
    let sections = parse_markdown(md, "doc");
    assert_eq!(sections[0].content, "body");
}

#[test]
fn collect_headings_builds_heading_text() {
    let events = vec![
        MdEvent::Text("ignored".to_string()),
        MdEvent::HeadingStart { level: 2, start: 0 },
        MdEvent::Text("The ".to_string()),
        MdEvent::Code("x".to_string()),
        MdEvent::Break,
        MdEvent::Text("end".to_string()),
        MdEvent::Other,
        MdEvent::HeadingEnd { end: 9 },
    ];
    let hs = collect_headings(&events);
    assert_eq!(hs.len(), 1);
    assert_eq!(hs[0].text, "The `x` end");
    assert_eq!(hs[0].level, 2);
    assert_eq!(hs[0].start, 0);
    assert_eq!(hs[0].end, 9);
}

#[test]
fn sections_from_events_slices_by_offsets() {
    let content = "intro\n# A\nbody a\n## B\nbody b\n";
    let events = vec![
        MdEvent::HeadingStart { level: 1, start: 6 },
        MdEvent::Text("A".to_string()),
        MdEvent::HeadingEnd { end: 10 },
        MdEvent::HeadingStart { level: 2, start: 17 },
        MdEvent::Text("B".to_string()),
        MdEvent::HeadingEnd { end: 22 },
    ];
    let sections = sections_from_events(content, "f", &events);
    assert_eq!(sections.len(), 3);
    assert_eq!(sections[0].heading, "f");
    assert_eq!(sections[0].content, "intro");
    assert_eq!(sections[1].content, "body a");
    assert_eq!(sections[2].level, 2);
    assert_eq!(sections[2].content, "body b");
}

#[test]
fn sections_from_events_ignores_bad_offsets() {
    let content = "é# A\nbody\n";
    let events = vec![
        MdEvent::HeadingStart { level: 1, start: 1 },
        MdEvent::Text("A".to_string()),
        MdEvent::HeadingEnd { end: 99 },
    ];
    let sections = sections_from_events(content, "f", &events);
    assert_eq!(sections.len(), 1);
    assert_eq!(sections[0].heading, "A");
    assert_eq!(sections[0].content, "");
}
