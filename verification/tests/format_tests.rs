use stacks::format::{parse_slug, Formatter};
use stacks::store::Chunk;

fn chunk(id: i64, parent_id: Option<i64>, heading: &str, slug: &str) -> Chunk {
    Chunk {
        id,
        source_path: String::from("docs/patterns.md"),
        heading: heading.to_string(),
        slug: slug.to_string(),
        parent_id,
        position: 0,
        content: String::new(),
    }
}

#[test]
fn parse_slug_formats() {
    assert_eq!(parse_slug("a3f2"), "a3f2");
    assert_eq!(parse_slug("[a3f2]"), "a3f2");
    assert_eq!(parse_slug("docs/patterns.md#a3f2"), "a3f2");
    assert_eq!(parse_slug("docs/patterns.md#[a3f2]"), "a3f2");
}

#[test]
fn parse_slug_edge_cases() {
    assert_eq!(parse_slug(""), "");
    assert_eq!(parse_slug("["), "[");
    assert_eq!(parse_slug("[]"), "");
    assert_eq!(parse_slug("a#b#c"), "c");
    assert_eq!(parse_slug("path#"), "");
    assert_eq!(parse_slug("[ab"), "[ab");
}

#[test]
fn parse_slug_accepts_printed_slug() {
    let fmt = Formatter::new(false);
    let printed = fmt.slug("k9x2");
    assert_eq!(parse_slug(&printed), "k9x2");
}

#[test]
fn plain_styles_are_identity() {
    let fmt = Formatter::new(false);
    assert_eq!(fmt.dim("x"), "x");
    assert_eq!(fmt.bold("heading"), "heading");
    assert_eq!(fmt.slug("a3f2"), "[a3f2]");
    assert_eq!(fmt.tree_connector(true), "└─ ");
    assert_eq!(fmt.tree_connector(false), "├─ ");
    assert_eq!(fmt.tree_indent(true), "│  ");
    assert_eq!(fmt.tree_indent(false), "   ");
    assert_eq!(fmt.section_rule("Intro"), "── Intro");
}

#[test]
fn colored_styles_wrap_in_ansi() {
    let fmt = Formatter::new(true);
    assert_eq!(fmt.dim("x"), "\x1b[2mx\x1b[0m");
    assert_eq!(fmt.bold("x"), "\x1b[1mx\x1b[0m");
    assert_eq!(fmt.slug("ab"), "\x1b[2m[ab]\x1b[0m");
    assert_eq!(fmt.section_rule("H"), "\x1b[2m──\x1b[0m \x1b[1mH\x1b[0m");
}

#[test]
fn box_top_fills_to_rule_width() {
    let fmt = Formatter::new(false);
    let line = fmt.box_top("docs/patterns.md");
    assert_eq!(line.chars().count(), 72);
    assert!(line.starts_with("── docs/patterns.md ─"));
    let long = "x".repeat(100);
    let line = fmt.box_top(&long);
    assert_eq!(line, format!("── {long} ──"));
    let line = fmt.box_top(&"y".repeat(66));
    assert_eq!(line.chars().count(), 3 + 66 + 1 + 2);
    let line = fmt.box_top(&"y".repeat(65));
    assert_eq!(line.chars().count(), 72);
}

#[test]
fn breadcrumb_joins_headings() {
    let fmt = Formatter::new(false);
    let ancestors = vec![chunk(2, Some(1), "Patterns", "c4d1"), chunk(3, Some(2), "Lists", "a3f2")];
    assert_eq!(fmt.breadcrumb(&ancestors, "Filters"), "Patterns > Lists > Filters");
    assert_eq!(fmt.breadcrumb(&[], "Filters"), "Filters");
}

#[test]
fn breadcrumb_nav_marks_parent_slug() {
    let fmt = Formatter::new(false);
    let ancestors = vec![chunk(2, Some(1), "Patterns", "c4d1"), chunk(3, Some(2), "Lists", "a3f2")];
    assert_eq!(
        fmt.breadcrumb_nav(&ancestors, "Filters"),
        "Patterns > Lists [a3f2] > Filters"
    );
    assert_eq!(fmt.breadcrumb_nav(&[], "Top"), "Top");
}
