use stacks::format::Formatter;
use stacks::render::{search_detail, search_listing, show_detail_lines, show_lines, show_source_lines};
use stacks::store::Chunk;

fn chunk(id: i64, parent_id: Option<i64>, path: &str, heading: &str, slug: &str, content: &str) -> Chunk {
    Chunk {
        id,
        source_path: path.to_string(),
        heading: heading.to_string(),
        slug: slug.to_string(),
        parent_id,
        position: 0,
        content: content.to_string(),
    }
}

#[test]
fn search_listing_groups_adjacent_results() {
    let fmt = Formatter::new(false);
    let patterns = chunk(1, None, "docs/patterns.md", "Patterns", "c4d1", "");
    let entries = vec![
        (chunk(2, Some(1), "docs/patterns.md", "List Views & Filters", "a3f2", ""), vec![patterns.clone()]),
        (chunk(3, Some(1), "docs/patterns.md", "Frontend", "b7e1", ""), vec![]),
        (chunk(4, None, "docs/access-control.md", "Role Checks", "d3f4", ""), vec![]),
    ];
    let lines = search_listing(&entries, &fmt);
    assert_eq!(
        lines,
        vec![
            "docs/patterns.md",
            "├─ Patterns > List Views & Filters [a3f2]",
            "└─ Frontend [b7e1]",
            "",
            "docs/access-control.md",
            "└─ Role Checks [d3f4]",
        ]
    );
}

#[test]
fn search_detail_prints_banner_per_file() {
    let fmt = Formatter::new(false);
    let entries = vec![
        (chunk(2, None, "a.md", "One", "aaaa", "text one"), vec![]),
        (chunk(3, None, "a.md", "Two", "bbbb", ""), vec![]),
    ];
    let lines = search_detail(&entries, &fmt);
    assert_eq!(lines.len(), 7);
    assert!(lines[0].starts_with("── a.md ─"));
    assert_eq!(lines[1], "One [aaaa]");
    assert_eq!(lines[2], "");
    assert_eq!(lines[3], "text one");
    assert_eq!(lines[4], "");
    assert_eq!(lines[5], "Two [bbbb]");
    assert_eq!(lines[6], "");
}

#[test]
fn show_lists_content_and_children() {
    let fmt = Formatter::new(false);
    let parent = chunk(2, Some(1), "docs/p.md", "Patterns", "c4d1", "");
    let c = chunk(3, Some(2), "docs/p.md", "List Views", "a3f2", "Body.");
    let children = vec![chunk(4, Some(3), "docs/p.md", "Filter Pipeline", "d5c7", "")];
    let lines = show_lines(&c, &vec![parent], &children, &fmt);
    assert!(lines[0].starts_with("── docs/p.md ─"));
    assert_eq!(lines[1], "Patterns [c4d1] > List Views");
    assert_eq!(lines[2], "");
    assert_eq!(lines[3], "Body.");
    assert_eq!(lines[4], "");
    assert_eq!(lines[5], "· Filter Pipeline [d5c7]");
    assert_eq!(lines.len(), 6);
}

#[test]
fn show_source_needs_roots() {
    let fmt = Formatter::new(false);
    assert!(show_source_lines("missing.md", &vec![], &fmt).is_none());
    let roots = vec![chunk(1, None, "a.md", "a", "x1y2", "")];
    assert_eq!(show_source_lines("a.md", &roots, &fmt).unwrap(), vec!["a.md", "· a [x1y2]"]);
}

#[test]
fn show_detail_inlines_descendants() {
    let fmt = Formatter::new(false);
    let c = chunk(3, None, "a.md", "Top", "t000", "");
    let subtree = vec![c.clone(), chunk(4, Some(3), "a.md", "Sub", "s000", "inner")];
    let lines = show_detail_lines(&c, &vec![], &subtree, &fmt);
    assert_eq!(lines[1], "Top");
    assert_eq!(lines[2], "");
    assert_eq!(&lines[3..], &["── Sub", "", "inner", ""]);
}
