use stacks::format::Formatter;
use stacks::store::Chunk;
use stacks::toc::{
    build_chunk_map, chains_terminate, chunks_under, ids_unique_check, index_grep_lines,
    index_tree_lines,
};

fn chunk(id: i64, path: &str, heading: &str, parent_id: Option<i64>) -> Chunk {
    Chunk {
        id,
        source_path: path.to_string(),
        heading: heading.to_string(),
        slug: format!("s{id}"),
        parent_id,
        position: 0,
        content: String::new(),
    }
}

fn sample() -> Vec<Chunk> {
    vec![
        chunk(1, "docs/a.md", "a", None),
        chunk(2, "docs/a.md", "Intro", Some(1)),
        chunk(3, "docs/a.md", "Setup Guide", Some(2)),
        chunk(4, "docs/a.md", "Usage", Some(1)),
        chunk(5, "notes/b.md", "b", None),
        chunk(6, "notes/b.md", "Setup", Some(5)),
    ]
}

#[test]
fn chunks_under_filters_by_path_prefix() {
    let kept = chunks_under(sample(), Some("docs/"));
    let ids: Vec<i64> = kept.iter().map(|c| c.id).collect();
    assert_eq!(ids, vec![1, 2, 3, 4]);
    assert_eq!(chunks_under(sample(), None).len(), 6);
    assert!(chunks_under(sample(), Some("other/")).is_empty());
}

#[test]
fn grep_groups_hits_by_file_with_breadcrumbs() {
    let fmt = Formatter::new(false);
    let lines = index_grep_lines(&sample(), "setup", &fmt);
    assert_eq!(
        lines,
        vec![
            "docs/a.md".to_string(),
            "└─ Intro > Setup Guide [s3]".to_string(),
            String::new(),
            "notes/b.md".to_string(),
            "└─ Setup [s6]".to_string(),
        ]
    );
}

#[test]
fn grep_is_case_insensitive() {
    let fmt = Formatter::new(false);
    let upper = index_grep_lines(&sample(), "SETUP", &fmt);
    let lower = index_grep_lines(&sample(), "setup", &fmt);
    assert_eq!(upper, lower);
    assert_eq!(upper.len(), 5);
}

#[test]
fn grep_without_hits_prints_nothing() {
    let fmt = Formatter::new(false);
    assert!(index_grep_lines(&sample(), "zzz", &fmt).is_empty());
}

#[test]
fn grep_marks_all_but_last_hit_as_branches() {
    let fmt = Formatter::new(false);
    let lines = index_grep_lines(&sample(), "u", &fmt);
    assert_eq!(
        lines,
        vec![
            "docs/a.md".to_string(),
            "├─ Intro > Setup Guide [s3]".to_string(),
            "└─ Usage [s4]".to_string(),
            String::new(),
            "notes/b.md".to_string(),
            "└─ Setup [s6]".to_string(),
        ]
    );
}

#[test]
fn tree_renders_files_and_nesting() {
    let fmt = Formatter::new(false);
    let lines = index_tree_lines(&sample(), &fmt);
    assert_eq!(
        lines,
        vec![
            "docs/a.md".to_string(),
            "└─ a [s1]".to_string(),
            "   ├─ Intro [s2]".to_string(),
            "   │  └─ Setup Guide [s3]".to_string(),
            "   └─ Usage [s4]".to_string(),
            String::new(),
            "notes/b.md".to_string(),
            "└─ b [s5]".to_string(),
            "   └─ Setup [s6]".to_string(),
        ]
    );
}

#[test]
fn tree_treats_chunks_with_missing_parent_as_roots() {
    let fmt = Formatter::new(false);
    let chunks = vec![
        chunk(2, "docs/a.md", "Intro", Some(1)),
        chunk(3, "docs/a.md", "Setup Guide", Some(2)),
        chunk(4, "docs/a.md", "Usage", Some(1)),
    ];
    let lines = index_tree_lines(&chunks, &fmt);
    assert_eq!(
        lines,
        vec![
            "docs/a.md".to_string(),
            "├─ Intro [s2]".to_string(),
            "│  └─ Setup Guide [s3]".to_string(),
            "└─ Usage [s4]".to_string(),
        ]
    );
}

#[test]
fn tree_of_nothing_is_empty() {
    let fmt = Formatter::new(false);
    assert!(index_tree_lines(&Vec::new(), &fmt).is_empty());
}

#[test]
fn tree_uses_colour_codes_when_enabled() {
    let fmt = Formatter::new(true);
    let chunks = vec![chunk(1, "a.md", "a", None)];
    let lines = index_tree_lines(&chunks, &fmt);
    assert_eq!(
        lines,
        vec![
            "\x1b[1ma.md\x1b[0m".to_string(),
            "\x1b[2m└─ \x1b[0m\x1b[1ma\x1b[0m \x1b[2m[s1]\x1b[0m".to_string(),
        ]
    );
}

#[test]
fn chains_terminate_detects_cycles() {
    let good = sample();
    assert!(chains_terminate(&good, &build_chunk_map(&good)));
    let cyclic = vec![
        chunk(1, "a.md", "x", Some(2)),
        chunk(2, "a.md", "y", Some(1)),
    ];
    assert!(!chains_terminate(&cyclic, &build_chunk_map(&cyclic)));
    let self_loop = vec![chunk(7, "a.md", "z", Some(7))];
    assert!(!chains_terminate(&self_loop, &build_chunk_map(&self_loop)));
}

#[test]
fn ids_unique_check_finds_shared_ids() {
    assert!(ids_unique_check(&sample()));
    let child_first = vec![chunk(1, "a.md", "x", Some(2)), chunk(2, "a.md", "y", None)];
    assert!(ids_unique_check(&child_first));
    let duplicate = vec![chunk(1, "a.md", "x", None), chunk(1, "b.md", "y", None)];
    assert!(!ids_unique_check(&duplicate));
    assert!(ids_unique_check(&Vec::new()));
}

#[test]
fn tree_follows_parent_links_whatever_the_id_order() {
    let fmt = Formatter::new(false);
    let chunks = vec![
        chunk(9, "a.md", "a", None),
        chunk(3, "a.md", "Late", Some(7)),
        chunk(7, "a.md", "Intro", Some(9)),
    ];
    let lines = index_tree_lines(&chunks, &fmt);
    assert_eq!(
        lines,
        vec![
            "a.md".to_string(),
            "└─ a [s9]".to_string(),
            "   └─ Intro [s7]".to_string(),
            "      └─ Late [s3]".to_string(),
        ]
    );
}

#[test]
fn tree_skips_chunks_caught_in_a_parent_cycle() {
    let fmt = Formatter::new(false);
    let chunks = vec![
        chunk(1, "a.md", "a", None),
        chunk(2, "a.md", "x", Some(3)),
        chunk(3, "a.md", "y", Some(2)),
    ];
    let lines = index_tree_lines(&chunks, &fmt);
    assert_eq!(lines, vec!["a.md".to_string(), "└─ a [s1]".to_string()]);
}

#[test]
fn grep_lowercases_both_sides() {
    let fmt = Formatter::new(false);
    let chunks = vec![chunk(1, "fr.md", "Première ÉTAPE", None)];
    let lines = index_grep_lines(&chunks, "étape", &fmt);
    assert_eq!(lines, vec!["fr.md".to_string(), "└─ Première ÉTAPE [s1]".to_string()]);
    assert!(index_grep_lines(&chunks, "PREMIÈRE", &fmt).len() == 2);
    assert!(index_grep_lines(&chunks, "etape", &fmt).is_empty());
}
