use std::collections::HashMap;

use stacks::store::{ancestors_from_chunks, fetch_limit, filter_by_path, strip_root_ancestor, Chunk};

fn chunk(id: i64, parent_id: Option<i64>) -> Chunk {
    Chunk {
        id,
        source_path: String::new(),
        heading: format!("H{id}"),
        slug: String::new(),
        parent_id,
        position: 0,
        content: String::new(),
    }
}

fn in_file(id: i64, path: &str) -> Chunk {
    let mut c = chunk(id, None);
    c.source_path = path.to_string();
    c
}

#[test]
fn strip_root_ancestor_removes_file_level_chunk() {
    let mut ancestors = vec![chunk(1, None), chunk(2, Some(1)), chunk(3, Some(2))];
    strip_root_ancestor(&mut ancestors);
    assert_eq!(ancestors.len(), 2);
    assert_eq!(ancestors[0].id, 2);
}

#[test]
fn strip_root_ancestor_keeps_non_root() {
    let mut ancestors = vec![chunk(2, Some(1)), chunk(3, Some(2))];
    strip_root_ancestor(&mut ancestors);
    assert_eq!(ancestors.len(), 2);
}

#[test]
fn strip_root_ancestor_empty() {
    let mut ancestors: Vec<Chunk> = vec![];
    strip_root_ancestor(&mut ancestors);
    assert!(ancestors.is_empty());
}

#[test]
fn ancestors_from_chunks_walks_to_root() {
    let all = vec![chunk(1, None), chunk(2, Some(1)), chunk(3, Some(2)), chunk(4, Some(3))];
    let map: HashMap<i64, &Chunk> = all.iter().map(|c| (c.id, c)).collect();
    let ancestors = ancestors_from_chunks(&all[3], &map);
    let ids: Vec<i64> = ancestors.iter().map(|c| c.id).collect();
    assert_eq!(ids, vec![2, 3]);
}

#[test]
fn ancestors_from_chunks_stops_at_missing_parent() {
    let all = vec![chunk(2, Some(1)), chunk(3, Some(2))];
    let map: HashMap<i64, &Chunk> = all.iter().map(|c| (c.id, c)).collect();
    let ancestors = ancestors_from_chunks(&all[1], &map);
    let ids: Vec<i64> = ancestors.iter().map(|c| c.id).collect();
    assert_eq!(ids, vec![2]);
    let root = chunk(1, None);
    assert!(ancestors_from_chunks(&root, &map).is_empty());
}

#[test]
fn filter_by_path_takes_first_matches() {
    let results = vec![
        (in_file(1, "docs/a.md"), 0.1),
        (in_file(2, "src/b.md"), 0.2),
        (in_file(3, "docs/c.md"), 0.3),
        (in_file(4, "docs/d.md"), 0.4),
    ];
    let kept = filter_by_path(results.clone(), 2, Some("docs/"));
    let ids: Vec<i64> = kept.iter().map(|(c, _)| c.id).collect();
    assert_eq!(ids, vec![1, 3]);
    let all = filter_by_path(results, 2, None);
    assert_eq!(all.len(), 4);
    assert_eq!(fetch_limit(10, true), 50);
    assert_eq!(fetch_limit(10, false), 10);
}
