use stacks::freshness::{find_path, has_stale_files, plan_refresh};

fn pairs(v: &[(&str, &str)]) -> Vec<(String, String)> {
    v.iter().map(|(a, b)| (a.to_string(), b.to_string())).collect()
}

#[test]
fn fresh_index_is_not_stale() {
    let indexed = pairs(&[("a.md", "h1"), ("b.md", "h2")]);
    let on_disk = pairs(&[("b.md", "h2"), ("a.md", "h1")]);
    assert!(!has_stale_files(false, &indexed, &on_disk));
    assert!(has_stale_files(true, &indexed, &on_disk));
}

#[test]
fn changed_added_or_removed_files_are_stale() {
    let indexed = pairs(&[("a.md", "h1"), ("b.md", "h2")]);
    assert!(has_stale_files(false, &indexed, &pairs(&[("a.md", "h1"), ("b.md", "zz")])));
    assert!(has_stale_files(false, &indexed, &pairs(&[("a.md", "h1")])));
    assert!(has_stale_files(false, &indexed, &pairs(&[("a.md", "h1"), ("c.md", "h2")])));
}

#[test]
fn find_path_locates_entry() {
    let v = pairs(&[("a.md", "h1"), ("b.md", "h2")]);
    assert_eq!(find_path(&v, &"b.md".to_string()), Some(1));
    assert_eq!(find_path(&v, &"c.md".to_string()), None);
}

#[test]
fn refresh_plan_deletes_gone_and_reindexes_changed() {
    let indexed = pairs(&[("a.md", "h1"), ("gone.md", "h2"), ("c.md", "h3")]);
    let on_disk = pairs(&[("a.md", "h1"), ("c.md", "new"), ("d.md", "h4")]);
    let plan = plan_refresh(&indexed, &on_disk);
    assert_eq!(plan.delete, vec!["gone.md".to_string()]);
    assert_eq!(plan.reindex, pairs(&[("c.md", "new"), ("d.md", "h4")]));
    let fresh = plan_refresh(&on_disk, &on_disk);
    assert!(fresh.delete.is_empty() && fresh.reindex.is_empty());
}

#[test]
fn stale_exactly_when_plan_has_work() {
    let indexed = pairs(&[("a.md", "h1"), ("b.md", "h2")]);
    let cases = [
        pairs(&[("b.md", "h2"), ("a.md", "h1")]),
        pairs(&[("a.md", "h1")]),
        pairs(&[("a.md", "h1"), ("b.md", "h9")]),
        pairs(&[("a.md", "h1"), ("b.md", "h2"), ("c.md", "h3")]),
        pairs(&[]),
    ];
    for on_disk in &cases {
        let plan = plan_refresh(&indexed, on_disk);
        let work = !plan.delete.is_empty() || !plan.reindex.is_empty();
        assert_eq!(has_stale_files(false, &indexed, on_disk), work);
    }
}

#[test]
fn applying_the_plan_matches_disk() {
    let indexed = pairs(&[("a.md", "h1"), ("gone.md", "h2"), ("c.md", "h3")]);
    let on_disk = pairs(&[("c.md", "new"), ("a.md", "h1"), ("d.md", "h4")]);
    let plan = plan_refresh(&indexed, &on_disk);
    let mut after: Vec<(String, String)> =
        indexed.into_iter().filter(|(p, _)| !plan.delete.contains(p)).collect();
    for (p, h) in &plan.reindex {
        after.retain(|(q, _)| q != p);
        after.push((p.clone(), h.clone()));
    }
    assert!(!has_stale_files(false, &after, &on_disk));
}
