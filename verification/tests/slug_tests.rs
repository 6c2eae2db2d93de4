use stacks::outline::{find_parent, push_section, section_parents};
use stacks::slug::{generate_slug, sha256_hex, slug_from_digest, to_base36};

#[test]
fn base36_conversion() {
    assert_eq!(to_base36(0, 4), "0000");
    assert_eq!(to_base36(36, 4).chars().nth(1), Some('1'));
}

#[test]
fn base36_digits_least_significant_first() {
    assert_eq!(to_base36(35, 2), "z0");
    assert_eq!(to_base36(36 * 36 + 10, 3), "a01");
    assert_eq!(to_base36(u64::MAX, 0), "");
}

#[test]
fn sha256_hex_of_known_text() {
    assert_eq!(
        sha256_hex(""),
        "e3b0c44298fc1c149afbf4c8996fb92427ae41e4649b934ca495991b7852b855"
    );
    assert_eq!(
        sha256_hex("abc"),
        "ba7816bf8f01cfea414140de5dae2223b00361a396177a9cb410ff61f20015ad"
    );
}

#[test]
fn generate_slug_is_deterministic_and_short() {
    let free = |_: &str| -> Result<bool, ()> { Ok(false) };
    let a = generate_slug(free, "docs/a.md", "Intro", None).unwrap().unwrap();
    let b = generate_slug(free, "docs/a.md", "Intro", None).unwrap().unwrap();
    assert_eq!(a, b);
    assert_eq!(a.len(), 4);
    let c = generate_slug(free, "docs/a.md", "Intro", Some(7)).unwrap().unwrap();
    assert_ne!(a, c);
}

#[test]
fn generate_slug_extends_on_collision() {
    let first = generate_slug(|_: &str| -> Result<bool, ()> { Ok(false) }, "p.md", "H", None)
        .unwrap()
        .unwrap();
    let taken = first.clone();
    let next = generate_slug(move |s: &str| -> Result<bool, ()> { Ok(s == taken) }, "p.md", "H", None)
        .unwrap()
        .unwrap();
    assert_eq!(next.len(), 5);
    let short: Vec<String> = Vec::new();
    let all_short_taken = generate_slug(
        move |s: &str| -> Result<bool, ()> { Ok(s.len() < 8 || short.contains(&s.to_string())) },
        "p.md",
        "H",
        None,
    )
    .unwrap()
    .unwrap();
    assert_eq!(all_short_taken.len(), 8);
}

#[test]
fn generate_slug_passes_errors_through() {
    let r = generate_slug(|_: &str| -> Result<bool, &str> { Err("db down") }, "p.md", "H", None);
    assert_eq!(r, Err("db down"));
}

#[test]
fn find_parent_picks_nearest_lower_level() {
    let stack = vec![(0usize, 10i64), (1, 11), (2, 12)];
    assert_eq!(find_parent(&stack, 3), Some(12));
    assert_eq!(find_parent(&stack, 2), Some(11));
    assert_eq!(find_parent(&stack, 1), Some(10));
    assert_eq!(find_parent(&stack, 0), None);
    assert_eq!(find_parent(&[], 2), None);
}

#[test]
fn push_section_closes_deeper_sections() {
    let mut stack = vec![(0usize, 10i64), (1, 11), (2, 12), (3, 13)];
    push_section(&mut stack, 2, 14);
    assert_eq!(stack, vec![(0, 10), (1, 11), (2, 14)]);
}

#[test]
fn section_parents_follow_heading_levels() {
    // preamble, h1, h2, h3, h2, h1, h3
    let levels = vec![0usize, 1, 2, 3, 2, 1, 3];
    let parents = section_parents(&levels);
    assert_eq!(parents, vec![None, Some(0), Some(1), Some(2), Some(1), Some(0), Some(5)]);
    // a file starting at h2: later h1 has no parent
    let parents = section_parents(&vec![2usize, 3, 1]);
    assert_eq!(parents, vec![None, Some(0), None]);
}

#[test]
fn slug_from_digest_walks_the_candidates() {
    let mut digest = [0u8; 32];
    digest[0] = 36;
    digest[8] = 1;
    let free = |_: &str| -> Result<bool, ()> { Ok(false) };
    assert_eq!(slug_from_digest(free, &digest), Ok(Some("0100".to_string())));
    let first_taken = |s: &str| -> Result<bool, ()> { Ok(s == "0100") };
    assert_eq!(slug_from_digest(first_taken, &digest), Ok(Some("11000".to_string())));
    let short_taken = |s: &str| -> Result<bool, ()> { Ok(s.len() < 8 || s == "41000000") };
    assert_eq!(slug_from_digest(short_taken, &digest), Ok(Some("51000000".to_string())));
    let failing = |_: &str| -> Result<bool, u8> { Err(3) };
    assert_eq!(slug_from_digest(failing, &digest), Err(3));
}
