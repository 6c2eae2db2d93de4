use stacks::freshness::embeddings_missing;
use stacks::install::{plan_install, HookEntryView, SettingsView, ALLOW_ENTRY, HOOK_COMMAND};
use stacks::text::{byte_range, contains, is_white_space, starts_with, trim};
use stacks::locate::{root_step, RootStep};
use stacks::version::{decimal, index_version_is_current, INDEX_VERSION};

#[test]
fn trim_strips_unicode_whitespace_at_both_ends() {
    assert_eq!(trim("  hello world \n\t"), "hello world");
    assert_eq!(trim("\u{3000}x\u{a0}"), "x");
    assert_eq!(trim("   "), "");
    assert_eq!(trim(""), "");
    assert_eq!(trim("a b"), "a b");
}

#[test]
fn white_space_follows_unicode() {
    assert!(is_white_space(' '));
    assert!(is_white_space('\u{85}'));
    assert!(is_white_space('\u{2028}'));
    assert!(!is_white_space('x'));
    assert!(!is_white_space('\u{200b}'));
}

#[test]
fn byte_range_slices_on_char_boundaries() {
    assert_eq!(byte_range("hello", 1, 3), "el");
    assert_eq!(byte_range("héllo", 1, 3), "é");
    assert_eq!(byte_range("héllo", 1, 2), "");
    assert_eq!(byte_range("abc", 2, 9), "");
}

#[test]
fn substring_tests() {
    assert!(starts_with("docs/a.md", "docs/"));
    assert!(!starts_with("doc", "docs/"));
    assert!(contains("setup guide", "up g"));
    assert!(contains("anything", ""));
    assert!(!contains("abc", "abd"));
}

#[test]
fn version_is_stored_in_decimal() {
    assert_eq!(decimal(0), "0");
    assert_eq!(decimal(7), "7");
    assert_eq!(decimal(1203), "1203");
    assert_eq!(decimal(u32::MAX), "4294967295");
    assert_eq!(decimal(INDEX_VERSION), INDEX_VERSION.to_string());
}

#[test]
fn index_version_check() {
    let current = INDEX_VERSION.to_string();
    assert!(index_version_is_current(Some(&current)));
    assert!(!index_version_is_current(None));
    assert!(!index_version_is_current(Some("0")));
    assert!(!index_version_is_current(Some(" 1")));
}

fn texts(items: &[Option<&str>]) -> Vec<Option<String>> {
    items.iter().map(|o| o.map(|s| s.to_string())).collect()
}

#[test]
fn install_into_empty_settings_adds_both() {
    let plan = plan_install(&SettingsView { allow: None, session_start: None });
    assert!(plan.add_allow);
    assert!(plan.add_hook);
}

#[test]
fn install_skips_what_is_already_there() {
    let settings = SettingsView {
        allow: Some(texts(&[Some("Bash(ls:*)"), None, Some(ALLOW_ENTRY)])),
        session_start: Some(vec![
            HookEntryView { commands: None },
            HookEntryView { commands: Some(texts(&[Some("other"), Some(HOOK_COMMAND)])) },
        ]),
    };
    let plan = plan_install(&settings);
    assert!(!plan.add_allow);
    assert!(!plan.add_hook);
}

#[test]
fn install_adds_only_what_is_missing() {
    let settings = SettingsView {
        allow: Some(texts(&[Some("bash(stacks:*)")])),
        session_start: Some(vec![HookEntryView { commands: Some(texts(&[Some(HOOK_COMMAND)])) }]),
    };
    let plan = plan_install(&settings);
    assert!(plan.add_allow);
    assert!(!plan.add_hook);
    let settings = SettingsView {
        allow: Some(texts(&[Some(ALLOW_ENTRY)])),
        session_start: Some(vec![HookEntryView { commands: Some(texts(&[None, Some("stacks")])) }]),
    };
    let plan = plan_install(&settings);
    assert!(!plan.add_allow);
    assert!(plan.add_hook);
}

#[test]
fn second_install_plans_nothing() {
    let first = plan_install(&SettingsView { allow: Some(Vec::new()), session_start: None });
    assert!(first.add_allow && first.add_hook);
    let after = SettingsView {
        allow: Some(texts(&[Some(ALLOW_ENTRY)])),
        session_start: Some(vec![HookEntryView { commands: Some(texts(&[Some(HOOK_COMMAND)])) }]),
    };
    let second = plan_install(&after);
    assert!(!second.add_allow && !second.add_hook);
}

#[test]
fn root_search_prefers_existing_index_then_repository() {
    assert!(root_step(true, true, true) == RootStep::OpenHere);
    assert!(root_step(true, false, false) == RootStep::OpenHere);
    assert!(root_step(false, true, true) == RootStep::CreateHere);
    assert!(root_step(false, false, true) == RootStep::GoUp);
    assert!(root_step(false, false, false) == RootStep::CreateAtStart);
}

#[test]
fn embeddings_missing_only_with_chunks_and_no_vectors() {
    assert!(embeddings_missing(3, 0));
    assert!(!embeddings_missing(0, 0));
    assert!(!embeddings_missing(3, 3));
    assert!(!embeddings_missing(3, 1));
}
