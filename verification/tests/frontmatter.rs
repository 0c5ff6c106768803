use agent_memories::{body_start_line, list_entry, listing_order, parse_frontmatter, MemoryType};

const VALID_MEMORY: &str = "\
---
name: test-memory
description: A test memory for validation
type: feedback
scope: testing
---

Always run tests before committing.

**Why:** Prevents regressions.

**How to apply:** Use `make check` before `git commit`.
";

#[test]
fn parse_valid_frontmatter() {
    let fm = parse_frontmatter(VALID_MEMORY).unwrap();
    assert_eq!(fm.name, "test-memory");
    assert_eq!(fm.description, "A test memory for validation");
    assert_eq!(fm.memory_type, MemoryType::Feedback);
    assert_eq!(fm.scope.as_deref(), Some("testing"));
}

#[test]
fn parse_frontmatter_no_scope() {
    let content = "\
---
name: minimal
description: Minimal memory
type: user
---

Content here.
";
    let fm = parse_frontmatter(content).unwrap();
    assert_eq!(fm.name, "minimal");
    assert!(fm.scope.is_none());
    assert_eq!(fm.memory_type, MemoryType::User);
}

#[test]
fn parse_frontmatter_missing_opening() {
    assert!(parse_frontmatter("no frontmatter here").is_none());
}

#[test]
fn parse_frontmatter_missing_closing() {
    let content = "---\nname: broken\n";
    assert!(parse_frontmatter(content).is_none());
}

#[test]
fn parse_frontmatter_empty_content() {
    assert!(parse_frontmatter("").is_none());
}

#[test]
fn parse_frontmatter_missing_required_fields() {
    assert!(parse_frontmatter("---\nname: a\ntype: user\n---\nbody\n").is_none());
    assert!(parse_frontmatter("---\ndescription: d\ntype: user\n---\nbody\n").is_none());
    assert!(parse_frontmatter("---\nname: a\ndescription: d\n---\nbody\n").is_none());
}

#[test]
fn parse_frontmatter_last_value_wins_and_empty_values_skip() {
    let content = "---\nname: first\nname: second\nname:   \ndescription: d\ntype: user\ntype: PROJECT \n---\n";
    let fm = parse_frontmatter(content).unwrap();
    assert_eq!(fm.name, "second");
    assert_eq!(fm.memory_type, MemoryType::Project);
}

#[test]
fn parse_frontmatter_later_invalid_type_discards_earlier() {
    let content = "---\nname: n\ndescription: d\ntype: user\ntype: bogus\n---\n";
    assert!(parse_frontmatter(content).is_none());
}

#[test]
fn parse_frontmatter_trims_and_splits_at_first_colon() {
    let content = "  ---  \r\n  name  :  a: b  \r\ndescription:x\r\ntype:\treference\r\nunknown: z\r\nno colon line\r\n---\r\n";
    let fm = parse_frontmatter(content).unwrap();
    assert_eq!(fm.name, "a: b");
    assert_eq!(fm.description, "x");
    assert_eq!(fm.memory_type, MemoryType::Reference);
    assert!(fm.scope.is_none());
}

#[test]
fn body_start_line_is_first_body_line_number() {
    assert_eq!(body_start_line(VALID_MEMORY), Some(7));
    assert_eq!(body_start_line("---\n---\n"), Some(3));
    assert_eq!(body_start_line("---\nname: a\n---\nbody"), Some(4));
    assert_eq!(body_start_line("---\nname: x\n"), None);
    assert_eq!(body_start_line("x\n---\n---\n"), None);
}

#[test]
fn list_entry_columns() {
    let fm = parse_frontmatter("---\nname: minimal\ndescription: d\ntype: user\n---\nx\n");
    assert_eq!(list_entry(&fm, "ignored.md"), format!("{} {:<20} {}", "user", "minimal", "-"));
    assert_eq!(list_entry(&fm, "ignored.md"), "user minimal              -");
    let fm = parse_frontmatter("---\nname: a-very-long-memory-name-here\ndescription: d\ntype: feedback\nscope: s\n---\nx\n");
    assert_eq!(
        list_entry(&fm, "ignored.md"),
        format!("{} {:<20} {}", "feedback", "a-very-long-memory-name-here", "s")
    );
    assert_eq!(
        list_entry(&None, "notes.md"),
        format!("{:<12} {:<20} (no frontmatter)", "-", "notes.md")
    );
    assert_eq!(list_entry(&None, "ünï.md"), format!("{:<12} {:<20} (no frontmatter)", "-", "ünï.md"));
}

#[test]
fn listing_order_selects_and_sorts_markdown() {
    let names: Vec<String> = ["b.md", "notes.txt", ".md", "a.md", "A.md", "md", "x.MD", "c.md.bak", "ä.md", "a.md"]
        .iter()
        .map(|s| s.to_string())
        .collect();
    assert_eq!(listing_order(&names), vec![4, 3, 9, 0, 8]);
    assert_eq!(listing_order(&Vec::new()), Vec::<usize>::new());
    // agrees with the extension test and order of std paths
    let mut expected: Vec<usize> = (0..names.len())
        .filter(|&i| std::path::Path::new(&names[i]).extension().is_some_and(|e| e == "md"))
        .collect();
    expected.sort_by_key(|&i| names[i].clone());
    assert_eq!(listing_order(&names), expected);
}
