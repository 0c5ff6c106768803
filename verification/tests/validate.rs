use agent_memories::{validate_memory, validate_memory_with_hits, Issue};

const VALID_MEMORY: &str = "\
---
name: test-memory
description: A test memory for validation
type: feedback
scope: testing
---

Always run tests before committing.

**Why:** Prevents regressions.

**How to apply:** Use `make check` before `git commit`.
";

#[test]
fn validate_valid_memory() {
    let issues = validate_memory("test.md", VALID_MEMORY);
    assert!(issues.is_empty(), "expected no issues, got: {issues:?}");
}

#[test]
fn validate_missing_frontmatter() {
    let issues = validate_memory("bad.md", "no frontmatter");
    assert_eq!(issues.len(), 1);
    assert!(issues[0].message.contains("missing frontmatter"));
    assert!(!issues[0].warning);
}

#[test]
fn validate_empty_body() {
    let content = "\
---
name: empty-body
description: Has frontmatter but no body
type: project
---
";
    let issues = validate_memory("empty.md", content);
    assert!(issues.iter().any(|i| i.message.contains("body is empty")));
}

#[test]
fn validate_machine_local_path() {
    let content = "\
---
name: local-path
description: Contains a local path
type: feedback
---

Use the binary at /home/alice/bin/tool.
";
    let issues = validate_memory("path.md", content);
    assert!(issues.iter().any(|i| i.message.contains("machine-local path")));
    assert!(issues.iter().any(|i| i.warning));
}

#[test]
fn validate_invalid_type() {
    let content = "\
---
name: bad-type
description: Invalid memory type
type: invalid
---

Some content.
";
    let issues = validate_memory("bad-type.md", content);
    assert!(issues.iter().any(|i| i.message.contains("invalid type")));
}

fn summary(issues: &[Issue]) -> Vec<(String, usize, String, bool)> {
    issues
        .iter()
        .map(|i| (i.file.clone(), i.line, i.message.clone(), i.warning))
        .collect()
}

#[test]
fn validate_unclosed_frontmatter() {
    let issues = validate_memory("u.md", "---\nname: a\n");
    assert_eq!(
        summary(&issues),
        vec![("u.md".to_string(), 1, "unclosed frontmatter (missing closing ---)".to_string(), false)]
    );
}

#[test]
fn validate_empty_file_is_missing_frontmatter() {
    let issues = validate_memory("e.md", "");
    assert_eq!(
        summary(&issues),
        vec![("e.md".to_string(), 1, "missing frontmatter (file must start with ---)".to_string(), false)]
    );
}

#[test]
fn validate_all_fields_missing() {
    let issues = validate_memory("m.md", "---\nother: x\nname:\n---\nbody\n");
    let messages: Vec<String> = issues.iter().map(|i| i.message.clone()).collect();
    assert_eq!(
        messages,
        vec![
            "frontmatter missing required field: name".to_string(),
            "frontmatter missing required field: description".to_string(),
            "frontmatter missing required field: type".to_string(),
        ]
    );
    assert!(issues.iter().all(|i| i.line == 1 && !i.warning));
}

#[test]
fn validate_invalid_type_message() {
    let issues = validate_memory("t.md", "---\nname: n\ndescription: d\ntype:  Weird \n---\nbody\n");
    assert_eq!(
        summary(&issues),
        vec![(
            "t.md".to_string(),
            1,
            "invalid type: Weird (expected user/feedback/project/reference)".to_string(),
            false
        )]
    );
}

#[test]
fn validate_empty_body_line_number() {
    let issues = validate_memory("b.md", "---\nname: n\ndescription: d\ntype: user\n---\n  \n\t\n");
    assert_eq!(
        summary(&issues),
        vec![(
            "b.md".to_string(),
            6,
            "memory body is empty (content required after frontmatter)".to_string(),
            false
        )]
    );
}

#[test]
fn validate_local_paths_every_line() {
    let content = "---\nname: n\ndescription: /Users/bob\ntype: user\n---\nsee C:\\Users\\carol\\x\nand /home/\nand /home/dave\n";
    let issues = validate_memory("p.md", content);
    assert_eq!(
        summary(&issues),
        vec![
            ("p.md".to_string(), 3, "machine-local path detected".to_string(), true),
            ("p.md".to_string(), 6, "machine-local path detected".to_string(), true),
            ("p.md".to_string(), 8, "machine-local path detected".to_string(), true),
        ]
    );
}

#[test]
fn validate_with_hits_uses_given_lines() {
    let issues = validate_memory_with_hits("h.md", VALID_MEMORY, &vec![false, true, false, false, false, false, false, false, true]);
    let lines: Vec<usize> = issues.iter().map(|i| i.line).collect();
    assert_eq!(lines, vec![2, 9]);
    assert!(issues.iter().all(|i| i.warning));
    // hits for lines past the end of the file and a short hit list are both fine
    let issues = validate_memory_with_hits("h.md", VALID_MEMORY, &vec![true]);
    assert_eq!(issues.len(), 1);
    assert_eq!(issues[0].line, 1);
    // an early structural error ignores the hits
    let issues = validate_memory_with_hits("h.md", "nothing", &vec![true]);
    assert_eq!(issues.len(), 1);
    assert!(!issues[0].warning);
}

#[test]
fn issue_report_format() {
    let e = Issue { file: "a.md".to_string(), line: 12, message: "boom".to_string(), warning: false };
    assert_eq!(e.to_string(), "a.md:12: error: boom");
    let w = Issue { file: "b.md".to_string(), line: 0, message: "hm".to_string(), warning: true };
    assert_eq!(w.to_string(), "b.md:0: warning: hm");
    let big = Issue { file: "c".to_string(), line: 1234567890, message: "m".to_string(), warning: true };
    assert_eq!(big.to_string(), "c:1234567890: warning: m");
}

#[test]
fn errors_exactly_when_unreadable_or_blank() {
    let cases = [
        ("", true),
        ("nothing", true),
        ("---\nname: a\n", true),
        ("---\nname: a\ndescription: d\n---\nbody\n", true),
        ("---\nname: a\ndescription: d\ntype: user\n---\n\n \n", true),
        ("---\nname: a\ndescription: d\ntype: user\n---\nbody /home/x\n", false),
        ("---\nname: a\ndescription: d\ntype: user\ntype:\n---\nbody\n", false),
    ];
    for (content, erroneous) in cases {
        let issues = validate_memory("f.md", content);
        assert_eq!(issues.iter().any(|i| !i.warning), erroneous, "{content:?}");
        let unreadable = agent_memories::parse_frontmatter(content).is_none();
        let has_body = content.lines().skip(agent_memories::body_start_line(content).map(|b| b - 1).unwrap_or(0)).any(|l| !l.trim().is_empty());
        assert_eq!(erroneous, unreadable || !has_body, "{content:?}");
    }
}
