use agent_memories::{
    file_name_from_slug, format_memory, generate_filename, parse_frontmatter, validate_memory,
    MemoryType,
};

#[test]
fn generates_correct_filename() {
    assert_eq!(
        generate_filename("use agent-doc init", &MemoryType::Feedback),
        "feedback_use_agent_doc_init.md"
    );
    assert_eq!(
        generate_filename("My Cool Project", &MemoryType::Project),
        "project_my_cool_project.md"
    );
    assert_eq!(
        generate_filename("  spaces  everywhere  ", &MemoryType::User),
        "user_spaces_everywhere.md"
    );
}

#[test]
fn generate_filename_edge_cases() {
    assert_eq!(generate_filename("", &MemoryType::Reference), "reference_.md");
    assert_eq!(generate_filename("!!!", &MemoryType::User), "user_.md");
    assert_eq!(generate_filename("Ünïcode Ωmega 42", &MemoryType::User), "user_Ünïcode_Ωmega_42.md");
    assert_eq!(generate_filename("a__b--c", &MemoryType::User), "user_a_b_c.md");
}

#[test]
fn file_name_from_slug_collapses_underscores() {
    assert_eq!(file_name_from_slug("__a___b__", &MemoryType::Project), "project_a_b.md");
    assert_eq!(file_name_from_slug("use_agent_doc_init", &MemoryType::Feedback), "feedback_use_agent_doc_init.md");
    assert_eq!(file_name_from_slug("___", &MemoryType::User), "user_.md");
    // the slug is taken as given: no lowercasing here
    assert_eq!(file_name_from_slug("Ab-C", &MemoryType::User), "user_Ab-C.md");
}

#[test]
fn format_memory_layout() {
    let text = format_memory("n", "d", &MemoryType::User, Some("s"), "body");
    assert_eq!(text, "---\nname: n\ndescription: d\ntype: user\nscope: s\n---\n\nbody\n");
    let text = format_memory("n", "d", &MemoryType::Project, None, "body\n");
    assert_eq!(text, "---\nname: n\ndescription: d\ntype: project\n---\n\nbody\n");
    let text = format_memory("n", "d", &MemoryType::Reference, None, "");
    assert_eq!(text, "---\nname: n\ndescription: d\ntype: reference\n---\n\n\n");
}

#[test]
fn formatted_memory_reads_back() {
    let content = format_memory(
        "test lesson",
        "Always verify before commit",
        &MemoryType::Feedback,
        None,
        "Run `make check` before committing.\n",
    );
    let fm = parse_frontmatter(&content).unwrap();
    assert_eq!(fm.name, "test lesson");
    assert_eq!(fm.description, "Always verify before commit");
    assert_eq!(fm.memory_type, MemoryType::Feedback);
    assert!(fm.scope.is_none());
    assert!(content.contains("Run `make check` before committing."));
    assert!(validate_memory("test_lesson.md", &content).is_empty());
}

#[test]
fn formatted_memory_with_scope_reads_back() {
    let content = format_memory(
        "scoped memory",
        "Has a scope field",
        &MemoryType::Project,
        Some("agent-doc"),
        "Scoped content.\n",
    );
    let fm = parse_frontmatter(&content).unwrap();
    assert_eq!(fm.scope.as_deref(), Some("agent-doc"));
}

#[test]
fn formatted_memory_reads_back_trimmed() {
    let content = format_memory("  padded \r", " d ", &MemoryType::User, Some("   "), "x");
    let fm = parse_frontmatter(&content).unwrap();
    assert_eq!(fm.name, "padded");
    assert_eq!(fm.description, "d");
    assert!(fm.scope.is_none());
}

#[test]
fn formatted_memory_with_blank_body_is_an_error() {
    let content = format_memory("n", "d", &MemoryType::User, None, " \n\t");
    let issues = validate_memory("x.md", &content);
    assert_eq!(issues.len(), 1);
    assert!(issues[0].message.contains("body is empty"));
    assert!(!issues[0].warning);
}

#[test]
fn collapsed_slug_is_stable() {
    for name in ["__a___b__", "x", "", "a_b", "_", "a__"] {
        let once = file_name_from_slug(name, &MemoryType::User);
        let slug = once.trim_start_matches("user_").trim_end_matches(".md").to_string();
        assert!(!slug.starts_with('_') && !slug.ends_with('_') && !slug.contains("__"));
        assert_eq!(file_name_from_slug(&slug, &MemoryType::User), once);
        assert_eq!(slug.replace('_', ""), name.replace('_', ""));
    }
}

#[test]
fn generated_slug_is_stable() {
    for (name, t) in [
        ("use agent-doc init", MemoryType::Feedback),
        ("  Spaces  everywhere ", MemoryType::User),
        ("Ünïcode Ωmega 42", MemoryType::Project),
        ("!!!", MemoryType::Reference),
    ] {
        let r = generate_filename(name, &t);
        let prefix = format!("{}_", t.to_string());
        let slug = &r[prefix.len()..r.len() - 3];
        assert_eq!(generate_filename(slug, &t), r);
    }
}
