use agent_memories::MemoryType;

#[test]
fn memory_type_display() {
    assert_eq!(MemoryType::User.to_string(), "user");
    assert_eq!(MemoryType::Feedback.to_string(), "feedback");
    assert_eq!(MemoryType::Project.to_string(), "project");
    assert_eq!(MemoryType::Reference.to_string(), "reference");
}

#[test]
fn memory_type_from_str() {
    assert_eq!(MemoryType::from_str("user").unwrap(), MemoryType::User);
    assert_eq!(MemoryType::from_str("FEEDBACK").unwrap(), MemoryType::Feedback);
    assert!(MemoryType::from_str("invalid").is_err());
}

#[test]
fn memory_type_from_str_trims_and_lowercases() {
    assert_eq!(MemoryType::from_str("  Project\t").unwrap(), MemoryType::Project);
    assert_eq!(MemoryType::from_str("\u{3000}REFERENCE\n").unwrap(), MemoryType::Reference);
    assert_eq!(MemoryType::from_str(" Bogus ").unwrap_err(), "unknown memory type: bogus");
    assert_eq!(MemoryType::from_str("").unwrap_err(), "unknown memory type: ");
}

#[test]
fn memory_type_parse_trait() {
    assert_eq!("user".parse::<MemoryType>().unwrap(), MemoryType::User);
    assert!("x".parse::<MemoryType>().is_err());
}

#[test]
fn memory_type_from_normalized_is_exact() {
    assert_eq!(MemoryType::from_normalized("project").unwrap(), MemoryType::Project);
    assert_eq!(MemoryType::from_normalized("Project").unwrap_err(), "unknown memory type: Project");
    assert_eq!(MemoryType::from_normalized(" user").unwrap_err(), "unknown memory type:  user");
}

#[test]
fn memory_type_name_round_trip() {
    for t in [MemoryType::User, MemoryType::Feedback, MemoryType::Project, MemoryType::Reference] {
        assert_eq!(MemoryType::from_str(&t.to_string()).unwrap(), t);
        assert_eq!(MemoryType::from_normalized(&t.to_string()).unwrap(), t);
    }
}

#[test]
fn memory_type_uppercase_name_parses_back() {
    for t in [MemoryType::User, MemoryType::Feedback, MemoryType::Project, MemoryType::Reference] {
        assert_eq!(MemoryType::from_str(&t.to_string().to_uppercase()).unwrap(), t);
        assert_eq!(MemoryType::from_str(&format!("  {}\t", t.to_string().to_uppercase())).unwrap(), t);
    }
    assert_eq!(MemoryType::from_str("UsEr").unwrap(), MemoryType::User);
}
