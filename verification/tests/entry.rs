use boucle::confidence::Confidence;
use boucle::entry::{encode, extract_field, extract_tags, BrocaError, Entry, EntryType, ParseFailure};

#[test]
fn test_entry_type_from_str() {
    assert_eq!("fact".parse::<EntryType>(), Ok(EntryType::Fact));
    assert_eq!("DECISION".parse::<EntryType>(), Ok(EntryType::Decision));
    assert!("invalid".parse::<EntryType>().is_err());
}

#[test]
fn test_entry_type_display() {
    assert_eq!(EntryType::Fact.to_string(), "fact");
    assert_eq!(EntryType::Decision.to_string(), "decision");
}

#[test]
fn test_extract_field() {
    let fm = "type: fact\ntitle: \"Hello World\"\nconfidence: 0.9";
    assert_eq!(extract_field(fm, "type"), Some("fact".to_string()));
    assert_eq!(
        extract_field(fm, "title"),
        Some("\"Hello World\"".to_string())
    );
    assert_eq!(extract_field(fm, "confidence"), Some("0.9".to_string()));
    assert_eq!(extract_field(fm, "missing"), None);
}

#[test]
fn test_extract_tags() {
    let fm = "tags: [rust, memory, agent]";
    let tags = extract_tags(fm);
    assert_eq!(tags, vec!["rust", "memory", "agent"]);
}

#[test]
fn test_extract_tags_empty() {
    assert!(extract_tags("no tags here").is_empty());
    assert!(extract_tags("tags: []").is_empty());
}

#[test]
fn test_parse_entry() {
    let raw = "---\ntype: fact\ntitle: \"Test\"\nconfidence: 0.9\ntags: [a, b]\ncreated: 20260228\n---\n\nSome content here.";
    let entry = Entry::parse("test.md", raw).unwrap();
    assert_eq!(entry.entry_type, EntryType::Fact);
    assert_eq!(entry.title, "Test");
    assert_eq!(entry.confidence.as_millis() as f64 / 1000.0, 0.9);
    assert_eq!(entry.tags, vec!["a", "b"]);
    assert_eq!(entry.content, "Some content here.");
}

#[test]
fn test_parse_entry_no_frontmatter() {
    let result = Entry::parse("test.md", "Just content");
    assert!(result.is_err());
}

#[test]
fn test_parse_entry_defaults() {
    let raw = "---\ntype: observation\n---\n\nContent.";
    let entry = Entry::parse("test.md", raw).unwrap();
    assert_eq!(entry.entry_type, EntryType::Observation);
    assert_eq!(entry.title, "test.md"); // Falls back to filename
    assert_eq!(entry.confidence.as_millis() as f64 / 1000.0, 0.8); // Default
    assert!(entry.tags.is_empty());
}

#[test]
fn parse_reports_each_failure() {
    let fails = |raw: &str| match Entry::parse("n.md", raw) {
        Err(BrocaError::Parse(file, reason)) => {
            assert_eq!(file, "n.md");
            reason
        }
        other => panic!("expected a parse failure, got {:?}", other),
    };
    assert_eq!(fails("type: fact\n---\n"), ParseFailure::MissingHeader);
    assert_eq!(fails(""), ParseFailure::MissingHeader);
    assert_eq!(fails("---\ntype: fact\n"), ParseFailure::UnclosedHeader);
    assert_eq!(fails("---\ntitle: x\n---\nbody"), ParseFailure::MissingKind);
    assert_eq!(fails("---\ntype: rumour\n---\nbody"), ParseFailure::InvalidKind);
}

#[test]
fn parse_reads_every_key_and_ignores_others() {
    let raw = "---\n  type: Procedure  \nowner: me\ntitle: \"\"A \"quoted\" title\"\nconfidence: oops\ntags: [\"x\", 'y', , z ]\ncreated:   2026-01-01  \nsuperseded_by: other.md\n---\n\n  Body text \n\n";
    let e = Entry::parse("f.md", raw).unwrap();
    assert_eq!(e.filename, "f.md");
    assert_eq!(e.entry_type, EntryType::Procedure);
    assert_eq!(e.title, "A \"quoted\" title");
    assert_eq!(e.confidence, Confidence::from_millis(800));
    assert_eq!(e.tags, vec!["x", "y", "z"]);
    assert_eq!(e.created, "2026-01-01");
    assert_eq!(e.superseded_by, Some("other.md".to_string()));
    assert_eq!(e.content, "Body text");
}

#[test]
fn parse_tags_without_brackets_are_none() {
    let e = Entry::parse("f.md", "---\ntype: fact\ntags: a, b\n---\nx").unwrap();
    assert!(e.tags.is_empty());
    let e = Entry::parse("f.md", "---\ntype: fact\ntags: [a, b\n---\nx").unwrap();
    assert!(e.tags.is_empty());
}

#[test]
fn parse_first_delimiter_closes_the_header() {
    let e = Entry::parse("f.md", "---\ntype: fact\n---\nfirst\n---\nsecond").unwrap();
    assert_eq!(e.content, "first\n---\nsecond");
}

#[test]
fn encode_writes_the_fields_in_order() {
    let text = encode(
        EntryType::Fact,
        "Test Entry",
        "20260228-101500",
        Confidence::from_millis(800),
        &["test".to_string(), "unit".to_string()],
        "This is test content.",
    );
    assert_eq!(
        text,
        "---\ntype: fact\ntitle: \"Test Entry\"\ncreated: 20260228-101500\nconfidence: 0.8\ntags: [test, unit]\n---\n\nThis is test content.\n"
    );
    let bare = encode(EntryType::Error, "T", "c", Confidence::from_millis(1000), &[], "b");
    assert_eq!(bare, "---\ntype: error\ntitle: \"T\"\ncreated: c\nconfidence: 1\n---\n\nb\n");
}

#[test]
fn decode_of_encode_gives_the_fields_back() {
    let tags = vec!["rust".to_string(), "fast code".to_string()];
    let text = encode(
        EntryType::Decision,
        "Use: Rust",
        "20260228-101500",
        Confidence::from_millis(950),
        &tags,
        "Line one\n\nline two",
    );
    let e = Entry::parse("x.md", &text).unwrap();
    assert_eq!(e.entry_type, EntryType::Decision);
    assert_eq!(e.title, "Use: Rust");
    assert_eq!(e.confidence, Confidence::from_millis(950));
    assert_eq!(e.tags, tags);
    assert_eq!(e.content, "Line one\n\nline two");
    assert_eq!(e.created, "20260228-101500");
    assert_eq!(e.superseded_by, None);
}

#[test]
fn error_messages() {
    assert_eq!(
        BrocaError::Parse("a.md".to_string(), ParseFailure::MissingHeader).message(),
        "Parse error: No frontmatter in a.md"
    );
    assert_eq!(BrocaError::NotFound("zz".to_string()).message(), "Entry not found: zz");
    assert_eq!(
        BrocaError::InvalidArgument("rumour".to_string()).message(),
        "Unknown entry type: rumour"
    );
    assert_eq!(BrocaError::Io("disk full".to_string()).message(), "IO error: disk full");
}

#[test]
fn some_fields_are_not_read_back() {
    let parse = |title: &str, tags: &[&str], body: &str| {
        let tags: Vec<String> = tags.iter().map(|t| t.to_string()).collect();
        let text = encode(EntryType::Fact, title, "c", Confidence::from_millis(800), &tags, body);
        Entry::parse("x.md", &text)
    };
    // a delimiter in the title closes the header early
    let cut = parse("a---b", &[], "body").unwrap();
    assert_eq!(cut.title, "a");
    assert!(cut.content.starts_with("b\""));
    // quotes at the ends of a title are taken for the quotes around it
    assert_eq!(parse("\"quoted\"", &[], "body").unwrap().title, "quoted");
    // a comma splits a tag, and white space around a body is trimmed
    assert_eq!(parse("t", &["a,b"], " body ").unwrap().tags, vec!["a", "b"]);
    assert_eq!(parse("t", &[], " body ").unwrap().content, "body");
}
