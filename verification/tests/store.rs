use boucle::confidence::Confidence;
use boucle::entry::{BrocaError, Entry};
use boucle::report::{build_index, build_index_at, stats};
use boucle::store::{
    find_entry_by_name, journal, journal_at, journal_stamped, load_all, load_failures, put_record, relate,
    relate_in, remember, remember_at, search_tag, set_frontmatter_field, show, supersede,
    update_confidence, Record, Store,
};
use boucle::entry::EntryType;

fn text_of<'a>(store: &'a Store, name: &str) -> &'a str {
    &store.knowledge.iter().find(|r| r.name == name).unwrap().text
}

#[test]
fn test_remember_and_show() {
    let mut store = Store::new();

    let name = remember(
        &mut store,
        "fact",
        "Test Entry",
        "This is test content.",
        &["test".to_string(), "unit".to_string()],
    )
    .unwrap();

    assert!(store.knowledge.iter().any(|r| r.name == name));

    // Read the record and verify the header
    let content = text_of(&store, &name);
    assert!(content.contains("type: fact"));
    assert!(content.contains("title: \"Test Entry\""));
    assert!(content.contains("confidence: 0.8"));
    assert!(content.contains("tags: [test, unit]"));
    assert!(content.contains("This is test content."));

    assert!(name.ends_with("-test-entry.md"));
    assert!(!name.contains('%'));
    assert_eq!(show(&store, &name).unwrap(), "This is test content.\n");
    assert_eq!(show(&store, "TEST-ENTRY").unwrap(), "This is test content.\n");
}

#[test]
fn test_remember_invalid_type() {
    let mut store = Store::new();
    let result = remember(&mut store, "invalid", "Test", "Content", &[]);
    assert!(result.is_err());
    assert!(matches!(result, Err(BrocaError::InvalidArgument(ref t)) if t == "invalid"));
    assert!(store.knowledge.is_empty());
}

#[test]
fn test_journal() {
    let mut store = Store::new();

    let name = journal(&mut store, "First entry");
    assert!(store.journal.iter().any(|r| r.name == name));

    let content = store.journal[0].text.clone();
    assert!(content.contains("First entry"));
    assert!(content.contains("# Journal"));

    // Second entry same day appends
    let _ = journal(&mut store, "Second entry");
    let content = store.journal.iter().find(|r| r.name == name).unwrap().text.clone();
    assert!(content.contains("First entry"));
    assert!(content.contains("Second entry"));
}

#[test]
fn test_stats_empty() {
    let store = Store::new();
    let result = stats(&store);
    assert!(result.contains("Total entries: 0"));
}

#[test]
fn test_stats_with_entries() {
    let mut store = Store::new();

    remember(&mut store, "fact", "Fact One", "Content", &[]).unwrap();
    remember(&mut store, "fact", "Fact Two", "Content", &[]).unwrap();
    remember(&mut store, "decision", "A Decision", "Content", &[]).unwrap();

    let result = stats(&store);
    assert!(result.contains("Total entries: 3"));
    assert!(result.contains("fact: 2"));
    assert!(result.contains("decision: 1"));
}

#[test]
fn test_build_index() {
    let mut store = Store::new();

    remember(&mut store, "fact", "Alpha", "Content A", &["tag1".to_string()]).unwrap();
    remember(&mut store, "observation", "Beta", "Content B", &[]).unwrap();

    let count = build_index(&mut store);
    assert_eq!(count, 2);
    assert!(store.index.is_some());

    let index = store.index.clone().unwrap();
    assert!(index.contains("Alpha"));
    assert!(index.contains("Beta"));
}

#[test]
fn test_search_tag() {
    let mut store = Store::new();

    remember(&mut store, "fact", "Tagged", "Content", &["important".to_string()]).unwrap();
    remember(&mut store, "fact", "Not Tagged", "Content", &[]).unwrap();

    let results = search_tag(&store, "important");
    assert_eq!(results.len(), 1);
    assert_eq!(results[0].title, "Tagged");
    assert_eq!(search_tag(&store, "IMPORTANT").len(), 1);
    assert!(search_tag(&store, "import").is_empty());
}

#[test]
fn test_update_confidence() {
    let mut store = Store::new();

    let name = remember(&mut store, "fact", "Confidence Test", "Content", &[]).unwrap();

    // Original confidence is 0.8
    assert!(text_of(&store, &name).contains("confidence: 0.8"));

    // Update to 0.95, brought to tenths as its notation with one digit gives them
    let given = Confidence::parse(&format!("{:.1}", 0.95)).unwrap();
    update_confidence(&mut store, "confidence-test", given.as_millis() / 100).unwrap();

    assert!(text_of(&store, &name).contains("confidence: 0.9")); // 0.95 formatted as 0.9 with .1 precision
}

#[test]
fn test_supersede() {
    let mut store = Store::new();

    remember(&mut store, "fact", "Old Fact", "Old content", &[]).unwrap();
    remember(&mut store, "fact", "New Fact", "New content", &[]).unwrap();

    supersede(&mut store, "old-fact", "new-fact").unwrap();

    // Old entry should have superseded_by and lower confidence
    let entries = load_all(&store.knowledge);
    let old = entries.iter().find(|e| e.title == "Old Fact").unwrap();
    assert_eq!(old.confidence.as_millis() as f64 / 1000.0, 0.3);
    assert!(old.superseded_by.is_some());
}

#[test]
fn test_relate() {
    let mut store = Store::new();

    remember(&mut store, "fact", "Entry A", "Content A", &[]).unwrap();
    remember(&mut store, "fact", "Entry B", "Content B", &[]).unwrap();

    relate(&mut store, "entry-a", "entry-b", "supports").unwrap();

    let relations = store.relations.clone().unwrap();
    assert!(relations.contains("--[supports]-->"));
}

fn sample() -> Store {
    let mut store = Store::new();
    remember_at(&mut store, EntryType::Fact, "Entry A", "Content A", &[], "20260101-120000");
    remember_at(
        &mut store,
        EntryType::Decision,
        "Entry B",
        "Content B",
        &["x".to_string()],
        "20260101-120001",
    );
    store
}

#[test]
fn remember_at_names_and_writes_the_record() {
    let mut store = Store::new();
    let name = remember_at(
        &mut store,
        EntryType::Fact,
        "Rust is fast",
        "Body.",
        &["rust".to_string(), "performance".to_string()],
        "20260228-101500",
    );
    assert_eq!(name, "20260228-101500-rust-is-fast.md");
    assert_eq!(store.knowledge.len(), 1);
    assert_eq!(
        store.knowledge[0].text,
        "---\ntype: fact\ntitle: \"Rust is fast\"\ncreated: 20260228-101500\nconfidence: 0.8\ntags: [rust, performance]\n---\n\nBody.\n"
    );
    // the same title within the same second writes over the file
    remember_at(&mut store, EntryType::Fact, "Rust is fast", "Other.", &[], "20260228-101500");
    assert_eq!(store.knowledge.len(), 1);
    assert!(store.knowledge[0].text.ends_with("Other.\n"));
}

#[test]
fn load_all_sorts_by_name_and_skips_what_cannot_be_read() {
    let mut store = Store::new();
    let good = |title: &str| format!("---\ntype: fact\ntitle: \"{}\"\n---\n\nx", title);
    put_record(&mut store.knowledge, "b.md".to_string(), good("B"));
    put_record(&mut store.knowledge, "notes.txt".to_string(), good("T"));
    put_record(&mut store.knowledge, "broken.md".to_string(), "no header".to_string());
    put_record(&mut store.knowledge, "a.md".to_string(), good("A"));
    put_record(&mut store.knowledge, ".md".to_string(), good("Hidden"));
    put_record(&mut store.knowledge, "Z.md".to_string(), good("Z"));
    let entries: Vec<Entry> = load_all(&store.knowledge);
    let names: Vec<&str> = entries.iter().map(|e| e.filename.as_str()).collect();
    assert_eq!(names, vec!["Z.md", "a.md", "b.md"]);
    let errors = load_failures(&store.knowledge);
    assert_eq!(errors.len(), 1);
    assert_eq!(errors[0].message(), "Parse error: No frontmatter in broken.md");
    assert!(load_all(&Vec::<Record>::new()).is_empty());
}

#[test]
fn lookup_takes_the_first_file_that_holds_the_name() {
    let store = sample();
    assert_eq!(find_entry_by_name(&store.knowledge, "entry"), Some(0));
    assert_eq!(find_entry_by_name(&store.knowledge, "ENTRY-B"), Some(1));
    assert_eq!(find_entry_by_name(&store.knowledge, "entry-c"), None);
    assert_eq!(find_entry_by_name(&store.knowledge, ""), Some(0));
    assert_eq!(find_entry_by_name(&Vec::new(), "x"), None);
}

#[test]
fn show_prefers_the_exact_name_and_reports_what_is_missing() {
    let mut store = sample();
    put_record(&mut store.knowledge, "entry".to_string(), "plain text".to_string());
    assert_eq!(show(&store, "entry").unwrap(), "plain text");
    assert_eq!(show(&store, "entry-b").unwrap(), "Content B\n");
    match show(&store, "nothing") {
        Err(BrocaError::NotFound(name)) => assert_eq!(name, "nothing"),
        other => panic!("expected NotFound, got {:?}", other),
    }
}

#[test]
fn update_confidence_rewrites_one_line() {
    let mut store = sample();
    let name = update_confidence(&mut store, "entry-a", 10).unwrap();
    assert_eq!(name, "20260101-120000-entry-a.md");
    assert_eq!(
        text_of(&store, &name),
        "---\ntype: fact\ntitle: \"Entry A\"\ncreated: 20260101-120000\nconfidence: 1.0\n---\n\nContent A\n"
    );
    update_confidence(&mut store, "entry-a", 2).unwrap();
    assert!(text_of(&store, &name).contains("confidence: 0.2\n"));
    update_confidence(&mut store, "entry-a", 0).unwrap();
    assert!(text_of(&store, &name).contains("confidence: 0.0\n"));
    update_confidence(&mut store, "entry-a", 123).unwrap();
    assert!(text_of(&store, &name).contains("confidence: 12.3\n"));
    update_confidence(&mut store, "entry-a", -4).unwrap();
    assert!(text_of(&store, &name).contains("confidence: -0.4\n"));
    let before = store.clone();
    assert!(matches!(
        update_confidence(&mut store, "missing", 1),
        Err(BrocaError::NotFound(ref n)) if n == "missing"
    ));
    assert_eq!(store.knowledge.len(), before.knowledge.len());
    assert_eq!(store.knowledge[0].text, before.knowledge[0].text);
}

#[test]
fn supersede_links_and_lowers_in_one_rewrite() {
    let mut store = sample();
    let name = supersede(&mut store, "entry-a", "entry-b").unwrap();
    assert_eq!(name, "20260101-120000-entry-a.md");
    assert_eq!(
        text_of(&store, &name),
        "---\ntype: fact\ntitle: \"Entry A\"\ncreated: 20260101-120000\nconfidence: 0.3\nsuperseded_by: 20260101-120001-entry-b.md\n---\n\nContent A\n"
    );
    let entries = load_all(&store.knowledge);
    assert_eq!(entries[0].confidence, Confidence::from_millis(300));
    assert_eq!(entries[0].superseded_by.as_deref(), Some("20260101-120001-entry-b.md"));
    // again, with another successor: the link is replaced in its line
    remember_at(&mut store, EntryType::Fact, "Entry C", "Content C", &[], "20260101-120002");
    supersede(&mut store, "entry-a", "entry-c").unwrap();
    let entries = load_all(&store.knowledge);
    assert_eq!(entries[0].superseded_by.as_deref(), Some("20260101-120002-entry-c.md"));
    assert_eq!(entries[0].confidence, Confidence::from_millis(300));
    assert!(matches!(
        supersede(&mut store, "nope", "entry-b"),
        Err(BrocaError::NotFound(ref n)) if n == "nope"
    ));
    assert!(matches!(
        supersede(&mut store, "entry-a", "nope"),
        Err(BrocaError::NotFound(ref n)) if n == "nope"
    ));
}

#[test]
fn supersede_adds_a_confidence_that_was_missing() {
    let mut store = Store::new();
    put_record(&mut store.knowledge, "a.md".to_string(), "---\ntype: fact\n---\n\nA".to_string());
    put_record(&mut store.knowledge, "b.md".to_string(), "---\ntype: fact\n---\n\nB".to_string());
    supersede(&mut store, "a.md", "b.md").unwrap();
    let entries = load_all(&store.knowledge);
    assert_eq!(entries[0].confidence, Confidence::from_millis(300));
    assert_eq!(entries[0].superseded_by.as_deref(), Some("b.md"));
    assert_eq!(
        set_frontmatter_field("---\ntype: fact\n---\nx", "type", "error"),
        "---\ntype: error\n---\nx\n"
    );
}

#[test]
fn relate_twice_records_one_line() {
    let mut store = sample();
    relate(&mut store, "entry-a", "entry-b", "supports").unwrap();
    relate(&mut store, "entry-a", "entry-b", "supports").unwrap();
    let log = store.relations.clone().unwrap();
    assert_eq!(
        log,
        "# Broca Relations\n\n20260101-120000-entry-a.md --[supports]--> 20260101-120001-entry-b.md\n"
    );
    let line = "20260101-120000-entry-a.md --[supports]--> 20260101-120001-entry-b.md";
    assert_eq!(log.lines().filter(|l| *l == line).count(), 1);
    relate(&mut store, "entry-b", "entry-a", "contradicts").unwrap();
    assert_eq!(store.relations.clone().unwrap().lines().count(), 4);
    assert!(matches!(
        relate(&mut store, "entry-a", "zzz", "supports"),
        Err(BrocaError::NotFound(ref n)) if n == "zzz"
    ));
    assert!(matches!(
        relate(&mut store, "yyy", "zzz", "supports"),
        Err(BrocaError::NotFound(ref n)) if n == "yyy"
    ));
}

#[test]
fn relate_in_matches_whole_lines() {
    assert_eq!(relate_in(None, "a", "t", "b"), "# Broca Relations\n\na --[t]--> b\n");
    assert_eq!(relate_in(Some("xa --[t]--> b\n"), "a", "t", "b"), "xa --[t]--> b\na --[t]--> b\n");
    assert_eq!(relate_in(Some("a --[t]--> b"), "a", "t", "b"), "a --[t]--> b");
    assert_eq!(relate_in(Some(""), "a", "t", "b"), "a --[t]--> b\n");
}

#[test]
fn journal_at_starts_and_continues_a_day() {
    let mut store = Store::new();
    let name = journal_at(&mut store, "First entry", "2026-02-28", "10:15");
    assert_eq!(name, "2026-02-28.md");
    assert_eq!(store.journal[0].text, "# Journal \u{2014} 2026-02-28\n\n## 10:15\n\nFirst entry\n");
    journal_at(&mut store, "Second entry", "2026-02-28", "11:00");
    assert_eq!(store.journal.len(), 1);
    assert_eq!(
        store.journal[0].text,
        "# Journal \u{2014} 2026-02-28\n\n## 10:15\n\nFirst entry\n\n## 11:00\n\nSecond entry\n"
    );
    journal_at(&mut store, "Next day", "2026-03-01", "09:00");
    assert_eq!(store.journal.len(), 2);
    assert!(store.knowledge.is_empty());
}

#[test]
fn stats_counts_and_averages() {
    let mut store = sample();
    remember_at(&mut store, EntryType::Decision, "Entry C", "c", &[], "20260101-120002");
    remember_at(&mut store, EntryType::Error, "Entry D", "d", &[], "20260101-120003");
    update_confidence(&mut store, "entry-d", 3).unwrap();
    journal_at(&mut store, "x", "2026-01-01", "10:00");
    journal_at(&mut store, "y", "2026-01-02", "10:00");
    put_record(&mut store.journal, "notes.txt".to_string(), String::new());
    assert_eq!(
        stats(&store),
        "# Broca Memory Stats\n\nTotal entries: 4\nJournal days: 2\nAverage confidence: 0.68\n\n## By Type\n- decision: 2\n- fact: 1\n- error: 1\n"
    );
    assert_eq!(
        stats(&Store::new()),
        "# Broca Memory Stats\n\nTotal entries: 0\nJournal days: 0\nAverage confidence: 0.00\n\n## By Type\n"
    );
}

#[test]
fn index_lists_every_entry() {
    let mut store = sample();
    let count = build_index_at(&mut store, "2026-01-01 12:00:00 UTC");
    assert_eq!(count, 2);
    assert_eq!(
        store.index.clone().unwrap(),
        "# Broca Memory Index\n\nGenerated: 2026-01-01 12:00:00 UTC\n\n- **Entry A** [fact] (confidence: 0.8, created: 20260101-120000) \u{2014} 20260101-120000-entry-a.md\n- **Entry B** [decision] (confidence: 0.8, created: 20260101-120001) \u{2014} 20260101-120001-entry-b.md\n  tags: x\n"
    );
}

#[test]
fn journal_stamped_takes_day_and_time_from_the_stamp() {
    let mut store = Store::new();
    let name = journal_stamped(&mut store, "First entry", "2026-02-28 10:15");
    assert_eq!(name, "2026-02-28.md");
    assert_eq!(store.journal.len(), 1);
    assert_eq!(store.journal[0].name, "2026-02-28.md");
    assert_eq!(store.journal[0].text, "# Journal \u{2014} 2026-02-28\n\n## 10:15\n\nFirst entry\n");
    // only the first space parts the day from the time
    let name = journal_stamped(&mut store, "x", "2026-03-01 09:00 UTC");
    assert_eq!(name, "2026-03-01.md");
    assert_eq!(store.journal[1].text, "# Journal \u{2014} 2026-03-01\n\n## 09:00 UTC\n\nx\n");
    // a stamp without a space is a day without a time
    let name = journal_stamped(&mut store, "y", "2026-03-02");
    assert_eq!(name, "2026-03-02.md");
    assert_eq!(store.journal[2].text, "# Journal \u{2014} 2026-03-02\n\n## \n\ny\n");
}

#[test]
fn journal_goes_by_the_day_of_the_clock() {
    let mut store = Store::new();
    let name = journal(&mut store, "Today");
    // a day such as 2026-02-28, and a time such as 10:15
    let day = name.strip_suffix(".md").unwrap();
    assert_eq!(day.len(), 10);
    assert!(day.chars().all(|c| c.is_ascii_digit() || c == '-'));
    let text = &store.journal[0].text;
    assert!(text.starts_with(&format!("# Journal \u{2014} {day}\n\n## ")));
    let time = text.split("## ").nth(1).unwrap().split('\n').next().unwrap();
    assert_eq!(time.len(), 5);
    assert_eq!(&time[2..3], ":");
}

#[test]
fn supersede_reads_back_whatever_the_header_held() {
    let mut store = Store::new();
    // lines that end in carriage returns and line feeds, a confidence of any value
    put_record(
        &mut store.knowledge,
        "a.md".to_string(),
        "---\r\ntype: fact\r\ntitle: \"A\"\r\nconfidence: 12.5\r\n---\r\n\r\nOld.".to_string(),
    );
    // a successor named before, and no confidence
    put_record(
        &mut store.knowledge,
        "b.md".to_string(),
        "---\ntype: decision\nsuperseded_by: gone.md\n---\n\nB".to_string(),
    );
    put_record(&mut store.knowledge, "c-new.md".to_string(), "---\ntype: fact\n---\n\nC".to_string());
    assert_eq!(supersede(&mut store, "a.md", "c-new").unwrap(), "a.md");
    assert_eq!(supersede(&mut store, "b.md", "c-new").unwrap(), "b.md");
    let entries = load_all(&store.knowledge);
    assert_eq!(entries.len(), 3);
    assert_eq!(entries[0].title, "A");
    assert_eq!(entries[0].confidence, Confidence::from_millis(300));
    assert_eq!(entries[0].superseded_by.as_deref(), Some("c-new.md"));
    assert_eq!(entries[1].entry_type.as_str(), "decision");
    assert_eq!(entries[1].confidence, Confidence::from_millis(300));
    assert_eq!(entries[1].superseded_by.as_deref(), Some("c-new.md"));
    assert_eq!(
        text_of(&store, "b.md"),
        "---\ntype: decision\nsuperseded_by: c-new.md\nconfidence: 0.3\n---\n\nB\n"
    );
    // a confidence that stands after the header only is rewritten where it stands
    put_record(
        &mut store.knowledge,
        "d.md".to_string(),
        "---\ntype: fact\n---\n\nconfidence: 1\n".to_string(),
    );
    supersede(&mut store, "d.md", "c-new").unwrap();
    let entries = load_all(&store.knowledge);
    assert_eq!(entries[3].superseded_by.as_deref(), Some("c-new.md"));
    assert_eq!(entries[3].confidence, Confidence::from_millis(800));
}
