use boucle::frontmatter::{
    add_frontmatter_field, replace_frontmatter_field, slug_from_marks, slugify, strip_frontmatter,
};

#[test]
fn test_slugify() {
    assert_eq!(slugify("Hello World"), "hello-world");
    assert_eq!(slugify("API Keys & Secrets"), "api-keys-secrets");
    assert_eq!(slugify("test"), "test");
    assert_eq!(slugify("Multiple   Spaces"), "multiple-spaces");
}

#[test]
fn test_strip_frontmatter() {
    let input = "---\ntype: fact\ntitle: test\n---\n\nContent here.";
    assert_eq!(strip_frontmatter(input), "Content here.");
}

#[test]
fn test_strip_frontmatter_no_frontmatter() {
    let input = "Just content.";
    assert_eq!(strip_frontmatter(input), "Just content.");
}

#[test]
fn test_replace_frontmatter_field() {
    let content = "---\ntype: fact\nconfidence: 0.8\n---\n\nContent.";
    let updated = replace_frontmatter_field(content, "confidence", "0.95");
    assert!(updated.contains("confidence: 0.95"));
    assert!(!updated.contains("confidence: 0.8"));
}

#[test]
fn test_add_frontmatter_field() {
    let content = "---\ntype: fact\n---\n\nContent.";
    let updated = add_frontmatter_field(content, "superseded_by", "new-entry.md");
    assert!(updated.contains("superseded_by: new-entry.md"));
    assert!(updated.contains("type: fact"));
}

#[test]
fn replace_keeps_every_other_line() {
    let content = "---\ntype: fact\n  confidence:0.8  \ntitle:   \"Odd   spacing\"\n---\n\nBody\r\nmore";
    assert_eq!(
        replace_frontmatter_field(content, "confidence", "0.3"),
        "---\ntype: fact\nconfidence: 0.3\ntitle:   \"Odd   spacing\"\n---\n\nBody\nmore\n"
    );
    assert_eq!(replace_frontmatter_field(content, "created", "x"), content);
    assert_eq!(replace_frontmatter_field("", "a", "b"), "");
}

#[test]
fn add_puts_the_line_before_the_closing_delimiter() {
    assert_eq!(
        add_frontmatter_field("---\ntype: fact\n---\n\nContent.", "superseded_by", "n.md"),
        "---\ntype: fact\nsuperseded_by: n.md\n---\n\nContent."
    );
    assert_eq!(add_frontmatter_field("---\ntype: fact\n", "k", "v"), "---\ntype: fact\n");
    assert_eq!(add_frontmatter_field("ab", "k", "v"), "ab");
}

#[test]
fn strip_keeps_text_without_a_closed_header() {
    assert_eq!(strip_frontmatter("---\ntype: fact\nno end"), "---\ntype: fact\nno end");
    assert_eq!(strip_frontmatter("---\n---\n\n  Body  \n"), "Body  \n");
}

#[test]
fn slug_edge_cases() {
    assert_eq!(slugify(""), "");
    assert_eq!(slugify("  --  "), "");
    assert_eq!(slugify("Crème Brûlée 2"), "crème-brûlée-2");
    assert_eq!(slugify("already-a-slug"), "already-a-slug");
}

#[test]
fn slug_from_marks_joins_runs() {
    let chars: Vec<char> = "ab  cd!".chars().collect();
    let breaks = vec![false, false, true, true, false, false, true];
    let out: String = slug_from_marks(&chars, &breaks).into_iter().collect();
    assert_eq!(out, "ab-cd");
}
