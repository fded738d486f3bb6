use boucle::builtin_plugins::{Issue, IssueComment, LinearIssuesPlugin, SystemStatusPlugin};
use boucle::mcp::{
    detect_plugin_interpreter, extract_docstring, find_plugin, format_list, format_recall,
    format_tagged, plugin_description, Memory,
};

#[test]
fn test_system_status_plugin() {
    let plugin = SystemStatusPlugin::new();
    assert_eq!(plugin.meta().name, "system-status");
    assert!(!plugin.meta().is_external);
    assert_eq!(plugin.meta().priority, 90);

    let result = plugin.report("2026-01-01 00:00:00 UTC", 5, None, None);
    assert!(result.content.contains("System Status"));
    assert!(result.content.contains("Loop iteration: 5"));
    assert_eq!(result.metadata, vec![("iteration".to_string(), "5".to_string())]);
}

#[test]
fn system_status_section_is_whole() {
    let plugin = SystemStatusPlugin::new();
    let result = plugin.report("T", 12, Some("5G"), Some(3));
    assert_eq!(
        result.content,
        "## System Status\n\n- Timestamp: T\n- Loop iteration: 12\n- Disk free: 5G\n- Git uncommitted changes: 3\n"
    );
    assert!(result.warnings.is_empty());
}

#[test]
fn issues_section_lists_each_issue() {
    let plugin = LinearIssuesPlugin::new();
    let none = plugin.report(&Vec::new());
    assert_eq!(none.content, "## Linear Issues (delegated to me)\n\n(No issues delegated to me)");
    assert_eq!(none.metadata, vec![("issue_count".to_string(), "0".to_string())]);
    let issues = vec![
        Issue {
            identifier: "BOU-1".to_string(),
            title: "Fix it".to_string(),
            state: "Todo".to_string(),
            priority: "High".to_string(),
            description: Some("line one\nline two".to_string()),
            comments: vec![IssueComment { author: "ann".to_string(), body: "x".repeat(400) }],
        },
        Issue {
            identifier: "BOU-2".to_string(),
            title: "Other".to_string(),
            state: "Doing".to_string(),
            priority: "Low".to_string(),
            description: None,
            comments: Vec::new(),
        },
    ];
    let some = plugin.report(&issues);
    assert_eq!(
        some.content,
        format!(
            "## Linear Issues (delegated to me)\n\n- [BOU-1] Fix it (Todo, High)\n  line one\n  line two\n  --- Comments ---\n  [ann]: {}\n\n- [BOU-2] Other (Doing, Low)\n\n",
            "x".repeat(300)
        )
    );
    assert_eq!(some.metadata, vec![("issue_count".to_string(), "2".to_string())]);
    let failed = plugin.report_failure("viewer info", "timeout");
    assert_eq!(
        failed.content,
        "## Linear Issues (delegated to me)\n\n(Could not fetch viewer info: timeout)"
    );
}

#[test]
fn plugin_scripts_are_found_and_described() {
    let files: Vec<String> = ["a.sh", "a.py", "b", "b.py"].iter().map(|s| s.to_string()).collect();
    assert_eq!(find_plugin(&files, "a"), Some("a.py".to_string()));
    assert_eq!(find_plugin(&files, "b"), Some("b".to_string()));
    assert_eq!(find_plugin(&files, "c"), None);
    assert_eq!(
        plugin_description("#!/bin/sh\n# description:  Does things \n", "tool"),
        "Does things"
    );
    assert_eq!(plugin_description("#!/bin/sh\necho\n", "tool"), "Plugin: tool");
    assert_eq!(
        detect_plugin_interpreter("#!/usr/bin/env  python3 \nx"),
        Some(("python3".to_string(), None))
    );
    assert_eq!(
        detect_plugin_interpreter("#!/bin/bash -e\nx"),
        Some(("/bin/bash -e".to_string(), None))
    );
    assert_eq!(detect_plugin_interpreter("echo"), None);
    assert_eq!(detect_plugin_interpreter(""), None);
}

#[test]
fn docstrings_are_extracted() {
    assert_eq!(
        extract_docstring("#!/usr/bin/env python3\n\"\"\"\n Usage: tool x \n\"\"\"\nimport os"),
        Some("Usage: tool x".to_string())
    );
    assert_eq!(
        extract_docstring("#!/bin/sh\n# description: d\n# Usage:\n#   tool x\n\necho\n# later"),
        Some("Usage:\ntool x".to_string())
    );
    assert_eq!(extract_docstring("# description: d\n# no shebang first"), None);
    assert_eq!(extract_docstring("#!/bin/sh\n# description: d\necho"), None);
    assert_eq!(extract_docstring("\"\"\"unclosed\n#!/bin/sh\n# description: d\n# doc"), Some("doc".to_string()));
    assert_eq!(extract_docstring(""), None);
}

fn memory(title: &str, tags: &[&str], content: &str) -> Memory {
    Memory {
        title: title.to_string(),
        filename: format!("{}.md", title.to_lowercase()),
        tags: tags.iter().map(|t| t.to_string()).collect(),
        content: content.to_string(),
    }
}

#[test]
fn reports_of_memories() {
    assert_eq!(format_recall(&Vec::new()), "No memories found matching your query.");
    let found = vec![memory("A", &["x", "y"], "short"), memory("B", &[], &"é".repeat(150))];
    assert_eq!(
        format_recall(&found),
        format!(
            "Found 2 memory(ies):\n\n1. **A** (a.md)\n   Tags: x, y\n   short\n\n2. **B** (b.md)\n   {}...\n\n",
            "é".repeat(100)
        )
    );
    assert_eq!(format_tagged("t", &Vec::new(), 10), "No memories found with tag: t");
    assert_eq!(
        format_tagged("t", &found, 1),
        "Found 1 memory(ies) with tag 't':\n\n1. **A** (a.md)\n   Tags: x, y\n   short\n\n"
    );
    assert_eq!(format_list(&found, 2, 10), "No memories found.");
    assert_eq!(format_list(&found, 0, 0), "No memories found.");
    assert_eq!(
        format_list(&found, 1, 10),
        format!("Memories 2 - 2 of 2:\n\n2. **B** (b.md)\n   {}...\n\n", "é".repeat(50))
    );
}
