use boucle::context::{
    assemble, count_filled_lines, disk_free_of, excerpt, system_status, ContextSources,
    SystemFacts,
};
use boucle::hooks::{
    check_hook_name, detect_shebang, find_hook_script, hook_failure, is_valid_hook, valid_hooks,
};
use boucle::runner::{
    allowed_tools, generate_cron_entry, generate_launchd_plist, initial_config,
    initial_directories, initial_prompt, initial_state, llm_failure, lock_failure, lock_holder,
    RunnerError,
};

#[test]
fn test_valid_hooks() {
    let valid_hooks = valid_hooks();
    assert!(valid_hooks.contains(&"pre-run"));
    assert!(valid_hooks.contains(&"post-context"));
    assert!(valid_hooks.contains(&"post-llm"));
    assert!(valid_hooks.contains(&"post-commit"));
}

#[test]
fn test_unknown_hook_rejected() {
    let result = check_hook_name("invalid-hook");
    assert!(result.is_err());
    assert_eq!(result.unwrap_err().message(), "Hook error: Unknown hook: invalid-hook");
    assert!(check_hook_name("pre-run").is_ok());
    assert!(is_valid_hook("post-llm") && !is_valid_hook("Post-LLM") && !is_valid_hook(""));
}

#[test]
fn test_find_hook_script_exact() {
    let files = vec!["pre-run".to_string()];
    assert!(find_hook_script(&files, "pre-run").is_some());
}

#[test]
fn test_find_hook_script_with_extension() {
    let files = vec!["pre-run.sh".to_string()];
    assert!(find_hook_script(&files, "pre-run").is_some());
}

#[test]
fn test_find_hook_script_not_found() {
    let files: Vec<String> = Vec::new();
    assert!(find_hook_script(&files, "pre-run").is_none());
}

#[test]
fn test_detect_shebang_bash() {
    assert_eq!(
        detect_shebang("#!/bin/bash\necho hello"),
        Some("/bin/bash".to_string())
    );
}

#[test]
fn test_detect_shebang_env() {
    assert_eq!(
        detect_shebang("#!/usr/bin/env python3\nprint('hi')"),
        Some("python3".to_string())
    );
}

#[test]
fn test_detect_shebang_none() {
    assert_eq!(detect_shebang("no shebang"), None);
}

#[test]
fn test_detect_interpreter_bash() {
    assert_eq!(detect_shebang("#!/bin/bash\necho hello"), Some("/bin/bash".to_string()));
}

#[test]
fn test_detect_interpreter_env() {
    assert_eq!(
        detect_shebang("#!/usr/bin/env python3\nprint('hello')"),
        Some("python3".to_string())
    );
}

#[test]
fn test_detect_interpreter_none() {
    assert_eq!(detect_shebang("no shebang here"), None);
}

#[test]
fn test_generate_cron_hourly() {
    let entry = generate_cron_entry("/usr/local/bin/boucle", "/home/agent", 3600);
    assert!(entry.contains("0 */1 * * *"));
    assert!(entry.contains("/usr/local/bin/boucle"));
}

#[test]
fn test_generate_cron_every_5_min() {
    let entry = generate_cron_entry("/usr/local/bin/boucle", "/home/agent", 300);
    assert!(entry.contains("*/5 * * * *"));
}

#[test]
fn test_generate_launchd_plist() {
    let plist = generate_launchd_plist("test", "/usr/local/bin/boucle", "/home/agent", 3600);
    assert!(plist.contains("com.boucle.test"));
    assert!(plist.contains("<integer>3600</integer>"));
    assert!(plist.contains("/usr/local/bin/boucle"));
}

#[test]
fn cron_entries_by_interval() {
    assert_eq!(generate_cron_entry("b", "/r", 0), "* * * * * cd /r && b run");
    assert_eq!(generate_cron_entry("b", "/r", 59), "* * * * * cd /r && b run");
    assert_eq!(generate_cron_entry("b", "/r", 60), "*/1 * * * * cd /r && b run");
    assert_eq!(generate_cron_entry("b", "/r", 3599), "*/59 * * * * cd /r && b run");
    assert_eq!(generate_cron_entry("b", "/r", 7200), "0 */2 * * * cd /r && b run");
    assert_eq!(generate_cron_entry("b", "/r", 86400), "0 */24 * * * cd /r && b run");
}

#[test]
fn launchd_plist_is_whole() {
    let plist = generate_launchd_plist("a", "/bin/b", "/r", 5);
    assert!(plist.starts_with("<?xml version=\"1.0\" encoding=\"UTF-8\"?>\n<!DOCTYPE plist"));
    assert!(plist.ends_with("<string>/r/logs/launchd-stderr.log</string>\n</dict>\n</plist>"));
    assert_eq!(plist.matches("<string>/r</string>").count(), 2);
    assert!(plist.contains("<key>StartInterval</key>\n    <integer>5</integer>"));
}

#[test]
fn hook_scripts_in_order_of_preference() {
    let files: Vec<String> =
        ["pre-run.rb", "pre-run.py", "post-llm", "post-llm.sh"].iter().map(|s| s.to_string()).collect();
    assert_eq!(find_hook_script(&files, "pre-run"), Some("pre-run.py".to_string()));
    assert_eq!(find_hook_script(&files, "post-llm"), Some("post-llm".to_string()));
    assert_eq!(find_hook_script(&files, "post-commit"), None);
}

#[test]
fn shebang_edge_cases() {
    assert_eq!(detect_shebang(""), None);
    assert_eq!(detect_shebang("#!"), None);
    assert_eq!(detect_shebang("#!   \n"), None);
    assert_eq!(detect_shebang("#!/usr/bin/env"), None);
    assert_eq!(detect_shebang("#!  /bin/sh -e\n"), Some("/bin/sh".to_string()));
    assert_eq!(detect_shebang("#!/usr/bin/env  ruby -w\r\nputs 1"), Some("ruby".to_string()));
    assert_eq!(detect_shebang("\n#!/bin/sh"), None);
}

#[test]
fn failures_read_as_before() {
    let e = hook_failure("pre-run", Some(2), "boom");
    assert_eq!(e.message(), "Hook error: Hook 'pre-run' failed (exit 2): boom");
    let e = hook_failure("pre-run", None, "");
    assert_eq!(e.message(), "Hook error: Hook 'pre-run' failed (exit -1): ");
    assert_eq!(lock_failure(4242).message(), "Lock error: Another loop is running (PID: 4242)");
    assert_eq!(llm_failure(-3).message(), "LLM error: Model exited with code -3");
    assert_eq!(RunnerError::Io("x".to_string()).message(), "IO error: x");
    assert_eq!(RunnerError::Config("y".to_string()).message(), "Config error: y");
}

#[test]
fn lock_holder_reads_a_process_number() {
    assert_eq!(lock_holder("12345"), Some(12345));
    assert_eq!(lock_holder(" 99999999\n"), Some(99999999));
    assert_eq!(lock_holder("4294967296"), None);
    assert_eq!(lock_holder("abc"), None);
    assert_eq!(lock_holder(""), None);
}

#[test]
fn allowed_tools_skips_blanks_and_comments() {
    assert_eq!(allowed_tools("Read\n# no\n\n  \nWrite\n Bash(git:*)\n"), Some("Read,Write, Bash(git:*)".to_string()));
    assert_eq!(allowed_tools("# only\n\n"), None);
    assert_eq!(allowed_tools(""), None);
}

#[test]
fn a_new_agent_gets_its_files() {
    let text = initial_config("test-agent", "some-model");
    assert!(text.starts_with("[agent]\nname = \"test-agent\"\nmodel = \"some-model\"\n"));
    assert!(text.contains("[memory]\ndir = \"memory\"\nstate_file = \"STATE.md\"\n"));
    assert!(text.ends_with("[schedule]\ninterval = \"1h\"\n"));
    assert_eq!(
        initial_directories(),
        vec!["memory/knowledge", "memory/journal", "context.d", "hooks", "logs"]
    );
    assert_eq!(
        initial_prompt("x"),
        "You are x, an autonomous agent running in a loop.\nRead your state, decide what to do, then update your state.\n"
    );
    assert_eq!(
        initial_state("x", "2026-01-01 00:00:00 UTC"),
        "# x \u{2014} State\n\n## What I know\n\n- Initialized: 2026-01-01 00:00:00 UTC\n\n## What I'm working on\n\n(nothing yet)\n"
    );
}

fn sources() -> ContextSources {
    ContextSources {
        goals: None,
        goal_files: Vec::new(),
        state: None,
        action_files: Vec::new(),
        plugin_outputs: Vec::new(),
        status: "- Timestamp: now".to_string(),
        last_log: None,
    }
}

#[test]
fn test_assemble_basic() {
    let mut s = sources();
    s.state = Some("# test-agent \u{2014} State".to_string());
    let result = assemble(&s);
    // Should contain state section
    assert!(result.contains("Memory"));
    assert!(result.contains("test-agent"));
    // Should contain system status
    assert!(result.contains("System Status"));
}

#[test]
fn test_assemble_with_goals() {
    let mut s = sources();
    s.goals = Some("# Goal 1\nBuild something.".to_string());
    let result = assemble(&s);
    assert!(result.contains("Current Goals"));
    assert!(result.contains("Build something"));
}

#[test]
fn test_assemble_with_goals_dir() {
    let mut s = sources();
    s.goal_files = vec!["# Goal 1\nFirst goal.".to_string(), "# Goal 2\nSecond goal.".to_string()];
    let result = assemble(&s);
    assert!(result.contains("Current Goals"));
    assert!(result.contains("First goal"));
    assert!(result.contains("Second goal"));
}

#[test]
fn test_assemble_with_actions() {
    let mut s = sources();
    s.action_files = vec!["# Action\nDo something.".to_string()];
    let result = assemble(&s);
    assert!(result.contains("Pending Actions"));
    assert!(result.contains("Do something"));
}

#[test]
fn assemble_orders_and_rules_the_sections() {
    let s = ContextSources {
        goals: Some("G".to_string()),
        goal_files: vec!["ignored".to_string()],
        state: Some("S".to_string()),
        action_files: vec!["A1".to_string(), "A2".to_string()],
        plugin_outputs: vec!["P1".to_string(), "P2".to_string()],
        status: "ST".to_string(),
        last_log: Some("L".to_string()),
    };
    assert_eq!(
        assemble(&s),
        "## Current Goals\n\nG\n\n---\n\n## Memory\n\nS\n\n---\n\n## Pending Actions (awaiting approval)\n\nA1\n\n---\n\nA2\n\n---\n\n\n\n---\n\nP1\n\n---\n\nP2\n\n---\n\n## System Status\n\nST\n\n---\n\n## Last Log Entry\n\nL"
    );
    assert_eq!(assemble(&sources()), "## System Status\n\n- Timestamp: now");
    let mut dir = sources();
    dir.goal_files = vec!["one".to_string(), "two".to_string()];
    assert!(assemble(&dir).starts_with("## Current Goals\n\none\n\n---\n\ntwo\n\n---\n\n\n\n---\n\n## System"));
}

#[test]
fn system_status_lists_what_was_observed() {
    let all = SystemFacts {
        timestamp: "T".to_string(),
        disk_free: Some("10G".to_string()),
        iterations: Some(7),
        uncommitted: Some(0),
        last_commit: Some(" abc123 message \n".to_string()),
    };
    assert_eq!(
        system_status(&all),
        "- Timestamp: T\n- Disk free: 10G\n- Loop iterations so far: 7\n- Git status: 0 uncommitted changes\n- Last commit: abc123 message"
    );
    let little = SystemFacts {
        timestamp: "T".to_string(),
        disk_free: None,
        iterations: None,
        uncommitted: None,
        last_commit: Some("  \n".to_string()),
    };
    assert_eq!(system_status(&little), "- Timestamp: T");
}

#[test]
fn reports_of_the_system_are_read() {
    let df = "Filesystem Size Used Avail Use% Mounted\n/dev/disk1  466G  200G  266G  43% /\n";
    assert_eq!(disk_free_of(df), Some("266G".to_string()));
    assert_eq!(disk_free_of("only one line"), None);
    assert_eq!(disk_free_of("head\na b c\n"), None);
    assert_eq!(count_filled_lines(" M a\n?? b\n\n M c"), 3);
    assert_eq!(count_filled_lines(""), 0);
    assert_eq!(excerpt("a\nb\r\nc\n", 2), "a\nb");
    assert_eq!(excerpt("a\nb\n", 50), "a\nb");
    assert_eq!(excerpt("a", 0), "");
}
