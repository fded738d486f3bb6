//! What the loop runner decides without touching the system: how its failures
//! read, and what a schedule entry looks like.

use crate::number::{
    decimal, digits_of, parse_u64, parse_unsigned, signed_decimal, signed_digits_of,
};
use crate::text::{
    chars_of, join, join_chars, lines, lines_of, push_all, string_of, trim, trim_chars, views,
};
use vstd::prelude::*;

verus! {

/// What a run of the loop can fail with; each carries the text of what failed.
#[derive(Debug)]
pub enum RunnerError {
    Io(String),
    Config(String),
    Lock(String),
    Hook(String),
    Llm(String),
}

impl RunnerError {
    /// The text that the error reports under.
    pub open spec fn message_text(self) -> Seq<char> {
        match self {
            RunnerError::Io(m) => "IO error: "@ + m@,
            RunnerError::Config(m) => "Config error: "@ + m@,
            RunnerError::Lock(m) => "Lock error: "@ + m@,
            RunnerError::Hook(m) => "Hook error: "@ + m@,
            RunnerError::Llm(m) => "LLM error: "@ + m@,
        }
    }

    /// A line of text that says what failed.
    pub fn message(&self) -> (msg: String)
        ensures
            msg@ == self.message_text(),
    {
        let (head, detail) = match self {
            RunnerError::Io(m) => ("IO error: ", m),
            RunnerError::Config(m) => ("Config error: ", m),
            RunnerError::Lock(m) => ("Lock error: ", m),
            RunnerError::Hook(m) => ("Hook error: ", m),
            RunnerError::Llm(m) => ("LLM error: ", m),
        };
        let mut msg = head.to_owned();
        msg.append(detail.as_str());
        msg
    }
}

/// When a job runs that is due every `interval_secs` seconds, in the notation of
/// cron: every minute below one minute, every so many minutes below one hour,
/// else every so many hours on the hour.
pub open spec fn cron_expression(interval_secs: nat) -> Seq<char> {
    let minutes = interval_secs / 60;
    if minutes == 0 {
        "* * * * *"@
    } else if minutes < 60 {
        "*/"@ + decimal(minutes) + " * * * *"@
    } else {
        "0 */"@ + decimal(minutes / 60) + " * * *"@
    }
}

/// The line of a cron table that runs the agent every `interval_secs` seconds.
pub open spec fn cron_entry(binary: Seq<char>, root: Seq<char>, interval_secs: nat) -> Seq<char> {
    cron_expression(interval_secs) + " cd "@ + root + " && "@ + binary + " run"@
}

fn cron_expression_chars(interval_secs: u64) -> (out: Vec<char>)
    ensures
        out@ == cron_expression(interval_secs as nat),
{
    let minutes = interval_secs / 60;
    if minutes == 0 {
        chars_of("* * * * *")
    } else if minutes < 60 {
        let mut out = chars_of("*/");
        push_all(&mut out, &digits_of(minutes));
        push_all(&mut out, &chars_of(" * * * *"));
        out
    } else {
        let mut out = chars_of("0 */");
        push_all(&mut out, &digits_of(minutes / 60));
        push_all(&mut out, &chars_of(" * * *"));
        out
    }
}

/// Writes the line of a cron table that runs the agent every `interval_secs`
/// seconds.
pub fn generate_cron_entry(binary: &str, root: &str, interval_secs: u64) -> (entry: String)
    ensures
        entry@ == cron_entry(binary@, root@, interval_secs as nat),
{
    let mut out = cron_expression_chars(interval_secs);
    push_all(&mut out, &chars_of(" cd "));
    push_all(&mut out, &chars_of(root));
    push_all(&mut out, &chars_of(" && "));
    push_all(&mut out, &chars_of(binary));
    push_all(&mut out, &chars_of(" run"));
    string_of(&out)
}

/// The property list that has the system run the agent `name` every
/// `interval_secs` seconds.
pub open spec fn launchd_plist(
    name: Seq<char>,
    binary: Seq<char>,
    root: Seq<char>,
    interval_secs: nat,
) -> Seq<char> {
    "<?xml version=\"1.0\" encoding=\"UTF-8\"?>\n<!DOCTYPE plist PUBLIC \"-//Apple//DTD PLIST 1.0//EN\" \"http://www.apple.com/DTDs/PropertyList-1.0.dtd\">\n<plist version=\"1.0\">\n<dict>\n    <key>Label</key>\n    <string>com.boucle."@
        + name
        + "</string>\n    <key>ProgramArguments</key>\n    <array>\n        <string>"@
        + binary + "</string>\n        <string>--root</string>\n        <string>"@ + root
        + "</string>\n        <string>run</string>\n    </array>\n    <key>StartInterval</key>\n    <integer>"@
        + decimal(interval_secs)
        + "</integer>\n    <key>WorkingDirectory</key>\n    <string>"@ + root
        + "</string>\n    <key>StandardOutPath</key>\n    <string>"@ + root
        + "/logs/launchd-stdout.log</string>\n    <key>StandardErrorPath</key>\n    <string>"@
        + root + "/logs/launchd-stderr.log</string>\n</dict>\n</plist>"@
}

/// Writes the property list that has the system run the agent every
/// `interval_secs` seconds.
pub fn generate_launchd_plist(name: &str, binary: &str, root: &str, interval_secs: u64) -> (plist:
    String)
    ensures
        plist@ == launchd_plist(name@, binary@, root@, interval_secs as nat),
{
    let root_chars = chars_of(root);
    let mut out = chars_of(
        "<?xml version=\"1.0\" encoding=\"UTF-8\"?>\n<!DOCTYPE plist PUBLIC \"-//Apple//DTD PLIST 1.0//EN\" \"http://www.apple.com/DTDs/PropertyList-1.0.dtd\">\n<plist version=\"1.0\">\n<dict>\n    <key>Label</key>\n    <string>com.boucle.",
    );
    push_all(&mut out, &chars_of(name));
    push_all(
        &mut out,
        &chars_of(
            "</string>\n    <key>ProgramArguments</key>\n    <array>\n        <string>",
        ),
    );
    push_all(&mut out, &chars_of(binary));
    push_all(
        &mut out,
        &chars_of("</string>\n        <string>--root</string>\n        <string>"),
    );
    push_all(&mut out, &root_chars);
    push_all(
        &mut out,
        &chars_of(
            "</string>\n        <string>run</string>\n    </array>\n    <key>StartInterval</key>\n    <integer>",
        ),
    );
    push_all(&mut out, &digits_of(interval_secs));
    push_all(
        &mut out,
        &chars_of("</integer>\n    <key>WorkingDirectory</key>\n    <string>"),
    );
    push_all(&mut out, &root_chars);
    push_all(
        &mut out,
        &chars_of("</string>\n    <key>StandardOutPath</key>\n    <string>"),
    );
    push_all(&mut out, &root_chars);
    push_all(
        &mut out,
        &chars_of(
            "/logs/launchd-stdout.log</string>\n    <key>StandardErrorPath</key>\n    <string>",
        ),
    );
    push_all(&mut out, &root_chars);
    push_all(&mut out, &chars_of("/logs/launchd-stderr.log</string>\n</dict>\n</plist>"));
    string_of(&out)
}

// ---------------------------------------------------------------------------
// Allowed tools
// ---------------------------------------------------------------------------

/// Whether a line of the tools file names a tool: it is not blank and does not
/// start with `#`.
pub open spec fn names_tool(line: Seq<char>) -> bool {
    trim(line).len() > 0 && (line.len() == 0 || line[0] != '#')
}

/// The members of `ls` that name a tool, in their order.
pub open spec fn tool_lines(ls: Seq<Seq<char>>) -> Seq<Seq<char>>
    decreases ls.len(),
{
    if ls.len() == 0 {
        Seq::<Seq<char>>::empty()
    } else if names_tool(ls.last()) {
        tool_lines(ls.drop_last()).push(ls.last())
    } else {
        tool_lines(ls.drop_last())
    }
}

/// The tools that the tools file `text` allows, joined by commas; none where
/// the file names no tool.
pub open spec fn allowed_tools_in(text: Seq<char>) -> Option<Seq<char>> {
    let tools = tool_lines(lines(text));
    if tools.len() == 0 {
        None
    } else {
        Some(join(tools, ","@))
    }
}

/// Reads the list of allowed tools from the text of a tools file: one tool to
/// a line, blank lines and lines that start with `#` left out.
pub fn allowed_tools(text: &str) -> (tools: Option<String>)
    ensures
        tools is Some <==> allowed_tools_in(text@) is Some,
        tools is Some ==> tools->0@ == allowed_tools_in(text@)->0,
{
    let ls = lines_of(&chars_of(text));
    let ghost all = views(ls@);
    let mut picked: Vec<Vec<char>> = Vec::new();
    assert(all.take(0) =~= Seq::<Seq<char>>::empty());
    for line in it: ls
        invariant
            all == views(it.seq()),
            views(picked@) == tool_lines(all.take(it.index() as int)),
    {
        let ghost k = it.index() as int;
        let ghost before = views(picked@);
        proof {
            assert(all.take(k + 1).drop_last() =~= all.take(k));
            assert(all.take(k + 1).last() == line@);
        }
        if trim_chars(&line).len() > 0 && (line.len() == 0 || line[0] != '#') {
            picked.push(line);
            proof {
                assert(views(picked@) =~= before.push(line@));
            }
        }
    }
    assert(all.take(all.len() as int) =~= all);
    if picked.len() == 0 {
        None
    } else {
        Some(string_of(&join_chars(&picked, &chars_of(","))))
    }
}

// ---------------------------------------------------------------------------
// The lock
// ---------------------------------------------------------------------------

/// The process that the lock file `content` names: the number it holds, white
/// space around it left out, where that is the number of a process.
pub open spec fn holder_in(content: Seq<char>) -> Option<nat> {
    match parse_unsigned(trim(content)) {
        Some(n) => if n <= u32::MAX {
            Some(n)
        } else {
            None
        },
        None => None,
    }
}

/// Reads from a lock file the process that holds the lock.
pub fn lock_holder(content: &str) -> (pid: Option<u32>)
    ensures
        pid is Some <==> holder_in(content@) is Some,
        pid is Some ==> pid->0 == holder_in(content@)->0,
{
    match parse_u64(&trim_chars(&chars_of(content))) {
        Some(n) => if n <= 0xffff_ffff {
            Some(n as u32)
        } else {
            None
        },
        None => None,
    }
}

/// Reports that the process `pid` holds the lock.
pub fn lock_failure(pid: u32) -> (e: RunnerError)
    ensures
        e matches RunnerError::Lock(m) && m@ == "Another loop is running (PID: "@ + decimal(
            pid as nat,
        ) + ")"@,
{
    let mut out = chars_of("Another loop is running (PID: ");
    push_all(&mut out, &digits_of(pid as u64));
    push_all(&mut out, &chars_of(")"));
    RunnerError::Lock(string_of(&out))
}

/// Reports that the model ended with the status `exit_code`.
pub fn llm_failure(exit_code: i32) -> (e: RunnerError)
    ensures
        e matches RunnerError::Llm(m) && m@ == "Model exited with code "@ + signed_decimal(
            exit_code as int,
        ),
{
    let mut out = chars_of("Model exited with code ");
    push_all(&mut out, &signed_digits_of(exit_code as i64));
    RunnerError::Llm(string_of(&out))
}

// ---------------------------------------------------------------------------
// A new agent
// ---------------------------------------------------------------------------

/// The settings file of a new agent called `name` that runs `model`.
pub open spec fn initial_config_text(name: Seq<char>, model: Seq<char>) -> Seq<char> {
    "[agent]\nname = \""@ + name + "\"\nmodel = \""@ + model
        + "\"\nsystem_prompt = \"system-prompt.md\"\n\n[memory]\ndir = \"memory\"\nstate_file = \"STATE.md\"\n\n[loop]\ncontext_dir = \"context.d\"\nhooks_dir = \"hooks\"\nlog_dir = \"logs\"\n\n[schedule]\ninterval = \"1h\"\n"@
}

/// Writes the settings file of a new agent.
pub fn initial_config(name: &str, model: &str) -> (text: String)
    ensures
        text@ == initial_config_text(name@, model@),
{
    let mut out = chars_of("[agent]\nname = \"");
    push_all(&mut out, &chars_of(name));
    push_all(&mut out, &chars_of("\"\nmodel = \""));
    push_all(&mut out, &chars_of(model));
    push_all(
        &mut out,
        &chars_of(
            "\"\nsystem_prompt = \"system-prompt.md\"\n\n[memory]\ndir = \"memory\"\nstate_file = \"STATE.md\"\n\n[loop]\ncontext_dir = \"context.d\"\nhooks_dir = \"hooks\"\nlog_dir = \"logs\"\n\n[schedule]\ninterval = \"1h\"\n",
        ),
    );
    string_of(&out)
}

/// The directories of a new agent, under its root.
pub fn initial_directories() -> (dirs: Vec<&'static str>)
    ensures
        dirs@.len() == 5,
        dirs@[0]@ == "memory/knowledge"@,
        dirs@[1]@ == "memory/journal"@,
        dirs@[2]@ == "context.d"@,
        dirs@[3]@ == "hooks"@,
        dirs@[4]@ == "logs"@,
{
    let mut dirs: Vec<&'static str> = Vec::new();
    dirs.push("memory/knowledge");
    dirs.push("memory/journal");
    dirs.push("context.d");
    dirs.push("hooks");
    dirs.push("logs");
    dirs
}

/// Writes the system prompt of a new agent called `name`.
pub fn initial_prompt(name: &str) -> (text: String)
    ensures
        text@ == "You are "@ + name@
            + ", an autonomous agent running in a loop.\nRead your state, decide what to do, then update your state.\n"@,
{
    let mut out = chars_of("You are ");
    push_all(&mut out, &chars_of(name));
    push_all(
        &mut out,
        &chars_of(
            ", an autonomous agent running in a loop.\nRead your state, decide what to do, then update your state.\n",
        ),
    );
    string_of(&out)
}

/// Writes the first state of a new agent called `name`, made at `now`.
pub fn initial_state(name: &str, now: &str) -> (text: String)
    ensures
        text@ == "# "@ + name@ + " \u{2014} State\n\n## What I know\n\n- Initialized: "@ + now@
            + "\n\n## What I'm working on\n\n(nothing yet)\n"@,
{
    let mut out = chars_of("# ");
    push_all(&mut out, &chars_of(name));
    push_all(&mut out, &chars_of(" \u{2014} State\n\n## What I know\n\n- Initialized: "));
    push_all(&mut out, &chars_of(now));
    push_all(&mut out, &chars_of("\n\n## What I'm working on\n\n(nothing yet)\n"));
    string_of(&out)
}

} // verus!
