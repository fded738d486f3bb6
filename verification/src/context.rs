//! Context assembly: the prompt of an iteration, put together from what was
//! gathered for it.

use crate::number::{decimal, digits_of};
use crate::text::{
    chars_of, join, join_chars, lines, lines_of, push_all, string_of, string_views, trim,
    trim_chars, views, words, words_of,
};
use vstd::prelude::*;

verus! {

/// What was gathered for the context of an iteration.
pub struct ContextSources {
    /// What the goals file holds, where there is one.
    pub goals: Option<String>,
    /// What each file of the goals directory holds, by file name; looked at only
    /// where there is no goals file.
    pub goal_files: Vec<String>,
    /// What the state file holds, where there is one.
    pub state: Option<String>,
    /// What each file of pending actions holds, by file name.
    pub action_files: Vec<String>,
    /// What each context plugin wrote.
    pub plugin_outputs: Vec<String>,
    /// The status of the system.
    pub status: String,
    /// The last log, where there is one.
    pub last_log: Option<String>,
}

/// What stands between two sections, and after each of several files.
pub open spec fn rule() -> Seq<char> {
    "\n\n---\n\n"@
}

/// The texts of `files`, each followed by a rule.
pub open spec fn ruled(files: Seq<Seq<char>>) -> Seq<char>
    decreases files.len(),
{
    if files.len() == 0 {
        Seq::<char>::empty()
    } else {
        ruled(files.drop_last()) + files.last() + rule()
    }
}

/// The section on goals: the goals file, or else the files of the goals
/// directory; none where there is neither.
pub open spec fn goals_section(goals: Option<Seq<char>>, goal_files: Seq<Seq<char>>) -> Seq<
    Seq<char>,
> {
    match goals {
        Some(g) => seq!["## Current Goals\n\n"@ + g],
        None => if goal_files.len() > 0 {
            seq!["## Current Goals\n\n"@ + ruled(goal_files)]
        } else {
            Seq::<Seq<char>>::empty()
        },
    }
}

/// The section on memory: the state file, where there is one.
pub open spec fn state_section(state: Option<Seq<char>>) -> Seq<Seq<char>> {
    match state {
        Some(s) => seq!["## Memory\n\n"@ + s],
        None => Seq::<Seq<char>>::empty(),
    }
}

/// The section on pending actions: the action files, where there are any.
pub open spec fn actions_section(action_files: Seq<Seq<char>>) -> Seq<Seq<char>> {
    if action_files.len() > 0 {
        seq!["## Pending Actions (awaiting approval)\n\n"@ + ruled(action_files)]
    } else {
        Seq::<Seq<char>>::empty()
    }
}

/// The section on the last log, where there is one.
pub open spec fn log_section(last_log: Option<Seq<char>>) -> Seq<Seq<char>> {
    match last_log {
        Some(l) => seq!["## Last Log Entry\n\n"@ + l],
        None => Seq::<Seq<char>>::empty(),
    }
}

/// The sections of the context, in their order: goals, memory, pending
/// actions, what the plugins wrote, the status of the system, the last log.
pub open spec fn sections(
    goals: Option<Seq<char>>,
    goal_files: Seq<Seq<char>>,
    state: Option<Seq<char>>,
    action_files: Seq<Seq<char>>,
    plugin_outputs: Seq<Seq<char>>,
    status: Seq<char>,
    last_log: Option<Seq<char>>,
) -> Seq<Seq<char>> {
    goals_section(goals, goal_files) + state_section(state) + actions_section(action_files)
        + plugin_outputs + seq!["## System Status\n\n"@ + status] + log_section(last_log)
}

/// The view of an optional string.
pub open spec fn text_of(s: Option<String>) -> Option<Seq<char>> {
    match s {
        Some(t) => Some(t@),
        None => None,
    }
}

fn ruled_chars(files: &Vec<String>) -> (out: Vec<char>)
    ensures
        out@ == ruled(string_views(files@)),
{
    let ghost all = string_views(files@);
    let mut out: Vec<char> = Vec::new();
    let mut i: usize = 0;
    assert(all.take(0) =~= Seq::<Seq<char>>::empty());
    while i < files.len()
        invariant
            i <= files.len(),
            all == string_views(files@),
            out@ == ruled(all.take(i as int)),
        decreases files.len() - i,
    {
        proof {
            assert(all.take(i + 1).drop_last() =~= all.take(i as int));
            assert(all.take(i + 1).last() == files@[i as int]@);
        }
        push_all(&mut out, &chars_of(files[i].as_str()));
        push_all(&mut out, &chars_of("\n\n---\n\n"));
        i += 1;
    }
    assert(all.take(all.len() as int) =~= all);
    out
}

fn headed(heading: &str, text: &Vec<char>) -> (out: Vec<char>)
    ensures
        out@ == heading@ + text@,
{
    let mut out = chars_of(heading);
    push_all(&mut out, text);
    out
}

/// Assembles the context of an iteration: its sections, with a rule between
/// each two.
pub fn assemble(sources: &ContextSources) -> (context: String)
    ensures
        context@ == join(
            sections(
                text_of(sources.goals),
                string_views(sources.goal_files@),
                text_of(sources.state),
                string_views(sources.action_files@),
                string_views(sources.plugin_outputs@),
                sources.status@,
                text_of(sources.last_log),
            ),
            rule(),
        ),
{
    let mut parts: Vec<Vec<char>> = Vec::new();
    match &sources.goals {
        Some(g) => {
            parts.push(headed("## Current Goals\n\n", &chars_of(g.as_str())));
        },
        None => {
            if sources.goal_files.len() > 0 {
                parts.push(headed("## Current Goals\n\n", &ruled_chars(&sources.goal_files)));
            }
        },
    }
    assert(views(parts@) =~= goals_section(
        text_of(sources.goals),
        string_views(sources.goal_files@),
    ));
    match &sources.state {
        Some(s) => {
            parts.push(headed("## Memory\n\n", &chars_of(s.as_str())));
        },
        None => {},
    }
    assert(views(parts@) =~= goals_section(
        text_of(sources.goals),
        string_views(sources.goal_files@),
    ) + state_section(text_of(sources.state)));
    if sources.action_files.len() > 0 {
        parts.push(
            headed(
                "## Pending Actions (awaiting approval)\n\n",
                &ruled_chars(&sources.action_files),
            ),
        );
    }
    let ghost upto_actions = views(parts@);
    assert(upto_actions =~= goals_section(
        text_of(sources.goals),
        string_views(sources.goal_files@),
    ) + state_section(text_of(sources.state)) + actions_section(
        string_views(sources.action_files@),
    ));
    let ghost outputs = string_views(sources.plugin_outputs@);
    let mut i: usize = 0;
    while i < sources.plugin_outputs.len()
        invariant
            i <= sources.plugin_outputs.len(),
            outputs == string_views(sources.plugin_outputs@),
            views(parts@) == upto_actions + outputs.take(i as int),
        decreases sources.plugin_outputs.len() - i,
    {
        let ghost before = views(parts@);
        parts.push(chars_of(sources.plugin_outputs[i].as_str()));
        proof {
            assert(outputs.take(i + 1) =~= outputs.take(i as int).push(outputs[i as int]));
            assert(views(parts@) =~= before.push(outputs[i as int]));
        }
        i += 1;
    }
    assert(outputs.take(outputs.len() as int) =~= outputs);
    let ghost upto_outputs = views(parts@);
    parts.push(headed("## System Status\n\n", &chars_of(sources.status.as_str())));
    let ghost upto_status = views(parts@);
    assert(upto_status =~= upto_outputs + seq!["## System Status\n\n"@ + sources.status@]);
    match &sources.last_log {
        Some(l) => {
            parts.push(headed("## Last Log Entry\n\n", &chars_of(l.as_str())));
        },
        None => {},
    }
    assert(views(parts@) =~= upto_status + log_section(text_of(sources.last_log)));
    string_of(&join_chars(&parts, &chars_of("\n\n---\n\n")))
}

// ---------------------------------------------------------------------------
// The status of the system
// ---------------------------------------------------------------------------

/// What was observed of the system.
pub struct SystemFacts {
    /// The time of the observation.
    pub timestamp: String,
    /// The free disk space, where it could be read.
    pub disk_free: Option<String>,
    /// The number of log files, where there is a log directory.
    pub iterations: Option<usize>,
    /// The number of changes not committed yet, where that could be asked.
    pub uncommitted: Option<usize>,
    /// The line of the last commit, where that could be asked.
    pub last_commit: Option<String>,
}

/// The line on the free disk space, where it was observed.
pub open spec fn disk_line(disk_free: Option<Seq<char>>) -> Seq<Seq<char>> {
    match disk_free {
        Some(d) => seq!["- Disk free: "@ + d],
        None => Seq::<Seq<char>>::empty(),
    }
}

/// The line on the number of iterations so far, where it was observed.
pub open spec fn iterations_line(iterations: Option<usize>) -> Seq<Seq<char>> {
    match iterations {
        Some(n) => seq!["- Loop iterations so far: "@ + decimal(n as nat)],
        None => Seq::<Seq<char>>::empty(),
    }
}

/// The line on the uncommitted changes, where they were counted.
pub open spec fn changes_line(uncommitted: Option<usize>) -> Seq<Seq<char>> {
    match uncommitted {
        Some(n) => seq!["- Git status: "@ + decimal(n as nat) + " uncommitted changes"@],
        None => Seq::<Seq<char>>::empty(),
    }
}

/// The line on the last commit, where there is one.
pub open spec fn commit_line(last_commit: Option<Seq<char>>) -> Seq<Seq<char>> {
    match last_commit {
        Some(c) => if trim(c).len() > 0 {
            seq!["- Last commit: "@ + trim(c)]
        } else {
            Seq::<Seq<char>>::empty()
        },
        None => Seq::<Seq<char>>::empty(),
    }
}

/// The lines of the status of the system: the time, and each fact that could
/// be observed.
pub open spec fn status_lines(
    timestamp: Seq<char>,
    disk_free: Option<Seq<char>>,
    iterations: Option<usize>,
    uncommitted: Option<usize>,
    last_commit: Option<Seq<char>>,
) -> Seq<Seq<char>> {
    seq!["- Timestamp: "@ + timestamp] + disk_line(disk_free) + iterations_line(iterations)
        + changes_line(uncommitted) + commit_line(last_commit)
}

/// Writes the status of the system, one fact to a line.
pub fn system_status(facts: &SystemFacts) -> (status: String)
    ensures
        status@ == join(
            status_lines(
                facts.timestamp@,
                text_of(facts.disk_free),
                facts.iterations,
                facts.uncommitted,
                text_of(facts.last_commit),
            ),
            "\n"@,
        ),
{
    let mut parts: Vec<Vec<char>> = Vec::new();
    parts.push(headed("- Timestamp: ", &chars_of(facts.timestamp.as_str())));
    let ghost a = views(parts@);
    assert(a =~= seq!["- Timestamp: "@ + facts.timestamp@]);
    match &facts.disk_free {
        Some(d) => {
            parts.push(headed("- Disk free: ", &chars_of(d.as_str())));
        },
        None => {},
    }
    let ghost b = views(parts@);
    assert(b =~= a + disk_line(text_of(facts.disk_free)));
    match facts.iterations {
        Some(n) => {
            parts.push(headed("- Loop iterations so far: ", &digits_of(n as u64)));
        },
        None => {},
    }
    let ghost c = views(parts@);
    assert(c =~= b + iterations_line(facts.iterations));
    match facts.uncommitted {
        Some(n) => {
            let mut line = headed("- Git status: ", &digits_of(n as u64));
            push_all(&mut line, &chars_of(" uncommitted changes"));
            parts.push(line);
        },
        None => {},
    }
    let ghost d = views(parts@);
    assert(d =~= c + changes_line(facts.uncommitted));
    match &facts.last_commit {
        Some(l) => {
            let line = trim_chars(&chars_of(l.as_str()));
            if line.len() > 0 {
                parts.push(headed("- Last commit: ", &line));
            }
        },
        None => {},
    }
    assert(views(parts@) =~= d + commit_line(text_of(facts.last_commit)));
    string_of(&join_chars(&parts, &chars_of("\n")))
}

/// The free space that the report `report` of the disk gives: the fourth word
/// of its second line.
pub open spec fn disk_free_in(report: Seq<char>) -> Option<Seq<char>> {
    let ls = lines(report);
    if ls.len() < 2 {
        None
    } else if words(ls[1]).len() < 4 {
        None
    } else {
        Some(words(ls[1])[3])
    }
}

/// Reads the free disk space from the report of the disk.
pub fn disk_free_of(report: &str) -> (free: Option<String>)
    ensures
        free is Some <==> disk_free_in(report@) is Some,
        free is Some ==> free->0@ == disk_free_in(report@)->0,
{
    let ls = lines_of(&chars_of(report));
    if ls.len() < 2 {
        return None;
    }
    assert(views(ls@)[1] == ls@[1]@);
    let parts = words_of(&ls[1]);
    if parts.len() < 4 {
        return None;
    }
    assert(views(parts@)[3] == parts@[3]@);
    Some(string_of(&parts[3]))
}

/// How many of `ls` are not empty.
pub open spec fn filled(ls: Seq<Seq<char>>) -> nat
    decreases ls.len(),
{
    if ls.len() == 0 {
        0
    } else if ls.last().len() > 0 {
        filled(ls.drop_last()) + 1
    } else {
        filled(ls.drop_last())
    }
}

/// Counts the lines of `text` that are not empty.
pub fn count_filled_lines(text: &str) -> (n: usize)
    ensures
        n == filled(lines(text@)),
{
    let ls = lines_of(&chars_of(text));
    let ghost all = views(ls@);
    let mut n: usize = 0;
    let mut i: usize = 0;
    assert(all.take(0) =~= Seq::<Seq<char>>::empty());
    while i < ls.len()
        invariant
            i <= ls.len(),
            n <= i,
            all == views(ls@),
            n == filled(all.take(i as int)),
        decreases ls.len() - i,
    {
        proof {
            assert(all.take(i + 1).drop_last() =~= all.take(i as int));
            assert(all.take(i + 1).last() == ls@[i as int]@);
        }
        if ls[i].len() > 0 {
            n += 1;
        }
        i += 1;
    }
    assert(all.take(all.len() as int) =~= all);
    n
}

/// The first `limit` lines of `text`, joined by line feeds.
pub open spec fn first_lines(text: Seq<char>, limit: nat) -> Seq<char> {
    let ls = lines(text);
    join(
        if ls.len() <= limit {
            ls
        } else {
            ls.take(limit as int)
        },
        "\n"@,
    )
}

/// Cuts a log down to its first `limit` lines.
pub fn excerpt(text: &str, limit: usize) -> (out: String)
    ensures
        out@ == first_lines(text@, limit as nat),
{
    let mut ls = lines_of(&chars_of(text));
    let ghost all = views(ls@);
    if limit < ls.len() {
        ls.truncate(limit);
        assert(views(ls@) =~= all.take(limit as int));
    }
    string_of(&join_chars(&ls, &chars_of("\n")))
}

} // verus!
