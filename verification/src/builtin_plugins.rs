//! The plugins that come with the framework.

use crate::number::{decimal, digits_of};
use crate::plugins::{PluginMeta, PluginMetaBuilder, PluginResult};
use crate::text::{
    chars_of, cut_chars, push_all, split, split_chars, string_of, views, within, CharClass,
};
use vstd::prelude::*;

verus! {

/// Fetches the issues that were handed to the agent.
pub struct LinearIssuesPlugin {
    meta: PluginMeta,
}

impl LinearIssuesPlugin {
    /// The metadata of the plugin.
    pub closed spec fn spec_meta(&self) -> PluginMeta {
        self.meta
    }

    /// The plugin `linear-issues`: external, and early in the order.
    pub fn new() -> (p: Self)
        ensures
            p.spec_meta().name@ == "linear-issues"@,
            p.spec_meta().description@ == "Fetch Linear issues delegated to Boucle"@,
            p.spec_meta().version@ == "1.0.0"@,
            p.spec_meta().is_external,
            p.spec_meta().priority == 10,
    {
        LinearIssuesPlugin {
            meta: PluginMetaBuilder::new("linear-issues").description(
                "Fetch Linear issues delegated to Boucle",
            ).version("1.0.0").external(true).priority(10).build(),
        }
    }

    /// The metadata of the plugin.
    pub fn meta(&self) -> (m: &PluginMeta)
        ensures
            *m == self.spec_meta(),
    {
        &self.meta
    }
}

/// Reports on the state of the system.
pub struct SystemStatusPlugin {
    meta: PluginMeta,
}

impl SystemStatusPlugin {
    /// The metadata of the plugin.
    pub closed spec fn spec_meta(&self) -> PluginMeta {
        self.meta
    }

    /// The plugin `system-status`: internal, and late in the order.
    pub fn new() -> (p: Self)
        ensures
            p.spec_meta().name@ == "system-status"@,
            p.spec_meta().description@ == "Provide system status information"@,
            p.spec_meta().version@ == "1.0.0"@,
            !p.spec_meta().is_external,
            p.spec_meta().priority == 90,
    {
        SystemStatusPlugin {
            meta: PluginMetaBuilder::new("system-status").description(
                "Provide system status information",
            ).version("1.0.0").external(false).priority(90).build(),
        }
    }

    /// The metadata of the plugin.
    pub fn meta(&self) -> (m: &PluginMeta)
        ensures
            *m == self.spec_meta(),
    {
        &self.meta
    }
}

/// One of the plugins that come with the framework.
pub enum BuiltinPlugin {
    LinearIssues(LinearIssuesPlugin),
    SystemStatus(SystemStatusPlugin),
}

impl BuiltinPlugin {
    /// The metadata of the plugin.
    pub open spec fn spec_meta(&self) -> PluginMeta {
        match self {
            BuiltinPlugin::LinearIssues(p) => p.spec_meta(),
            BuiltinPlugin::SystemStatus(p) => p.spec_meta(),
        }
    }

    /// The metadata of the plugin.
    pub fn meta(&self) -> (m: &PluginMeta)
        ensures
            *m == self.spec_meta(),
    {
        match self {
            BuiltinPlugin::LinearIssues(p) => p.meta(),
            BuiltinPlugin::SystemStatus(p) => p.meta(),
        }
    }
}

/// All the plugins that come with the framework: `linear-issues`, then
/// `system-status`.
pub fn create_builtin_plugins() -> (plugins: Vec<BuiltinPlugin>)
    ensures
        plugins@.len() == 2,
        plugins@[0] is LinearIssues,
        plugins@[0].spec_meta().name@ == "linear-issues"@,
        plugins@[1] is SystemStatus,
        plugins@[1].spec_meta().name@ == "system-status"@,
{
    let mut plugins: Vec<BuiltinPlugin> = Vec::new();
    plugins.push(BuiltinPlugin::LinearIssues(LinearIssuesPlugin::new()));
    plugins.push(BuiltinPlugin::SystemStatus(SystemStatusPlugin::new()));
    plugins
}

/// The section on the status of the system: the time, the number of the
/// iteration, and the free disk space and the number of uncommitted changes
/// where they could be observed.
pub open spec fn status_section(
    timestamp: Seq<char>,
    iteration: nat,
    disk_free: Option<Seq<char>>,
    uncommitted: Option<usize>,
) -> Seq<char> {
    "## System Status\n\n- Timestamp: "@ + timestamp + "\n- Loop iteration: "@ + decimal(iteration)
        + "\n"@ + (match disk_free {
        Some(d) => "- Disk free: "@ + d + "\n"@,
        None => Seq::<char>::empty(),
    }) + (match uncommitted {
        Some(n) => "- Git uncommitted changes: "@ + decimal(n as nat) + "\n"@,
        None => Seq::<char>::empty(),
    })
}

impl SystemStatusPlugin {
    /// Makes the section on the status of the system, from what was observed
    /// at `timestamp`. The number of the iteration is noted under `iteration`.
    pub fn report(
        &self,
        timestamp: &str,
        iteration: usize,
        disk_free: Option<&str>,
        uncommitted: Option<usize>,
    ) -> (result: PluginResult)
        ensures
            result.content@ == status_section(
                timestamp@,
                iteration as nat,
                match disk_free {
                    Some(d) => Some(d@),
                    None => None,
                },
                uncommitted,
            ),
            result.warnings@.len() == 0,
            result.metadata@.len() == 1,
            result.metadata@[0].0@ == "iteration"@,
            result.metadata@[0].1@ == decimal(iteration as nat),
            result.is_well_formed(),
    {
        let mut out = chars_of("## System Status\n\n- Timestamp: ");
        push_all(&mut out, &chars_of(timestamp));
        push_all(&mut out, &chars_of("\n- Loop iteration: "));
        push_all(&mut out, &digits_of(iteration as u64));
        push_all(&mut out, &chars_of("\n"));
        let ghost head = out@;
        match disk_free {
            Some(d) => {
                push_all(&mut out, &chars_of("- Disk free: "));
                push_all(&mut out, &chars_of(d));
                push_all(&mut out, &chars_of("\n"));
                assert(out@ =~= head + ("- Disk free: "@ + d@ + "\n"@));
            },
            None => {
                assert(out@ =~= head + Seq::<char>::empty());
            },
        }
        let ghost middle = out@;
        match uncommitted {
            Some(n) => {
                push_all(&mut out, &chars_of("- Git uncommitted changes: "));
                push_all(&mut out, &digits_of(n as u64));
                push_all(&mut out, &chars_of("\n"));
                assert(out@ =~= middle + ("- Git uncommitted changes: "@ + decimal(n as nat)
                    + "\n"@));
            },
            None => {
                assert(out@ =~= middle + Seq::<char>::empty());
            },
        }
        let mut metadata: Vec<(String, String)> = Vec::new();
        metadata.push(("iteration".to_owned(), string_of(&digits_of(iteration as u64))));
        PluginResult { content: string_of(&out), warnings: Vec::new(), metadata }
    }
}

// ---------------------------------------------------------------------------
// Issues
// ---------------------------------------------------------------------------

/// A comment on an issue.
pub struct IssueComment {
    pub author: String,
    pub body: String,
}

/// An issue handed to the agent.
pub struct Issue {
    pub identifier: String,
    pub title: String,
    pub state: String,
    pub priority: String,
    pub description: Option<String>,
    pub comments: Vec<IssueComment>,
}

/// The lines of `ls`, each after two spaces and ended by a line feed.
pub open spec fn indented(ls: Seq<Seq<char>>) -> Seq<char>
    decreases ls.len(),
{
    if ls.len() == 0 {
        Seq::<char>::empty()
    } else {
        indented(ls.drop_last()) + "  "@ + ls.last() + "\n"@
    }
}

/// What is told of the comments `cs`: each under its author, cut down to 300
/// bytes.
pub open spec fn comment_lines(cs: Seq<IssueComment>) -> Seq<char>
    decreases cs.len(),
{
    if cs.len() == 0 {
        Seq::<char>::empty()
    } else {
        comment_lines(cs.drop_last()) + "  ["@ + cs.last().author@ + "]: "@ + within(
            cs.last().body@,
            300,
        ) + "\n"@
    }
}

/// What is told of an issue: its heading, the beginning of its description,
/// and its comments.
pub open spec fn issue_text(issue: Issue) -> Seq<char> {
    "- ["@ + issue.identifier@ + "] "@ + issue.title@ + " ("@ + issue.state@ + ", "@
        + issue.priority@ + ")\n"@ + (match issue.description {
        Some(d) => indented(split(within(d@, 300), CharClass::Exactly('\n'))),
        None => Seq::<char>::empty(),
    }) + (if issue.comments@.len() > 0 {
        "  --- Comments ---\n"@ + comment_lines(issue.comments@)
    } else {
        Seq::<char>::empty()
    }) + "\n"@
}

/// What is told of the issues `issues`, one after the other.
pub open spec fn issues_text(issues: Seq<Issue>) -> Seq<char>
    decreases issues.len(),
{
    if issues.len() == 0 {
        Seq::<char>::empty()
    } else {
        issues_text(issues.drop_last()) + issue_text(issues.last())
    }
}

/// The section on the issues handed to the agent.
pub open spec fn issues_section(issues: Seq<Issue>) -> Seq<char> {
    "## Linear Issues (delegated to me)\n\n"@ + if issues.len() == 0 {
        "(No issues delegated to me)"@
    } else {
        issues_text(issues)
    }
}

fn push_indented(out: &mut Vec<char>, ls: &Vec<Vec<char>>)
    ensures
        final(out)@ == old(out)@ + indented(views(ls@)),
{
    let ghost all = views(ls@);
    let mut i: usize = 0;
    assert(all.take(0) =~= Seq::<Seq<char>>::empty());
    while i < ls.len()
        invariant
            i <= ls.len(),
            all == views(ls@),
            out@ == old(out)@ + indented(all.take(i as int)),
        decreases ls.len() - i,
    {
        proof {
            assert(all.take(i + 1).drop_last() =~= all.take(i as int));
            assert(all.take(i + 1).last() == ls@[i as int]@);
        }
        push_all(out, &chars_of("  "));
        push_all(out, &ls[i]);
        push_all(out, &chars_of("\n"));
        proof {
            assert(out@ =~= old(out)@ + indented(all.take(i + 1)));
        }
        i += 1;
    }
    assert(all.take(all.len() as int) =~= all);
}

fn push_comments(out: &mut Vec<char>, cs: &Vec<IssueComment>)
    ensures
        final(out)@ == old(out)@ + comment_lines(cs@),
{
    let mut i: usize = 0;
    assert(cs@.take(0) =~= Seq::<IssueComment>::empty());
    while i < cs.len()
        invariant
            i <= cs.len(),
            out@ == old(out)@ + comment_lines(cs@.take(i as int)),
        decreases cs.len() - i,
    {
        proof {
            assert(cs@.take(i + 1).drop_last() =~= cs@.take(i as int));
            assert(cs@.take(i + 1).last() == cs@[i as int]);
        }
        push_all(out, &chars_of("  ["));
        push_all(out, &chars_of(cs[i].author.as_str()));
        push_all(out, &chars_of("]: "));
        push_all(out, &cut_chars(&chars_of(cs[i].body.as_str()), 300));
        push_all(out, &chars_of("\n"));
        proof {
            assert(out@ =~= old(out)@ + comment_lines(cs@.take(i + 1)));
        }
        i += 1;
    }
    assert(cs@.take(cs@.len() as int) =~= cs@);
}

fn push_issue(out: &mut Vec<char>, issue: &Issue)
    ensures
        final(out)@ == old(out)@ + issue_text(*issue),
{
    push_all(out, &chars_of("- ["));
    push_all(out, &chars_of(issue.identifier.as_str()));
    push_all(out, &chars_of("] "));
    push_all(out, &chars_of(issue.title.as_str()));
    push_all(out, &chars_of(" ("));
    push_all(out, &chars_of(issue.state.as_str()));
    push_all(out, &chars_of(", "));
    push_all(out, &chars_of(issue.priority.as_str()));
    push_all(out, &chars_of(")\n"));
    let ghost head = out@;
    match &issue.description {
        Some(d) => {
            let ls = split_chars(
                &cut_chars(&chars_of(d.as_str()), 300),
                CharClass::Exactly('\n'),
            );
            push_indented(out, &ls);
        },
        None => {
            assert(out@ =~= head + Seq::<char>::empty());
        },
    }
    let ghost middle = out@;
    if issue.comments.len() > 0 {
        push_all(out, &chars_of("  --- Comments ---\n"));
        push_comments(out, &issue.comments);
        assert(out@ =~= middle + ("  --- Comments ---\n"@ + comment_lines(issue.comments@)));
    } else {
        assert(out@ =~= middle + Seq::<char>::empty());
    }
    push_all(out, &chars_of("\n"));
}

impl LinearIssuesPlugin {
    /// Makes the section on the issues that were fetched. Their number is noted
    /// under `issue_count`.
    pub fn report(&self, issues: &Vec<Issue>) -> (result: PluginResult)
        ensures
            result.content@ == issues_section(issues@),
            result.warnings@.len() == 0,
            result.metadata@.len() == 1,
            result.metadata@[0].0@ == "issue_count"@,
            result.metadata@[0].1@ == decimal(issues@.len()),
            result.is_well_formed(),
    {
        let mut out = chars_of("## Linear Issues (delegated to me)\n\n");
        let ghost head = out@;
        if issues.len() == 0 {
            push_all(&mut out, &chars_of("(No issues delegated to me)"));
        } else {
            let mut i: usize = 0;
            assert(issues@.take(0) =~= Seq::<Issue>::empty());
            while i < issues.len()
                invariant
                    i <= issues.len(),
                    out@ == head + issues_text(issues@.take(i as int)),
                decreases issues.len() - i,
            {
                proof {
                    assert(issues@.take(i + 1).drop_last() =~= issues@.take(i as int));
                    assert(issues@.take(i + 1).last() == issues@[i as int]);
                }
                push_issue(&mut out, &issues[i]);
                proof {
                    assert(out@ =~= head + issues_text(issues@.take(i + 1)));
                }
                i += 1;
            }
            assert(issues@.take(issues@.len() as int) =~= issues@);
        }
        let mut metadata: Vec<(String, String)> = Vec::new();
        metadata.push(("issue_count".to_owned(), string_of(&digits_of(issues.len() as u64))));
        PluginResult { content: string_of(&out), warnings: Vec::new(), metadata }
    }

    /// Makes the section that says that the issues could not be fetched.
    pub fn report_failure(&self, what: &str, why: &str) -> (result: PluginResult)
        ensures
            result.content@ == "## Linear Issues (delegated to me)\n\n(Could not fetch "@ + what@
                + ": "@ + why@ + ")"@,
            result.warnings@.len() == 0,
            result.metadata@.len() == 0,
            result.is_well_formed(),
    {
        let mut out = chars_of("## Linear Issues (delegated to me)\n\n(Could not fetch ");
        push_all(&mut out, &chars_of(what));
        push_all(&mut out, &chars_of(": "));
        push_all(&mut out, &chars_of(why));
        push_all(&mut out, &chars_of(")"));
        PluginResult { content: string_of(&out), warnings: Vec::new(), metadata: Vec::new() }
    }
}

} // verus!
