//! What the protocol server tells of memories and of plugin scripts.

use crate::entry::Entry;
use crate::hooks::{candidates, first_present, pick_present, script_candidates};
use crate::number::{decimal, digits_of, wide_digits_of};
use crate::search::{copy_strings, ScoredEntry};
use crate::text::{
    byte_len, chars_of, chars_of_string_list, cut_chars, find, find_from, find_in, has_prefix, join,
    join_chars, lines, lines_of, push_all, slice_of, starts_with, string_of, string_views,
    strip_leading, strip_leading_chars, strip_prefixes, strip_prefixes_chars, trim, trim_chars,
    utf8_len, views, within, CharClass,
};
use vstd::prelude::*;

verus! {

// ---------------------------------------------------------------------------
// Plugin scripts
// ---------------------------------------------------------------------------

/// The extensions tried for the script of a plugin.
pub open spec fn plugin_extensions() -> Seq<Seq<char>> {
    seq![".py"@, ".sh"@, ".rb"@]
}

/// Finds the script of a plugin among the files of the plugins directory: the
/// file called `name`, or else `name.py`, `name.sh` or `name.rb`, whichever
/// comes first in that order.
pub fn find_plugin(files: &Vec<String>, name: &str) -> (script: Option<String>)
    ensures
        script is Some <==> first_present(
            string_views(files@),
            candidates(name@, plugin_extensions()),
        ) is Some,
        script is Some ==> script->0@ == candidates(name@, plugin_extensions())[first_present(
            string_views(files@),
            candidates(name@, plugin_extensions()),
        )->0],
{
    let names = script_candidates(name, ".py", ".sh", ".rb");
    match pick_present(files, &names) {
        Some(i) => {
            assert(string_views(names@)[i as int] == names@[i as int]@);
            Some(names[i].clone())
        },
        None => None,
    }
}

/// What runs the script `content`: what its first line names after `#!`, and
/// after `/usr/bin/env ` where it names that.
pub open spec fn plugin_interpreter_of(content: Seq<char>) -> Option<Seq<char>> {
    let ls = lines(content);
    if ls.len() == 0 {
        None
    } else if !starts_with(ls[0], "#!"@) {
        None
    } else {
        let shebang = trim(strip_prefixes(ls[0], "#!"@));
        if starts_with(shebang, "/usr/bin/env "@) {
            Some(trim(strip_prefixes(shebang, "/usr/bin/env "@)))
        } else {
            Some(shebang)
        }
    }
}

/// Detects what runs a plugin script, from its first line. The second member
/// is an argument for the interpreter; none is ever given.
pub fn detect_plugin_interpreter(content: &str) -> (r: Option<(String, Option<String>)>)
    ensures
        r is Some <==> plugin_interpreter_of(content@) is Some,
        r is Some ==> ({
            let found = r->Some_0;
            found.0@ == plugin_interpreter_of(content@)->Some_0 && found.1 is None
        }),
{
    let ls = lines_of(&chars_of(content));
    if ls.len() == 0 {
        return None;
    }
    let first = &ls[0];
    assert(views(ls@)[0] == first@);
    let mark = chars_of("#!");
    if !has_prefix(first, &mark) {
        return None;
    }
    let shebang = trim_chars(&strip_prefixes_chars(first, &mark));
    let env = chars_of("/usr/bin/env ");
    if has_prefix(&shebang, &env) {
        Some((string_of(&trim_chars(&strip_prefixes_chars(&shebang, &env))), None))
    } else {
        Some((string_of(&shebang), None))
    }
}

/// The index of the first of `ls` that starts with `p`.
pub open spec fn first_starting(ls: Seq<Seq<char>>, p: Seq<char>) -> Option<int>
    decreases ls.len(),
{
    if ls.len() == 0 {
        None
    } else if starts_with(ls[0], p) {
        Some(0)
    } else {
        match first_starting(ls.skip(1), p) {
            Some(i) => Some(i + 1),
            None => None,
        }
    }
}

/// How the plugin `name` with the script `content` describes itself: what
/// follows `# description:` in the first line that starts so, or its name.
pub open spec fn description_of(content: Seq<char>, name: Seq<char>) -> Seq<char> {
    match first_starting(lines(content), "# description:"@) {
        Some(i) => trim(strip_prefixes(lines(content)[i], "# description:"@)),
        None => "Plugin: "@ + name,
    }
}

/// Reads the description of a plugin from its script.
pub fn plugin_description(content: &str, name: &str) -> (description: String)
    ensures
        description@ == description_of(content@, name@),
{
    let ls = lines_of(&chars_of(content));
    let ghost all = views(ls@);
    let mark = chars_of("# description:");
    let mut i: usize = 0;
    assert(all.skip(0) =~= all);
    while i < ls.len()
        invariant
            i <= ls.len(),
            all == views(ls@),
            all == lines(content@),
            mark@ == "# description:"@,
            first_starting(all.skip(i as int), mark@) is Some <==> first_starting(all, mark@) is Some,
            first_starting(all, mark@) is Some ==> first_starting(all, mark@)->0
                == first_starting(all.skip(i as int), mark@)->0 + i,
        decreases ls.len() - i,
    {
        proof {
            assert(all.skip(i as int).skip(1) =~= all.skip(i + 1));
            assert(all.skip(i as int)[0] == ls@[i as int]@);
        }
        if has_prefix(&ls[i], &mark) {
            return string_of(&trim_chars(&strip_prefixes_chars(&ls[i], &mark)));
        }
        i += 1;
    }
    let mut out = "Plugin: ".to_owned();
    out.append(name);
    out
}

/// The lines of the comment block that documents a script: after a line that
/// starts with `#!` and a line that starts with `# description:`, the lines
/// that start with `#`, up to the first that does not; each without its marks
/// and trimmed. `past_shebang` and `past_description` tell whether those two
/// lines have been passed.
pub open spec fn doc_lines(ls: Seq<Seq<char>>, past_shebang: bool, past_description: bool) -> Seq<
    Seq<char>,
>
    decreases ls.len(),
{
    if ls.len() == 0 {
        Seq::<Seq<char>>::empty()
    } else {
        let l = ls[0];
        let rest = ls.skip(1);
        if starts_with(l, "#!"@) {
            doc_lines(rest, true, past_description)
        } else if !past_shebang {
            doc_lines(rest, past_shebang, past_description)
        } else if starts_with(l, "# description:"@) {
            doc_lines(rest, past_shebang, true)
        } else if past_description && starts_with(l, "#"@) {
            seq![trim(strip_leading(l, CharClass::Exactly('#')))] + doc_lines(
                rest,
                past_shebang,
                past_description,
            )
        } else if past_description {
            Seq::<Seq<char>>::empty()
        } else {
            doc_lines(rest, past_shebang, past_description)
        }
    }
}

/// What stands between the first two `"""` of `content`, trimmed.
pub open spec fn quoted_doc(content: Seq<char>) -> Option<Seq<char>> {
    match find(content, "\"\"\""@) {
        Some(start) => match find(content.skip(start + 3), "\"\"\""@) {
            Some(len) => Some(trim(content.subrange(start + 3, start + 3 + len))),
            None => None,
        },
        None => None,
    }
}

/// The documentation of a script: what stands between its first two `"""`, or
/// else its comment block; none where it has neither.
pub open spec fn docstring_of(content: Seq<char>) -> Option<Seq<char>> {
    match quoted_doc(content) {
        Some(doc) => Some(doc),
        None => {
            let block = doc_lines(lines(content), false, false);
            if block.len() == 0 {
                None
            } else {
                Some(join(block, "\n"@))
            }
        },
    }
}

fn quoted_doc_chars(text: &Vec<char>) -> (r: Option<Vec<char>>)
    ensures
        r is Some <==> quoted_doc(text@) is Some,
        r is Some ==> r->0@ == quoted_doc(text@)->0,
{
    let quotes = chars_of("\"\"\"");
    proof {
        reveal_strlit("\"\"\"");
    }
    match find_in(text, &quotes) {
        Some(start) => match find_from(text, &quotes, start + 3) {
            Some(len) => {
                let inner = slice_of(text, start + 3, start + 3 + len);
                Some(trim_chars(&inner))
            },
            None => None,
        },
        None => None,
    }
}

/// Extracts the documentation of a script, for the description of its tool.
pub fn extract_docstring(content: &str) -> (doc: Option<String>)
    ensures
        doc is Some <==> docstring_of(content@) is Some,
        doc is Some ==> doc->0@ == docstring_of(content@)->0,
{
    let text = chars_of(content);
    match quoted_doc_chars(&text) {
        Some(doc) => {
            return Some(string_of(&doc));
        },
        None => {},
    }
    let ls = lines_of(&text);
    let ghost all = views(ls@);
    let shebang = chars_of("#!");
    let describes = chars_of("# description:");
    let hash = chars_of("#");
    let mut block: Vec<Vec<char>> = Vec::new();
    let mut past_shebang = false;
    let mut past_description = false;
    let mut i: usize = 0;
    let mut done = false;
    assert(all.skip(0) =~= all);
    while i < ls.len() && !done
        invariant
            i <= ls.len(),
            all == views(ls@),
            shebang@ == "#!"@,
            describes@ == "# description:"@,
            hash@ == "#"@,
            !done ==> doc_lines(all, false, false) == views(block@) + doc_lines(
                all.skip(i as int),
                past_shebang,
                past_description,
            ),
            done ==> doc_lines(all, false, false) == views(block@),
        decreases ls.len() - i, if done { 0int } else { 1int },
    {
        let line = &ls[i];
        proof {
            assert(all.skip(i as int).skip(1) =~= all.skip(i + 1));
            assert(all.skip(i as int)[0] == line@);
        }
        if has_prefix(line, &shebang) {
            past_shebang = true;
            i += 1;
        } else if !past_shebang {
            i += 1;
        } else if has_prefix(line, &describes) {
            past_description = true;
            i += 1;
        } else if past_description && has_prefix(line, &hash) {
            let ghost before = views(block@);
            let cleaned = trim_chars(&strip_leading_chars(line, CharClass::Exactly('#')));
            block.push(cleaned);
            proof {
                assert(views(block@) =~= before + seq![cleaned@]);
                assert(before + (seq![cleaned@] + doc_lines(
                    all.skip(i + 1),
                    past_shebang,
                    past_description,
                )) =~= views(block@) + doc_lines(all.skip(i + 1), past_shebang, past_description));
            }
            i += 1;
        } else if past_description {
            proof {
                assert(views(block@) + Seq::<Seq<char>>::empty() =~= views(block@));
            }
            done = true;
        } else {
            i += 1;
        }
    }
    proof {
        if !done {
            assert(all.skip(i as int).len() == 0);
            assert(views(block@) + Seq::<Seq<char>>::empty() =~= views(block@));
        }
    }
    if block.len() == 0 {
        None
    } else {
        Some(string_of(&join_chars(&block, &chars_of("\n"))))
    }
}

// ---------------------------------------------------------------------------
// Memories, as told to a caller
// ---------------------------------------------------------------------------

/// What is told of a memory.
pub struct Memory {
    pub title: String,
    pub filename: String,
    pub tags: Vec<String>,
    pub content: String,
}

pub ghost struct MemoryView {
    pub title: Seq<char>,
    pub filename: Seq<char>,
    pub tags: Seq<Seq<char>>,
    pub content: Seq<char>,
}

impl View for Memory {
    type V = MemoryView;

    open spec fn view(&self) -> MemoryView {
        MemoryView {
            title: self.title@,
            filename: self.filename@,
            tags: string_views(self.tags@),
            content: self.content@,
        }
    }
}

/// The views of a vector of memories.
pub open spec fn memory_views(v: Seq<Memory>) -> Seq<MemoryView> {
    Seq::new(v.len(), |i: int| v[i]@)
}

impl Memory {
    /// What is told of `entry`.
    pub fn of_entry(entry: &Entry) -> (m: Memory)
        ensures
            m@ == (MemoryView {
                title: entry@.title,
                filename: entry@.filename,
                tags: entry@.tags,
                content: entry@.content,
            }),
    {
        Memory {
            title: entry.title.clone(),
            filename: entry.filename.clone(),
            tags: copy_strings(&entry.tags),
            content: entry.content.clone(),
        }
    }

    /// What is told of a search result.
    pub fn of_scored(entry: &ScoredEntry) -> (m: Memory)
        ensures
            m@ == (MemoryView {
                title: entry.title@,
                filename: entry.filename@,
                tags: string_views(entry.tags@),
                content: entry.content@,
            }),
    {
        Memory {
            title: entry.title.clone(),
            filename: entry.filename.clone(),
            tags: copy_strings(&entry.tags),
            content: entry.content.clone(),
        }
    }
}

/// `content`, cut down to `limit` bytes and marked with three points where it
/// takes more.
pub open spec fn preview(content: Seq<char>, limit: nat) -> Seq<char> {
    if utf8_len(content) > limit {
        within(content, limit) + "..."@
    } else {
        content
    }
}

/// What is told of the memory `m` under the number `number`.
pub open spec fn memory_item(m: MemoryView, number: nat, limit: nat) -> Seq<char> {
    let head = decimal(number) + ". **"@ + m.title + "** ("@ + m.filename + ")\n"@;
    let tags = if m.tags.len() == 0 {
        Seq::<char>::empty()
    } else {
        "   Tags: "@ + join(m.tags, ", "@) + "\n"@
    };
    head + tags + "   "@ + preview(m.content, limit) + "\n\n"@
}

/// What is told of the memories `ms`, numbered from `first`.
pub open spec fn memory_items(ms: Seq<MemoryView>, first: nat, limit: nat) -> Seq<char>
    decreases ms.len(),
{
    if ms.len() == 0 {
        Seq::<char>::empty()
    } else {
        memory_items(ms.drop_last(), first, limit) + memory_item(
            ms.last(),
            (first + ms.len() - 1) as nat,
            limit,
        )
    }
}

fn push_preview(out: &mut Vec<char>, content: &Vec<char>, limit: usize)
    ensures
        final(out)@ == old(out)@ + preview(content@, limit as nat),
{
    if byte_len(content) <= limit as u128 {
        push_all(out, content);
    } else {
        push_all(out, &cut_chars(content, limit));
        push_all(out, &chars_of("..."));
        assert(out@ =~= old(out)@ + (within(content@, limit as nat) + "..."@));
    }
}

fn push_memory_item(out: &mut Vec<char>, m: &Memory, number: u128, limit: usize)
    ensures
        final(out)@ == old(out)@ + memory_item(m@, number as nat, limit as nat),
{
    push_all(out, &wide_digits_of(number));
    push_all(out, &chars_of(". **"));
    push_all(out, &chars_of(m.title.as_str()));
    push_all(out, &chars_of("** ("));
    push_all(out, &chars_of(m.filename.as_str()));
    push_all(out, &chars_of(")\n"));
    if m.tags.len() > 0 {
        push_all(out, &chars_of("   Tags: "));
        push_all(out, &join_chars(&chars_of_string_list(m.tags.as_slice()), &chars_of(", ")));
        push_all(out, &chars_of("\n"));
    }
    push_all(out, &chars_of("   "));
    push_preview(out, &chars_of(m.content.as_str()), limit);
    push_all(out, &chars_of("\n\n"));
    assert(out@ =~= old(out)@ + memory_item(m@, number as nat, limit as nat));
}

fn push_memory_items(
    out: &mut Vec<char>,
    ms: &Vec<Memory>,
    from: usize,
    to: usize,
    first: u128,
    limit: usize,
)
    requires
        from <= to <= ms.len(),
        first <= u64::MAX,
    ensures
        final(out)@ == old(out)@ + memory_items(
            memory_views(ms@).subrange(from as int, to as int),
            first as nat,
            limit as nat,
        ),
{
    let ghost all = memory_views(ms@).subrange(from as int, to as int);
    let mut i: usize = from;
    assert(all.take(0) =~= Seq::<MemoryView>::empty());
    while i < to
        invariant
            from <= i <= to <= ms.len(),
            first <= u64::MAX,
            all == memory_views(ms@).subrange(from as int, to as int),
            out@ == old(out)@ + memory_items(all.take(i - from), first as nat, limit as nat),
        decreases to - i,
    {
        proof {
            assert(all.take(i - from + 1).drop_last() =~= all.take(i - from));
            assert(all.take(i - from + 1).last() == ms@[i as int]@);
        }
        push_memory_item(out, &ms[i], first + (i - from) as u128, limit);
        proof {
            assert(out@ =~= old(out)@ + memory_items(
                all.take(i - from + 1),
                first as nat,
                limit as nat,
            ));
        }
        i += 1;
    }
    assert(all.take(all.len() as int) =~= all);
}

/// What a caller is told of the memories found for a query.
pub open spec fn recall_report(found: Seq<MemoryView>) -> Seq<char> {
    if found.len() == 0 {
        "No memories found matching your query."@
    } else {
        "Found "@ + decimal(found.len()) + " memory(ies):\n\n"@ + memory_items(found, 1, 200)
    }
}

/// Tells what was found for a query: each memory with its title, file, tags
/// and the beginning of its body.
pub fn format_recall(found: &Vec<Memory>) -> (report: String)
    ensures
        report@ == recall_report(memory_views(found@)),
{
    if found.len() == 0 {
        return "No memories found matching your query.".to_owned();
    }
    let mut out = chars_of("Found ");
    push_all(&mut out, &digits_of(found.len() as u64));
    push_all(&mut out, &chars_of(" memory(ies):\n\n"));
    assert(memory_views(found@).subrange(0, found@.len() as int) =~= memory_views(found@));
    push_memory_items(&mut out, found, 0, found.len(), 1, 200);
    string_of(&out)
}

/// What a caller is told of the memories that carry `tag`, of which `limit` are
/// shown at most.
pub open spec fn tagged_report(tag: Seq<char>, found: Seq<MemoryView>, limit: nat) -> Seq<char> {
    let shown = if found.len() <= limit {
        found
    } else {
        found.subrange(0, limit as int)
    };
    if shown.len() == 0 {
        "No memories found with tag: "@ + tag
    } else {
        "Found "@ + decimal(shown.len()) + " memory(ies) with tag '"@ + tag + "':\n\n"@
            + memory_items(shown, 1, 200)
    }
}

/// Tells what was found for a tag.
pub fn format_tagged(tag: &str, found: &Vec<Memory>, limit: usize) -> (report: String)
    ensures
        report@ == tagged_report(tag@, memory_views(found@), limit as nat),
{
    let n = if found.len() <= limit {
        found.len()
    } else {
        limit
    };
    assert(memory_views(found@).subrange(0, found@.len() as int) =~= memory_views(found@));
    if n == 0 {
        let mut out = "No memories found with tag: ".to_owned();
        out.append(tag);
        return out;
    }
    let mut out = chars_of("Found ");
    push_all(&mut out, &digits_of(n as u64));
    push_all(&mut out, &chars_of(" memory(ies) with tag '"));
    push_all(&mut out, &chars_of(tag));
    push_all(&mut out, &chars_of("':\n\n"));
    push_memory_items(&mut out, found, 0, n, 1, 200);
    string_of(&out)
}

/// The part of `all` that a page shows: `limit` memories at most, after the first
/// `offset`.
pub open spec fn page(all: Seq<MemoryView>, offset: nat, limit: nat) -> Seq<MemoryView> {
    if offset >= all.len() {
        Seq::<MemoryView>::empty()
    } else if all.len() - offset <= limit {
        all.subrange(offset as int, all.len() as int)
    } else {
        all.subrange(offset as int, (offset + limit) as int)
    }
}

/// What a caller is told of one page of the memories `all`.
pub open spec fn list_report(all: Seq<MemoryView>, offset: nat, limit: nat) -> Seq<char> {
    let shown = page(all, offset, limit);
    if shown.len() == 0 {
        "No memories found."@
    } else {
        "Memories "@ + decimal(offset + 1) + " - "@ + decimal(offset + shown.len()) + " of "@
            + decimal(all.len()) + ":\n\n"@ + memory_items(shown, offset + 1, 100)
    }
}

/// Tells one page of the memories.
pub fn format_list(all: &Vec<Memory>, offset: usize, limit: usize) -> (report: String)
    ensures
        report@ == list_report(memory_views(all@), offset as nat, limit as nat),
{
    if offset >= all.len() {
        return "No memories found.".to_owned();
    }
    let to = if all.len() - offset <= limit {
        all.len()
    } else {
        offset + limit
    };
    if to == offset {
        return "No memories found.".to_owned();
    }
    let mut out = chars_of("Memories ");
    push_all(&mut out, &wide_digits_of(offset as u128 + 1));
    push_all(&mut out, &chars_of(" - "));
    push_all(&mut out, &wide_digits_of(to as u128));
    push_all(&mut out, &chars_of(" of "));
    push_all(&mut out, &wide_digits_of(all.len() as u128));
    push_all(&mut out, &chars_of(":\n\n"));
    push_memory_items(&mut out, all, offset, to, offset as u128 + 1, 100);
    string_of(&out)
}

} // verus!
