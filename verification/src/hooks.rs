//! Lifecycle hooks: which there are, which script stands for one, and what
//! runs a script.

use crate::number::{signed_decimal, signed_digits_of};
use crate::runner::RunnerError;
use crate::text::{
    chars_of, ends_with, first_true, has_prefix, has_suffix, is_listed, lemma_first_true_is,
    lemma_first_true_none, lines, lines_of, push_all, same_text, slice_of, starts_with, string_of,
    string_views, views, words, words_of,
};
use vstd::prelude::*;

verus! {

/// Whether `name` is the name of a hook: one of `pre-run`, `post-context`,
/// `post-llm` and `post-commit`.
pub open spec fn is_hook_name(name: Seq<char>) -> bool {
    name == "pre-run"@ || name == "post-context"@ || name == "post-llm"@ || name
        == "post-commit"@
}

/// The names of the hooks, in the order in which they run.
pub fn valid_hooks() -> (names: Vec<&'static str>)
    ensures
        names@.len() == 4,
        names@[0]@ == "pre-run"@,
        names@[1]@ == "post-context"@,
        names@[2]@ == "post-llm"@,
        names@[3]@ == "post-commit"@,
{
    let mut names: Vec<&'static str> = Vec::new();
    names.push("pre-run");
    names.push("post-context");
    names.push("post-llm");
    names.push("post-commit");
    names
}

/// Whether `name` is the name of a hook.
pub fn is_valid_hook(name: &str) -> (r: bool)
    ensures
        r == is_hook_name(name@),
{
    same_text(name, "pre-run") || same_text(name, "post-context") || same_text(name, "post-llm")
        || same_text(name, "post-commit")
}

/// Refuses a name that is not the name of a hook.
pub fn check_hook_name(hook_name: &str) -> (r: Result<(), RunnerError>)
    ensures
        r is Ok <==> is_hook_name(hook_name@),
        r is Err ==> (r->Err_0 matches RunnerError::Hook(m) && m@ == "Unknown hook: "@
            + hook_name@),
{
    if is_valid_hook(hook_name) {
        Ok(())
    } else {
        let mut msg = "Unknown hook: ".to_owned();
        msg.append(hook_name);
        Err(RunnerError::Hook(msg))
    }
}

/// The failure of the hook `hook_name` whose script ended with `exit_code`, or
/// without one, and wrote `stderr`.
pub open spec fn hook_failure_text(hook_name: Seq<char>, exit_code: Option<i32>, stderr: Seq<char>) -> Seq<
    char,
> {
    "Hook '"@ + hook_name + "' failed (exit "@ + signed_decimal(
        match exit_code {
            Some(code) => code as int,
            None => -1,
        },
    ) + "): "@ + stderr
}

/// Reports that the script of a hook failed.
pub fn hook_failure(hook_name: &str, exit_code: Option<i32>, stderr: &str) -> (e: RunnerError)
    ensures
        e matches RunnerError::Hook(m) && m@ == hook_failure_text(hook_name@, exit_code, stderr@),
{
    let code: i64 = match exit_code {
        Some(code) => code as i64,
        None => -1,
    };
    let mut out = chars_of("Hook '");
    push_all(&mut out, &chars_of(hook_name));
    push_all(&mut out, &chars_of("' failed (exit "));
    push_all(&mut out, &signed_digits_of(code));
    push_all(&mut out, &chars_of("): "));
    push_all(&mut out, &chars_of(stderr));
    RunnerError::Hook(string_of(&out))
}

// ---------------------------------------------------------------------------
// Scripts
// ---------------------------------------------------------------------------

/// The index of the first of `candidates` that is one of `files`.
pub open spec fn first_present(files: Seq<Seq<char>>, candidates: Seq<Seq<char>>) -> Option<int> {
    first_true(Seq::new(candidates.len(), |k: int| files.contains(candidates[k])))
}

/// The file names under which the script of `name` is looked for, in order:
/// the name itself, then the name with each of the extensions.
pub open spec fn candidates(name: Seq<char>, extensions: Seq<Seq<char>>) -> Seq<Seq<char>> {
    Seq::new(
        extensions.len() + 1,
        |k: int|
            if k == 0 {
                name
            } else {
                name + extensions[k - 1]
            },
    )
}

/// The extensions tried for the script of a hook.
pub open spec fn hook_extensions() -> Seq<Seq<char>> {
    seq![".sh"@, ".py"@, ".rb"@]
}

/// The first of `candidates` that is one of `files`.
pub fn pick_present(files: &Vec<String>, candidates: &Vec<String>) -> (r: Option<usize>)
    ensures
        r is Some <==> first_present(string_views(files@), string_views(candidates@)) is Some,
        r is Some ==> r->0 == first_present(string_views(files@), string_views(candidates@))->0
            && r->0 < candidates.len(),
{
    let ghost flags = Seq::new(
        candidates@.len(),
        |k: int| string_views(files@).contains(string_views(candidates@)[k]),
    );
    let mut i: usize = 0;
    while i < candidates.len()
        invariant
            i <= candidates.len(),
            flags == Seq::new(
                candidates@.len(),
                |k: int| string_views(files@).contains(string_views(candidates@)[k]),
            ),
            forall|j: int| 0 <= j < i ==> !flags[j],
        decreases candidates.len() - i,
    {
        assert(string_views(candidates@)[i as int] == candidates@[i as int]@);
        if is_listed(files, candidates[i].as_str()) {
            proof {
                lemma_first_true_is(flags, i as int);
            }
            return Some(i);
        }
        i += 1;
    }
    proof {
        lemma_first_true_none(flags);
    }
    None
}

/// The file names under which the script of `name` is looked for.
pub fn script_candidates(name: &str, first: &str, second: &str, third: &str) -> (out: Vec<String>)
    ensures
        string_views(out@) == candidates(name@, seq![first@, second@, third@]),
{
    let mut out: Vec<String> = Vec::new();
    out.push(name.to_owned());
    let mut a = name.to_owned();
    a.append(first);
    out.push(a);
    let mut b = name.to_owned();
    b.append(second);
    out.push(b);
    let mut c = name.to_owned();
    c.append(third);
    out.push(c);
    assert(string_views(out@) =~= candidates(name@, seq![first@, second@, third@]));
    out
}

/// Finds the script of a hook among the files of the hooks directory: the file
/// called `name`, or else `name.sh`, `name.py` or `name.rb`, whichever comes
/// first in that order.
pub fn find_hook_script(files: &Vec<String>, name: &str) -> (script: Option<String>)
    ensures
        script is Some <==> first_present(
            string_views(files@),
            candidates(name@, hook_extensions()),
        ) is Some,
        script is Some ==> script->0@ == candidates(name@, hook_extensions())[first_present(
            string_views(files@),
            candidates(name@, hook_extensions()),
        )->0],
{
    let names = script_candidates(name, ".sh", ".py", ".rb");
    match pick_present(files, &names) {
        Some(i) => {
            assert(string_views(names@)[i as int] == names@[i as int]@);
            Some(names[i].clone())
        },
        None => None,
    }
}

// ---------------------------------------------------------------------------
// Interpreters
// ---------------------------------------------------------------------------

/// What follows `#!` in the first line of `content`, where the first line
/// starts so.
pub open spec fn shebang_of(content: Seq<char>) -> Option<Seq<char>> {
    let ls = lines(content);
    if ls.len() == 0 {
        None
    } else if !starts_with(ls[0], "#!"@) {
        None
    } else {
        Some(ls[0].skip(2))
    }
}

/// The interpreter that the first line of `content` names: the first word after
/// `#!`, or the second where the first ends in `/env`.
pub open spec fn interpreter_of(content: Seq<char>) -> Option<Seq<char>> {
    match shebang_of(content) {
        None => None,
        Some(shebang) => {
            let parts = words(shebang);
            if parts.len() == 0 {
                None
            } else if ends_with(parts[0], "/env"@) {
                if parts.len() > 1 {
                    Some(parts[1])
                } else {
                    None
                }
            } else {
                Some(parts[0])
            }
        },
    }
}

/// Detects the interpreter of a script from its first line.
pub fn detect_shebang(content: &str) -> (interpreter: Option<String>)
    ensures
        interpreter is Some <==> interpreter_of(content@) is Some,
        interpreter is Some ==> interpreter->0@ == interpreter_of(content@)->0,
{
    let ls = lines_of(&chars_of(content));
    if ls.len() == 0 {
        return None;
    }
    let first = &ls[0];
    assert(views(ls@)[0] == first@);
    proof {
        reveal_strlit("#!");
    }
    if !has_prefix(first, &chars_of("#!")) {
        return None;
    }
    let shebang = slice_of(first, 2, first.len());
    assert(shebang@ =~= first@.skip(2));
    let parts = words_of(&shebang);
    if parts.len() == 0 {
        return None;
    }
    assert(views(parts@)[0] == parts@[0]@);
    if has_suffix(&parts[0], &chars_of("/env")) {
        if parts.len() > 1 {
            assert(views(parts@)[1] == parts@[1]@);
            Some(string_of(&parts[1]))
        } else {
            None
        }
    } else {
        Some(string_of(&parts[0]))
    }
}

} // verus!
