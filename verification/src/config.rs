//! The agent's settings, their defaults, and the notation of intervals.

use crate::number::{parse_u64, parse_unsigned};
use crate::text::{chars_of, slice_of, string_of, trim, trim_chars};
use vstd::prelude::*;

verus! {

/// All the settings of an agent.
#[derive(Debug)]
pub struct Config {
    pub agent: AgentConfig,
    pub memory: MemoryConfig,
    pub loop_config: LoopConfig,
    pub schedule: ScheduleConfig,
}

#[derive(Debug)]
pub struct AgentConfig {
    pub name: String,
    pub model: String,
    pub system_prompt: String,
    pub allowed_tools: Option<String>,
}

#[derive(Debug)]
pub struct MemoryConfig {
    pub dir: String,
    pub state_file: String,
}

#[derive(Debug)]
pub struct LoopConfig {
    pub context_dir: Option<String>,
    pub hooks_dir: Option<String>,
    pub log_dir: Option<String>,
    pub max_tokens: usize,
}

#[derive(Debug)]
pub struct ScheduleConfig {
    pub interval: String,
}

/// The file that holds the system prompt, where the settings name none.
pub fn default_system_prompt() -> (s: String)
    ensures
        s@ == "system-prompt.md"@,
{
    "system-prompt.md".to_owned()
}

/// The memory directory, where the settings name none.
pub fn default_memory_dir() -> (s: String)
    ensures
        s@ == "memory"@,
{
    "memory".to_owned()
}

/// The state file, where the settings name none.
pub fn default_state_file() -> (s: String)
    ensures
        s@ == "STATE.md"@,
{
    "STATE.md".to_owned()
}

/// The most tokens for a run, where the settings give no number.
pub fn default_max_tokens() -> (n: usize)
    ensures
        n == 200_000,
{
    200_000
}

/// The interval between runs, where the settings give none.
pub fn default_interval() -> (s: String)
    ensures
        s@ == "1h"@,
{
    "1h".to_owned()
}

impl Default for MemoryConfig {
    fn default() -> (c: Self)
        ensures
            c.dir@ == "memory"@,
            c.state_file@ == "STATE.md"@,
    {
        MemoryConfig { dir: default_memory_dir(), state_file: default_state_file() }
    }
}

impl Default for LoopConfig {
    fn default() -> (c: Self)
        ensures
            c.context_dir is None,
            c.hooks_dir is None,
            c.log_dir is None,
            c.max_tokens == 200_000,
    {
        LoopConfig {
            context_dir: None,
            hooks_dir: None,
            log_dir: None,
            max_tokens: default_max_tokens(),
        }
    }
}

impl Default for ScheduleConfig {
    fn default() -> (c: Self)
        ensures
            c.interval@ == "1h"@,
    {
        ScheduleConfig { interval: default_interval() }
    }
}

/// Why an interval could not be read.
#[derive(Debug, Clone, Copy, PartialEq, Eq, Structural)]
pub enum IntervalError {
    /// Nothing but white space was given.
    Empty,
    /// What stands before the unit is no number that fits.
    InvalidNumber,
    /// The last character is none of `s`, `m`, `h`, `d`.
    UnknownSuffix,
    /// The interval is more seconds than can be counted.
    TooLong,
}

/// The seconds in one unit of time, by its letter.
pub open spec fn unit_seconds(unit: char) -> Option<nat> {
    if unit == 's' {
        Some(1)
    } else if unit == 'm' {
        Some(60)
    } else if unit == 'h' {
        Some(3600)
    } else if unit == 'd' {
        Some(86400)
    } else {
        None
    }
}

/// The seconds that the interval `text` stands for: a number and a unit letter,
/// with white space allowed around them.
pub open spec fn interval_seconds(text: Seq<char>) -> Result<nat, IntervalError> {
    let t = trim(text);
    if t.len() == 0 {
        Err(IntervalError::Empty)
    } else {
        match parse_unsigned(t.drop_last()) {
            Some(n) => if n > u64::MAX {
                Err(IntervalError::InvalidNumber)
            } else {
                match unit_seconds(t.last()) {
                    Some(k) => if n * k > u64::MAX {
                        Err(IntervalError::TooLong)
                    } else {
                        Ok(n * k)
                    },
                    None => Err(IntervalError::UnknownSuffix),
                }
            },
            None => Err(IntervalError::InvalidNumber),
        }
    }
}

/// The seconds that an interval such as `1h`, `30m` or `5s` stands for.
pub fn interval_in_seconds(interval: &str) -> (r: Result<u64, IntervalError>)
    ensures
        match r {
            Ok(n) => interval_seconds(interval@) == Ok::<nat, IntervalError>(n as nat),
            Err(e) => interval_seconds(interval@) == Err::<nat, IntervalError>(e),
        },
{
    let t = trim_chars(&chars_of(interval));
    if t.len() == 0 {
        return Err(IntervalError::Empty);
    }
    let number = slice_of(&t, 0, t.len() - 1);
    assert(number@ =~= t@.drop_last());
    let unit = t[t.len() - 1];
    let n = match parse_u64(&number) {
        Some(n) => n,
        None => {
            return Err(IntervalError::InvalidNumber);
        },
    };
    let k: u64 = if unit == 's' {
        1
    } else if unit == 'm' {
        60
    } else if unit == 'h' {
        3600
    } else if unit == 'd' {
        86400
    } else {
        return Err(IntervalError::UnknownSuffix);
    };
    if n > u64::MAX / k {
        assert(n * k > u64::MAX) by (nonlinear_arith)
            requires
                n > u64::MAX / k,
                0 < k <= 86400,
        ;
        return Err(IntervalError::TooLong);
    }
    assert(n * k <= u64::MAX) by (nonlinear_arith)
        requires
            n <= u64::MAX / k,
            0 < k <= 86400,
    ;
    Ok(n * k)
}

impl IntervalError {
    /// How the failure is reported for the interval `text`.
    pub open spec fn message_text(self, text: Seq<char>) -> Seq<char> {
        let t = trim(text);
        match self {
            IntervalError::Empty => "Empty interval"@,
            IntervalError::InvalidNumber => "Invalid number in interval: "@ + t.drop_last(),
            IntervalError::UnknownSuffix => "Unknown interval suffix: "@ + seq![t.last()]
                + ". Use s, m, h, or d."@,
            IntervalError::TooLong => "Interval too long: "@ + t,
        }
    }
}

/// Reads an interval such as `1h`, `30m` or `5s` as a number of seconds, or says
/// in a line of text why it cannot be read.
pub fn parse_interval(interval: &str) -> (r: Result<u64, String>)
    ensures
        match r {
            Ok(n) => interval_seconds(interval@) == Ok::<nat, IntervalError>(n as nat),
            Err(msg) => interval_seconds(interval@) is Err && msg@ == interval_seconds(
                interval@,
            )->Err_0.message_text(interval@),
        },
{
    match interval_in_seconds(interval) {
        Ok(n) => Ok(n),
        Err(e) => {
            let t = trim_chars(&chars_of(interval));
            let msg = match e {
                IntervalError::Empty => "Empty interval".to_owned(),
                IntervalError::InvalidNumber => {
                    let mut m = "Invalid number in interval: ".to_owned();
                    m.append(string_of(&slice_of(&t, 0, t.len() - 1)).as_str());
                    assert(t@.subrange(0, t@.len() - 1) =~= t@.drop_last());
                    m
                },
                IntervalError::UnknownSuffix => {
                    let mut m = "Unknown interval suffix: ".to_owned();
                    m.push(t[t.len() - 1]);
                    m.append(". Use s, m, h, or d.");
                    assert(m@ =~= e.message_text(interval@));
                    m
                },
                IntervalError::TooLong => {
                    let mut m = "Interval too long: ".to_owned();
                    m.append(string_of(&t).as_str());
                    m
                },
            };
            Err(msg)
        },
    }
}

/// A directory on the way from a starting point up to the root of the file
/// system, and whether it holds the agent's settings file.
pub struct Candidate {
    pub dir: String,
    pub has_config: bool,
}

/// The index of the first of `candidates` that holds a settings file.
pub open spec fn first_with_config(candidates: Seq<Candidate>) -> Option<int>
    decreases candidates.len(),
{
    if candidates.len() == 0 {
        None
    } else if candidates[0].has_config {
        Some(0)
    } else {
        match first_with_config(candidates.skip(1)) {
            Some(i) => Some(i + 1),
            None => None,
        }
    }
}

/// Finds the agent's root: the nearest directory, from the starting point
/// upward, that holds a settings file. `candidates` lists the directories from
/// the starting point up to the root of the file system.
pub fn find_agent_root(candidates: &Vec<Candidate>) -> (root: Option<String>)
    ensures
        match root {
            Some(dir) => first_with_config(candidates@) is Some && dir@ == candidates@[first_with_config(
                candidates@,
            )->0].dir@,
            None => first_with_config(candidates@) is None,
        },
{
    let mut i: usize = 0;
    assert(candidates@.skip(0) =~= candidates@);
    while i < candidates.len()
        invariant
            i <= candidates.len(),
            first_with_config(candidates@.skip(i as int)) is Some <==> first_with_config(
                candidates@,
            ) is Some,
            first_with_config(candidates@) is Some ==> first_with_config(candidates@)->0
                == first_with_config(candidates@.skip(i as int))->0 + i,
        decreases candidates.len() - i,
    {
        proof {
            assert(candidates@.skip(i as int).skip(1) =~= candidates@.skip(i + 1));
            assert(candidates@.skip(i as int)[0] == candidates@[i as int]);
        }
        if candidates[i].has_config {
            return Some(candidates[i].dir.clone());
        }
        i += 1;
    }
    None
}

} // verus!
