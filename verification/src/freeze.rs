//! Holding the game still while its memory is read.
//!
//! Capture walks gigabytes of a process that is otherwise still running, so
//! without this the last range is seconds younger than the first and the result
//! can hold a combination of values the game never actually had. Stopping it
//! first makes the capture a real instant.
use vstd::prelude::*;
use vstd::string::StringExecFns;

use crate::text::{chars_of, decimal_text, owned, past_white, push_decimal, skip_white};

verus! {

/// How often the kernel is asked whether the process has stopped.
pub const CHECKS: u32 = 500;

/// The place just past the last `)` before `n`, if there is one.
pub open spec fn past_bracket(stat: Seq<char>, n: int) -> Option<int>
    decreases n,
{
    if n <= 0 {
        None
    } else if stat[n - 1] == ')' {
        Some(n)
    } else {
        past_bracket(stat, n - 1)
    }
}

/// The state that a `/proc/<pid>/stat` line gives: the command name sits in
/// parentheses and may itself contain spaces and parentheses, so the state is
/// the first field after the *last* `)`.
pub open spec fn state_in(stat: Seq<char>) -> Option<char> {
    match past_bracket(stat, stat.len() as int) {
        Some(from) => {
            let at = past_white(stat, from);
            if at < stat.len() {
                Some(stat[at])
            } else {
                None
            }
        },
        None => None,
    }
}

/// The process state from `/proc/<pid>/stat`: `T` once stopped.
pub fn state(stat: &str) -> (state: Option<char>)
    ensures
        state == state_in(stat@),
{
    let chars = chars_of(stat);
    let mut n: usize = chars.len();
    while n > 0 && chars[n - 1] != ')'
        invariant
            n <= chars@.len(),
            chars@ == stat@,
            past_bracket(stat@, stat@.len() as int) == past_bracket(stat@, n as int),
        decreases n,
    {
        n = n - 1;
    }
    if n == 0 {
        return None;
    }
    let at: usize = skip_white(chars.as_slice(), n);
    if at < chars.len() {
        Some(chars[at])
    } else {
        None
    }
}

/// What to do while waiting for a process to stop.
#[derive(Clone, Copy, PartialEq, Eq, Structural, Debug)]
pub enum Wait {
    /// It has stopped.
    Stopped,
    /// It vanished mid-stop. Nothing is left to resume.
    Vanished,
    /// Ask again in a moment.
    Again,
    /// It did not report as stopped in time; the resume still has to happen.
    Stuck,
}

/// What follows from the `checked`th look at the process's state. Posting the
/// signal is not enough: reading straight after it would race the very thing
/// this exists to prevent.
pub open spec fn waiting(state: Option<char>, checked: u32) -> Wait {
    match state {
        Some(c) => if c == 'T' {
            Wait::Stopped
        } else if checked >= CHECKS {
            Wait::Stuck
        } else {
            Wait::Again
        },
        None => Wait::Vanished,
    }
}

/// What follows from the `checked`th look at the process's `stat` line, or from
/// its being gone.
pub fn wait(stat: Option<&str>, checked: u32) -> (wait: Wait)
    ensures
        wait == waiting(
            match stat {
                Some(stat) => state_in(stat@),
                None => None,
            },
            checked,
        ),
{
    let seen: Option<char> = match stat {
        Some(stat) => state(stat),
        None => None,
    };
    match seen {
        Some(c) => if c == 'T' {
            Wait::Stopped
        } else if checked >= CHECKS {
            Wait::Stuck
        } else {
            Wait::Again
        },
        None => Wait::Vanished,
    }
}

/// Why a process could not be held still.
pub open spec fn failure_text(wait: Wait, pid: int) -> Seq<char> {
    match wait {
        Wait::Vanished => "pid "@ + decimal_text(pid) + " disappeared while being stopped"@,
        _ => "pid "@ + decimal_text(pid)
            + " did not report as stopped within a second; resume it with: kill -CONT "@
            + decimal_text(pid),
    }
}

/// Why a process could not be held still.
pub fn failure(wait: Wait, pid: u32) -> (text: String)
    ensures
        text@ == failure_text(wait, pid as int),
{
    let mut text = owned("pid ");
    push_decimal(&mut text, pid as u64);
    match wait {
        Wait::Vanished => {
            text.append(" disappeared while being stopped");
        },
        _ => {
            text.append(
                " did not report as stopped within a second; resume it with: kill -CONT ",
            );
            push_decimal(&mut text, pid as u64);
        },
    }
    text
}

} // verus!
