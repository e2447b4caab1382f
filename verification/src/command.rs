//! The outcome of a command, and what is made of one that failed.

use vstd::prelude::*;
use crate::number;
use crate::number::push_decimal_int;
use crate::text;
use crate::text::{chars_of, string_of, text_of, trimmed};

verus! {

/// What came of running a command.
#[derive(Debug, PartialEq, Eq)]
pub enum CommandResult {
    /// It ran to its end. Without a code a signal ended it.
    Ran { success: bool, code: Option<i32>, stdout: Vec<u8>, stderr: Vec<u8> },
    /// It could not be started.
    NotSpawned { message: String },
}

/// The view of `CommandResult`.
#[verifier::ext_equal]
pub enum CommandView {
    Ran { success: bool, code: Option<i32>, stdout: Seq<u8>, stderr: Seq<u8> },
    NotSpawned { message: Seq<char> },
}

impl View for CommandResult {
    type V = CommandView;

    open spec fn view(&self) -> CommandView {
        match *self {
            CommandResult::Ran { success, code, stdout, stderr } => CommandView::Ran {
                success,
                code,
                stdout: stdout@,
                stderr: stderr@,
            },
            CommandResult::NotSpawned { message } => CommandView::NotSpawned { message: message@ },
        }
    }
}

/// What the command wrote, whether it succeeded or not; nothing if it did
/// not start.
pub open spec fn written(r: CommandView) -> Seq<char> {
    match r {
        CommandView::Ran { stdout, .. } => text::utf8_lossy(stdout),
        CommandView::NotSpawned { .. } => Seq::empty(),
    }
}

/// What the command wrote, if it succeeded.
pub open spec fn written_on_success(r: CommandView) -> Option<Seq<char>> {
    match r {
        CommandView::Ran { success: true, stdout, .. } => Some(text::utf8_lossy(stdout)),
        _ => None,
    }
}

/// What the command wrote, whether it succeeded or not.
pub fn output_text(r: &CommandResult) -> (t: String)
    ensures
        t@ == written(r@),
{
    match r {
        CommandResult::Ran { stdout, .. } => text_of(stdout.as_slice()),
        CommandResult::NotSpawned { .. } => String::new(),
    }
}

/// What the command wrote, if it succeeded.
pub fn success_text(r: &CommandResult) -> (t: Option<String>)
    ensures
        crate::model::opt_view(t) == written_on_success(r@),
{
    match r {
        CommandResult::Ran { success, stdout, .. } => if *success {
            Some(text_of(stdout.as_slice()))
        } else {
            None
        },
        CommandResult::NotSpawned { .. } => None,
    }
}

/// The report on a command that could not be started; `advice` follows it.
pub open spec fn not_run_text(name: Seq<char>, message: Seq<char>, advice: Seq<char>) -> Seq<char> {
    "error: failed to run `"@ + name + "`: "@ + message + "."@ + advice
}

/// The report on a command that failed: its status, and its own diagnostic
/// on a line of its own.
pub open spec fn failed_text(name: Seq<char>, code: Option<i32>, stderr: Seq<char>) -> Seq<char> {
    let status = "error: `"@ + name + "` exited with status "@ + (match code {
        Some(c) => number::decimal_int(c as int),
        None => "?"@,
    }) + "."@;
    if text::trim(stderr).len() == 0 {
        status
    } else {
        status + "\n  "@ + text::trim(stderr)
    }
}

/// Writes the report on a command that could not be started.
pub fn not_run(name: &str, message: &str, advice: &str) -> (s: String)
    ensures
        s@ == not_run_text(name@, message@, advice@),
{
    let mut s = "error: failed to run `".to_owned();
    s.append(name);
    s.append("`: ");
    s.append(message);
    s.append(".");
    s.append(advice);
    s
}

/// Writes the report on a command that failed.
pub fn failed(name: &str, code: Option<i32>, stderr: &str) -> (s: String)
    ensures
        s@ == failed_text(name@, code, stderr@),
{
    let mut s = "error: `".to_owned();
    s.append(name);
    s.append("` exited with status ");
    match code {
        Some(c) => push_decimal_int(&mut s, c),
        None => s.append("?"),
    }
    s.append(".");
    let cs = chars_of(stderr);
    let detail = trimmed(cs.as_slice());
    if detail.len() > 0 {
        s.append("\n  ");
        let d = string_of(detail);
        s.append(d.as_str());
    }
    s
}

} // verus!
