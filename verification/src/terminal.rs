//! The decisions of a small terminal that runs one command at a time. In
//! normal mode a line of input names a command to start; while a command
//! runs, input goes to it and its output is shown, until it ends or the user
//! asks to stop it. The caller reads the input, runs the commands and
//! carries out the actions.
use vstd::prelude::*;
use crate::text::{chars_of, split_whitespace, words};

verus! {

/// What the terminal reacts to.
pub enum TerminalEvent {
    /// A line that the user typed.
    UserInput(String),
    /// The user asked to stop (Ctrl-A, or the end of the input).
    UserTermination,
    /// A line of the running command's output.
    CommandOutput(String),
    /// The running command closed its output.
    CommandEnded,
}

/// Whether a command is running.
#[derive(PartialEq, Eq, Structural, Clone, Copy, Debug)]
pub enum TerminalMode {
    Normal,
    Command,
}

/// What the caller is to do after an event.
pub enum TerminalAction {
    /// Nothing.
    Nothing,
    /// Leave the terminal.
    Quit,
    /// Start the program `program` with the arguments `args`; the mode then
    /// follows from `after_spawn`.
    Spawn { program: String, args: Vec<String> },
    /// Stop the running command.
    KillChild,
    /// Hand the line to the running command's input.
    WriteToChild(String),
    /// Show a line of output.
    Print(String),
}

/// The Ctrl-A character, with which the user asks to stop a command.
pub const CTRL_A: char = '\u{1}';

/// Whether the line `s` is one that starts a command: in normal mode, a
/// line with at least one word.
pub open spec fn starts_command(s: Seq<char>) -> bool {
    words(s).len() > 0
}

/// Whether the line `s` holds a word, so that in normal mode it starts a
/// command, as `step` needs.
pub fn starts_command_line(s: &str) -> (r: bool)
    ensures
        r == starts_command(s@),
{
    split_whitespace(s).len() > 0
}

/// The events that a line read from the user gives: the line itself, then a
/// stop request when it holds Ctrl-A.
pub fn events_of_line(line: String) -> (r: Vec<TerminalEvent>)
    ensures
        r@.len() == if line@.contains(CTRL_A) { 2int } else { 1int },
        r@[0] matches TerminalEvent::UserInput(s) && s@ == line@,
        line@.contains(CTRL_A) ==> r@[1] is UserTermination,
{
    let chars = chars_of(line.as_str());
    let mut term = false;
    let mut i: usize = 0;
    while i < chars.len()
        invariant
            chars@ == line@,
            i <= chars@.len(),
            term <==> exists|j: int| 0 <= j < i && chars@[j] == CTRL_A,
        decreases chars@.len() - i,
    {
        if chars[i] == CTRL_A {
            term = true;
        }
        i = i + 1;
    }
    let mut r: Vec<TerminalEvent> = Vec::new();
    r.push(TerminalEvent::UserInput(line));
    if term {
        r.push(TerminalEvent::UserTermination);
    }
    r
}

/// The events of the end of the input: a stop request.
pub fn events_of_end() -> (r: Vec<TerminalEvent>)
    ensures
        r@.len() == 1,
        r@[0] is UserTermination,
{
    let mut r: Vec<TerminalEvent> = Vec::new();
    r.push(TerminalEvent::UserTermination);
    r
}

/// The mode once a command was to be started: it runs when it could be
/// started.
pub fn after_spawn(started: bool) -> (m: TerminalMode)
    ensures
        m == if started { TerminalMode::Command } else { TerminalMode::Normal },
{
    if started {
        TerminalMode::Command
    } else {
        TerminalMode::Normal
    }
}

/// The next mode and the action for `event` in `mode`.
///
/// In normal mode, a line starts the program of its first word with the
/// other words as arguments (the line must hold a word), a stop request
/// quits, and anything else is ignored. While a command runs, a stop request
/// kills it, a line goes to its input, its output is shown, and its end
/// brings back normal mode.
pub fn step(mode: TerminalMode, event: TerminalEvent) -> (r: (TerminalMode, TerminalAction))
    requires
        mode == TerminalMode::Normal ==> (event matches TerminalEvent::UserInput(s) ==> starts_command(s@)),
    ensures
        match mode {
            TerminalMode::Normal => match event {
                TerminalEvent::UserInput(s) => r.0 == TerminalMode::Normal && (r.1 matches TerminalAction::Spawn {
                    program,
                    args,
                } && program@ == words(s@)[0] && args@.len() == words(s@).len() - 1 && forall|i: int|
                    0 <= i < args@.len() ==> #[trigger] args@[i]@ == words(s@)[i + 1]),
                TerminalEvent::UserTermination => r.0 == TerminalMode::Normal && r.1 is Quit,
                _ => r.0 == TerminalMode::Normal && r.1 is Nothing,
            },
            TerminalMode::Command => match event {
                TerminalEvent::UserTermination => r.0 == TerminalMode::Command && r.1 is KillChild,
                TerminalEvent::UserInput(s) => r.0 == TerminalMode::Command && (r.1 matches TerminalAction::WriteToChild(
                    t,
                ) && t@ == s@),
                TerminalEvent::CommandOutput(s) => r.0 == TerminalMode::Command && (r.1 matches TerminalAction::Print(
                    t,
                ) && t@ == s@),
                TerminalEvent::CommandEnded => r.0 == TerminalMode::Normal && r.1 is Nothing,
            },
        },
{
    match mode {
        TerminalMode::Normal => match event {
            TerminalEvent::UserInput(s) => {
                let mut w = split_whitespace(s.as_str());
                let mut rest: Vec<String> = Vec::new();
                let mut i: usize = 1;
                while i < w.len()
                    invariant
                        w@.len() == words(s@).len(),
                        forall|k: int| 0 <= k < w@.len() ==> #[trigger] w@[k]@ == words(s@)[k],
                        1 <= i <= w@.len(),
                        rest@.len() == i - 1,
                        forall|k: int| 0 <= k < rest@.len() ==> #[trigger] rest@[k]@ == words(s@)[k + 1],
                    decreases w@.len() - i,
                {
                    rest.push(w[i].clone());
                    i = i + 1;
                }
                let program = w.swap_remove(0);
                (TerminalMode::Normal, TerminalAction::Spawn { program, args: rest })
            },
            TerminalEvent::UserTermination => (TerminalMode::Normal, TerminalAction::Quit),
            _ => (TerminalMode::Normal, TerminalAction::Nothing),
        },
        TerminalMode::Command => match event {
            TerminalEvent::UserTermination => (TerminalMode::Command, TerminalAction::KillChild),
            TerminalEvent::UserInput(s) => (TerminalMode::Command, TerminalAction::WriteToChild(s)),
            TerminalEvent::CommandOutput(s) => (TerminalMode::Command, TerminalAction::Print(s)),
            TerminalEvent::CommandEnded => (TerminalMode::Normal, TerminalAction::Nothing),
        },
    }
}

} // verus!
