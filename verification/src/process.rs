//! The process executor's decisions.
//!
//! To run a program the shell duplicates itself, the child replaces its
//! image with the program, and the parent waits for the child to end. The
//! system calls are the caller's work. What is to be done after each of them
//! is decided here: the caller reports what has happened as an
//! [`ExecEvent`] and is told the next [`ExecStep`].

use crate::atom::{atom_str, atom_text};
use crate::shell::parser::texts;
use string_cache::DefaultAtom as Atom;
use vstd::prelude::*;
use vstd::string::StringExecFns;

verus! {

/// Why a program was not run.
#[derive(Clone, Copy, Debug, PartialEq, Eq, Structural)]
pub enum ExecError {
    /// The process could not be duplicated.
    ForkFailed,
    /// The child could not replace its image with the program.
    ExecFailed,
}

impl ExecError {
    /// The text that tells a user of the error.
    pub open spec fn message_text(self) -> Seq<char> {
        match self {
            ExecError::ForkFailed => "could not fork"@,
            ExecError::ExecFailed => "could not execute the program"@,
        }
    }

    /// The text that tells a user of the error.
    pub fn message(&self) -> (text: String)
        ensures
            text@ == self.message_text(),
    {
        match self {
            ExecError::ForkFailed => String::from_str("could not fork"),
            ExecError::ExecFailed => String::from_str("could not execute the program"),
        }
    }
}

/// A signal whose handling a child resets before it becomes the program.
#[derive(Clone, Copy, Debug, PartialEq, Eq, Structural)]
pub enum Signal {
    /// The interrupt signal of the terminal.
    Interrupt,
    /// The quit signal of the terminal.
    Quit,
}

/// The status with which a child ends that could not become the program.
pub const EXEC_FAILED_STATUS: i32 = 127;

/// What has happened while a program is run.
#[derive(Clone, Copy, Debug, PartialEq, Eq, Structural)]
pub enum ExecEvent {
    /// Nothing yet.
    Start,
    /// The duplication has returned this value: negative where it failed,
    /// zero in the child, the child's process id in the parent.
    Forked(i32),
    /// The replacement of the image has returned, so it has failed.
    ExecReturned,
    /// The child has ended with this status.
    Waited(i32),
}

/// What is to be done next while a program is run.
#[derive(Clone, Copy, Debug, PartialEq, Eq, Structural)]
pub enum ExecStep {
    /// Duplicate the process.
    Fork,
    /// In the child: reset the handling of the signals that
    /// [`signals_to_reset`] names to the default, then replace the image
    /// with the program.
    Exec,
    /// In the child: report the error and end at once with this status.
    Abort { error: ExecError, status: i32 },
    /// In the parent: wait until the child with this process id has ended.
    Wait(i32),
    /// The run is over: the child has ended with this status.
    Done(i32),
    /// The run is over: the program was not run.
    Failed(ExecError),
}

/// The step that follows an event.
pub open spec fn next_step(event: ExecEvent) -> ExecStep {
    match event {
        ExecEvent::Start => ExecStep::Fork,
        ExecEvent::Forked(pid) => if pid < 0 {
            ExecStep::Failed(ExecError::ForkFailed)
        } else if pid == 0 {
            ExecStep::Exec
        } else {
            ExecStep::Wait(pid)
        },
        ExecEvent::ExecReturned => ExecStep::Abort {
            error: ExecError::ExecFailed,
            status: EXEC_FAILED_STATUS,
        },
        ExecEvent::Waited(status) => ExecStep::Done(status),
    }
}

/// The step that follows an event. A child whose image could not be
/// replaced is never told anything but to end, with a status that is not
/// zero.
pub fn exec_step(event: ExecEvent) -> (step: ExecStep)
    ensures
        step == next_step(event),
        event is ExecReturned ==> (step matches ExecStep::Abort { status, .. } && status != 0),
{
    match event {
        ExecEvent::Start => ExecStep::Fork,
        ExecEvent::Forked(pid) => {
            if pid < 0 {
                ExecStep::Failed(ExecError::ForkFailed)
            } else if pid == 0 {
                ExecStep::Exec
            } else {
                ExecStep::Wait(pid)
            }
        },
        ExecEvent::ExecReturned => ExecStep::Abort {
            error: ExecError::ExecFailed,
            status: EXEC_FAILED_STATUS,
        },
        ExecEvent::Waited(status) => ExecStep::Done(status),
    }
}

/// The signals whose handling a child resets to the default before it
/// becomes the program, so that the program can be interrupted from the
/// terminal as if it had been started alone.
pub fn signals_to_reset() -> (signals: Vec<Signal>)
    ensures
        signals@ == seq![Signal::Interrupt, Signal::Quit],
{
    let mut signals: Vec<Signal> = Vec::new();
    signals.push(Signal::Interrupt);
    signals.push(Signal::Quit);
    assert(signals@ =~= seq![Signal::Interrupt, Signal::Quit]);
    signals
}

/// The texts that a sequence of strings holds.
pub open spec fn strings(list: Seq<String>) -> Seq<Seq<char>> {
    list.map_values(|s: String| s@)
}

/// The argument vector of a program: its path, then its arguments in
/// their order.
pub fn argv(path: &Atom, args: &Vec<Atom>) -> (vector: Vec<String>)
    ensures
        strings(vector@) == seq![atom_text(*path)] + texts(args@),
{
    let mut vector: Vec<String> = Vec::new();
    vector.push(String::from_str(atom_str(path)));
    let mut i: usize = 0;
    while i < args.len()
        invariant
            i <= args.len(),
            vector@.len() == i + 1,
            vector@[0]@ == atom_text(*path),
            forall|k: int| 0 <= k < i ==> (#[trigger] vector@[k + 1])@ == atom_text(args@[k]),
        decreases args.len() - i,
    {
        vector.push(String::from_str(atom_str(&args[i])));
        i += 1;
    }
    proof {
        let a = strings(vector@);
        let b = seq![atom_text(*path)] + texts(args@);
        assert(a.len() == b.len());
        assert forall|k: int| 0 <= k < a.len() implies a[k] == b[k] by {
            if k > 0 {
                assert(vector@[(k - 1) + 1]@ == atom_text(args@[k - 1]));
            }
        }
        assert(a =~= b);
    }
    vector
}

/// One entry of a program's environment: the variable's name, `=`, and its
/// value.
pub fn env_entry(name: &str, value: &str) -> (entry: String)
    ensures
        entry@ == name@ + "="@ + value@,
{
    let mut entry = String::from_str(name);
    entry.append("=");
    entry.append(value);
    entry
}

} // verus!
