//! The supervisor's rules: what to do when a task ends or the user
//! interrupts.
//!
//! The supervisor itself waits on the runtime for one of two things, a task
//! that has ended or an interrupt, and hands what happened to
//! [`Supervisor::step`], which says what to do about it.

use vstd::prelude::*;

verus! {

/// The name of the log file that is used where none is given.
pub open spec fn spec_default_log_file() -> Seq<char> {
    "logs.txt"@
}

/// How the supervisor is to run.
#[derive(Debug)]
pub struct RunOptions {
    /// The file that every log line is written to.
    pub log_file: Option<String>,
}

impl Default for RunOptions {
    fn default() -> (options: Self)
        ensures
            options.log_file is None,
    {
        RunOptions { log_file: None }
    }
}

impl RunOptions {
    /// The file to log to: the one given, or `logs.txt`.
    pub open spec fn spec_log_path(&self) -> Seq<char> {
        match self.log_file {
            Some(path) => path@,
            None => spec_default_log_file(),
        }
    }

    pub fn log_path(&self) -> (path: String)
        ensures
            path@ == self.spec_log_path(),
    {
        match &self.log_file {
            Some(path) => path.clone(),
            None => "logs.txt".to_owned(),
        }
    }
}

/// What the supervisor was woken by.
#[derive(Clone, Copy, Debug, PartialEq, Eq, Structural)]
pub enum SupervisorEvent {
    /// No task is left.
    AllTasksDone,
    /// A task ran to its end.
    TaskSucceeded,
    /// A task gave up with an error.
    TaskFailed,
    /// A task panicked or was cancelled from outside.
    TaskPanicked,
    /// The user asked the program to stop.
    Interrupted,
    /// Listening for the user's interrupt failed.
    InterruptFailed,
}

/// What the supervisor does next.
#[derive(Clone, Copy, Debug, PartialEq, Eq, Structural)]
pub enum SupervisorAction {
    /// Go on waiting.
    Continue,
    /// Log the task's name with its error, then go on waiting.
    ReportFailure,
    /// Log that the task broke down, then go on waiting.
    ReportPanic,
    /// Log that interrupts cannot be heard, then go on waiting for tasks
    /// alone.
    ReportInterruptFailure,
    /// Cancel every task that is left, wait for each to end, and return.
    Shutdown,
}

/// The supervisor's memory between two events.
#[derive(Clone, Copy, Debug, PartialEq, Eq, Structural)]
pub struct Supervisor {
    /// Listening for interrupts has failed once and is not tried again.
    pub ctrl_c_failed: bool,
    /// The supervisor has decided to shut down.
    pub stopped: bool,
}

impl Supervisor {
    /// The action that `event` calls for.
    pub open spec fn spec_action(self, event: SupervisorEvent) -> SupervisorAction {
        if self.stopped {
            SupervisorAction::Shutdown
        } else {
            match event {
                SupervisorEvent::AllTasksDone => SupervisorAction::Shutdown,
                SupervisorEvent::TaskSucceeded => SupervisorAction::Continue,
                SupervisorEvent::TaskFailed => SupervisorAction::ReportFailure,
                SupervisorEvent::TaskPanicked => SupervisorAction::ReportPanic,
                SupervisorEvent::Interrupted => if self.ctrl_c_failed {
                    SupervisorAction::Continue
                } else {
                    SupervisorAction::Shutdown
                },
                SupervisorEvent::InterruptFailed => if self.ctrl_c_failed {
                    SupervisorAction::Continue
                } else {
                    SupervisorAction::ReportInterruptFailure
                },
            }
        }
    }

    /// The supervisor after `event`.
    pub open spec fn spec_after(self, event: SupervisorEvent) -> Supervisor {
        Supervisor {
            ctrl_c_failed: self.ctrl_c_failed || (!self.stopped && event
                == SupervisorEvent::InterruptFailed),
            stopped: self.spec_action(event) == SupervisorAction::Shutdown,
        }
    }

    /// A supervisor that has seen nothing yet.
    pub fn new() -> (supervisor: Self)
        ensures
            supervisor == (Supervisor { ctrl_c_failed: false, stopped: false }),
    {
        Supervisor { ctrl_c_failed: false, stopped: false }
    }

    /// Whether the supervisor still waits for an interrupt beside the
    /// tasks.
    pub fn listens_for_interrupt(&self) -> (listens: bool)
        ensures
            listens == (!self.ctrl_c_failed && !self.stopped),
    {
        !self.ctrl_c_failed && !self.stopped
    }

    /// Takes one event and says what to do. Once the answer was
    /// [`SupervisorAction::Shutdown`] it stays so.
    pub fn step(&mut self, event: SupervisorEvent) -> (action: SupervisorAction)
        ensures
            action == old(self).spec_action(event),
            *final(self) == old(self).spec_after(event),
    {
        if self.stopped {
            return SupervisorAction::Shutdown;
        }
        let action = match event {
            SupervisorEvent::AllTasksDone => SupervisorAction::Shutdown,
            SupervisorEvent::TaskSucceeded => SupervisorAction::Continue,
            SupervisorEvent::TaskFailed => SupervisorAction::ReportFailure,
            SupervisorEvent::TaskPanicked => SupervisorAction::ReportPanic,
            SupervisorEvent::Interrupted => {
                if self.ctrl_c_failed {
                    SupervisorAction::Continue
                } else {
                    SupervisorAction::Shutdown
                }
            },
            SupervisorEvent::InterruptFailed => {
                if self.ctrl_c_failed {
                    SupervisorAction::Continue
                } else {
                    self.ctrl_c_failed = true;
                    SupervisorAction::ReportInterruptFailure
                }
            },
        };
        if let SupervisorAction::Shutdown = action {
            self.stopped = true;
        }
        action
    }
}

} // verus!
