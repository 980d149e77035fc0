//! The leaves of a behaviour tree: behaviours that always give the same
//! status, and one that runs a function once.
//!
//! A behaviour is run against a blackboard. Each of the four behaviour
//! traits says, through a pair of specification functions that its
//! implementations fill in, when a behaviour may be run and what a run may
//! report and leave behind.

use vstd::prelude::*;

verus! {

/// `ron::Value`, as a type whose values are carried about and never
/// looked into.
#[verifier::external_type_specification]
#[verifier::external_body]
pub struct ExRonValue(ron::Value);

/// What a behaviour reports when it is run.
#[derive(Debug)]
pub enum Status<T> {
    Running(T),
    Success,
    Failure,
}

/// The status of a behaviour that cannot fail.
#[derive(Debug)]
pub enum InfallibleStatus<T> {
    Running(T),
    Success,
}

/// The status of a behaviour that cannot succeed.
#[derive(Debug)]
pub enum FallibleStatus<T> {
    Running(T),
    Failure,
}

/// The status of a behaviour that never ends.
#[derive(Debug)]
pub struct EternalStatus<T>(pub T);

impl<T: Default> Default for EternalStatus<T> {
    fn default() -> (status: Self)
        ensures
            T::default.ensures((), status.0),
    {
        EternalStatus(T::default())
    }
}

/// A behaviour that may succeed, fail or go on.
pub trait Behavior<B, T>: Sized {
    /// The behaviour may be run against `board`.
    spec fn ready(self, board: B) -> bool;

    /// What a run that starts from `before` may leave behind and report.
    spec fn runs(before: Self, after: Self, board_before: B, board_after: B, status: Status<T>) -> bool;

    fn run(&mut self, blackboard: &mut B) -> (status: Status<T>)
        requires
            old(self).ready(*old(blackboard)),
        ensures
            Self::runs(*old(self), *final(self), *old(blackboard), *final(blackboard), status),
    ;
}

/// A behaviour that may succeed or go on.
pub trait InfallibleBehavior<B, T>: Sized {
    /// The behaviour may be run against `board`.
    spec fn ready_infallible(self, board: B) -> bool;

    /// What a run that starts from `before` may leave behind and report.
    spec fn runs_infallible(
        before: Self,
        after: Self,
        board_before: B,
        board_after: B,
        status: InfallibleStatus<T>,
    ) -> bool;

    fn run_infallible(&mut self, blackboard: &mut B) -> (status: InfallibleStatus<T>)
        requires
            old(self).ready_infallible(*old(blackboard)),
        ensures
            Self::runs_infallible(
                *old(self),
                *final(self),
                *old(blackboard),
                *final(blackboard),
                status,
            ),
    ;
}

/// A behaviour that may fail or go on.
pub trait FallibleBehavior<B, T>: Sized {
    /// The behaviour may be run against `board`.
    spec fn ready_fallible(self, board: B) -> bool;

    /// What a run that starts from `before` may leave behind and report.
    spec fn runs_fallible(
        before: Self,
        after: Self,
        board_before: B,
        board_after: B,
        status: FallibleStatus<T>,
    ) -> bool;

    fn run_fallible(&mut self, blackboard: &mut B) -> (status: FallibleStatus<T>)
        requires
            old(self).ready_fallible(*old(blackboard)),
        ensures
            Self::runs_fallible(
                *old(self),
                *final(self),
                *old(blackboard),
                *final(blackboard),
                status,
            ),
    ;
}

/// A behaviour that goes on for ever.
pub trait EternalBehavior<B, T>: Sized {
    /// The behaviour may be run against `board`.
    spec fn ready_eternal(self, board: B) -> bool;

    /// What a run that starts from `before` may leave behind and report.
    spec fn runs_eternal(
        before: Self,
        after: Self,
        board_before: B,
        board_after: B,
        status: EternalStatus<T>,
    ) -> bool;

    fn run_eternal(&mut self, blackboard: &mut B) -> (status: EternalStatus<T>)
        requires
            old(self).ready_eternal(*old(blackboard)),
        ensures
            Self::runs_eternal(
                *old(self),
                *final(self),
                *old(blackboard),
                *final(blackboard),
                status,
            ),
    ;
}

/// A behaviour that can be put back to where it started.
pub trait CancelSafe: Sized {
    /// What the behaviour is after it was put back.
    spec fn fresh(before: Self, after: Self) -> bool;

    fn reset(&mut self)
        ensures
            Self::fresh(*old(self), *final(self)),
    ;
}

/// A behaviour that can describe itself as a RON value.
pub trait IntoRon {
    /// The text of the behaviour's description.
    spec fn ron_text(&self) -> Seq<char>;

    fn into_ron(&self) -> (value: ron::Value)
        ensures
            value == ron_string(self.ron_text()),
    ;
}

/// The RON value that is the string `text`.
pub uninterp spec fn ron_string(text: Seq<char>) -> ron::Value;

/// `ron::Value::String`: the value that holds a copy of `text`.
#[verifier::external_body]
fn ron_string_value(text: &str) -> (value: ron::Value)
    ensures
        value == ron_string(text@),
{
    ron::Value::String(text.to_string())
}

/// Succeeds at once, whatever the blackboard holds.
#[derive(Debug, Clone, Copy, PartialEq, Eq, Default)]
pub struct AlwaysSucceed;

impl<T, B> Behavior<B, T> for AlwaysSucceed {
    open spec fn ready(self, board: B) -> bool {
        true
    }

    open spec fn runs(
        before: Self,
        after: Self,
        board_before: B,
        board_after: B,
        status: Status<T>,
    ) -> bool {
        status == Status::<T>::Success && board_after == board_before
    }

    fn run(&mut self, _blackboard: &mut B) -> (status: Status<T>) {
        Status::Success
    }
}

impl<T, B> InfallibleBehavior<B, T> for AlwaysSucceed {
    open spec fn ready_infallible(self, board: B) -> bool {
        true
    }

    open spec fn runs_infallible(
        before: Self,
        after: Self,
        board_before: B,
        board_after: B,
        status: InfallibleStatus<T>,
    ) -> bool {
        status == InfallibleStatus::<T>::Success && board_after == board_before
    }

    fn run_infallible(&mut self, _blackboard: &mut B) -> (status: InfallibleStatus<T>) {
        InfallibleStatus::Success
    }
}

impl IntoRon for AlwaysSucceed {
    open spec fn ron_text(&self) -> Seq<char> {
        "AlwaysSucceed"@
    }

    fn into_ron(&self) -> (value: ron::Value) {
        ron_string_value("AlwaysSucceed")
    }
}

impl CancelSafe for AlwaysSucceed {
    open spec fn fresh(before: Self, after: Self) -> bool {
        after == before
    }

    fn reset(&mut self) {
    }
}

/// Fails at once, whatever the blackboard holds.
#[derive(Debug, Clone, Copy, PartialEq, Eq, Default)]
pub struct AlwaysFail;

impl<T, B> Behavior<B, T> for AlwaysFail {
    open spec fn ready(self, board: B) -> bool {
        true
    }

    open spec fn runs(
        before: Self,
        after: Self,
        board_before: B,
        board_after: B,
        status: Status<T>,
    ) -> bool {
        status == Status::<T>::Failure && board_after == board_before
    }

    fn run(&mut self, _blackboard: &mut B) -> (status: Status<T>) {
        Status::Failure
    }
}

impl<T, B> FallibleBehavior<B, T> for AlwaysFail {
    open spec fn ready_fallible(self, board: B) -> bool {
        true
    }

    open spec fn runs_fallible(
        before: Self,
        after: Self,
        board_before: B,
        board_after: B,
        status: FallibleStatus<T>,
    ) -> bool {
        status == FallibleStatus::<T>::Failure && board_after == board_before
    }

    fn run_fallible(&mut self, _blackboard: &mut B) -> (status: FallibleStatus<T>) {
        FallibleStatus::Failure
    }
}

impl IntoRon for AlwaysFail {
    open spec fn ron_text(&self) -> Seq<char> {
        "AlwaysFail"@
    }

    fn into_ron(&self) -> (value: ron::Value) {
        ron_string_value("AlwaysFail")
    }
}

impl CancelSafe for AlwaysFail {
    open spec fn fresh(before: Self, after: Self) -> bool {
        after == before
    }

    fn reset(&mut self) {
    }
}

/// Goes on for ever, reporting a default value each time.
#[derive(Debug, Clone, Copy, PartialEq, Eq, Default)]
pub struct AlwaysRunning;

impl<T: Default, B> Behavior<B, T> for AlwaysRunning {
    open spec fn ready(self, board: B) -> bool {
        true
    }

    open spec fn runs(
        before: Self,
        after: Self,
        board_before: B,
        board_after: B,
        status: Status<T>,
    ) -> bool {
        &&& status matches Status::Running(value)
        &&& T::default.ensures((), value)
        &&& board_after == board_before
    }

    fn run(&mut self, _blackboard: &mut B) -> (status: Status<T>) {
        Status::Running(T::default())
    }
}

impl<T: Default, B> InfallibleBehavior<B, T> for AlwaysRunning {
    open spec fn ready_infallible(self, board: B) -> bool {
        true
    }

    open spec fn runs_infallible(
        before: Self,
        after: Self,
        board_before: B,
        board_after: B,
        status: InfallibleStatus<T>,
    ) -> bool {
        &&& status matches InfallibleStatus::Running(value)
        &&& T::default.ensures((), value)
        &&& board_after == board_before
    }

    fn run_infallible(&mut self, _blackboard: &mut B) -> (status: InfallibleStatus<T>) {
        InfallibleStatus::Running(T::default())
    }
}

impl<T: Default, B> FallibleBehavior<B, T> for AlwaysRunning {
    open spec fn ready_fallible(self, board: B) -> bool {
        true
    }

    open spec fn runs_fallible(
        before: Self,
        after: Self,
        board_before: B,
        board_after: B,
        status: FallibleStatus<T>,
    ) -> bool {
        &&& status matches FallibleStatus::Running(value)
        &&& T::default.ensures((), value)
        &&& board_after == board_before
    }

    fn run_fallible(&mut self, _blackboard: &mut B) -> (status: FallibleStatus<T>) {
        FallibleStatus::Running(T::default())
    }
}

impl<T: Default, B> EternalBehavior<B, T> for AlwaysRunning {
    open spec fn ready_eternal(self, board: B) -> bool {
        true
    }

    open spec fn runs_eternal(
        before: Self,
        after: Self,
        board_before: B,
        board_after: B,
        status: EternalStatus<T>,
    ) -> bool {
        T::default.ensures((), status.0) && board_after == board_before
    }

    fn run_eternal(&mut self, _blackboard: &mut B) -> (status: EternalStatus<T>) {
        EternalStatus(T::default())
    }
}

impl CancelSafe for AlwaysRunning {
    open spec fn fresh(before: Self, after: Self) -> bool {
        after == before
    }

    fn reset(&mut self) {
    }
}

impl IntoRon for AlwaysRunning {
    open spec fn ron_text(&self) -> Seq<char> {
        "AlwaysRunning"@
    }

    fn into_ron(&self) -> (value: ron::Value) {
        ron_string_value("AlwaysRunning")
    }
}

/// Runs a function on the first run and succeeds on the second; then it
/// starts over.
pub struct RunOnce<F> {
    pub func: F,
    ran: bool,
}

impl<F> RunOnce<F> {
    /// The function has run and the next run reports success.
    pub closed spec fn has_run(&self) -> bool {
        self.ran
    }

    /// The function that the behaviour runs.
    pub closed spec fn function(&self) -> F {
        self.func
    }
}

impl<F> RunOnce<F> {
    /// The behaviour that has yet to run `func`.
    pub closed spec fn unrun(func: F) -> Self {
        RunOnce { func, ran: false }
    }

    /// A behaviour that has yet to run holds its function and has not run.
    pub proof fn lemma_unrun(func: F)
        ensures
            Self::unrun(func).function() == func,
            !Self::unrun(func).has_run(),
    {
    }
}

impl<F> From<F> for RunOnce<F> {
    fn from(func: F) -> (once: Self) {
        RunOnce { func, ran: false }
    }
}

impl<F> vstd::std_specs::convert::FromSpecImpl<F> for RunOnce<F> {
    open spec fn obeys_from_spec() -> bool {
        true
    }

    open spec fn from_spec(func: F) -> Self {
        Self::unrun(func)
    }
}

impl<B, T, F: Fn() -> T> Behavior<B, T> for RunOnce<F> {
    open spec fn ready(self, board: B) -> bool {
        self.has_run() || call_requires(self.function(), ())
    }

    open spec fn runs(
        before: Self,
        after: Self,
        board_before: B,
        board_after: B,
        status: Status<T>,
    ) -> bool {
        &&& board_after == board_before
        &&& after.function() == before.function()
        &&& after.has_run() == !before.has_run()
        &&& if before.has_run() {
            status == Status::<T>::Success
        } else {
            status matches Status::Running(value) && call_ensures(before.function(), (), value)
        }
    }

    fn run(&mut self, _blackboard: &mut B) -> (status: Status<T>) {
        if self.ran {
            self.ran = false;
            Status::Success
        } else {
            self.ran = true;
            Status::Running((self.func)())
        }
    }
}

impl<B, T, F: Fn() -> T> InfallibleBehavior<B, T> for RunOnce<F> {
    open spec fn ready_infallible(self, board: B) -> bool {
        self.has_run() || call_requires(self.function(), ())
    }

    open spec fn runs_infallible(
        before: Self,
        after: Self,
        board_before: B,
        board_after: B,
        status: InfallibleStatus<T>,
    ) -> bool {
        &&& board_after == board_before
        &&& after.function() == before.function()
        &&& after.has_run() == !before.has_run()
        &&& if before.has_run() {
            status == InfallibleStatus::<T>::Success
        } else {
            status matches InfallibleStatus::Running(value) && call_ensures(before.function(), (), value)
        }
    }

    fn run_infallible(&mut self, _blackboard: &mut B) -> (status: InfallibleStatus<T>) {
        if self.ran {
            self.ran = false;
            InfallibleStatus::Success
        } else {
            self.ran = true;
            InfallibleStatus::Running((self.func)())
        }
    }
}

impl<F> CancelSafe for RunOnce<F> {
    open spec fn fresh(before: Self, after: Self) -> bool {
        after.function() == before.function() && !after.has_run()
    }

    fn reset(&mut self) {
        self.ran = false;
    }
}

} // verus!
