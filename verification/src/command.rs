use vstd::prelude::*;

use crate::subsystem::{AnySubsystem, Subsystem};
use crate::CommandScheduler;

verus! {

/// What happens when a newcomer needs a subsystem that a running command holds.
#[derive(Debug, Clone, Copy, PartialEq, Eq, Structural)]
pub enum CancelBehavior {
    /// The running command keeps its subsystems and the newcomer is turned away.
    CancelIncoming,
    /// The running command is cancelled and the newcomer takes over.
    CancelRunning,
}

/// A unit of robot behaviour that the scheduler starts, polls and ends.
///
/// The scheduler asks for the requirements, for `runs_when_disabled` and for
/// `cancel_behavior` once, when the command is handed over, and goes by those
/// answers from then on.
pub trait Command {
    /// Runs once when the command is admitted.
    fn initialize(&mut self) {
    }

    /// Runs on every pass while the command is scheduled.
    fn execute(&mut self) {
    }

    /// Runs once when the command leaves the schedule: with `interrupted`
    /// unset after it reported that it had finished, and set when it was
    /// cancelled.
    #[allow(unused_variables)]
    fn end(&mut self, interrupted: bool) {
    }

    /// Asked after each `execute`. A command that never says yes runs until
    /// it is cancelled, and so does one that keeps this answer: no.
    fn finished(&self) -> (done: bool)
        default_ensures
            !done,
    {
        false
    }

    /// The subsystems that the command must have to itself while it runs.
    fn requirements(&self) -> &[AnySubsystem];

    /// Whether the command may run while the robot is disabled. A command
    /// that keeps this answer may not.
    fn runs_when_disabled(&self) -> (runs: bool)
        default_ensures
            !runs,
    {
        false
    }

    /// How the command, once running, meets a newcomer that needs one of its
    /// subsystems. A command that keeps this answer gives way.
    fn cancel_behavior(&self) -> (behavior: CancelBehavior)
        default_ensures
            behavior == CancelBehavior::CancelRunning,
    {
        CancelBehavior::CancelRunning
    }
}

/// A boxed command is a command, so that one scheduler can keep commands of
/// many types. Each hook of the box is one call of the same hook of the
/// command in it: it changes that command as the hook may change it, and
/// answers what the hook may answer.
impl<T: Command + ?Sized> Command for Box<T> {
    fn initialize(&mut self)
        ensures
            exists|inner: &mut T|
                &*inner == &**old(self) && &*final(inner) == &**final(self)
                    && #[trigger] call_ensures(T::initialize, (inner,), ()),
    {
        let inner: &mut T = &mut **self;
        inner.initialize();
    }

    fn execute(&mut self)
        ensures
            exists|inner: &mut T|
                &*inner == &**old(self) && &*final(inner) == &**final(self)
                    && #[trigger] call_ensures(T::execute, (inner,), ()),
    {
        let inner: &mut T = &mut **self;
        inner.execute();
    }

    fn end(&mut self, interrupted: bool)
        ensures
            exists|inner: &mut T|
                &*inner == &**old(self) && &*final(inner) == &**final(self)
                    && #[trigger] call_ensures(T::end, (inner, interrupted), ()),
    {
        let inner: &mut T = &mut **self;
        inner.end(interrupted);
    }

    fn finished(&self) -> (done: bool)
        ensures
            call_ensures(T::finished, (&**self,), done),
    {
        (**self).finished()
    }

    fn requirements(&self) -> (wanted: &[AnySubsystem])
        ensures
            call_ensures(T::requirements, (&**self,), wanted),
    {
        (**self).requirements()
    }

    fn runs_when_disabled(&self) -> (runs: bool)
        ensures
            call_ensures(T::runs_when_disabled, (&**self,), runs),
    {
        (**self).runs_when_disabled()
    }

    fn cancel_behavior(&self) -> (behavior: CancelBehavior)
        ensures
            call_ensures(T::cancel_behavior, (&**self,), behavior),
    {
        (**self).cancel_behavior()
    }
}

/// The identity of a command: the slot that a scheduler keeps it in.
///
/// Two handles are equal exactly when they name the same slot; two commands
/// with the same requirements in different slots stay apart.
#[derive(Debug, Clone, Copy, PartialEq, Eq, Structural, PartialOrd, Ord, Hash)]
pub struct AnyCommand {
    pub id: usize,
}

impl AnyCommand {
    /// Hands `command` over to `scheduler`, which asks it what it requires,
    /// whether it runs when disabled and how it meets newcomers, and keeps
    /// those answers as its declaration. The command is not scheduled yet.
    pub fn new<C: Command, S: Subsystem>(scheduler: &mut CommandScheduler<C, S>, command: C) -> (handle:
        AnyCommand)
        requires
            old(scheduler).wf(),
        ensures
            final(scheduler).wf(),
            handle.id == old(scheduler)@.profiles.len(),
            final(scheduler)@ == old(scheduler)@.with_command(final(scheduler)@.profile(handle)),
            exists|wanted: &[AnySubsystem]|
                wanted@ == final(scheduler)@.profile(handle).requirements && #[trigger] call_ensures(
                    C::requirements,
                    (&command,),
                    wanted,
                ),
            call_ensures(
                C::runs_when_disabled,
                (&command,),
                final(scheduler)@.profile(handle).runs_when_disabled,
            ),
            call_ensures(
                C::cancel_behavior,
                (&command,),
                final(scheduler)@.profile(handle).cancel_behavior,
            ),
            final(scheduler).command_at(handle) == command,
            final(scheduler).same_objects(old(scheduler)),
    {
        let requirements = vstd::slice::slice_to_vec(command.requirements());
        let runs_when_disabled = command.runs_when_disabled();
        let cancel_behavior = command.cancel_behavior();
        scheduler.enroll(command, requirements, runs_when_disabled, cancel_behavior)
    }
}

/// The time from `start` to `now`, both read off one clock that counts
/// microseconds; none where the clock shows less than at the start.
pub open spec fn elapsed(start: u64, now: u64) -> nat {
    if now >= start {
        (now - start) as nat
    } else {
        0
    }
}

/// The rule of a command that waits: it has finished once more time than
/// `duration` has passed since it was initialized.
///
/// The command itself reads a clock in its hooks and hands the readings
/// to this type.
#[derive(Debug, Clone, Copy, PartialEq, Eq, Structural)]
pub struct WaitCommand {
    duration: u128,
    start_time: Option<u64>,
}

impl WaitCommand {
    /// How long to wait, in microseconds.
    pub closed spec fn duration(&self) -> nat {
        self.duration as nat
    }

    /// What the clock showed when the wait began, if it has begun.
    pub closed spec fn start_time(&self) -> Option<u64> {
        self.start_time
    }

    /// A wait of `duration` microseconds that has not begun.
    pub fn new(duration: u128) -> (wait: Self)
        ensures
            wait.duration() == duration,
            wait.start_time() is None,
    {
        WaitCommand { duration, start_time: None }
    }

    /// Begins the wait, or begins it anew, at the clock reading `now`.
    pub fn initialize_at(&mut self, now: u64)
        ensures
            final(self).duration() == old(self).duration(),
            final(self).start_time() == Some(now),
    {
        self.start_time = Some(now);
    }

    /// Whether the wait has begun.
    pub fn started(&self) -> (begun: bool)
        ensures
            begun == self.start_time() is Some,
    {
        self.start_time.is_some()
    }

    /// Whether, at the clock reading `now`, more than the duration has
    /// passed since the wait began.
    pub fn finished_at(&self, now: u64) -> (done: bool)
        requires
            self.start_time() is Some,
        ensures
            done == (elapsed(self.start_time()->0, now) > self.duration()),
    {
        let start = match self.start_time {
            Some(start) => start,
            None => now,
        };
        let passed: u64 = if now >= start {
            now - start
        } else {
            0
        };
        passed as u128 > self.duration
    }
}

/// Marks the handle type, so that helpers for it have one place to live.
pub trait CommandExt {

}

impl CommandExt for AnyCommand {

}

} // verus!
