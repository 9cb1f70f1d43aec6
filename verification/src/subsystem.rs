use vstd::prelude::*;

use crate::command::Command;
use crate::CommandScheduler;

verus! {

/// A piece of hardware that at most one command may drive at a time.
pub trait Subsystem {
    /// Runs once on every pass of the scheduler, whichever command holds the
    /// subsystem, and also when none does.
    fn periodic(&mut self) {
    }
}

/// A boxed subsystem is a subsystem, so that one scheduler can keep
/// subsystems of many types. The hook of the box is one call of the hook of
/// the subsystem in it, and changes that subsystem as the hook may change it.
impl<T: Subsystem + ?Sized> Subsystem for Box<T> {
    fn periodic(&mut self)
        ensures
            exists|inner: &mut T|
                &*inner == &**old(self) && &*final(inner) == &**final(self)
                    && #[trigger] call_ensures(T::periodic, (inner,), ()),
    {
        let inner: &mut T = &mut **self;
        inner.periodic();
    }
}

/// The identity of a subsystem: the slot that a scheduler keeps it in.
///
/// Two handles are equal exactly when they name the same slot, whatever the
/// subsystems in the slots look like.
#[derive(Debug, Clone, Copy, PartialEq, Eq, Structural, PartialOrd, Ord, Hash)]
pub struct AnySubsystem {
    pub id: usize,
}

impl AnySubsystem {
    /// Hands `subsystem` over to `scheduler` and returns the handle by which
    /// commands name it in their requirements. The subsystem takes part in
    /// the passes only once it is registered with its default command.
    pub fn new<C: Command, S: Subsystem>(
        scheduler: &mut CommandScheduler<C, S>,
        subsystem: S,
    ) -> (handle: AnySubsystem)
        requires
            old(scheduler).wf(),
        ensures
            final(scheduler).wf(),
            handle.id == old(scheduler)@.subsystems,
            final(scheduler)@ == old(scheduler)@.with_subsystem(),
            final(scheduler).subsystem_at(handle) == subsystem,
            final(scheduler).same_objects(old(scheduler)),
    {
        scheduler.install(subsystem)
    }
}

/// Marks the handle type, so that helpers for it have one place to live.
pub trait SubsystemExt {

}

impl SubsystemExt for AnySubsystem {

}

} // verus!
