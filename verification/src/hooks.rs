use vstd::prelude::*;

use crate::command::{AnyCommand, Command};
use crate::model::Hook;
use crate::subsystem::{AnySubsystem, Subsystem};
use crate::CommandScheduler;

verus! {

impl<C: Command, S: Subsystem> CommandScheduler<C, S> {
    /// Calls `initialize` on the command in the slot of `command`.
    pub(crate) fn fire_initialize(&mut self, command: AnyCommand)
        requires
            old(self)@.knows(command),
        ensures
            final(self)@ == old(self)@.logged(seq![Hook::Initialize(command)]),
            final(self).follows(old(self)),
    {
        self.entries[command.id].command.initialize();
        self.history = Ghost(self.history@.push(Hook::Initialize(command)));
        proof {
            let hooks = seq![Hook::Initialize(command)];
            assert(self@.profiles =~= old(self)@.profiles);
            assert(self@.history =~= old(self)@.history + hooks);
            assert(self@.history.skip(old(self)@.history.len() as int) =~= hooks);
            assert(hooks[0].command() == Some(command));
        }
    }

    /// Calls `execute` on the command in the slot of `command`.
    pub(crate) fn fire_execute(&mut self, command: AnyCommand)
        requires
            old(self)@.knows(command),
        ensures
            final(self)@ == old(self)@.logged(seq![Hook::Execute(command)]),
            final(self).follows(old(self)),
    {
        self.entries[command.id].command.execute();
        self.history = Ghost(self.history@.push(Hook::Execute(command)));
        proof {
            let hooks = seq![Hook::Execute(command)];
            assert(self@.profiles =~= old(self)@.profiles);
            assert(self@.history =~= old(self)@.history + hooks);
            assert(self@.history.skip(old(self)@.history.len() as int) =~= hooks);
            assert(hooks[0].command() == Some(command));
        }
    }

    /// Calls `end` on the command in the slot of `command`.
    pub(crate) fn fire_end(&mut self, command: AnyCommand, interrupted: bool)
        requires
            old(self)@.knows(command),
        ensures
            final(self)@ == old(self)@.logged(seq![Hook::End(command, interrupted)]),
            final(self).follows(old(self)),
    {
        self.entries[command.id].command.end(interrupted);
        self.history = Ghost(self.history@.push(Hook::End(command, interrupted)));
        proof {
            let hooks = seq![Hook::End(command, interrupted)];
            assert(self@.profiles =~= old(self)@.profiles);
            assert(self@.history =~= old(self)@.history + hooks);
            assert(self@.history.skip(old(self)@.history.len() as int) =~= hooks);
            assert(hooks[0].command() == Some(command));
        }
    }

    /// Calls `periodic` on the subsystem in the slot of `subsystem`.
    pub(crate) fn fire_periodic(&mut self, subsystem: AnySubsystem)
        requires
            old(self)@.knows_subsystem(subsystem),
        ensures
            final(self)@ == old(self)@.logged(seq![Hook::Periodic(subsystem)]),
            final(self).follows(old(self)),
    {
        self.fixtures[subsystem.id].periodic();
        self.history = Ghost(self.history@.push(Hook::Periodic(subsystem)));
        proof {
            let hooks = seq![Hook::Periodic(subsystem)];
            assert(self@.history =~= old(self)@.history + hooks);
            assert(self@.history.skip(old(self)@.history.len() as int) =~= hooks);
            assert(hooks[0].subsystem() == Some(subsystem));
        }
    }
}

} // verus!
