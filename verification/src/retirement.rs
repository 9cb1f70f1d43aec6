use vstd::prelude::*;

use crate::command::{AnyCommand, Command};
use crate::sequences::lemma_remove_is_filter;
use crate::subsystem::{AnySubsystem, Subsystem};
use crate::CommandScheduler;

verus! {

impl<C: Command, S: Subsystem> CommandScheduler<C, S> {
    /// Takes a scheduled command off the schedule and releases what it holds,
    /// without calling any hook.
    pub(crate) fn withdraw(&mut self, command: AnyCommand)
        requires
            old(self).wf(),
            old(self)@.scheduled(command),
        ensures
            final(self).wf(),
            final(self)@ == old(self)@.without(set![command]),
            final(self).same_objects(old(self)),
    {
        let total = self.scheduled_commands.len();
        let mut at: usize = 0;
        while self.scheduled_commands[at].id != command.id
            invariant
                *self == *old(self),
                total == self.scheduled_commands@.len(),
                at < total,
                self.scheduled_commands@.contains(command),
                forall|j: int| 0 <= j < at ==> self.scheduled_commands@[j] != command,
            decreases self.scheduled_commands@.len() - at,
        {
            proof {
                let i = choose|i: int|
                    0 <= i < self.scheduled_commands@.len() && self.scheduled_commands@[i]
                        == command;
                assert(i > at);
            }
            at += 1;
        }
        self.scheduled_commands.remove(at);
        proof {
            lemma_remove_is_filter(
                old(self)@.active,
                at as int,
                |other: AnyCommand| !set![command].contains(other),
            );
        }
        let count = self.entries[command.id].requirements.len();
        let mut next: usize = 0;
        while next < count
            invariant
                next <= count,
                command.id < self.entries@.len(),
                count == self.entries@[command.id as int].requirements@.len(),
                self.entries == old(self).entries,
                self.fixtures == old(self).fixtures,
                self.subsystems == old(self).subsystems,
                self.history == old(self).history,
                self.scheduled_commands@ == old(self)@.without(set![command]).active,
                forall|slot: usize| #[trigger]
                    self.requirements@.contains_key(slot) ==> old(self).requirements@.contains_key(
                        slot,
                    ) && self.requirements@[slot] == old(self).requirements@[slot],
                forall|slot: usize|
                    old(self).requirements@.contains_key(slot) && old(self).requirements@[slot]
                        != command ==> #[trigger] self.requirements@.contains_key(slot),
                forall|j: int|
                    0 <= j < next ==> !(self.requirements@.contains_key(
                        (#[trigger] self.entries@[command.id as int].requirements@[j]).id,
                    ) && self.requirements@[self.entries@[command.id as int].requirements@[j].id]
                        == command),
            decreases count - next,
        {
            let subsystem = self.entries[command.id].requirements[next];
            let held = match self.requirements.get(&subsystem.id) {
                Some(holder) => holder.id == command.id,
                None => false,
            };
            if held {
                self.requirements.remove(&subsystem.id);
            }
            next += 1;
        }
        proof {
            let before = old(self)@;
            assert forall|subsystem: AnySubsystem|
                before.owners.contains_key(subsystem) && before.owners[subsystem]
                    == command implies !self@.owners.contains_key(subsystem) by {
                assert(before.needs(command, subsystem));
                let j = choose|j: int|
                    0 <= j < before.profile(command).requirements.len() && before.profile(
                        command,
                    ).requirements[j] == subsystem;
                assert(self.entries@[command.id as int].requirements@[j] == subsystem);
            }
            assert(self@.owners =~= before.without(set![command]).owners);
            assert(self@.profiles =~= before.profiles);
            before.lemma_without_wf(set![command]);
        }
    }
}

} // verus!
