use vstd::prelude::*;

use crate::command::{AnyCommand, CancelBehavior, Command};
use crate::subsystem::{AnySubsystem, Subsystem};
use crate::CommandScheduler;

verus! {

impl<C: Command, S: Subsystem> CommandScheduler<C, S> {
    /// Whether nothing that `command` requires is held.
    pub(crate) fn unopposed(&self, command: AnyCommand) -> (free: bool)
        requires
            self@.knows(command),
        ensures
            free == forall|subsystem: AnySubsystem|
                self@.needs(command, subsystem) ==> !self@.owners.contains_key(subsystem),
    {
        let wanted = &self.entries[command.id].requirements;
        let mut is_disjoint = true;
        let mut next: usize = 0;
        while next < wanted.len()
            invariant
                next <= wanted@.len(),
                wanted@ == self@.profile(command).requirements,
                is_disjoint == forall|j: int|
                    0 <= j < next ==> !self@.owners.contains_key(#[trigger] wanted@[j]),
            decreases wanted@.len() - next,
        {
            if self.requirements.contains_key(&wanted[next].id) {
                is_disjoint = false;
            }
            next += 1;
        }
        proof {
            if is_disjoint {
                assert forall|subsystem: AnySubsystem|
                    self@.needs(command, subsystem) implies !self@.owners.contains_key(
                    subsystem,
                ) by {
                    let j = choose|j: int| 0 <= j < wanted@.len() && wanted@[j] == subsystem;
                    assert(!self@.owners.contains_key(wanted@[j]));
                }
            } else {
                let j = choose|j: int|
                    0 <= j < next && self@.owners.contains_key(#[trigger] wanted@[j]);
                assert(self@.needs(command, wanted@[j]));
            }
        }
        is_disjoint
    }

    /// Whether something that `command` requires is held by a command that
    /// does not give way.
    pub(crate) fn opposed(&self, command: AnyCommand) -> (found: bool)
        requires
            self.wf(),
            self@.knows(command),
        ensures
            found == self@.blocked(command),
    {
        let wanted = &self.entries[command.id].requirements;
        let mut next: usize = 0;
        while next < wanted.len()
            invariant
                self.wf(),
                next <= wanted@.len(),
                wanted@ == self@.profile(command).requirements,
                forall|j: int|
                    0 <= j < next ==> !(self@.owners.contains_key(#[trigger] wanted@[j])
                        && self@.profile(self@.owners[wanted@[j]]).cancel_behavior
                        == CancelBehavior::CancelIncoming),
            decreases wanted@.len() - next,
        {
            let subsystem = wanted[next];
            match self.requirements.get(&subsystem.id) {
                Some(holder) => {
                    assert(self@.owners.contains_key(subsystem));
                    assert(self@.scheduled(*holder));
                    match self.entries[holder.id].cancel_behavior {
                        CancelBehavior::CancelIncoming => {
                            assert(self@.needs(command, subsystem));
                            return true;
                        },
                        CancelBehavior::CancelRunning => {},
                    }
                },
                None => {},
            }
            next += 1;
        }
        proof {
            if self@.blocked(command) {
                let subsystem = choose|subsystem: AnySubsystem|
                    #[trigger] self@.needs(command, subsystem) && self@.owners.contains_key(
                        subsystem,
                    ) && self@.profile(self@.owners[subsystem]).cancel_behavior
                        == CancelBehavior::CancelIncoming;
                let j = choose|j: int| 0 <= j < wanted@.len() && wanted@[j] == subsystem;
                assert(self@.owners.contains_key(wanted@[j]));
            }
        }
        false
    }

    /// Cancels every command that holds something that `command` requires,
    /// in the order of the requirements.
    pub(crate) fn preempt(&mut self, command: AnyCommand)
        requires
            old(self).wf(),
            old(self)@.knows(command),
        ensures
            final(self).wf(),
            final(self)@ == old(self)@.preempt(command),
            final(self).follows(old(self)),
    {
        let count = self.entries[command.id].requirements.len();
        let ghost before = old(self)@;
        let ghost wanted = before.profile(command).requirements;
        let mut next: usize = 0;
        proof {
            before.lemma_preempted_start(wanted);
            self.lemma_follows_self();
        }
        while next < count
            invariant
                next <= count,
                count == wanted.len(),
                before == old(self)@,
                before.wf(),
                before.knows(command),
                wanted == before.profile(command).requirements,
                self.wf(),
                self.follows(old(self)),
                self@ == before.preempted(wanted, next as int),
            decreases count - next,
        {
            let subsystem = self.entries[command.id].requirements[next];
            let holder = match self.requirements.get(&subsystem.id) {
                Some(holder) => Some(*holder),
                None => None,
            };
            let ghost current = *self;
            proof {
                assert(wanted[next as int] == subsystem);
                assert(holder is Some <==> current@.owners.contains_key(subsystem));
                assert(holder matches Some(found) ==> current@.owners[subsystem] == found);
                before.lemma_preempted_step(wanted, next as int);
            }
            match holder {
                Some(holder) => {
                    self.cancel(holder);
                    proof {
                        self.lemma_follows_chain(&current, old(self));
                    }
                },
                None => {},
            }
            next += 1;
        }
        proof {
            before.lemma_preempted_end(command);
        }
    }

    /// Puts on the schedule a command that is not on it and whose
    /// requirements are all free: claims them, calls its `initialize` hook
    /// and makes it the last to execute.
    pub(crate) fn init_command(&mut self, command: AnyCommand)
        requires
            old(self).wf(),
            old(self)@.knows(command),
            !old(self)@.scheduled(command),
            forall|subsystem: AnySubsystem|
                old(self)@.needs(command, subsystem) ==> !old(self)@.owners.contains_key(subsystem),
        ensures
            final(self).wf(),
            final(self)@ == old(self)@.start(command),
            final(self).follows(old(self)),
    {
        let count = self.entries[command.id].requirements.len();
        let mut next: usize = 0;
        while next < count
            invariant
                next <= count,
                command.id < self.entries@.len(),
                count == self.entries@[command.id as int].requirements@.len(),
                self.entries == old(self).entries,
                self.fixtures == old(self).fixtures,
                self.subsystems == old(self).subsystems,
                self.history == old(self).history,
                self.scheduled_commands == old(self).scheduled_commands,
                forall|subsystem: AnySubsystem|
                    old(self)@.needs(command, subsystem) ==> !old(self)@.owners.contains_key(
                        subsystem,
                    ),
                forall|slot: usize| #[trigger]
                    self.requirements@.contains_key(slot) <==> old(self).requirements@.contains_key(
                        slot,
                    ) || exists|j: int|
                        0 <= j < next && (#[trigger] self.entries@[command.id as int].requirements@[j]).id
                            == slot,
                forall|slot: usize| #[trigger]
                    self.requirements@.contains_key(slot) ==> self.requirements@[slot] == if old(
                        self,
                    ).requirements@.contains_key(slot) {
                        old(self).requirements@[slot]
                    } else {
                        command
                    },
            decreases count - next,
        {
            let subsystem = self.entries[command.id].requirements[next];
            proof {
                let wanted = old(self)@.profile(command).requirements;
                assert(wanted == self.entries@[command.id as int].requirements@);
                assert(wanted[next as int] == subsystem);
                assert(old(self)@.needs(command, subsystem));
                assert(!old(self)@.owners.contains_key(subsystem));
            }
            self.requirements.insert(subsystem.id, command);
            next += 1;
        }
        let ghost claimed = *self;
        self.fire_initialize(command);
        let ghost fired = *self;
        self.scheduled_commands.push(command);
        proof {
            let before = old(self)@;
            assert(self@.profiles =~= before.profiles);
            assert forall|subsystem: AnySubsystem|
                before.needs(command, subsystem) implies self@.owners.contains_key(subsystem) by {
                let j = choose|j: int|
                    0 <= j < before.profile(command).requirements.len() && before.profile(
                        command,
                    ).requirements[j] == subsystem;
                assert(self.entries@[command.id as int].requirements@[j].id == subsystem.id);
            }
            assert forall|subsystem: AnySubsystem|
                self@.owners.contains_key(subsystem) implies before.needs(command, subsystem)
                    || before.owners.contains_key(subsystem) by {
                if !before.owners.contains_key(subsystem) {
                    let j = choose|j: int|
                        0 <= j < count && (
                        #[trigger] self.entries@[command.id as int].requirements@[j]).id
                            == subsystem.id;
                    assert(before.profile(command).requirements[j] == subsystem);
                }
            }
            assert(self@.owners =~= before.start(command).owners);
            assert(self@.history =~= before.start(command).history);
            assert(self@ =~= before.start(command));
            before.lemma_start_wf(command);
            assert(self.follows(old(self))) by {
                assert(fired.follows(&claimed));
                assert(claimed@.history == before.history);
                assert(self@.history == fired@.history);
                assert forall|other: AnyCommand| before.knows(other) implies self.command_at(other)
                    == fired.command_at(other) && claimed.command_at(other) == old(
                    self,
                ).command_at(other) by {}
                assert forall|subsystem: AnySubsystem|
                    before.knows_subsystem(subsystem) implies self.subsystem_at(subsystem)
                    == fired.subsystem_at(subsystem) && claimed.subsystem_at(subsystem) == old(
                    self,
                ).subsystem_at(subsystem) by {}
            }
        }
    }
}

} // verus!
