use vstd::prelude::*;

use crate::command::{AnyCommand, Command};
use crate::model::Hook;
use crate::subsystem::{AnySubsystem, Subsystem};
use crate::{CommandScheduler, CompetitionMode, ScheduleFailure};

verus! {

impl<C: Command, S: Subsystem> CommandScheduler<C, S> {
    /// The schedule as it is now, for a step that changes it while going
    /// through it.
    pub(crate) fn snapshot(&self) -> (commands: Vec<AnyCommand>)
        ensures
            commands@ == self@.active,
    {
        vstd::slice::slice_to_vec(self.scheduled_commands.as_slice())
    }

    /// The first step of a pass: calls `periodic` on every registered
    /// subsystem, in the order of the slots.
    pub(crate) fn poll_subsystems(&mut self)
        requires
            old(self).wf(),
        ensures
            final(self).wf(),
            final(self)@ == old(self)@.polled(),
            final(self).follows(old(self)),
    {
        let count = self.fixtures.len();
        let ghost before = old(self)@;
        let mut slot: usize = 0;
        proof {
            before.lemma_polled_start();
            self.lemma_follows_self();
        }
        while slot < count
            invariant
                slot <= count,
                count == before.subsystems,
                before == old(self)@,
                self.wf(),
                self.follows(old(self)),
                self@ == before.polled_below(slot as nat),
            decreases count - slot,
        {
            let subsystem = AnySubsystem { id: slot };
            let ghost current = *self;
            proof {
                assert(self@.defaults.contains_key(subsystem) <==> self.subsystems@.contains_key(
                    slot,
                ));
                before.lemma_polled_step(slot);
            }
            if self.subsystems.contains_key(&slot) {
                self.fire_periodic(subsystem);
                proof {
                    current@.lemma_logged_wf(seq![Hook::Periodic(subsystem)]);
                    self.lemma_follows_chain(&current, old(self));
                }
            }
            slot += 1;
        }
    }

    /// The second step of a pass: executes every scheduled command in turn
    /// and, right after it, ends and takes off each that reports that it has
    /// finished. Returns which did.
    pub(crate) fn execute_commands(&mut self) -> (finished: Ghost<Set<AnyCommand>>)
        requires
            old(self).wf(),
        ensures
            final(self).wf(),
            final(self)@ == old(self)@.executed(finished@),
            final(self).follows(old(self)),
            forall|command: AnyCommand|
                finished@.contains(command) ==> old(self)@.scheduled(command),
    {
        let commands = self.snapshot();
        let ghost before = old(self)@;
        let ghost mut done: Set<AnyCommand> = Set::empty();
        let mut next: usize = 0;
        proof {
            before.lemma_executed_start();
            self.lemma_follows_self();
        }
        while next < commands.len()
            invariant
                next <= commands@.len(),
                commands@ == before.active,
                before == old(self)@,
                before.wf(),
                self.wf(),
                self.follows(old(self)),
                forall|command: AnyCommand|
                    done.contains(command) ==> before.active.take(next as int).contains(command),
                self@ == before.executed_upto(next as int, done),
            decreases commands@.len() - next,
        {
            let command = commands[next];
            let ghost current = *self;
            proof {
                before.lemma_executed_step(next as int, done);
            }
            self.fire_execute(command);
            let ghost ran = *self;
            proof {
                current@.lemma_logged_wf(seq![Hook::Execute(command)]);
                self.lemma_follows_chain(&current, old(self));
            }
            if self.entries[command.id].command.finished() {
                self.retire(command, false);
                proof {
                    self.lemma_follows_chain(&ran, old(self));
                    done = done.insert(command);
                }
            }
            next += 1;
        }
        proof {
            before.lemma_executed_end(done);
            assert(before.active.take(before.active.len() as int) =~= before.active);
        }
        Ghost(done)
    }

    /// The third step of a pass: cancels every scheduled command that `mode`
    /// does not let run, in the order of the schedule.
    pub(crate) fn cancel_disallowed(&mut self, mode: CompetitionMode)
        requires
            old(self).wf(),
        ensures
            final(self).wf(),
            final(self)@ == old(self)@.purged(mode),
            final(self).follows(old(self)),
    {
        let disabled = match mode {
            CompetitionMode::Disabled => true,
            _ => false,
        };
        let commands = self.snapshot();
        let ghost before = old(self)@;
        let mut next: usize = 0;
        proof {
            before.lemma_purged_start(mode);
            self.lemma_follows_self();
        }
        while next < commands.len()
            invariant
                next <= commands@.len(),
                commands@ == before.active,
                disabled == (mode is Disabled),
                before == old(self)@,
                before.wf(),
                self.wf(),
                self.follows(old(self)),
                self@ == before.purged_upto(next as int, mode),
            decreases commands@.len() - next,
        {
            let command = commands[next];
            let ghost current = *self;
            proof {
                assert(before.active.contains(command));
                before.lemma_purged_step(next as int, mode);
            }
            if disabled && !self.entries[command.id].runs_when_disabled {
                self.cancel(command);
                proof {
                    self.lemma_follows_chain(&current, old(self));
                }
            }
            next += 1;
        }
        proof {
            before.lemma_purged_end(mode);
        }
    }

    /// The last step of a pass: goes through the registered subsystems in
    /// the order of the slots and tries to schedule the default command of
    /// each that it finds idle. Reports the first attempt that was turned
    /// down, and goes on with the rest all the same.
    pub(crate) fn arm_defaults(&mut self, mode: CompetitionMode) -> (result: Result<
        (),
        ScheduleFailure,
    >)
        requires
            old(self).wf(),
        ensures
            final(self).wf(),
            final(self)@ == old(self)@.rearmed(mode),
            result == old(self)@.rearm_verdict(mode),
            final(self).follows(old(self)),
    {
        let count = self.fixtures.len();
        let ghost before = old(self)@;
        let mut result: Result<(), ScheduleFailure> = Ok(());
        let mut slot: usize = 0;
        proof {
            before.lemma_rearmed_start(mode);
            self.lemma_follows_self();
        }
        while slot < count
            invariant
                slot <= count,
                count == before.subsystems,
                before == old(self)@,
                before.wf(),
                self.wf(),
                self.follows(old(self)),
                self@ == before.rearmed_below(slot as nat, mode),
                result is Ok <==> before.defaults_allowed(before.idle_below(slot as nat), mode),
                result is Ok ==> result == Ok::<(), ScheduleFailure>(()),
                result is Err ==> result == Err::<(), ScheduleFailure>(
                    ScheduleFailure::CompetitionDisabled,
                ),
            decreases count - slot,
        {
            let subsystem = AnySubsystem { id: slot };
            let ghost current = *self;
            proof {
                assert(self@.defaults.contains_key(subsystem) <==> self.subsystems@.contains_key(
                    slot,
                ));
                assert(self@.owners.contains_key(subsystem) <==> self.requirements@.contains_key(
                    slot,
                ));
                before.lemma_rearmed_step(slot, mode);
            }
            let registered = match self.subsystems.get(&slot) {
                Some(command) => Some(*command),
                None => None,
            };
            match registered {
                Some(command) => {
                    if !self.requirements.contains_key(&slot) {
                        let outcome = self.schedule(command, mode);
                        proof {
                            self.lemma_follows_chain(&current, old(self));
                        }
                        match outcome {
                            Ok(()) => {},
                            Err(failure) => {
                                if result.is_ok() {
                                    result = Err(failure);
                                }
                            },
                        }
                    }
                },
                None => {},
            }
            slot += 1;
        }
        result
    }
}

} // verus!
