use vstd::prelude::*;

use crate::command::AnyCommand;
use crate::consistency::lemma_run_hooks_agree;
use crate::model::{ends, periodics, run_hooks, slots, Hook, SchedulerState};
use crate::sequences::{lemma_filter_members, lemma_push_members};
use crate::subsystem::AnySubsystem;
use crate::{CompetitionMode, ScheduleFailure};

verus! {

/// One command further, the hooks of a pass gain that command's.
pub proof fn lemma_run_hooks_step(commands: Seq<AnyCommand>, finished: Set<AnyCommand>, next: int)
    requires
        0 <= next < commands.len(),
    ensures
        run_hooks(commands.take(next + 1), finished) == if finished.contains(commands[next]) {
            run_hooks(commands.take(next), finished) + seq![
                Hook::Execute(commands[next]),
                Hook::End(commands[next], false),
            ]
        } else {
            run_hooks(commands.take(next), finished) + seq![Hook::Execute(commands[next])]
        },
{
    assert(commands.take(next + 1).drop_last() =~= commands.take(next));
    let earlier = run_hooks(commands.take(next), finished);
    let command = commands[next];
    assert(earlier.push(Hook::Execute(command)).push(Hook::End(command, false)) =~= earlier + seq![
        Hook::Execute(command),
        Hook::End(command, false),
    ]);
    assert(earlier.push(Hook::Execute(command)) =~= earlier + seq![Hook::Execute(command)]);
}

impl SchedulerState {
    /// Stepping through the wanted subsystems one by one gives the incumbents.
    pub proof fn lemma_incumbents_step(self, wanted: Seq<AnySubsystem>, next: int)
        requires
            0 <= next < wanted.len(),
        ensures
            self.incumbents(wanted.take(next + 1)) == {
                let earlier = self.incumbents(wanted.take(next));
                if self.owners.contains_key(wanted[next]) && !earlier.contains(
                    self.owners[wanted[next]],
                ) {
                    earlier.push(self.owners[wanted[next]])
                } else {
                    earlier
                }
            },
    {
        assert(wanted.take(next + 1).drop_last() =~= wanted.take(next));
    }

    /// One slot further, the registered subsystems gain that slot's handle if
    /// it is registered.
    pub proof fn lemma_registered_step(self, slot: usize)
        ensures
            self.registered_below((slot + 1) as nat) == if self.defaults.contains_key(
                AnySubsystem { id: slot },
            ) {
                self.registered_below(slot as nat).push(AnySubsystem { id: slot })
            } else {
                self.registered_below(slot as nat)
            },
            forall|subsystem: AnySubsystem| #[trigger]
                self.registered_below(slot as nat).contains(subsystem) ==> subsystem.id < slot
                    && self.defaults.contains_key(subsystem),
    {
        let handle = AnySubsystem { id: slot };
        let is_registered = |subsystem: AnySubsystem| self.defaults.contains_key(subsystem);
        assert(slots((slot + 1) as nat) =~= slots(slot as nat).push(handle));
        slots(slot as nat).lemma_filter_push(handle, is_registered);
        lemma_filter_members(slots(slot as nat), is_registered);
        assert forall|subsystem: AnySubsystem| #[trigger]
            self.registered_below(slot as nat).contains(subsystem) implies subsystem.id
            < slot by {
            let i = choose|i: int|
                0 <= i < slots(slot as nat).len() && slots(slot as nat)[i] == subsystem;
        }
    }

    /// One command further, the banned gain that command if `mode` does not
    /// let it run.
    pub proof fn lemma_banned_step(self, commands: Seq<AnyCommand>, mode: CompetitionMode, next: int)
        requires
            0 <= next < commands.len(),
        ensures
            self.banned_among(commands.take(next + 1), mode) == if self.allowed(
                commands[next],
                mode,
            ) {
                self.banned_among(commands.take(next), mode)
            } else {
                self.banned_among(commands.take(next), mode).push(commands[next])
            },
            forall|command: AnyCommand| #[trigger]
                self.banned_among(commands.take(next), mode).contains(command)
                    ==> commands.take(next).contains(command),
    {
        let is_banned = |command: AnyCommand| !self.allowed(command, mode);
        assert(commands.take(next + 1) =~= commands.take(next).push(commands[next]));
        commands.take(next).lemma_filter_push(commands[next], is_banned);
        lemma_filter_members(commands.take(next), is_banned);
    }

    /// One slot further, the idle subsystems whose default command may run
    /// gain that slot's handle if it is one of them.
    pub proof fn lemma_armable_step(self, slot: usize, mode: CompetitionMode)
        ensures
            self.armable_below((slot + 1) as nat, mode) == {
                let handle = AnySubsystem { id: slot };
                if self.defaults.contains_key(handle) && !self.owners.contains_key(handle)
                    && self.allowed(self.defaults[handle], mode) {
                    self.armable_below(slot as nat, mode).push(handle)
                } else {
                    self.armable_below(slot as nat, mode)
                }
            },
            self.idle_below((slot + 1) as nat) == {
                let handle = AnySubsystem { id: slot };
                if self.defaults.contains_key(handle) && !self.owners.contains_key(handle) {
                    self.idle_below(slot as nat).push(handle)
                } else {
                    self.idle_below(slot as nat)
                }
            },
            forall|subsystem: AnySubsystem| #[trigger]
                self.idle_below(slot as nat).contains(subsystem) ==> subsystem.id < slot
                    && self.defaults.contains_key(subsystem) && !self.owners.contains_key(
                    subsystem,
                ),
            forall|subsystem: AnySubsystem| #[trigger]
                self.armable_below(slot as nat, mode).contains(subsystem) ==> self.idle_below(
                    slot as nat,
                ).contains(subsystem) && self.allowed(self.defaults[subsystem], mode),
    {
        let handle = AnySubsystem { id: slot };
        let is_idle = |subsystem: AnySubsystem| !self.owners.contains_key(subsystem);
        let may_run = |subsystem: AnySubsystem| self.allowed(self.defaults[subsystem], mode);
        self.lemma_registered_step(slot);
        self.registered_below(slot as nat).lemma_filter_push(handle, is_idle);
        self.idle_below(slot as nat).lemma_filter_push(handle, may_run);
        lemma_filter_members(self.registered_below(slot as nat), is_idle);
        lemma_filter_members(self.idle_below(slot as nat), may_run);
    }

    /// One subsystem further, the mode must let its default command run too.
    pub proof fn lemma_defaults_allowed_push(
        self,
        subsystems: Seq<AnySubsystem>,
        last: AnySubsystem,
        mode: CompetitionMode,
    )
        ensures
            self.defaults_allowed(subsystems.push(last), mode) <==> self.defaults_allowed(
                subsystems,
                mode,
            ) && self.allowed(self.defaults[last], mode),
    {
        let longer = subsystems.push(last);
        if self.defaults_allowed(longer, mode) {
            lemma_push_members(subsystems, last, last);
            assert(longer.contains(last));
            assert forall|subsystem: AnySubsystem| #[trigger]
                subsystems.contains(subsystem) implies self.allowed(
                self.defaults[subsystem],
                mode,
            ) by {
                lemma_push_members(subsystems, last, subsystem);
                assert(longer.contains(subsystem));
            }
        }
        if self.defaults_allowed(subsystems, mode) && self.allowed(self.defaults[last], mode) {
            assert forall|subsystem: AnySubsystem| #[trigger]
                longer.contains(subsystem) implies self.allowed(self.defaults[subsystem], mode) by {
                lemma_push_members(subsystems, last, subsystem);
                if subsystem != last {
                    assert(subsystems.contains(subsystem));
                }
            }
        }
    }

    /// The state after the holders of the first `next` of `wanted` were
    /// cancelled.
    pub open spec fn preempted(self, wanted: Seq<AnySubsystem>, next: int) -> SchedulerState {
        let displaced = self.incumbents(wanted.take(next));
        self.logged(ends(displaced, true)).without(displaced.to_set())
    }

    /// Before the first step nothing is cancelled.
    pub proof fn lemma_preempted_start(self, wanted: Seq<AnySubsystem>)
        requires
            self.wf(),
        ensures
            self.preempted(wanted, 0) == self,
    {
        let none = self.incumbents(wanted.take(0));
        assert(none =~= Seq::<AnyCommand>::empty());
        assert(ends(none, true) =~= Seq::<Hook>::empty());
        assert(self.logged(Seq::<Hook>::empty()) =~= self);
        self.lemma_without_strangers(none.to_set());
    }

    /// The holder of the next wanted subsystem, if it has one by now, is
    /// scheduled, and cancelling it is the next step.
    pub proof fn lemma_preempted_step(self, wanted: Seq<AnySubsystem>, next: int)
        requires
            self.wf(),
            0 <= next < wanted.len(),
        ensures
            ({
                let current = self.preempted(wanted, next);
                if current.owners.contains_key(wanted[next]) {
                    current.cancel(current.owners[wanted[next]]) == self.preempted(wanted, next + 1)
                } else {
                    current == self.preempted(wanted, next + 1)
                }
            }),
    {
        let earlier = self.incumbents(wanted.take(next));
        let current = self.preempted(wanted, next);
        let subsystem = wanted[next];
        self.lemma_incumbents_step(wanted, next);
        if current.owners.contains_key(subsystem) {
            let holder = current.owners[subsystem];
            let end = seq![Hook::End(holder, true)];
            assert(!earlier.contains(holder));
            assert(self.active.contains(holder));
            lemma_filter_members(
                self.active,
                |other: AnyCommand| !earlier.to_set().contains(other),
            );
            assert(current.scheduled(holder));
            earlier.lemma_push_map_commute(|command: AnyCommand| Hook::End(command, true), holder);
            earlier.lemma_push_to_set_commute(holder);
            assert(ends(earlier.push(holder), true) =~= ends(earlier, true) + end);
            assert(earlier.to_set().union(set![holder]) =~= earlier.push(holder).to_set());
            self.logged(ends(earlier, true) + end).lemma_without_twice(
                earlier.to_set(),
                set![holder],
            );
            assert(current.logged(end) =~= self.logged(ends(earlier, true) + end).without(
                earlier.to_set(),
            ));
        } else {
            assert(!self.owners.contains_key(subsystem) || earlier.contains(
                self.owners[subsystem],
            ));
        }
    }

    /// After the last step every holder of what `command` requires is
    /// cancelled.
    pub proof fn lemma_preempted_end(self, command: AnyCommand)
        ensures
            self.preempted(
                self.profile(command).requirements,
                self.profile(command).requirements.len() as int,
            ) == self.preempt(command),
    {
        let wanted = self.profile(command).requirements;
        assert(wanted.take(wanted.len() as int) =~= wanted);
    }

    /// The state after `Periodic` ran on the registered subsystems in the
    /// slots below `slot`.
    pub open spec fn polled_below(self, slot: nat) -> SchedulerState {
        self.logged(periodics(self.registered_below(slot)))
    }

    /// Before the first step no hook was called.
    pub proof fn lemma_polled_start(self)
        ensures
            self.polled_below(0) == self,
    {
        let none = self.registered_below(0);
        lemma_filter_members(
            slots(0),
            |subsystem: AnySubsystem| self.defaults.contains_key(subsystem),
        );
        assert(none =~= Seq::<AnySubsystem>::empty()) by {
            if none.len() > 0 {
                assert(none.contains(none[0]));
            }
        }
        assert(periodics(none) =~= Seq::<Hook>::empty());
        assert(self.logged(Seq::<Hook>::empty()) =~= self);
    }

    /// Calling `Periodic` on the subsystem in `slot`, if it is registered, is
    /// the next step.
    pub proof fn lemma_polled_step(self, slot: usize)
        ensures
            ({
                let handle = AnySubsystem { id: slot };
                if self.defaults.contains_key(handle) {
                    self.polled_below(slot as nat).logged(seq![Hook::Periodic(handle)])
                        == self.polled_below((slot + 1) as nat)
                } else {
                    self.polled_below(slot as nat) == self.polled_below((slot + 1) as nat)
                }
            }),
    {
        let handle = AnySubsystem { id: slot };
        let earlier = self.registered_below(slot as nat);
        self.lemma_registered_step(slot);
        if self.defaults.contains_key(handle) {
            earlier.lemma_push_map_commute(
                |subsystem: AnySubsystem| Hook::Periodic(subsystem),
                handle,
            );
            assert(periodics(earlier.push(handle)) =~= periodics(earlier) + seq![
                Hook::Periodic(handle),
            ]);
            assert(self.logged(periodics(earlier)).logged(seq![Hook::Periodic(handle)])
                =~= self.logged(periodics(earlier) + seq![Hook::Periodic(handle)]));
        }
    }

    /// The state after the first `next` scheduled commands were executed,
    /// and those of them in `done` were ended and taken off.
    pub open spec fn executed_upto(self, next: int, done: Set<AnyCommand>) -> SchedulerState {
        self.logged(run_hooks(self.active.take(next), done)).without(done)
    }

    /// Before the first step nothing was executed.
    pub proof fn lemma_executed_start(self)
        requires
            self.wf(),
        ensures
            self.executed_upto(0, Set::empty()) == self,
    {
        assert(run_hooks(self.active.take(0), Set::empty()) =~= Seq::<Hook>::empty());
        assert(self.logged(Seq::<Hook>::empty()) =~= self);
        self.lemma_without_strangers(Set::empty());
    }

    /// The next command is still scheduled; executing it, and taking it off
    /// if it has finished, is the next step.
    pub proof fn lemma_executed_step(self, next: int, done: Set<AnyCommand>)
        requires
            self.wf(),
            0 <= next < self.active.len(),
            forall|command: AnyCommand|
                done.contains(command) ==> self.active.take(next).contains(command),
        ensures
            ({
                let command = self.active[next];
                let current = self.executed_upto(next, done);
                let ran = current.logged(seq![Hook::Execute(command)]);
                &&& current.scheduled(command)
                &&& ran == self.executed_upto(next + 1, done)
                &&& ran.retire(command, false) == self.executed_upto(
                    next + 1,
                    done.insert(command),
                )
                &&& forall|other: AnyCommand|
                    done.insert(command).contains(other) ==> self.active.take(next + 1).contains(
                        other,
                    )
            }),
    {
        let command = self.active[next];
        let current = self.executed_upto(next, done);
        let earlier = run_hooks(self.active.take(next), done);
        let execute = seq![Hook::Execute(command)];
        let end = seq![Hook::End(command, false)];
        let grown = done.insert(command);
        assert(self.active.contains(command));
        assert(!done.contains(command)) by {
            if done.contains(command) {
                let i = choose|i: int|
                    0 <= i < self.active.take(next).len() && self.active.take(next)[i] == command;
                assert(self.active[i] == self.active[next]);
            }
        }
        lemma_filter_members(self.active, |other: AnyCommand| !done.contains(other));
        assert(current.scheduled(command));
        lemma_run_hooks_step(self.active, done, next);
        assert(current.logged(execute) =~= self.logged(earlier + execute).without(done));
        lemma_run_hooks_agree(self.active.take(next), done, grown);
        lemma_run_hooks_step(self.active, grown, next);
        assert(execute + end =~= seq![Hook::Execute(command), Hook::End(command, false)]);
        assert(current.logged(execute).logged(end) =~= self.logged(
            earlier + (execute + end),
        ).without(done));
        self.logged(earlier + (execute + end)).lemma_without_twice(done, set![command]);
        assert(done.union(set![command]) =~= grown);
        assert(current.logged(execute).scheduled(command));
        assert(self.active.take(next + 1) =~= self.active.take(next).push(command));
        assert forall|other: AnyCommand| grown.contains(other) implies self.active.take(
            next + 1,
        ).contains(other) by {
            lemma_push_members(self.active.take(next), command, other);
        }
    }

    /// After the last step the second step of the pass is done.
    pub proof fn lemma_executed_end(self, done: Set<AnyCommand>)
        ensures
            self.executed_upto(self.active.len() as int, done) == self.executed(done),
    {
        assert(self.active.take(self.active.len() as int) =~= self.active);
    }

    /// The state after those of the first `next` scheduled commands that
    /// `mode` does not let run were cancelled.
    pub open spec fn purged_upto(self, next: int, mode: CompetitionMode) -> SchedulerState {
        let banned = self.banned_among(self.active.take(next), mode);
        self.logged(ends(banned, true)).without(banned.to_set())
    }

    /// Before the first step nothing is cancelled.
    pub proof fn lemma_purged_start(self, mode: CompetitionMode)
        requires
            self.wf(),
        ensures
            self.purged_upto(0, mode) == self,
    {
        let none = self.banned_among(self.active.take(0), mode);
        lemma_filter_members(
            self.active.take(0),
            |command: AnyCommand| !self.allowed(command, mode),
        );
        assert(none =~= Seq::<AnyCommand>::empty()) by {
            if none.len() > 0 {
                assert(none.contains(none[0]));
            }
        }
        assert(ends(none, true) =~= Seq::<Hook>::empty());
        assert(self.logged(Seq::<Hook>::empty()) =~= self);
        self.lemma_without_strangers(none.to_set());
    }

    /// Cancelling the next command, if `mode` does not let it run, is the
    /// next step.
    pub proof fn lemma_purged_step(self, next: int, mode: CompetitionMode)
        requires
            self.wf(),
            0 <= next < self.active.len(),
        ensures
            ({
                let command = self.active[next];
                let current = self.purged_upto(next, mode);
                if self.allowed(command, mode) {
                    current == self.purged_upto(next + 1, mode)
                } else {
                    current.cancel(command) == self.purged_upto(next + 1, mode)
                }
            }),
    {
        let command = self.active[next];
        let current = self.purged_upto(next, mode);
        let earlier = self.banned_among(self.active.take(next), mode);
        self.lemma_banned_step(self.active, mode, next);
        if !self.allowed(command, mode) {
            let end = seq![Hook::End(command, true)];
            assert(self.active.contains(command));
            assert(!earlier.contains(command)) by {
                if earlier.contains(command) {
                    let i = choose|i: int|
                        0 <= i < self.active.take(next).len() && self.active.take(next)[i]
                            == command;
                    assert(self.active[i] == self.active[next]);
                }
            }
            lemma_filter_members(
                self.active,
                |other: AnyCommand| !earlier.to_set().contains(other),
            );
            assert(current.scheduled(command));
            earlier.lemma_push_map_commute(|command: AnyCommand| Hook::End(command, true), command);
            earlier.lemma_push_to_set_commute(command);
            assert(ends(earlier.push(command), true) =~= ends(earlier, true) + end);
            assert(earlier.to_set().union(set![command]) =~= earlier.push(command).to_set());
            self.logged(ends(earlier, true) + end).lemma_without_twice(
                earlier.to_set(),
                set![command],
            );
            assert(current.logged(end) =~= self.logged(ends(earlier, true) + end).without(
                earlier.to_set(),
            ));
        }
    }

    /// After the last step the third step of the pass is done.
    pub proof fn lemma_purged_end(self, mode: CompetitionMode)
        ensures
            self.purged_upto(self.active.len() as int, mode) == self.purged(mode),
    {
        assert(self.active.take(self.active.len() as int) =~= self.active);
    }

    /// The state after the default commands of the idle subsystems below
    /// `slot` were started, as far as `mode` lets them run.
    pub open spec fn rearmed_below(self, slot: nat, mode: CompetitionMode) -> SchedulerState {
        self.arm(self.armable_below(slot, mode))
    }

    /// Before the first step no default command was started, and no attempt
    /// was turned down.
    pub proof fn lemma_rearmed_start(self, mode: CompetitionMode)
        ensures
            self.rearmed_below(0, mode) == self,
            self.defaults_allowed(self.idle_below(0), mode),
    {
        self.lemma_armable_step(0, mode);
        let none = self.armable_below(0, mode);
        assert(none =~= Seq::<AnySubsystem>::empty()) by {
            if none.len() > 0 {
                assert(none.contains(none[0]));
            }
        }
        self.lemma_arm_none();
    }

    /// The subsystem in `slot` is idle by now exactly if it was idle at
    /// first. If it is registered and idle, an attempt to schedule its
    /// default command is the next step, and only the mode can turn it down.
    pub proof fn lemma_rearmed_step(self, slot: usize, mode: CompetitionMode)
        requires
            self.wf(),
        ensures
            ({
                let handle = AnySubsystem { id: slot };
                let current = self.rearmed_below(slot as nat, mode);
                let next = self.rearmed_below((slot + 1) as nat, mode);
                let so_far = self.defaults_allowed(self.idle_below(slot as nat), mode);
                let then = self.defaults_allowed(self.idle_below((slot + 1) as nat), mode);
                &&& current.defaults == self.defaults
                &&& current.owners.contains_key(handle) == self.owners.contains_key(handle)
                &&& if self.defaults.contains_key(handle) && !self.owners.contains_key(handle) {
                    let command = self.defaults[handle];
                    &&& current.knows(command)
                    &&& current.schedule(command, mode) == next
                    &&& current.verdict(command, mode) == if self.allowed(command, mode) {
                        Ok::<(), ScheduleFailure>(())
                    } else {
                        Err::<(), ScheduleFailure>(ScheduleFailure::CompetitionDisabled)
                    }
                    &&& then == (so_far && self.allowed(command, mode))
                } else {
                    current == next && then == so_far
                }
            }),
    {
        let handle = AnySubsystem { id: slot };
        let armed = self.armable_below(slot as nat, mode);
        let idle = self.idle_below(slot as nat);
        self.lemma_armable_step(slot, mode);
        assert(!armed.contains(handle));
        if self.defaults.contains_key(handle) && !self.owners.contains_key(handle) {
            self.lemma_arm_next(armed, handle, mode);
            self.lemma_defaults_allowed_push(idle, handle, mode);
        }
    }
}

} // verus!
