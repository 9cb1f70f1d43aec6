use vstd::prelude::*;

use crate::command::AnyCommand;
use crate::model::{ends, periodics, run_hooks, slots, Hook, Profile, SchedulerState};
use crate::sequences::{
    lemma_filter_all, lemma_filter_members, lemma_filter_no_duplicates, lemma_filter_twice,
    lemma_front_member, lemma_push_members,
};
use crate::subsystem::AnySubsystem;
use crate::{CompetitionMode, ScheduleFailure};

verus! {

/// The hooks of a pass depend on `finished` only through the commands passed.
pub proof fn lemma_run_hooks_agree(
    commands: Seq<AnyCommand>,
    finished: Set<AnyCommand>,
    other: Set<AnyCommand>,
)
    requires
        forall|command: AnyCommand|
            commands.contains(command) ==> finished.contains(command) == other.contains(command),
    ensures
        run_hooks(commands, finished) == run_hooks(commands, other),
    decreases commands.len(),
{
    if commands.len() > 0 {
        let front = commands.drop_last();
        assert forall|command: AnyCommand| front.contains(command) implies finished.contains(
            command,
        ) == other.contains(command) by {
            lemma_front_member(commands, command);
        }
        lemma_run_hooks_agree(front, finished, other);
        assert(commands.contains(commands.last())) by {
            assert(commands[commands.len() - 1] == commands.last());
        }
    }
}

/// The hooks of a pass hold, for each command passed that is in `finished`,
/// its `Execute` and right after it its `End`, not interrupted.
pub proof fn lemma_run_hooks_finished(
    commands: Seq<AnyCommand>,
    finished: Set<AnyCommand>,
    command: AnyCommand,
)
    requires
        commands.contains(command),
        finished.contains(command),
    ensures
        exists|i: int|
            0 <= i && i + 1 < run_hooks(commands, finished).len() && #[trigger] run_hooks(
                commands,
                finished,
            )[i] == Hook::Execute(command) && run_hooks(commands, finished)[i + 1] == Hook::End(
                command,
                false,
            ),
    decreases commands.len(),
{
    let hooks = run_hooks(commands, finished);
    let front = commands.drop_last();
    let earlier = run_hooks(front, finished);
    if commands.last() == command {
        assert(hooks[earlier.len() as int] == Hook::Execute(command));
        assert(hooks[earlier.len() as int + 1] == Hook::End(command, false));
    } else {
        assert(front.contains(command)) by {
            let i = choose|i: int| 0 <= i < commands.len() && commands[i] == command;
            assert(front[i] == command);
        }
        lemma_run_hooks_finished(front, finished, command);
        let i = choose|i: int|
            0 <= i && i + 1 < earlier.len() && #[trigger] earlier[i] == Hook::Execute(command)
                && earlier[i + 1] == Hook::End(command, false);
        assert(hooks[i] == earlier[i]);
        assert(hooks[i + 1] == earlier[i + 1]);
    }
}

/// The hooks of a pass on commands are hooks of commands.
pub proof fn lemma_run_hooks_kinds(commands: Seq<AnyCommand>, finished: Set<AnyCommand>)
    ensures
        forall|i: int|
            0 <= i < run_hooks(commands, finished).len() ==> (#[trigger] run_hooks(
                commands,
                finished,
            )[i]).subsystem() is None,
    decreases commands.len(),
{
    if commands.len() > 0 {
        lemma_run_hooks_kinds(commands.drop_last(), finished);
    }
}

impl SchedulerState {
    /// Calling hooks keeps the invariant.
    pub proof fn lemma_logged_wf(self, hooks: Seq<Hook>)
        requires
            self.wf(),
        ensures
            self.logged(hooks).wf(),
    {
        let next = self.logged(hooks);
        assert forall|command: AnyCommand, subsystem: AnySubsystem|
            next.active.contains(command) && #[trigger] next.needs(
                command,
                subsystem,
            ) implies next.owners.contains_key(subsystem) && next.owners[subsystem] == command by {
            assert(self.needs(command, subsystem));
        }
    }

    /// Taking commands off the schedule keeps the invariant.
    pub proof fn lemma_without_wf(self, gone: Set<AnyCommand>)
        requires
            self.wf(),
        ensures
            self.without(gone).wf(),
    {
        let next = self.without(gone);
        let stays = |command: AnyCommand| !gone.contains(command);
        lemma_filter_members(self.active, stays);
        lemma_filter_no_duplicates(self.active, stays);
        assert forall|command: AnyCommand, subsystem: AnySubsystem|
            next.active.contains(command) && #[trigger] next.needs(
                command,
                subsystem,
            ) implies next.owners.contains_key(subsystem) && next.owners[subsystem] == command by {
            assert(self.needs(command, subsystem));
        }
        assert forall|subsystem: AnySubsystem| #[trigger]
            next.owners.contains_key(subsystem) implies next.active.contains(
            next.owners[subsystem],
        ) && next.needs(next.owners[subsystem], subsystem) by {
            assert(self.owners.contains_key(subsystem));
            assert(self.needs(self.owners[subsystem], subsystem));
        }
    }

    /// Taking off first some commands and then others is taking off all of
    /// them at once.
    pub proof fn lemma_without_twice(self, first: Set<AnyCommand>, second: Set<AnyCommand>)
        ensures
            self.without(first).without(second) == self.without(first.union(second)),
    {
        lemma_filter_twice(
            self.active,
            |command: AnyCommand| !first.contains(command),
            |command: AnyCommand| !second.contains(command),
            |command: AnyCommand| !first.union(second).contains(command),
        );
        assert(self.without(first).without(second).owners =~= self.without(
            first.union(second),
        ).owners);
    }

    /// Taking off commands of which none is scheduled changes nothing.
    pub proof fn lemma_without_strangers(self, gone: Set<AnyCommand>)
        requires
            self.wf(),
            forall|command: AnyCommand| self.active.contains(command) ==> !gone.contains(command),
        ensures
            self.without(gone) == self,
    {
        lemma_filter_all(self.active, |command: AnyCommand| !gone.contains(command));
        assert(self.without(gone).owners =~= self.owners);
    }

    /// Starting a command that is not scheduled and requires only free
    /// subsystems keeps the invariant.
    pub proof fn lemma_start_wf(self, command: AnyCommand)
        requires
            self.wf(),
            self.knows(command),
            !self.scheduled(command),
            forall|subsystem: AnySubsystem|
                self.needs(command, subsystem) ==> !self.owners.contains_key(subsystem),
        ensures
            self.start(command).wf(),
    {
        let next = self.start(command);
        assert forall|other: AnyCommand| #[trigger] next.active.contains(other) implies next.knows(
            other,
        ) by {
            lemma_push_members(self.active, command, other);
        }
        assert forall|other: AnyCommand, subsystem: AnySubsystem|
            next.active.contains(other) && #[trigger] next.needs(
                other,
                subsystem,
            ) implies next.owners.contains_key(subsystem) && next.owners[subsystem] == other by {
            lemma_push_members(self.active, command, other);
            if other != command {
                assert(self.needs(other, subsystem));
            }
        }
        assert forall|subsystem: AnySubsystem| #[trigger]
            next.owners.contains_key(subsystem) implies next.active.contains(
            next.owners[subsystem],
        ) && next.needs(next.owners[subsystem], subsystem) by {
            lemma_push_members(self.active, command, next.owners[subsystem]);
            if !self.needs(command, subsystem) {
                assert(self.owners.contains_key(subsystem));
                assert(self.needs(self.owners[subsystem], subsystem));
            }
        }
        assert(next.active.no_duplicates()) by {
            assert forall|i: int, j: int|
                0 <= i < next.active.len() && 0 <= j < next.active.len() && i
                    != j implies next.active[i] != next.active[j] by {
                if i < self.active.len() {
                    assert(self.active.contains(self.active[i]));
                }
                if j < self.active.len() {
                    assert(self.active.contains(self.active[j]));
                }
            }
        }
    }

    /// A new subsystem slot keeps the invariant.
    pub proof fn lemma_with_subsystem_wf(self)
        requires
            self.wf(),
            self.subsystems < usize::MAX,
        ensures
            self.with_subsystem().wf(),
    {
        let next = self.with_subsystem();
        assert forall|command: AnyCommand, subsystem: AnySubsystem|
            next.active.contains(command) && #[trigger] next.needs(
                command,
                subsystem,
            ) implies next.owners.contains_key(subsystem) && next.owners[subsystem] == command by {
            assert(self.needs(command, subsystem));
        }
    }

    /// A new command slot keeps the invariant.
    pub proof fn lemma_with_command_wf(self, profile: Profile)
        requires
            self.wf(),
        ensures
            self.with_command(profile).wf(),
    {
        let next = self.with_command(profile);
        assert forall|command: AnyCommand| self.knows(command) implies next.profile(command)
            == self.profile(command) by {}
        assert forall|command: AnyCommand, subsystem: AnySubsystem|
            next.active.contains(command) && #[trigger] next.needs(
                command,
                subsystem,
            ) implies next.owners.contains_key(subsystem) && next.owners[subsystem] == command by {
            assert(self.knows(command));
            assert(self.needs(command, subsystem));
        }
        assert forall|subsystem: AnySubsystem| #[trigger]
            next.owners.contains_key(subsystem) implies next.active.contains(
            next.owners[subsystem],
        ) && next.needs(next.owners[subsystem], subsystem) by {
            assert(self.knows(self.owners[subsystem]));
            assert(self.needs(self.owners[subsystem], subsystem));
        }
    }

    /// Registering a default command that requires its subsystem alone keeps
    /// the invariant.
    pub proof fn lemma_register_wf(self, subsystem: AnySubsystem, command: AnyCommand)
        requires
            self.wf(),
            self.knows_subsystem(subsystem),
            self.knows(command),
            self.profile(command).requirements == seq![subsystem],
        ensures
            self.register(subsystem, command).wf(),
    {
        let next = self.register(subsystem, command);
        assert forall|other: AnyCommand, wanted: AnySubsystem|
            next.active.contains(other) && #[trigger] next.needs(
                other,
                wanted,
            ) implies next.owners.contains_key(wanted) && next.owners[wanted] == other by {
            assert(self.needs(other, wanted));
        }
    }

    /// Taking a command off the schedule keeps the invariant.
    pub proof fn lemma_retire_wf(self, command: AnyCommand, interrupted: bool)
        requires
            self.wf(),
        ensures
            self.retire(command, interrupted).wf(),
    {
        self.lemma_logged_wf(seq![Hook::End(command, interrupted)]);
        self.logged(seq![Hook::End(command, interrupted)]).lemma_without_wf(set![command]);
    }

    /// The incumbents are the holders of the wanted subsystems, each once.
    pub proof fn lemma_incumbents(self, wanted: Seq<AnySubsystem>)
        ensures
            self.incumbents(wanted).no_duplicates(),
            forall|command: AnyCommand| #[trigger]
                self.incumbents(wanted).contains(command) <==> exists|subsystem: AnySubsystem|
                    #[trigger] wanted.contains(subsystem) && self.owners.contains_key(subsystem)
                        && self.owners[subsystem] == command,
        decreases wanted.len(),
    {
        if wanted.len() > 0 {
            let front = wanted.drop_last();
            let last = wanted.last();
            let earlier = self.incumbents(front);
            self.lemma_incumbents(front);
            assert(wanted =~= front.push(last));
            assert forall|command: AnyCommand| #[trigger]
                self.incumbents(wanted).contains(command) <==> exists|subsystem: AnySubsystem|
                    #[trigger] wanted.contains(subsystem) && self.owners.contains_key(subsystem)
                        && self.owners[subsystem] == command by {
                lemma_push_members(earlier, self.owners[last], command);
                if self.incumbents(wanted).contains(command) {
                    if earlier.contains(command) {
                        let subsystem = choose|subsystem: AnySubsystem|
                            #[trigger] front.contains(subsystem) && self.owners.contains_key(
                                subsystem,
                            ) && self.owners[subsystem] == command;
                        lemma_push_members(front, last, subsystem);
                    } else {
                        lemma_push_members(front, last, last);
                    }
                }
                if exists|subsystem: AnySubsystem|
                    #[trigger] wanted.contains(subsystem) && self.owners.contains_key(subsystem)
                        && self.owners[subsystem] == command {
                    let subsystem = choose|subsystem: AnySubsystem|
                        #[trigger] wanted.contains(subsystem) && self.owners.contains_key(
                            subsystem,
                        ) && self.owners[subsystem] == command;
                    lemma_push_members(front, last, subsystem);
                    if subsystem != last {
                        assert(front.contains(subsystem));
                    }
                }
            }
        }
    }

    /// Cancelling the holders of what a command requires keeps the invariant
    /// and frees all that the command requires.
    pub proof fn lemma_preempt_wf(self, command: AnyCommand)
        requires
            self.wf(),
        ensures
            self.preempt(command).wf(),
            forall|subsystem: AnySubsystem|
                self.needs(command, subsystem) ==> !self.preempt(command).owners.contains_key(
                    subsystem,
                ),
            forall|other: AnyCommand|
                self.preempt(command).scheduled(other) ==> self.scheduled(other),
    {
        let wanted = self.profile(command).requirements;
        let displaced = self.incumbents(wanted);
        self.lemma_incumbents(wanted);
        self.lemma_logged_wf(ends(displaced, true));
        self.logged(ends(displaced, true)).lemma_without_wf(displaced.to_set());
        lemma_filter_members(self.active, |other: AnyCommand| !displaced.to_set().contains(other));
        assert forall|subsystem: AnySubsystem|
            self.needs(command, subsystem) implies !self.preempt(command).owners.contains_key(
            subsystem,
        ) by {
            if self.owners.contains_key(subsystem) {
                assert(wanted.contains(subsystem));
                assert(displaced.contains(self.owners[subsystem]));
            }
        }
    }

    /// Cancelling the holders of what a command requires changes nothing
    /// where nothing of it is held.
    pub proof fn lemma_preempt_free(self, command: AnyCommand)
        requires
            forall|subsystem: AnySubsystem|
                self.needs(command, subsystem) ==> !self.owners.contains_key(subsystem),
        ensures
            self.preempt(command) == self,
    {
        let wanted = self.profile(command).requirements;
        let displaced = self.incumbents(wanted);
        self.lemma_incumbents(wanted);
        assert(displaced =~= Seq::<AnyCommand>::empty()) by {
            if displaced.len() > 0 {
                assert(displaced.contains(displaced[0]));
                let subsystem = choose|subsystem: AnySubsystem|
                    #[trigger] wanted.contains(subsystem) && self.owners.contains_key(subsystem)
                        && self.owners[subsystem] == displaced[0];
                assert(self.needs(command, subsystem));
            }
        }
        assert(ends(displaced, true) =~= Seq::<Hook>::empty());
        lemma_filter_all(self.active, |other: AnyCommand| !displaced.to_set().contains(other));
        assert(self.preempt(command).owners =~= self.owners);
        assert(self.preempt(command).history =~= self.history);
    }

    /// An attempt to schedule a command keeps the invariant.
    pub proof fn lemma_schedule_wf(self, command: AnyCommand, mode: CompetitionMode)
        requires
            self.wf(),
            self.knows(command),
        ensures
            self.schedule(command, mode).wf(),
    {
        if self.verdict(command, mode) is Ok {
            self.lemma_preempt_wf(command);
            let cleared = self.preempt(command);
            assert forall|subsystem: AnySubsystem|
                cleared.needs(command, subsystem) implies !cleared.owners.contains_key(
                subsystem,
            ) by {
                assert(self.needs(command, subsystem));
            }
            cleared.lemma_start_wf(command);
        }
    }

    /// A default command requires its subsystem and nothing else.
    pub proof fn lemma_default_needs(self, subsystem: AnySubsystem)
        requires
            self.wf(),
            self.defaults.contains_key(subsystem),
        ensures
            forall|other: AnySubsystem|
                self.needs(self.defaults[subsystem], other) <==> other == subsystem,
    {
        let wanted = self.profile(self.defaults[subsystem]).requirements;
        assert(wanted == seq![subsystem]);
        assert(wanted[0] == subsystem);
        assert forall|other: AnySubsystem| self.needs(self.defaults[subsystem], other) implies other
            == subsystem by {
            let i = choose|i: int| 0 <= i < wanted.len() && wanted[i] == other;
        }
    }

    /// The default command of an idle subsystem is not scheduled, also after
    /// the default commands of other idle subsystems were started.
    pub proof fn lemma_default_waits(self, armed: Seq<AnySubsystem>, subsystem: AnySubsystem)
        requires
            self.wf(),
            forall|other: AnySubsystem|
                armed.contains(other) ==> other != subsystem && self.defaults.contains_key(other),
            self.defaults.contains_key(subsystem),
            !self.owners.contains_key(subsystem),
        ensures
            !self.arm(armed).scheduled(self.defaults[subsystem]),
    {
        let current = self.arm(armed);
        let command = self.defaults[subsystem];
        self.lemma_default_needs(subsystem);
        if current.active.contains(command) {
            let i = choose|i: int| 0 <= i < current.active.len() && current.active[i] == command;
            if i < self.active.len() {
                assert(self.active[i] == command);
                assert(self.active.contains(command));
                assert(self.needs(command, subsystem));
            } else {
                let other = armed[i - self.active.len()];
                assert(armed.contains(other));
                assert(self.defaults[other] == command);
                self.lemma_default_needs(other);
                assert(self.needs(command, other));
            }
        }
    }

    /// Starting no default command changes nothing.
    pub proof fn lemma_arm_none(self)
        ensures
            self.arm(Seq::empty()) == self,
    {
        let none = Seq::<AnySubsystem>::empty();
        let armed = self.arm(none);
        assert(armed.active =~= self.active);
        assert(armed.owners =~= self.owners);
        assert(armed.history =~= self.history);
    }

    /// Starting the default command of one more idle subsystem.
    pub proof fn lemma_arm_push(self, armed: Seq<AnySubsystem>, subsystem: AnySubsystem)
        requires
            self.wf(),
            self.defaults.contains_key(subsystem),
            !self.owners.contains_key(subsystem),
        ensures
            self.arm(armed).start(self.defaults[subsystem]) == self.arm(armed.push(subsystem)),
    {
        let command = self.defaults[subsystem];
        let next = self.arm(armed).start(command);
        let goal = self.arm(armed.push(subsystem));
        self.lemma_default_needs(subsystem);
        armed.lemma_push_map_commute(|other: AnySubsystem| self.defaults[other], subsystem);
        armed.lemma_push_map_commute(
            |other: AnySubsystem| Hook::Initialize(self.defaults[other]),
            subsystem,
        );
        assert(next.active =~= goal.active);
        assert(next.history =~= goal.history);
        assert forall|other: AnySubsystem|
            armed.push(subsystem).contains(other) <==> armed.contains(other) || other
                == subsystem by {
            lemma_push_members(armed, subsystem, other);
        }
        assert forall|other: AnySubsystem|
            next.owners.contains_key(other) <==> goal.owners.contains_key(other) by {
            lemma_push_members(armed, subsystem, other);
            assert(self.arm(armed).needs(command, other) == self.needs(command, other));
        }
        assert forall|other: AnySubsystem| next.owners.contains_key(other) implies next.owners[other]
            == goal.owners[other] by {
            assert(self.arm(armed).needs(command, other) == self.needs(command, other));
        }
        assert(next.owners =~= goal.owners);
    }

    /// After the default commands of some idle subsystems were started, an
    /// attempt to schedule the default command of another idle subsystem
    /// meets no holder: it is turned down only by the mode, and else starts
    /// the command as the next in the row.
    pub proof fn lemma_arm_next(
        self,
        armed: Seq<AnySubsystem>,
        subsystem: AnySubsystem,
        mode: CompetitionMode,
    )
        requires
            self.wf(),
            forall|other: AnySubsystem|
                armed.contains(other) ==> other != subsystem && self.defaults.contains_key(other),
            self.defaults.contains_key(subsystem),
            !self.owners.contains_key(subsystem),
        ensures
            self.arm(armed).verdict(self.defaults[subsystem], mode) == if self.allowed(
                self.defaults[subsystem],
                mode,
            ) {
                Ok::<(), ScheduleFailure>(())
            } else {
                Err::<(), ScheduleFailure>(ScheduleFailure::CompetitionDisabled)
            },
            self.arm(armed).schedule(self.defaults[subsystem], mode) == if self.allowed(
                self.defaults[subsystem],
                mode,
            ) {
                self.arm(armed.push(subsystem))
            } else {
                self.arm(armed)
            },
    {
        let current = self.arm(armed);
        let command = self.defaults[subsystem];
        self.lemma_default_needs(subsystem);
        self.lemma_default_waits(armed, subsystem);
        assert forall|other: AnySubsystem|
            current.needs(command, other) implies !current.owners.contains_key(other) by {
            assert(self.needs(command, other));
        }
        assert(!current.blocked(command));
        assert(current.allowed(command, mode) == self.allowed(command, mode));
        current.lemma_preempt_free(command);
        self.lemma_arm_push(armed, subsystem);
    }

    /// The idle subsystems are the registered ones that no command holds, each
    /// once; those whose default command may start are the ones that `mode`
    /// lets run.
    pub proof fn lemma_idle(self, mode: CompetitionMode)
        requires
            self.wf(),
        ensures
            self.idle().no_duplicates(),
            self.armable(mode).no_duplicates(),
            forall|subsystem: AnySubsystem| #[trigger]
                self.idle().contains(subsystem) <==> self.defaults.contains_key(subsystem)
                    && !self.owners.contains_key(subsystem),
            forall|subsystem: AnySubsystem| #[trigger]
                self.armable(mode).contains(subsystem) <==> self.defaults.contains_key(subsystem)
                    && !self.owners.contains_key(subsystem) && self.allowed(
                    self.defaults[subsystem],
                    mode,
                ),
    {
        let all = slots(self.subsystems);
        let is_registered = |subsystem: AnySubsystem| self.defaults.contains_key(subsystem);
        let is_idle = |subsystem: AnySubsystem| !self.owners.contains_key(subsystem);
        let may_run = |subsystem: AnySubsystem| self.allowed(self.defaults[subsystem], mode);
        assert(all.no_duplicates());
        lemma_filter_no_duplicates(all, is_registered);
        lemma_filter_no_duplicates(self.registered(), is_idle);
        lemma_filter_no_duplicates(self.idle(), may_run);
        lemma_filter_members(all, is_registered);
        lemma_filter_members(self.registered(), is_idle);
        lemma_filter_members(self.idle(), may_run);
        assert forall|subsystem: AnySubsystem|
            self.defaults.contains_key(subsystem) implies all.contains(subsystem) by {
            assert(all[subsystem.id as int] == subsystem);
        }
    }

    /// Starting the default commands of idle subsystems keeps the invariant.
    pub proof fn lemma_arm_wf(self, armed: Seq<AnySubsystem>)
        requires
            self.wf(),
            armed.no_duplicates(),
            forall|subsystem: AnySubsystem|
                armed.contains(subsystem) ==> self.defaults.contains_key(subsystem)
                    && !self.owners.contains_key(subsystem),
        ensures
            self.arm(armed).wf(),
        decreases armed.len(),
    {
        if armed.len() == 0 {
            assert(armed =~= Seq::empty());
            self.lemma_arm_none();
        } else {
            let front = armed.drop_last();
            let last = armed.last();
            assert(armed =~= front.push(last));
            assert(armed.contains(last)) by {
                assert(armed[armed.len() - 1] == last);
            }
            assert forall|subsystem: AnySubsystem| front.contains(subsystem) implies subsystem
                != last && self.defaults.contains_key(subsystem) && !self.owners.contains_key(
                subsystem,
            ) by {
                lemma_front_member(armed, subsystem);
                let i = choose|i: int| 0 <= i < front.len() && front[i] == subsystem;
                assert(armed[i] == subsystem);
            }
            self.lemma_arm_wf(front);
            self.lemma_default_needs(last);
            self.lemma_default_waits(front, last);
            self.lemma_arm_push(front, last);
            let current = self.arm(front);
            let command = self.defaults[last];
            assert forall|subsystem: AnySubsystem|
                current.needs(command, subsystem) implies !current.owners.contains_key(
                subsystem,
            ) by {
                assert(self.needs(command, subsystem));
            }
            current.lemma_start_wf(command);
        }
    }

    /// A pass keeps the invariant, whichever commands finish in it.
    pub proof fn lemma_tick_wf(self, mode: CompetitionMode, finished: Set<AnyCommand>)
        requires
            self.wf(),
        ensures
            self.polled().wf(),
            self.polled().executed(finished).wf(),
            self.polled().executed(finished).purged(mode).wf(),
            self.tick(mode, finished).wf(),
    {
        self.lemma_logged_wf(periodics(self.registered()));
        let polled = self.polled();
        polled.lemma_logged_wf(run_hooks(polled.active, finished));
        polled.logged(run_hooks(polled.active, finished)).lemma_without_wf(finished);
        let executed = polled.executed(finished);
        executed.lemma_logged_wf(ends(executed.banned(mode), true));
        executed.logged(ends(executed.banned(mode), true)).lemma_without_wf(
            executed.banned(mode).to_set(),
        );
        let purged = executed.purged(mode);
        purged.lemma_idle(mode);
        purged.lemma_arm_wf(purged.armable(mode));
    }
}

} // verus!
