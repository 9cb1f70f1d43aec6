//! A cooperative scheduler for robot commands.
//!
//! Commands are units of behaviour with a life cycle: the scheduler
//! initializes a command when it puts it on the schedule, executes it once
//! per pass, and ends it when the command reports that it has finished or
//! when it is cancelled. Subsystems stand for the hardware. A command
//! declares which subsystems it requires, and the scheduler sees to it that
//! at most one scheduled command holds a subsystem at any time.
//!
//! The scheduler keeps the commands and subsystems in slots and hands out
//! handles that name the slots. What it does is stated over
//! [`model::SchedulerState`], the scheduler as a mathematical value, which
//! also records every hook that was called. [`laws`] holds what follows for
//! every state and every input.
//!
//! The competition mode and the clock are read outside this crate and
//! handed in as plain values.

use std::collections::BTreeMap;
use vstd::prelude::*;

pub mod command;
pub mod consistency;
pub mod laws;
pub mod model;
pub mod subsystem;

mod admission;
mod hooks;
mod pass;
mod retirement;
mod sequences;
mod steps;

use crate::command::{AnyCommand, CancelBehavior, Command};
use crate::model::{calls_command, calls_subsystem, Hook, Profile, SchedulerState};
use crate::subsystem::{AnySubsystem, Subsystem};

verus! {

/// The phase of a match, as the field control reports it.
#[derive(Debug, Clone, Copy, PartialEq, Eq, Structural)]
pub enum CompetitionMode {
    Disabled,
    Autonomous,
    Driver,
}

/// Why a command was not admitted.
#[derive(Debug, Clone, Copy, PartialEq, Eq, Structural)]
pub enum ScheduleFailure {
    /// The command is scheduled already, or the robot is disabled and the
    /// command does not run when disabled.
    CompetitionDisabled,
    /// A subsystem that the command requires is held by a command that does
    /// not give way.
    CantCancelRunning,
}

/// A command in its slot, with what it declared when it was handed over.
struct Entry<C> {
    command: C,
    requirements: Vec<AnySubsystem>,
    runs_when_disabled: bool,
    cancel_behavior: CancelBehavior,
}

impl<C> Entry<C> {
    spec fn profile(self) -> Profile {
        Profile {
            requirements: self.requirements@,
            runs_when_disabled: self.runs_when_disabled,
            cancel_behavior: self.cancel_behavior,
        }
    }
}

/// Runs commands over subsystems, one pass per control cycle, and lets at
/// most one scheduled command hold a subsystem at any time.
pub struct CommandScheduler<C: Command, S: Subsystem> {
    entries: Vec<Entry<C>>,
    fixtures: Vec<S>,
    subsystems: BTreeMap<usize, AnyCommand>,
    scheduled_commands: Vec<AnyCommand>,
    requirements: BTreeMap<usize, AnyCommand>,
    history: Ghost<Seq<Hook>>,
}

/// A map from slots, read as a map from the handles of those slots.
pub(crate) closed spec fn by_handle(slots: Map<usize, AnyCommand>) -> Map<AnySubsystem, AnyCommand> {
    Map::new(
        |subsystem: AnySubsystem| slots.contains_key(subsystem.id),
        |subsystem: AnySubsystem| slots[subsystem.id],
    )
}

impl<C: Command, S: Subsystem> View for CommandScheduler<C, S> {
    type V = SchedulerState;

    closed spec fn view(&self) -> SchedulerState {
        SchedulerState {
            profiles: Seq::new(self.entries@.len(), |i: int| self.entries@[i].profile()),
            subsystems: self.fixtures@.len(),
            defaults: by_handle(self.subsystems@),
            active: self.scheduled_commands@,
            owners: by_handle(self.requirements@),
            history: self.history@,
        }
    }
}

impl<C: Command, S: Subsystem> CommandScheduler<C, S> {
    /// The invariant that every operation keeps.
    pub open spec fn wf(&self) -> bool {
        self@.wf()
    }

    /// The command in the slot of `command`, as it is now.
    pub closed spec fn command_at(&self, command: AnyCommand) -> C {
        self.entries@[command.id as int].command
    }

    /// The subsystem in the slot of `subsystem`, as it is now.
    pub closed spec fn subsystem_at(&self, subsystem: AnySubsystem) -> S {
        self.fixtures@[subsystem.id as int]
    }

    /// Every command and subsystem that `before` kept is still what it was.
    pub open spec fn same_objects(&self, before: &Self) -> bool {
        &&& forall|command: AnyCommand|
            before@.knows(command) ==> #[trigger] self.command_at(command) == before.command_at(
                command,
            )
        &&& forall|subsystem: AnySubsystem|
            before@.knows_subsystem(subsystem) ==> #[trigger] self.subsystem_at(subsystem)
                == before.subsystem_at(subsystem)
    }

    /// `self` came from `before` by calling hooks: the history grew, nothing
    /// was dropped, and a command or subsystem of which no hook was called
    /// since is what it was.
    pub open spec fn follows(&self, before: &Self) -> bool {
        let since = self@.history.skip(before@.history.len() as int);
        &&& before@.history.is_prefix_of(self@.history)
        &&& before@.profiles.len() <= self@.profiles.len()
        &&& before@.subsystems <= self@.subsystems
        &&& forall|command: AnyCommand|
            before@.knows(command) && !calls_command(since, command) ==> #[trigger] self.command_at(
                command,
            ) == before.command_at(command)
        &&& forall|subsystem: AnySubsystem|
            before@.knows_subsystem(subsystem) && !calls_subsystem(since, subsystem)
                ==> #[trigger] self.subsystem_at(subsystem) == before.subsystem_at(subsystem)
    }

    /// What follows a state that follows another follows that one too.
    pub proof fn lemma_follows_chain(&self, mid: &Self, before: &Self)
        requires
            self.follows(mid),
            mid.follows(before),
        ensures
            self.follows(before),
    {
        let early = mid@.history.skip(before@.history.len() as int);
        let late = self@.history.skip(mid@.history.len() as int);
        let since = self@.history.skip(before@.history.len() as int);
        assert(since =~= early + late);
        assert forall|command: AnyCommand|
            before@.knows(command) && !calls_command(since, command) implies #[trigger] self.command_at(
            command,
        ) == before.command_at(command) by {
            if calls_command(early, command) {
                let i = choose|i: int|
                    0 <= i < early.len() && (#[trigger] early[i]).command() == Some(command);
                assert(since[i] == early[i]);
            }
            if calls_command(late, command) {
                let i = choose|i: int|
                    0 <= i < late.len() && (#[trigger] late[i]).command() == Some(command);
                assert(since[early.len() + i] == late[i]);
            }
            assert(mid.command_at(command) == before.command_at(command));
        }
        assert forall|subsystem: AnySubsystem|
            before@.knows_subsystem(subsystem) && !calls_subsystem(
                since,
                subsystem,
            ) implies #[trigger] self.subsystem_at(subsystem) == before.subsystem_at(subsystem) by {
            if calls_subsystem(early, subsystem) {
                let i = choose|i: int|
                    0 <= i < early.len() && (#[trigger] early[i]).subsystem() == Some(subsystem);
                assert(since[i] == early[i]);
            }
            if calls_subsystem(late, subsystem) {
                let i = choose|i: int|
                    0 <= i < late.len() && (#[trigger] late[i]).subsystem() == Some(subsystem);
                assert(since[early.len() + i] == late[i]);
            }
            assert(mid.subsystem_at(subsystem) == before.subsystem_at(subsystem));
        }
    }

    /// A state follows itself.
    pub proof fn lemma_follows_self(&self)
        ensures
            self.follows(self),
    {
        assert(self@.history.skip(self@.history.len() as int) =~= Seq::<Hook>::empty());
    }

    /// A scheduler that keeps nothing yet.
    pub fn new() -> (scheduler: Self)
        ensures
            scheduler.wf(),
            scheduler@ == SchedulerState::initial(),
    {
        let scheduler = CommandScheduler {
            entries: Vec::new(),
            fixtures: Vec::new(),
            subsystems: BTreeMap::new(),
            scheduled_commands: Vec::new(),
            requirements: BTreeMap::new(),
            history: Ghost(Seq::empty()),
        };
        assert(scheduler@.profiles =~= Seq::empty());
        assert(scheduler@.defaults =~= Map::empty());
        assert(scheduler@.owners =~= Map::empty());
        scheduler
    }

    /// Takes `subsystem` into a new slot.
    pub(crate) fn install(&mut self, subsystem: S) -> (handle: AnySubsystem)
        requires
            old(self).wf(),
        ensures
            final(self).wf(),
            handle.id == old(self)@.subsystems,
            final(self)@ == old(self)@.with_subsystem(),
            final(self).subsystem_at(handle) == subsystem,
            final(self).same_objects(old(self)),
    {
        let handle = AnySubsystem { id: self.fixtures.len() };
        self.fixtures.push(subsystem);
        let count = self.fixtures.len();
        proof {
            assert(old(self)@.subsystems + 1 == count);
            old(self)@.lemma_with_subsystem_wf();
        }
        handle
    }

    /// Takes `command` into a new slot with the given declaration, whatever
    /// the command itself would declare. The command is not scheduled yet.
    pub fn enroll(
        &mut self,
        command: C,
        requirements: Vec<AnySubsystem>,
        runs_when_disabled: bool,
        cancel_behavior: CancelBehavior,
    ) -> (handle: AnyCommand)
        requires
            old(self).wf(),
        ensures
            final(self).wf(),
            handle.id == old(self)@.profiles.len(),
            final(self)@ == old(self)@.with_command(
                (Profile { requirements: requirements@, runs_when_disabled, cancel_behavior }),
            ),
            final(self).command_at(handle) == command,
            final(self).same_objects(old(self)),
    {
        let handle = AnyCommand { id: self.entries.len() };
        self.entries.push(Entry { command, requirements, runs_when_disabled, cancel_behavior });
        proof {
            let profile = Profile { requirements: requirements@, runs_when_disabled, cancel_behavior };
            assert(self@.profiles =~= old(self)@.profiles.push(profile));
            old(self)@.lemma_with_command_wf(profile);
        }
        handle
    }

    /// Takes `command` off the schedule as one that was interrupted: calls
    /// its `end` hook, and releases what it holds. A command that is not
    /// scheduled is left alone, and no hook is called.
    pub fn cancel(&mut self, command: AnyCommand)
        requires
            old(self).wf(),
        ensures
            final(self).wf(),
            final(self)@ == old(self)@.cancel(command),
            final(self).follows(old(self)),
            !old(self)@.scheduled(command) ==> final(self).same_objects(old(self)),
    {
        self.retire(command, true)
    }

    /// Takes `command` off the schedule, `interrupted` or not: calls its
    /// `end` hook with that flag, and releases what it holds. A command that
    /// is not scheduled is left alone, and no hook is called.
    pub fn retire(&mut self, command: AnyCommand, interrupted: bool)
        requires
            old(self).wf(),
        ensures
            final(self).wf(),
            final(self)@ == old(self)@.retire(command, interrupted),
            final(self).follows(old(self)),
            !old(self)@.scheduled(command) ==> final(self).same_objects(old(self)),
    {
        if self.scheduled(&command) {
            self.fire_end(command, interrupted);
            let ghost ended = *self;
            proof {
                old(self)@.lemma_logged_wf(seq![Hook::End(command, interrupted)]);
            }
            self.withdraw(command);
            proof {
                ended.lemma_follows_self();
                self.lemma_follows_chain(&ended, old(self));
            }
        } else {
            proof {
                self.lemma_follows_self();
            }
        }
    }

    /// Puts `command` on the schedule, if `mode` and the commands that hold
    /// what it requires let it.
    ///
    /// The attempt is turned down with `CompetitionDisabled` where the
    /// command is scheduled already or does not run in `mode`, and with
    /// `CantCancelRunning` where a command that does not give way holds
    /// something that it requires. Nothing changes then and no hook is
    /// called. Else every holder of something that it requires is cancelled,
    /// in the order of the requirements, and the command starts: it holds
    /// all that it requires and executes last.
    pub fn schedule(&mut self, command: AnyCommand, mode: CompetitionMode) -> (result: Result<
        (),
        ScheduleFailure,
    >)
        requires
            old(self).wf(),
            old(self)@.knows(command),
        ensures
            final(self).wf(),
            result == old(self)@.verdict(command, mode),
            final(self)@ == old(self)@.schedule(command, mode),
            final(self).follows(old(self)),
            result is Err ==> final(self).same_objects(old(self)),
    {
        let disabled = match mode {
            CompetitionMode::Disabled => true,
            _ => false,
        };
        if self.scheduled(&command) || disabled && !self.entries[command.id].runs_when_disabled {
            proof {
                self.lemma_follows_self();
            }
            return Err(ScheduleFailure::CompetitionDisabled);
        }
        if self.unopposed(command) {
            proof {
                old(self)@.lemma_preempt_free(command);
            }
            self.init_command(command);
            Ok(())
        } else {
            if self.opposed(command) {
                proof {
                    self.lemma_follows_self();
                }
                return Err(ScheduleFailure::CantCancelRunning);
            }
            self.preempt(command);
            let ghost cleared = *self;
            proof {
                old(self)@.lemma_preempt_wf(command);
                assert forall|subsystem: AnySubsystem|
                    cleared@.needs(command, subsystem) implies !cleared@.owners.contains_key(
                    subsystem,
                ) by {
                    assert(old(self)@.needs(command, subsystem));
                }
            }
            self.init_command(command);
            proof {
                self.lemma_follows_chain(&cleared, old(self));
            }
            Ok(())
        }
    }

    /// Makes `command` the default command of `subsystem`: from now on each
    /// pass calls the subsystem's `periodic` hook, and starts the command
    /// whenever it finds the subsystem idle.
    ///
    /// A default command requires its subsystem and nothing else.
    pub fn register_subsystem(&mut self, subsystem: AnySubsystem, command: AnyCommand)
        requires
            old(self).wf(),
            old(self)@.knows_subsystem(subsystem),
            old(self)@.knows(command),
            old(self)@.profile(command).requirements == seq![subsystem],
        ensures
            final(self).wf(),
            final(self)@ == old(self)@.register(subsystem, command),
            final(self).same_objects(old(self)),
    {
        self.subsystems.insert(subsystem.id, command);
        proof {
            assert(self@.profiles =~= old(self)@.profiles);
            assert(self@.defaults =~= old(self)@.defaults.insert(subsystem, command));
            old(self)@.lemma_register_wf(subsystem, command);
        }
    }

    /// Whether `command` may be registered as the default command of
    /// `subsystem`: both are kept here, and the command requires the
    /// subsystem and nothing else.
    pub fn fits_default(&self, subsystem: &AnySubsystem, command: &AnyCommand) -> (fits: bool)
        ensures
            fits == (self@.knows_subsystem(*subsystem) && self@.knows(*command) && self@.profile(
                *command,
            ).requirements == seq![*subsystem]),
    {
        if subsystem.id < self.fixtures.len() && command.id < self.entries.len() {
            let wanted = &self.entries[command.id].requirements;
            let fits = wanted.len() == 1 && wanted[0].id == subsystem.id;
            proof {
                if fits {
                    assert(wanted@ =~= seq![*subsystem]);
                } else if wanted@.len() == 1 {
                    assert(seq![*subsystem][0] == *subsystem);
                }
            }
            fits
        } else {
            false
        }
    }

    /// One pass of the scheduler in `mode`, in four steps.
    ///
    /// First `periodic` runs on every registered subsystem. Then every
    /// scheduled command is executed in turn; one that reports right after
    /// that it has finished is ended, not interrupted, and taken off at
    /// once. Then the scheduled commands that `mode` does not let run are
    /// cancelled. Last the default command of every registered subsystem
    /// that is idle by then is scheduled.
    ///
    /// The pass reports `CompetitionDisabled` where `mode` kept a default
    /// command from being scheduled; the other default commands are
    /// scheduled all the same.
    ///
    /// Which commands finish is for the commands to say: the state after
    /// the pass is that of `tick` for the set of scheduled commands that
    /// reported so.
    pub fn run(&mut self, mode: CompetitionMode) -> (result: Result<(), ScheduleFailure>)
        requires
            old(self).wf(),
        ensures
            final(self).wf(),
            final(self).follows(old(self)),
            exists|finished: Set<AnyCommand>|
                {
                    &&& final(self)@ == #[trigger] old(self)@.tick(mode, finished)
                    &&& result == old(self)@.tick_verdict(mode, finished)
                    &&& forall|command: AnyCommand|
                        finished.contains(command) ==> old(self)@.scheduled(command)
                },
    {
        self.poll_subsystems();
        let ghost polled = *self;
        let finished = self.execute_commands();
        let ghost executed = *self;
        proof {
            self.lemma_follows_chain(&polled, old(self));
        }
        self.cancel_disallowed(mode);
        let ghost purged = *self;
        proof {
            self.lemma_follows_chain(&executed, old(self));
        }
        let result = self.arm_defaults(mode);
        proof {
            self.lemma_follows_chain(&purged, old(self));
            assert(self@ == old(self)@.tick(mode, finished@));
            assert forall|command: AnyCommand| finished@.contains(command) implies old(
                self,
            )@.scheduled(command) by {
                assert(polled@.scheduled(command));
            }
        }
        result
    }

    /// What `command` declared that it requires.
    pub fn requirements_of(&self, command: &AnyCommand) -> (wanted: &[AnySubsystem])
        requires
            self@.knows(*command),
        ensures
            wanted@ == self@.profile(*command).requirements,
    {
        self.entries[command.id].requirements.as_slice()
    }

    /// Whether `command` declared that it runs while the robot is disabled.
    pub fn runs_when_disabled(&self, command: &AnyCommand) -> (runs: bool)
        requires
            self@.knows(*command),
        ensures
            runs == self@.profile(*command).runs_when_disabled,
    {
        self.entries[command.id].runs_when_disabled
    }

    /// How `command` declared that it meets a newcomer.
    pub fn cancel_behavior(&self, command: &AnyCommand) -> (behavior: CancelBehavior)
        requires
            self@.knows(*command),
        ensures
            behavior == self@.profile(*command).cancel_behavior,
    {
        self.entries[command.id].cancel_behavior
    }

    /// The default command of `subsystem`, if it is registered.
    pub fn default_of(&self, subsystem: &AnySubsystem) -> (command: Option<&AnyCommand>)
        ensures
            command is Some <==> self@.defaults.contains_key(*subsystem),
            command matches Some(found) ==> *found == self@.defaults[*subsystem],
    {
        self.subsystems.get(&subsystem.id)
    }

    /// Whether `command` names a slot of this scheduler.
    pub fn knows(&self, command: &AnyCommand) -> (known: bool)
        ensures
            known == self@.knows(*command),
    {
        command.id < self.entries.len()
    }

    /// Whether `subsystem` names a slot of this scheduler.
    pub fn knows_subsystem(&self, subsystem: &AnySubsystem) -> (known: bool)
        ensures
            known == self@.knows_subsystem(*subsystem),
    {
        subsystem.id < self.fixtures.len()
    }

    /// Whether `command` is scheduled.
    pub fn scheduled(&self, command: &AnyCommand) -> (found: bool)
        ensures
            found == self@.scheduled(*command),
    {
        let mut i: usize = 0;
        while i < self.scheduled_commands.len()
            invariant
                i <= self.scheduled_commands@.len(),
                forall|j: int| 0 <= j < i ==> self.scheduled_commands@[j] != *command,
            decreases self.scheduled_commands@.len() - i,
        {
            if self.scheduled_commands[i].id == command.id {
                return true;
            }
            i += 1;
        }
        false
    }

    /// The command that holds `subsystem`, if one does.
    pub fn requiring(&self, subsystem: &AnySubsystem) -> (holder: Option<&AnyCommand>)
        ensures
            holder is Some <==> self@.owners.contains_key(*subsystem),
            holder matches Some(command) ==> *command == self@.owners[*subsystem],
    {
        self.requirements.get(&subsystem.id)
    }

    /// The command in the slot of `command`.
    pub fn command(&self, command: &AnyCommand) -> (object: &C)
        requires
            self@.knows(*command),
        ensures
            *object == self.command_at(*command),
    {
        &self.entries[command.id].command
    }

    /// The subsystem in the slot of `subsystem`.
    pub fn subsystem(&self, subsystem: &AnySubsystem) -> (object: &S)
        requires
            self@.knows_subsystem(*subsystem),
        ensures
            *object == self.subsystem_at(*subsystem),
    {
        &self.fixtures[subsystem.id]
    }
}

} // verus!
