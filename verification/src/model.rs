use vstd::prelude::*;

use crate::command::{AnyCommand, CancelBehavior};
use crate::subsystem::AnySubsystem;
use crate::{CompetitionMode, ScheduleFailure};

verus! {

/// One call from the scheduler into a command or a subsystem.
pub enum Hook {
    Periodic(AnySubsystem),
    Initialize(AnyCommand),
    Execute(AnyCommand),
    /// The flag says whether the command was interrupted.
    End(AnyCommand, bool),
}

impl Hook {
    /// The command that the hook belongs to, if it is a command's.
    pub open spec fn command(self) -> Option<AnyCommand> {
        match self {
            Hook::Periodic(_) => None,
            Hook::Initialize(command) => Some(command),
            Hook::Execute(command) => Some(command),
            Hook::End(command, _) => Some(command),
        }
    }

    /// The subsystem that the hook belongs to, if it is a subsystem's.
    pub open spec fn subsystem(self) -> Option<AnySubsystem> {
        match self {
            Hook::Periodic(subsystem) => Some(subsystem),
            _ => None,
        }
    }
}

/// Whether one of `hooks` is a hook of `command`.
pub open spec fn calls_command(hooks: Seq<Hook>, command: AnyCommand) -> bool {
    exists|i: int| 0 <= i < hooks.len() && (#[trigger] hooks[i]).command() == Some(command)
}

/// Whether one of `hooks` is a hook of `subsystem`.
pub open spec fn calls_subsystem(hooks: Seq<Hook>, subsystem: AnySubsystem) -> bool {
    exists|i: int| 0 <= i < hooks.len() && (#[trigger] hooks[i]).subsystem() == Some(subsystem)
}

/// `commands` without those in `gone`, in the same order.
pub open spec fn kept(commands: Seq<AnyCommand>, gone: Set<AnyCommand>) -> Seq<AnyCommand> {
    commands.filter(|command: AnyCommand| !gone.contains(command))
}

/// The `End` hooks of `commands`, in their order, all interrupted or all not.
pub open spec fn ends(commands: Seq<AnyCommand>, interrupted: bool) -> Seq<Hook> {
    commands.map_values(|command: AnyCommand| Hook::End(command, interrupted))
}

/// The handles of the slots below `bound`, in order.
pub open spec fn slots(bound: nat) -> Seq<AnySubsystem> {
    Seq::new(bound, |slot: int| AnySubsystem { id: slot as usize })
}

/// The `Periodic` hooks of `subsystems`, in their order.
pub open spec fn periodics(subsystems: Seq<AnySubsystem>) -> Seq<Hook> {
    subsystems.map_values(|subsystem: AnySubsystem| Hook::Periodic(subsystem))
}

/// The hooks that a pass calls on `commands`: `Execute` on each in turn, and
/// `End`, not interrupted, right after it on each of those in `finished`.
pub open spec fn run_hooks(commands: Seq<AnyCommand>, finished: Set<AnyCommand>) -> Seq<Hook>
    decreases commands.len(),
{
    if commands.len() == 0 {
        Seq::empty()
    } else {
        let earlier = run_hooks(commands.drop_last(), finished);
        let command = commands.last();
        if finished.contains(command) {
            earlier.push(Hook::Execute(command)).push(Hook::End(command, false))
        } else {
            earlier.push(Hook::Execute(command))
        }
    }
}

/// What a command declared when it was handed to the scheduler.
pub struct Profile {
    pub requirements: Seq<AnySubsystem>,
    pub runs_when_disabled: bool,
    pub cancel_behavior: CancelBehavior,
}

/// The scheduler as a mathematical value.
#[verifier::ext_equal]
pub struct SchedulerState {
    /// The declaration of each command, by slot.
    pub profiles: Seq<Profile>,
    /// How many subsystems the scheduler keeps.
    pub subsystems: nat,
    /// The default command of each registered subsystem.
    pub defaults: Map<AnySubsystem, AnyCommand>,
    /// The scheduled commands, in the order in which a pass executes them.
    pub active: Seq<AnyCommand>,
    /// The command that holds each claimed subsystem.
    pub owners: Map<AnySubsystem, AnyCommand>,
    /// Every hook called so far, oldest first.
    pub history: Seq<Hook>,
}

impl SchedulerState {
    /// The state of a scheduler that keeps nothing yet.
    pub open spec fn initial() -> SchedulerState {
        SchedulerState {
            profiles: Seq::empty(),
            subsystems: 0,
            defaults: Map::empty(),
            active: Seq::empty(),
            owners: Map::empty(),
            history: Seq::empty(),
        }
    }

    /// Whether `command` names a slot.
    pub open spec fn knows(self, command: AnyCommand) -> bool {
        command.id < self.profiles.len()
    }

    /// Whether `subsystem` names a slot.
    pub open spec fn knows_subsystem(self, subsystem: AnySubsystem) -> bool {
        subsystem.id < self.subsystems
    }

    /// What the command in the slot of `command` declared.
    pub open spec fn profile(self, command: AnyCommand) -> Profile {
        self.profiles[command.id as int]
    }

    /// Whether `command` declared that it requires `subsystem`.
    pub open spec fn needs(self, command: AnyCommand, subsystem: AnySubsystem) -> bool {
        self.profile(command).requirements.contains(subsystem)
    }

    /// Whether `command` is on the schedule.
    pub open spec fn scheduled(self, command: AnyCommand) -> bool {
        self.active.contains(command)
    }

    /// Whether `mode` lets `command` run.
    pub open spec fn allowed(self, command: AnyCommand, mode: CompetitionMode) -> bool {
        mode is Disabled ==> self.profile(command).runs_when_disabled
    }

    /// The invariant of the bookkeeping.
    pub open spec fn wf(self) -> bool {
        &&& self.subsystems <= usize::MAX
        &&& self.active.no_duplicates()
        &&& forall|command: AnyCommand| #[trigger]
            self.active.contains(command) ==> self.knows(command)
        &&& forall|subsystem: AnySubsystem| #[trigger]
            self.owners.contains_key(subsystem) ==> self.active.contains(self.owners[subsystem])
                && self.needs(self.owners[subsystem], subsystem)
        &&& forall|command: AnyCommand, subsystem: AnySubsystem|
            self.active.contains(command) && #[trigger] self.needs(command, subsystem)
                ==> self.owners.contains_key(subsystem) && self.owners[subsystem] == command
        &&& forall|subsystem: AnySubsystem| #[trigger]
            self.defaults.contains_key(subsystem) ==> self.knows_subsystem(subsystem)
                && self.knows(self.defaults[subsystem]) && self.profile(
                self.defaults[subsystem],
            ).requirements == seq![subsystem]
    }

    /// The state after a subsystem was taken into a new slot.
    pub open spec fn with_subsystem(self) -> SchedulerState {
        SchedulerState { subsystems: self.subsystems + 1, ..self }
    }

    /// The state after a command with the declaration `profile` was taken
    /// into a new slot.
    pub open spec fn with_command(self, profile: Profile) -> SchedulerState {
        SchedulerState { profiles: self.profiles.push(profile), ..self }
    }

    /// The state after `command` became the default command of `subsystem`.
    pub open spec fn register(self, subsystem: AnySubsystem, command: AnyCommand) -> SchedulerState {
        SchedulerState { defaults: self.defaults.insert(subsystem, command), ..self }
    }

    /// The state after the hooks in `hooks` were called.
    pub open spec fn logged(self, hooks: Seq<Hook>) -> SchedulerState {
        SchedulerState { history: self.history + hooks, ..self }
    }

    /// The state with the commands in `gone` off the schedule and their
    /// claims released.
    pub open spec fn without(self, gone: Set<AnyCommand>) -> SchedulerState {
        SchedulerState {
            active: kept(self.active, gone),
            owners: Map::new(
                |subsystem: AnySubsystem|
                    self.owners.contains_key(subsystem) && !gone.contains(self.owners[subsystem]),
                |subsystem: AnySubsystem| self.owners[subsystem],
            ),
            ..self
        }
    }

    /// The state after `command` was taken off the schedule, `interrupted`
    /// or not: its `End` hook ran, it is no longer scheduled and holds
    /// nothing. A command that is not scheduled is left alone.
    pub open spec fn retire(self, command: AnyCommand, interrupted: bool) -> SchedulerState {
        if self.scheduled(command) {
            self.logged(seq![Hook::End(command, interrupted)]).without(set![command])
        } else {
            self
        }
    }

    /// The state after `command` was cancelled.
    pub open spec fn cancel(self, command: AnyCommand) -> SchedulerState {
        self.retire(command, true)
    }

    /// The state after `command` was admitted: its `Initialize` hook ran, it
    /// is the last of the schedule and holds every subsystem it requires.
    pub open spec fn start(self, command: AnyCommand) -> SchedulerState {
        SchedulerState {
            active: self.active.push(command),
            owners: Map::new(
                |subsystem: AnySubsystem|
                    self.needs(command, subsystem) || self.owners.contains_key(subsystem),
                |subsystem: AnySubsystem|
                    if self.needs(command, subsystem) {
                        command
                    } else {
                        self.owners[subsystem]
                    },
            ),
            history: self.history.push(Hook::Initialize(command)),
            ..self
        }
    }

    /// The commands that hold a subsystem among `wanted`, each once, in the
    /// order in which `wanted` first names a subsystem of theirs.
    pub open spec fn incumbents(self, wanted: Seq<AnySubsystem>) -> Seq<AnyCommand>
        decreases wanted.len(),
    {
        if wanted.len() == 0 {
            Seq::empty()
        } else {
            let earlier = self.incumbents(wanted.drop_last());
            let subsystem = wanted.last();
            if self.owners.contains_key(subsystem) && !earlier.contains(self.owners[subsystem]) {
                earlier.push(self.owners[subsystem])
            } else {
                earlier
            }
        }
    }

    /// Whether a subsystem that `command` requires is held by a command that
    /// does not give way.
    pub open spec fn blocked(self, command: AnyCommand) -> bool {
        exists|subsystem: AnySubsystem|
            #[trigger] self.needs(command, subsystem) && self.owners.contains_key(subsystem)
                && self.profile(self.owners[subsystem]).cancel_behavior
                == CancelBehavior::CancelIncoming
    }

    /// Whether `command` is put on the schedule in `mode`, and if not, why.
    pub open spec fn verdict(self, command: AnyCommand, mode: CompetitionMode) -> Result<
        (),
        ScheduleFailure,
    > {
        if self.scheduled(command) || !self.allowed(command, mode) {
            Err(ScheduleFailure::CompetitionDisabled)
        } else if self.blocked(command) {
            Err(ScheduleFailure::CantCancelRunning)
        } else {
            Ok(())
        }
    }

    /// The state after the holders of what `command` requires were cancelled.
    pub open spec fn preempt(self, command: AnyCommand) -> SchedulerState {
        let displaced = self.incumbents(self.profile(command).requirements);
        self.logged(ends(displaced, true)).without(displaced.to_set())
    }

    /// The state after an attempt to put `command` on the schedule in
    /// `mode`: unchanged where the attempt is turned down; else the holders
    /// of what the command requires are cancelled and the command starts.
    pub open spec fn schedule(self, command: AnyCommand, mode: CompetitionMode) -> SchedulerState {
        if self.verdict(command, mode) is Ok {
            self.preempt(command).start(command)
        } else {
            self
        }
    }

    /// The registered subsystems in the slots below `bound`, in order.
    pub open spec fn registered_below(self, bound: nat) -> Seq<AnySubsystem> {
        slots(bound).filter(|subsystem: AnySubsystem| self.defaults.contains_key(subsystem))
    }

    /// The registered subsystems, in the order of their slots.
    pub open spec fn registered(self) -> Seq<AnySubsystem> {
        self.registered_below(self.subsystems)
    }

    /// The state after the first step of a pass: `Periodic` ran on every
    /// registered subsystem.
    pub open spec fn polled(self) -> SchedulerState {
        self.logged(periodics(self.registered()))
    }

    /// The state after the second step of a pass, in which the commands in
    /// `finished` reported that they had finished: every scheduled command
    /// was executed, and those that had finished were taken off.
    pub open spec fn executed(self, finished: Set<AnyCommand>) -> SchedulerState {
        self.logged(run_hooks(self.active, finished)).without(finished)
    }

    /// Those of `commands` that `mode` does not let run, in order.
    pub open spec fn banned_among(self, commands: Seq<AnyCommand>, mode: CompetitionMode) -> Seq<
        AnyCommand,
    > {
        commands.filter(|command: AnyCommand| !self.allowed(command, mode))
    }

    /// The scheduled commands that `mode` does not let run, in order.
    pub open spec fn banned(self, mode: CompetitionMode) -> Seq<AnyCommand> {
        self.banned_among(self.active, mode)
    }

    /// The state after the third step of a pass: the scheduled commands that
    /// `mode` does not let run were cancelled.
    pub open spec fn purged(self, mode: CompetitionMode) -> SchedulerState {
        self.logged(ends(self.banned(mode), true)).without(self.banned(mode).to_set())
    }

    /// The registered subsystems below `bound` that no command holds.
    pub open spec fn idle_below(self, bound: nat) -> Seq<AnySubsystem> {
        self.registered_below(bound).filter(
            |subsystem: AnySubsystem| !self.owners.contains_key(subsystem),
        )
    }

    /// The registered subsystems that no command holds, in order.
    pub open spec fn idle(self) -> Seq<AnySubsystem> {
        self.idle_below(self.subsystems)
    }

    /// The idle subsystems below `bound` whose default command `mode` lets run.
    pub open spec fn armable_below(self, bound: nat, mode: CompetitionMode) -> Seq<AnySubsystem> {
        self.idle_below(bound).filter(
            |subsystem: AnySubsystem| self.allowed(self.defaults[subsystem], mode),
        )
    }

    /// The idle subsystems whose default command `mode` lets run, in order.
    pub open spec fn armable(self, mode: CompetitionMode) -> Seq<AnySubsystem> {
        self.armable_below(self.subsystems, mode)
    }

    /// The state after the default commands of `subsystems`, all idle, were
    /// started in that order.
    pub open spec fn arm(self, subsystems: Seq<AnySubsystem>) -> SchedulerState {
        SchedulerState {
            active: self.active + subsystems.map_values(
                |subsystem: AnySubsystem| self.defaults[subsystem],
            ),
            owners: Map::new(
                |subsystem: AnySubsystem|
                    self.owners.contains_key(subsystem) || subsystems.contains(subsystem),
                |subsystem: AnySubsystem|
                    if self.owners.contains_key(subsystem) {
                        self.owners[subsystem]
                    } else {
                        self.defaults[subsystem]
                    },
            ),
            history: self.history + subsystems.map_values(
                |subsystem: AnySubsystem| Hook::Initialize(self.defaults[subsystem]),
            ),
            ..self
        }
    }

    /// The state after the last step of a pass: on every idle subsystem whose
    /// default command `mode` lets run, that command was started.
    pub open spec fn rearmed(self, mode: CompetitionMode) -> SchedulerState {
        self.arm(self.armable(mode))
    }

    /// Whether `mode` lets the default command of each of `subsystems` run.
    pub open spec fn defaults_allowed(
        self,
        subsystems: Seq<AnySubsystem>,
        mode: CompetitionMode,
    ) -> bool {
        forall|subsystem: AnySubsystem| #[trigger]
            subsystems.contains(subsystem) ==> self.allowed(self.defaults[subsystem], mode)
    }

    /// What the last step of a pass reports: a failure where `mode` keeps
    /// the default command of an idle subsystem from running.
    pub open spec fn rearm_verdict(self, mode: CompetitionMode) -> Result<(), ScheduleFailure> {
        if self.defaults_allowed(self.idle(), mode) {
            Ok(())
        } else {
            Err(ScheduleFailure::CompetitionDisabled)
        }
    }

    /// The state after a pass in `mode` in which the commands in `finished`
    /// reported that they had finished.
    pub open spec fn tick(self, mode: CompetitionMode, finished: Set<AnyCommand>) -> SchedulerState {
        self.polled().executed(finished).purged(mode).rearmed(mode)
    }

    /// What such a pass reports.
    pub open spec fn tick_verdict(self, mode: CompetitionMode, finished: Set<AnyCommand>) -> Result<
        (),
        ScheduleFailure,
    > {
        self.polled().executed(finished).purged(mode).rearm_verdict(mode)
    }
}

} // verus!
