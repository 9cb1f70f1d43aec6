use vstd::prelude::*;

use crate::command::{AnyCommand, CancelBehavior};
use crate::consistency::{lemma_run_hooks_finished, lemma_run_hooks_kinds};
use crate::model::{ends, periodics, run_hooks, slots, Hook, SchedulerState};
use crate::sequences::{lemma_filter_members, lemma_filter_no_duplicates, lemma_push_members};
use crate::subsystem::AnySubsystem;
use crate::{CompetitionMode, ScheduleFailure};

verus! {

/// Two scheduled commands never require the same subsystem.
pub proof fn law_mutual_exclusion(
    state: SchedulerState,
    first: AnyCommand,
    second: AnyCommand,
    subsystem: AnySubsystem,
)
    requires
        state.wf(),
        state.scheduled(first),
        state.scheduled(second),
        state.needs(first, subsystem),
        state.needs(second, subsystem),
    ensures
        first == second,
{
}

/// The holder of a subsystem is scheduled and requires it, and a scheduled
/// command holds all that it requires: a subsystem has one holder at most,
/// and it is the one scheduled command that requires it.
pub proof fn law_holder_is_the_one_in_need(
    state: SchedulerState,
    command: AnyCommand,
    subsystem: AnySubsystem,
)
    requires
        state.wf(),
    ensures
        state.owners.contains_key(subsystem) && state.owners[subsystem] == command <==> state.scheduled(
            command,
        ) && state.needs(command, subsystem),
{
}

/// The invariant holds at the start and after every operation, whatever the
/// mode and whichever commands finish in a pass.
pub proof fn law_invariant_always(
    state: SchedulerState,
    command: AnyCommand,
    subsystem: AnySubsystem,
    mode: CompetitionMode,
    interrupted: bool,
    finished: Set<AnyCommand>,
)
    requires
        state.wf(),
    ensures
        SchedulerState::initial().wf(),
        state.knows(command) ==> state.schedule(command, mode).wf(),
        state.cancel(command).wf(),
        state.retire(command, interrupted).wf(),
        state.tick(mode, finished).wf(),
        state.knows_subsystem(subsystem) && state.knows(command) && state.profile(
            command,
        ).requirements == seq![subsystem] ==> state.register(subsystem, command).wf(),
{
    if state.knows(command) {
        state.lemma_schedule_wf(command, mode);
    }
    state.lemma_retire_wf(command, true);
    state.lemma_retire_wf(command, interrupted);
    state.lemma_tick_wf(mode, finished);
    if state.knows_subsystem(subsystem) && state.knows(command) && state.profile(
        command,
    ).requirements == seq![subsystem] {
        state.lemma_register_wf(subsystem, command);
    }
}

/// A command that is not scheduled, that the mode lets run and that requires
/// nothing that is held is put on the schedule at once: its `Initialize` hook
/// runs once, no other hook runs, it is scheduled and holds what it requires.
pub proof fn law_disjoint_admission(
    state: SchedulerState,
    command: AnyCommand,
    mode: CompetitionMode,
)
    requires
        state.wf(),
        state.knows(command),
        !state.scheduled(command),
        state.allowed(command, mode),
        forall|subsystem: AnySubsystem|
            state.needs(command, subsystem) ==> !state.owners.contains_key(subsystem),
    ensures
        state.verdict(command, mode) is Ok,
        state.schedule(command, mode) == state.start(command),
        state.schedule(command, mode).history == state.history.push(Hook::Initialize(command)),
        state.schedule(command, mode).scheduled(command),
        forall|subsystem: AnySubsystem|
            state.needs(command, subsystem) ==> state.schedule(command, mode).owners.contains_key(
                subsystem,
            ) && state.schedule(command, mode).owners[subsystem] == command,
{
    state.lemma_preempt_free(command);
    lemma_push_members(state.active, command, command);
    assert forall|subsystem: AnySubsystem| state.needs(command, subsystem) implies state.start(
        command,
    ).owners.contains_key(subsystem) && state.start(command).owners[subsystem] == command by {}
}

/// Where an attempt to schedule a command is not turned down, the command is
/// scheduled after it and holds each subsystem that it requires. Whoever held
/// one of them before gives way, is off the schedule, and its `End` hook ran,
/// interrupted, in the attempt. The attempt ends with the command's
/// `Initialize` hook.
pub proof fn law_admission_guarantee(
    state: SchedulerState,
    command: AnyCommand,
    mode: CompetitionMode,
    subsystem: AnySubsystem,
)
    requires
        state.wf(),
        state.knows(command),
        state.verdict(command, mode) is Ok,
        state.needs(command, subsystem),
    ensures
        ({
            let after = state.schedule(command, mode);
            &&& after.scheduled(command)
            &&& after.owners.contains_key(subsystem) && after.owners[subsystem] == command
            &&& after.history.len() > state.history.len() && after.history.last()
                == Hook::Initialize(command)
            &&& state.owners.contains_key(subsystem) ==> {
                let holder = state.owners[subsystem];
                &&& state.profile(holder).cancel_behavior == CancelBehavior::CancelRunning
                &&& !after.scheduled(holder)
                &&& exists|i: int|
                    state.history.len() <= i < after.history.len() && after.history[i] == Hook::End(
                        holder,
                        true,
                    )
            }
        }),
{
    let after = state.schedule(command, mode);
    let wanted = state.profile(command).requirements;
    let displaced = state.incumbents(wanted);
    let cleared = state.preempt(command);
    state.lemma_incumbents(wanted);
    lemma_push_members(cleared.active, command, command);
    assert(after.needs(command, subsystem));
    if state.owners.contains_key(subsystem) {
        let holder = state.owners[subsystem];
        assert(holder != command);
        assert(displaced.contains(holder)) by {
            assert(wanted.contains(subsystem));
        }
        lemma_filter_members(state.active, |other: AnyCommand| !displaced.to_set().contains(other));
        lemma_push_members(cleared.active, command, holder);
        let j = choose|j: int| 0 <= j < displaced.len() && displaced[j] == holder;
        assert(ends(displaced, true)[j] == Hook::End(holder, true));
        assert(after.history[state.history.len() + j] == Hook::End(holder, true));
    }
}

/// Where an attempt to schedule a command is turned down, nothing changes.
pub proof fn law_refusal_changes_nothing(
    state: SchedulerState,
    command: AnyCommand,
    mode: CompetitionMode,
)
    requires
        state.verdict(command, mode) is Err,
    ensures
        state.schedule(command, mode) == state,
{
}

/// Cancelling a command releases the subsystems that it holds and no other:
/// every other holder keeps what it holds, and every other scheduled command
/// stays scheduled.
pub proof fn law_cancel_releases_own_claims_only(
    state: SchedulerState,
    command: AnyCommand,
    other: AnyCommand,
    subsystem: AnySubsystem,
)
    requires
        state.wf(),
    ensures
        ({
            let after = state.cancel(command);
            &&& after.owners.contains_key(subsystem) <==> state.owners.contains_key(subsystem)
                && state.owners[subsystem] != command
            &&& after.owners.contains_key(subsystem) ==> after.owners[subsystem]
                == state.owners[subsystem]
            &&& other != command ==> after.scheduled(other) == state.scheduled(other)
            &&& state.scheduled(command) ==> after.history == state.history.push(
                Hook::End(command, true),
            )
        }),
{
    lemma_filter_members(state.active, |any: AnyCommand| !set![command].contains(any));
}

/// A pass calls `Periodic` once on each registered subsystem, before any
/// other hook, and on no other subsystem.
pub proof fn law_pass_polls_each_registered_once(
    state: SchedulerState,
    mode: CompetitionMode,
    finished: Set<AnyCommand>,
)
    requires
        state.wf(),
    ensures
        ({
            let after = state.tick(mode, finished);
            let polled = state.registered();
            &&& polled.no_duplicates()
            &&& forall|subsystem: AnySubsystem| #[trigger]
                polled.contains(subsystem) <==> state.defaults.contains_key(subsystem)
            &&& state.history.len() + polled.len() <= after.history.len()
            &&& forall|i: int|
                0 <= i < polled.len() ==> #[trigger] after.history[state.history.len() + i]
                    == Hook::Periodic(polled[i])
            &&& forall|i: int|
                state.history.len() + polled.len() <= i < after.history.len()
                    ==> (#[trigger] after.history[i]).subsystem() is None
        }),
{
    let polled_state = state.polled();
    let executed = polled_state.executed(finished);
    let purged = executed.purged(mode);
    let after = state.tick(mode, finished);
    let polled = state.registered();
    let is_registered = |subsystem: AnySubsystem| state.defaults.contains_key(subsystem);
    assert(slots(state.subsystems).no_duplicates());
    lemma_filter_no_duplicates(slots(state.subsystems), is_registered);
    lemma_filter_members(slots(state.subsystems), is_registered);
    assert forall|subsystem: AnySubsystem|
        state.defaults.contains_key(subsystem) implies #[trigger] polled.contains(subsystem) by {
        assert(slots(state.subsystems)[subsystem.id as int] == subsystem);
    }
    let base = state.history.len() + polled.len();
    let hooks = run_hooks(polled_state.active, finished);
    lemma_run_hooks_kinds(polled_state.active, finished);
    assert forall|i: int| base <= i < after.history.len() implies (
    #[trigger] after.history[i]).subsystem() is None by {
        if i < base + hooks.len() {
            assert(after.history[i] == hooks[i - base]);
        } else if i < purged.history.len() {
            assert(after.history[i] == ends(executed.banned(mode), true)[i - base - hooks.len()]);
        } else {
        }
    }
}

/// A pass changes neither what the commands declared nor which subsystems
/// are registered with which default command.
pub proof fn law_pass_keeps_declarations(
    state: SchedulerState,
    mode: CompetitionMode,
    finished: Set<AnyCommand>,
)
    ensures
        state.tick(mode, finished).profiles == state.profiles,
        state.tick(mode, finished).subsystems == state.subsystems,
        state.tick(mode, finished).defaults == state.defaults,
{
}

/// While the robot is disabled, a command that does not run when disabled is
/// turned down with `CompetitionDisabled`: nothing changes, and no hook runs.
pub proof fn law_disabled_gating(state: SchedulerState, command: AnyCommand)
    requires
        !state.profile(command).runs_when_disabled,
    ensures
        state.verdict(command, CompetitionMode::Disabled) == Err::<(), ScheduleFailure>(
            ScheduleFailure::CompetitionDisabled,
        ),
        state.schedule(command, CompetitionMode::Disabled) == state,
{
}

/// A command on the schedule is turned down with `CompetitionDisabled`
/// whatever the mode, and nothing changes.
pub proof fn law_scheduled_twice(state: SchedulerState, command: AnyCommand, mode: CompetitionMode)
    requires
        state.scheduled(command),
    ensures
        state.verdict(command, mode) == Err::<(), ScheduleFailure>(
            ScheduleFailure::CompetitionDisabled,
        ),
        state.schedule(command, mode) == state,
{
}

/// Where a command was put on the schedule and a second one that requires a
/// subsystem of the first is put on it after that, the first was cancelled:
/// its `End` hook ran, interrupted, after the first was started; it is off
/// the schedule; and the second holds the subsystem.
pub proof fn law_preemption(
    state: SchedulerState,
    running: AnyCommand,
    incoming: AnyCommand,
    subsystem: AnySubsystem,
    earlier: CompetitionMode,
    later: CompetitionMode,
)
    requires
        state.wf(),
        state.knows(running),
        state.knows(incoming),
        running != incoming,
        state.needs(running, subsystem),
        state.needs(incoming, subsystem),
        state.verdict(running, earlier) is Ok,
        state.schedule(running, earlier).verdict(incoming, later) is Ok,
    ensures
        state.schedule(running, earlier).profile(running).cancel_behavior
            == CancelBehavior::CancelRunning,
        ({
            let between = state.schedule(running, earlier);
            let after = between.schedule(incoming, later);
            &&& between.scheduled(running)
            &&& between.owners.contains_key(subsystem) && between.owners[subsystem] == running
            &&& !after.scheduled(running)
            &&& after.scheduled(incoming)
            &&& after.owners.contains_key(subsystem) && after.owners[subsystem] == incoming
            &&& exists|i: int|
                between.history.len() <= i < after.history.len() && after.history[i] == Hook::End(
                    running,
                    true,
                )
        }),
{
    let between = state.schedule(running, earlier);
    let after = between.schedule(incoming, later);
    state.lemma_schedule_wf(running, earlier);
    lemma_push_members(state.preempt(running).active, running, running);
    assert(between.needs(running, subsystem));
    assert(between.owners.contains_key(subsystem) && between.owners[subsystem] == running);
    assert(between.needs(incoming, subsystem));
    let wanted = between.profile(incoming).requirements;
    let displaced = between.incumbents(wanted);
    between.lemma_incumbents(wanted);
    assert(displaced.contains(running)) by {
        assert(wanted.contains(subsystem));
    }
    let cleared = between.preempt(incoming);
    lemma_filter_members(between.active, |other: AnyCommand| !displaced.to_set().contains(other));
    assert(!cleared.scheduled(running));
    lemma_push_members(cleared.active, incoming, running);
    lemma_push_members(cleared.active, incoming, incoming);
    let j = choose|j: int| 0 <= j < displaced.len() && displaced[j] == running;
    assert(ends(displaced, true)[j] == Hook::End(running, true));
    assert(after.history[between.history.len() + j] == Hook::End(running, true));
}

/// Where a command that does not give way was put on the schedule, a second
/// one that requires a subsystem of the first, and that the mode lets run, is
/// turned down with `CantCancelRunning`: nothing changes, the first stays
/// scheduled and keeps the subsystem.
pub proof fn law_non_preemptable_block(
    state: SchedulerState,
    running: AnyCommand,
    incoming: AnyCommand,
    subsystem: AnySubsystem,
    earlier: CompetitionMode,
    later: CompetitionMode,
)
    requires
        state.wf(),
        state.knows(running),
        state.knows(incoming),
        running != incoming,
        state.needs(running, subsystem),
        state.needs(incoming, subsystem),
        state.profile(running).cancel_behavior == CancelBehavior::CancelIncoming,
        state.verdict(running, earlier) is Ok,
        state.allowed(incoming, later),
    ensures
        ({
            let between = state.schedule(running, earlier);
            &&& between.verdict(incoming, later) == Err::<(), ScheduleFailure>(
                ScheduleFailure::CantCancelRunning,
            )
            &&& between.schedule(incoming, later) == between
            &&& between.scheduled(running)
            &&& between.owners.contains_key(subsystem) && between.owners[subsystem] == running
        }),
{
    let between = state.schedule(running, earlier);
    state.lemma_schedule_wf(running, earlier);
    lemma_push_members(state.preempt(running).active, running, running);
    assert(between.needs(running, subsystem));
    assert(between.owners.contains_key(subsystem) && between.owners[subsystem] == running);
    assert(between.needs(incoming, subsystem));
    assert(!between.scheduled(incoming));
    assert(between.allowed(incoming, later) == state.allowed(incoming, later));
}

/// A registered subsystem that is idle before a pass, or whose holder
/// finishes in the pass or may not run in its mode, gets its default command
/// in that pass, if the mode lets that command run: the command's
/// `Initialize` hook runs in the pass, and after the pass the command is
/// scheduled and holds the subsystem.
pub proof fn law_default_rearmed(
    state: SchedulerState,
    subsystem: AnySubsystem,
    mode: CompetitionMode,
    finished: Set<AnyCommand>,
)
    requires
        state.wf(),
        state.defaults.contains_key(subsystem),
        state.allowed(state.defaults[subsystem], mode),
        state.owners.contains_key(subsystem) ==> finished.contains(state.owners[subsystem])
            || !state.allowed(state.owners[subsystem], mode),
    ensures
        ({
            let after = state.tick(mode, finished);
            let command = state.defaults[subsystem];
            &&& after.scheduled(command)
            &&& after.owners.contains_key(subsystem) && after.owners[subsystem] == command
            &&& exists|i: int|
                state.history.len() <= i < after.history.len() && after.history[i]
                    == Hook::Initialize(command)
        }),
{
    let executed = state.polled().executed(finished);
    let purged = executed.purged(mode);
    let after = state.tick(mode, finished);
    let command = state.defaults[subsystem];
    state.lemma_tick_wf(mode, finished);
    assert(!purged.owners.contains_key(subsystem)) by {
        if executed.owners.contains_key(subsystem) {
            let holder = state.owners[subsystem];
            assert(executed.scheduled(holder));
            assert(!executed.allowed(holder, mode));
            lemma_filter_members(
                executed.active,
                |other: AnyCommand| !executed.allowed(other, mode),
            );
            assert(executed.banned(mode).contains(holder));
        }
    }
    purged.lemma_idle(mode);
    let armed = purged.armable(mode);
    assert(armed.contains(subsystem));
    let j = choose|j: int| 0 <= j < armed.len() && armed[j] == subsystem;
    assert(after.active[purged.active.len() + j] == command);
    assert(after.history[purged.history.len() + j] == Hook::Initialize(command));
}

/// After a pass that reports no failure, every registered subsystem is held.
pub proof fn law_no_registered_subsystem_idle(
    state: SchedulerState,
    subsystem: AnySubsystem,
    mode: CompetitionMode,
    finished: Set<AnyCommand>,
)
    requires
        state.wf(),
        state.defaults.contains_key(subsystem),
        state.tick_verdict(mode, finished) is Ok,
    ensures
        state.tick(mode, finished).owners.contains_key(subsystem),
{
    let purged = state.polled().executed(finished).purged(mode);
    state.lemma_tick_wf(mode, finished);
    purged.lemma_idle(mode);
    if !purged.owners.contains_key(subsystem) {
        assert(purged.idle().contains(subsystem));
        assert(purged.armable(mode).contains(subsystem));
    }
}

/// A pass reports a failure exactly where, after its third step, a registered
/// subsystem is idle whose default command the mode does not let run.
pub proof fn law_pass_failure(
    state: SchedulerState,
    mode: CompetitionMode,
    finished: Set<AnyCommand>,
)
    requires
        state.wf(),
    ensures
        ({
            let purged = state.polled().executed(finished).purged(mode);
            state.tick_verdict(mode, finished) == Err::<(), ScheduleFailure>(
                ScheduleFailure::CompetitionDisabled,
            ) <==> exists|subsystem: AnySubsystem|
                #[trigger] purged.defaults.contains_key(subsystem) && !purged.owners.contains_key(
                    subsystem,
                ) && !purged.allowed(purged.defaults[subsystem], mode)
        }),
        !(mode is Disabled) ==> state.tick_verdict(mode, finished) is Ok,
{
    let purged = state.polled().executed(finished).purged(mode);
    state.lemma_tick_wf(mode, finished);
    purged.lemma_idle(mode);
    if !purged.defaults_allowed(purged.idle(), mode) {
        let subsystem = choose|subsystem: AnySubsystem| #[trigger]
            purged.idle().contains(subsystem) && !purged.allowed(purged.defaults[subsystem], mode);
        assert(purged.defaults.contains_key(subsystem));
    }
    if exists|subsystem: AnySubsystem|
        #[trigger] purged.defaults.contains_key(subsystem) && !purged.owners.contains_key(subsystem)
            && !purged.allowed(purged.defaults[subsystem], mode) {
        let subsystem = choose|subsystem: AnySubsystem|
            #[trigger] purged.defaults.contains_key(subsystem) && !purged.owners.contains_key(
                subsystem,
            ) && !purged.allowed(purged.defaults[subsystem], mode);
        assert(purged.idle().contains(subsystem));
    }
}

/// A scheduled command that reports in a pass that it has finished is ended
/// in that pass, not interrupted, right after it was executed. After the
/// second step of the pass it is off the schedule and holds nothing; after
/// the pass it holds at most a subsystem whose default command it is.
pub proof fn law_finish_then_retire(
    state: SchedulerState,
    command: AnyCommand,
    mode: CompetitionMode,
    finished: Set<AnyCommand>,
)
    requires
        state.wf(),
        state.scheduled(command),
        finished.contains(command),
    ensures
        ({
            let executed = state.polled().executed(finished);
            let after = state.tick(mode, finished);
            &&& exists|i: int|
                state.history.len() <= i && i + 1 < after.history.len() && #[trigger] after.history[i]
                    == Hook::Execute(command) && after.history[i + 1] == Hook::End(command, false)
            &&& !executed.scheduled(command)
            &&& forall|subsystem: AnySubsystem|
                executed.owners.contains_key(subsystem) ==> executed.owners[subsystem] != command
            &&& forall|subsystem: AnySubsystem|
                after.owners.contains_key(subsystem) && after.owners[subsystem] == command
                    ==> state.defaults.contains_key(subsystem) && state.defaults[subsystem]
                    == command
        }),
{
    let polled = state.polled();
    let executed = polled.executed(finished);
    let purged = executed.purged(mode);
    let after = state.tick(mode, finished);
    state.lemma_tick_wf(mode, finished);
    let hooks = run_hooks(polled.active, finished);
    lemma_run_hooks_finished(polled.active, finished, command);
    let j = choose|j: int|
        0 <= j && j + 1 < hooks.len() && #[trigger] hooks[j] == Hook::Execute(command) && hooks[j
            + 1] == Hook::End(command, false);
    let base = state.history.len() + periodics(state.registered()).len();
    assert(executed.history[base + j] == hooks[j]);
    assert(executed.history[base + j + 1] == hooks[j + 1]);
    assert(purged.history[base + j] == hooks[j]);
    assert(purged.history[base + j + 1] == hooks[j + 1]);
    assert(after.history[base + j] == hooks[j]);
    assert(after.history[base + j + 1] == hooks[j + 1]);
    lemma_filter_members(polled.active, |other: AnyCommand| !finished.contains(other));
    assert(!executed.scheduled(command));
    assert forall|subsystem: AnySubsystem|
        after.owners.contains_key(subsystem) && after.owners[subsystem]
            == command implies state.defaults.contains_key(subsystem) && state.defaults[subsystem]
        == command by {
        if purged.owners.contains_key(subsystem) {
            assert(executed.owners.contains_key(subsystem));
            assert(executed.owners[subsystem] == command);
        } else {
            purged.lemma_idle(mode);
            assert(purged.armable(mode).contains(subsystem));
        }
    }
}

/// Cancelling a command that is not scheduled changes nothing and calls no
/// hook, and so does cancelling a command a second time.
pub proof fn law_idempotent_cancel(state: SchedulerState, command: AnyCommand)
    requires
        state.wf(),
    ensures
        !state.scheduled(command) ==> state.cancel(command) == state,
        state.cancel(command).cancel(command) == state.cancel(command),
        !state.cancel(command).scheduled(command),
{
    lemma_filter_members(state.active, |other: AnyCommand| !set![command].contains(other));
}

} // verus!
