use std::cell::RefCell;
use std::rc::Rc;

use command_scheduler::command::{AnyCommand, CancelBehavior, Command};
use command_scheduler::subsystem::{AnySubsystem, Subsystem};
use command_scheduler::{CommandScheduler, CompetitionMode, ScheduleFailure};

type Journal = Rc<RefCell<Vec<String>>>;

struct Fixture {
    name: &'static str,
    journal: Journal,
}

impl Subsystem for Fixture {
    fn periodic(&mut self) {
        self.journal.borrow_mut().push(format!("periodic {}", self.name));
    }
}

struct Probe {
    name: &'static str,
    journal: Journal,
    requirements: Vec<AnySubsystem>,
    runs_when_disabled: bool,
    cancel_behavior: CancelBehavior,
    /// Reports that it has finished once it was executed this often.
    finish_after: Option<u32>,
    executions: u32,
}

impl Command for Probe {
    fn initialize(&mut self) {
        self.executions = 0;
        self.journal.borrow_mut().push(format!("initialize {}", self.name));
    }

    fn execute(&mut self) {
        self.executions += 1;
        self.journal.borrow_mut().push(format!("execute {}", self.name));
    }

    fn end(&mut self, interrupted: bool) {
        self.journal.borrow_mut().push(format!("end {} {}", self.name, interrupted));
    }

    fn finished(&self) -> bool {
        match self.finish_after {
            Some(limit) => self.executions >= limit,
            None => false,
        }
    }

    fn requirements(&self) -> &[AnySubsystem] {
        &self.requirements
    }

    fn runs_when_disabled(&self) -> bool {
        self.runs_when_disabled
    }

    fn cancel_behavior(&self) -> CancelBehavior {
        self.cancel_behavior
    }
}

struct Bench {
    scheduler: CommandScheduler<Probe, Fixture>,
    journal: Journal,
}

impl Bench {
    fn new() -> Self {
        Bench { scheduler: CommandScheduler::new(), journal: Rc::new(RefCell::new(Vec::new())) }
    }

    fn subsystem(&mut self, name: &'static str) -> AnySubsystem {
        let fixture = Fixture { name, journal: self.journal.clone() };
        AnySubsystem::new(&mut self.scheduler, fixture)
    }

    fn command(&mut self, name: &'static str, requirements: Vec<AnySubsystem>) -> AnyCommand {
        self.custom(name, requirements, false, CancelBehavior::CancelRunning, None)
    }

    fn custom(
        &mut self,
        name: &'static str,
        requirements: Vec<AnySubsystem>,
        runs_when_disabled: bool,
        cancel_behavior: CancelBehavior,
        finish_after: Option<u32>,
    ) -> AnyCommand {
        let probe = Probe {
            name,
            journal: self.journal.clone(),
            requirements,
            runs_when_disabled,
            cancel_behavior,
            finish_after,
            executions: 0,
        };
        AnyCommand::new(&mut self.scheduler, probe)
    }

    /// What was called since the last look, oldest first.
    fn calls(&self) -> Vec<String> {
        self.journal.borrow_mut().drain(..).collect()
    }
}

fn lines(expected: &[&str]) -> Vec<String> {
    expected.iter().map(|line| line.to_string()).collect()
}

#[test]
fn disjoint_admission_initializes_once() {
    let mut bench = Bench::new();
    let drive = bench.subsystem("drive");
    let arm = bench.subsystem("arm");
    let driving = bench.command("driving", vec![drive]);
    let lifting = bench.command("lifting", vec![arm]);

    assert_eq!(bench.scheduler.schedule(driving, CompetitionMode::Driver), Ok(()));
    assert_eq!(bench.calls(), lines(&["initialize driving"]));
    assert_eq!(bench.scheduler.schedule(lifting, CompetitionMode::Driver), Ok(()));
    assert_eq!(bench.calls(), lines(&["initialize lifting"]));

    assert!(bench.scheduler.scheduled(&driving));
    assert!(bench.scheduler.scheduled(&lifting));
    assert_eq!(bench.scheduler.requiring(&drive), Some(&driving));
    assert_eq!(bench.scheduler.requiring(&arm), Some(&lifting));
}

#[test]
fn disabled_gating_calls_no_hook() {
    let mut bench = Bench::new();
    let drive = bench.subsystem("drive");
    let driving = bench.command("driving", vec![drive]);

    assert_eq!(
        bench.scheduler.schedule(driving, CompetitionMode::Disabled),
        Err(ScheduleFailure::CompetitionDisabled)
    );

    assert_eq!(bench.calls(), lines(&[]));
    assert!(!bench.scheduler.scheduled(&driving));
    assert_eq!(bench.scheduler.requiring(&drive), None);
    assert_eq!(bench.scheduler.schedule(driving, CompetitionMode::Autonomous), Ok(()));
    assert_eq!(bench.calls(), lines(&["initialize driving"]));
}

#[test]
fn preemption_ends_the_incumbent_as_interrupted() {
    let mut bench = Bench::new();
    let drive = bench.subsystem("drive");
    let first = bench.command("first", vec![drive]);
    let second = bench.command("second", vec![drive]);

    assert_eq!(bench.scheduler.schedule(first, CompetitionMode::Driver), Ok(()));
    assert_eq!(bench.scheduler.schedule(second, CompetitionMode::Driver), Ok(()));

    assert_eq!(bench.calls(), lines(&["initialize first", "end first true", "initialize second"]));
    assert!(!bench.scheduler.scheduled(&first));
    assert!(bench.scheduler.scheduled(&second));
    assert_eq!(bench.scheduler.requiring(&drive), Some(&second));
}

#[test]
fn preempted_command_loses_all_its_subsystems() {
    let mut bench = Bench::new();
    let drive = bench.subsystem("drive");
    let arm = bench.subsystem("arm");
    let wide = bench.command("wide", vec![drive, arm]);
    let narrow = bench.command("narrow", vec![arm]);

    assert_eq!(bench.scheduler.schedule(wide, CompetitionMode::Driver), Ok(()));
    assert_eq!(bench.scheduler.schedule(narrow, CompetitionMode::Driver), Ok(()));

    assert_eq!(bench.calls(), lines(&["initialize wide", "end wide true", "initialize narrow"]));
    assert_eq!(bench.scheduler.requiring(&drive), None);
    assert_eq!(bench.scheduler.requiring(&arm), Some(&narrow));
}

#[test]
fn incumbents_are_cancelled_in_the_order_of_the_requirements() {
    let mut bench = Bench::new();
    let drive = bench.subsystem("drive");
    let arm = bench.subsystem("arm");
    let claw = bench.subsystem("claw");
    let driving = bench.command("driving", vec![drive]);
    let lifting = bench.command("lifting", vec![arm, claw]);
    let sweeping = bench.command("sweeping", vec![claw, arm, drive, claw]);

    assert_eq!(bench.scheduler.schedule(driving, CompetitionMode::Driver), Ok(()));
    assert_eq!(bench.scheduler.schedule(lifting, CompetitionMode::Driver), Ok(()));
    bench.calls();
    assert_eq!(bench.scheduler.schedule(sweeping, CompetitionMode::Driver), Ok(()));

    assert_eq!(
        bench.calls(),
        lines(&["end lifting true", "end driving true", "initialize sweeping"])
    );
    assert_eq!(bench.scheduler.requiring(&drive), Some(&sweeping));
    assert_eq!(bench.scheduler.requiring(&arm), Some(&sweeping));
    assert_eq!(bench.scheduler.requiring(&claw), Some(&sweeping));
    assert!(!bench.scheduler.scheduled(&driving));
    assert!(!bench.scheduler.scheduled(&lifting));
}

#[test]
fn non_preemptable_block_leaves_everything_as_it_was() {
    let mut bench = Bench::new();
    let drive = bench.subsystem("drive");
    let holder = bench.custom("holder", vec![drive], false, CancelBehavior::CancelIncoming, None);
    let incoming = bench.command("incoming", vec![drive]);

    assert_eq!(bench.scheduler.schedule(holder, CompetitionMode::Driver), Ok(()));
    bench.calls();
    assert_eq!(
        bench.scheduler.schedule(incoming, CompetitionMode::Driver),
        Err(ScheduleFailure::CantCancelRunning)
    );

    assert_eq!(bench.calls(), lines(&[]));
    assert!(bench.scheduler.scheduled(&holder));
    assert!(!bench.scheduler.scheduled(&incoming));
    assert_eq!(bench.scheduler.requiring(&drive), Some(&holder));
}

#[test]
fn one_incumbent_that_does_not_give_way_blocks_the_whole_admission() {
    let mut bench = Bench::new();
    let drive = bench.subsystem("drive");
    let arm = bench.subsystem("arm");
    let claw = bench.subsystem("claw");
    let yielding = bench.command("yielding", vec![drive]);
    let stubborn = bench.custom("stubborn", vec![arm], false, CancelBehavior::CancelIncoming, None);
    let incoming = bench.command("incoming", vec![drive, claw, arm]);

    assert_eq!(bench.scheduler.schedule(yielding, CompetitionMode::Driver), Ok(()));
    assert_eq!(bench.scheduler.schedule(stubborn, CompetitionMode::Driver), Ok(()));
    bench.calls();
    assert_eq!(
        bench.scheduler.schedule(incoming, CompetitionMode::Driver),
        Err(ScheduleFailure::CantCancelRunning)
    );

    assert_eq!(bench.calls(), lines(&[]));
    assert!(bench.scheduler.scheduled(&yielding));
    assert!(bench.scheduler.scheduled(&stubborn));
    assert_eq!(bench.scheduler.requiring(&drive), Some(&yielding));
    assert_eq!(bench.scheduler.requiring(&arm), Some(&stubborn));
    assert_eq!(bench.scheduler.requiring(&claw), None);
}

#[test]
fn disabled_mode_is_reported_before_a_block() {
    let mut bench = Bench::new();
    let drive = bench.subsystem("drive");
    let holder = bench.custom("holder", vec![drive], true, CancelBehavior::CancelIncoming, None);
    let incoming = bench.command("incoming", vec![drive]);

    assert_eq!(bench.scheduler.schedule(holder, CompetitionMode::Disabled), Ok(()));
    assert_eq!(
        bench.scheduler.schedule(incoming, CompetitionMode::Disabled),
        Err(ScheduleFailure::CompetitionDisabled)
    );
    assert_eq!(
        bench.scheduler.schedule(incoming, CompetitionMode::Driver),
        Err(ScheduleFailure::CantCancelRunning)
    );
}

#[test]
fn mutual_exclusion_holds_after_every_step() {
    let mut bench = Bench::new();
    let subsystems = vec![bench.subsystem("drive"), bench.subsystem("arm"), bench.subsystem("claw")];
    let wanted = vec![
        vec![subsystems[0]],
        vec![subsystems[0], subsystems[1]],
        vec![subsystems[1], subsystems[2]],
        vec![subsystems[2]],
        vec![],
    ];
    let names = ["a", "b", "c", "d", "e"];
    let mut commands = Vec::new();
    for (name, wanted) in names.iter().zip(wanted.iter()) {
        let finish_after = if *name == "c" { Some(1) } else { None };
        commands.push(bench.custom(
            name,
            wanted.clone(),
            *name != "d",
            CancelBehavior::CancelRunning,
            finish_after,
        ));
    }
    bench.scheduler.register_subsystem(subsystems[2], commands[3]);

    let check = |bench: &Bench| {
        for subsystem in subsystems.iter() {
            let needy: Vec<&AnyCommand> = commands
                .iter()
                .zip(wanted.iter())
                .filter(|(command, wanted)| {
                    bench.scheduler.scheduled(command) && wanted.contains(subsystem)
                })
                .map(|(command, _)| command)
                .collect();
            assert!(needy.len() <= 1);
            assert_eq!(bench.scheduler.requiring(subsystem), needy.first().copied());
        }
    };

    check(&bench);
    for step in [0, 1, 2, 3, 4, 0, 2, 1] {
        let _ = bench.scheduler.schedule(commands[step], CompetitionMode::Driver);
        check(&bench);
    }
    assert_eq!(bench.scheduler.run(CompetitionMode::Driver), Ok(()));
    check(&bench);
    bench.scheduler.cancel(commands[1]);
    check(&bench);
    assert_eq!(bench.scheduler.run(CompetitionMode::Disabled), Err(ScheduleFailure::CompetitionDisabled));
    check(&bench);
    assert_eq!(bench.scheduler.run(CompetitionMode::Autonomous), Ok(()));
    check(&bench);
}

#[test]
fn commands_without_requirements_run_side_by_side() {
    let mut bench = Bench::new();
    let first = bench.command("first", vec![]);
    let second = bench.command("second", vec![]);

    assert_eq!(bench.scheduler.schedule(first, CompetitionMode::Driver), Ok(()));
    assert_eq!(bench.scheduler.schedule(second, CompetitionMode::Driver), Ok(()));
    assert_eq!(bench.scheduler.run(CompetitionMode::Driver), Ok(()));

    assert_eq!(
        bench.calls(),
        lines(&["initialize first", "initialize second", "execute first", "execute second"])
    );
    assert!(bench.scheduler.scheduled(&first));
    assert!(bench.scheduler.scheduled(&second));
}

#[test]
fn pass_on_an_empty_scheduler_does_nothing() {
    let mut bench = Bench::new();

    assert_eq!(bench.scheduler.run(CompetitionMode::Driver), Ok(()));
    assert_eq!(bench.scheduler.run(CompetitionMode::Disabled), Ok(()));

    assert_eq!(bench.calls(), lines(&[]));
}

#[test]
fn pass_without_registered_subsystems_executes_the_schedule() {
    let mut bench = Bench::new();
    let drive = bench.subsystem("drive");
    let driving = bench.command("driving", vec![drive]);

    assert_eq!(bench.scheduler.schedule(driving, CompetitionMode::Driver), Ok(()));
    bench.calls();
    assert_eq!(bench.scheduler.run(CompetitionMode::Driver), Ok(()));
    assert_eq!(bench.scheduler.run(CompetitionMode::Driver), Ok(()));

    assert_eq!(bench.calls(), lines(&["execute driving", "execute driving"]));
}

#[test]
fn pass_goes_through_its_steps_in_order() {
    let mut bench = Bench::new();
    let drive = bench.subsystem("drive");
    let arm = bench.subsystem("arm");
    let claw = bench.subsystem("claw");
    let idling = bench.command("idling", vec![claw]);
    let holding = bench.command("holding", vec![drive]);
    let lifting = bench.custom("lifting", vec![arm], false, CancelBehavior::CancelRunning, Some(1));
    let driving = bench.command("driving", vec![drive]);
    bench.scheduler.register_subsystem(claw, idling);
    bench.scheduler.register_subsystem(drive, holding);

    assert_eq!(bench.scheduler.schedule(lifting, CompetitionMode::Driver), Ok(()));
    assert_eq!(bench.scheduler.schedule(driving, CompetitionMode::Driver), Ok(()));
    bench.calls();
    assert_eq!(bench.scheduler.run(CompetitionMode::Driver), Ok(()));

    assert_eq!(
        bench.calls(),
        lines(&[
            "periodic drive",
            "periodic claw",
            "execute lifting",
            "end lifting false",
            "execute driving",
            "initialize idling",
        ])
    );
    assert!(!bench.scheduler.scheduled(&lifting));
    assert!(bench.scheduler.scheduled(&driving));
    assert!(bench.scheduler.scheduled(&idling));
    assert!(!bench.scheduler.scheduled(&holding));
    assert_eq!(bench.scheduler.requiring(&arm), None);
}

#[test]
fn finished_command_is_retired_in_the_same_pass() {
    let mut bench = Bench::new();
    let drive = bench.subsystem("drive");
    let arm = bench.subsystem("arm");
    let brief = bench.custom("brief", vec![drive, arm], false, CancelBehavior::CancelIncoming, Some(2));

    assert_eq!(bench.scheduler.schedule(brief, CompetitionMode::Driver), Ok(()));
    assert_eq!(bench.scheduler.run(CompetitionMode::Driver), Ok(()));
    assert!(bench.scheduler.scheduled(&brief));
    assert_eq!(bench.scheduler.requiring(&drive), Some(&brief));
    assert_eq!(bench.calls(), lines(&["initialize brief", "execute brief"]));

    assert_eq!(bench.scheduler.run(CompetitionMode::Driver), Ok(()));
    assert_eq!(bench.calls(), lines(&["execute brief", "end brief false"]));
    assert!(!bench.scheduler.scheduled(&brief));
    assert_eq!(bench.scheduler.requiring(&drive), None);
    assert_eq!(bench.scheduler.requiring(&arm), None);

    assert_eq!(bench.scheduler.run(CompetitionMode::Driver), Ok(()));
    assert_eq!(bench.calls(), lines(&[]));
}

#[test]
fn retired_command_can_be_scheduled_anew() {
    let mut bench = Bench::new();
    let drive = bench.subsystem("drive");
    let brief = bench.custom("brief", vec![drive], false, CancelBehavior::CancelRunning, Some(1));

    assert_eq!(bench.scheduler.schedule(brief, CompetitionMode::Driver), Ok(()));
    assert_eq!(bench.scheduler.run(CompetitionMode::Driver), Ok(()));
    assert_eq!(bench.scheduler.schedule(brief, CompetitionMode::Driver), Ok(()));
    assert_eq!(bench.scheduler.run(CompetitionMode::Driver), Ok(()));

    assert_eq!(
        bench.calls(),
        lines(&[
            "initialize brief",
            "execute brief",
            "end brief false",
            "initialize brief",
            "execute brief",
            "end brief false",
        ])
    );
}

#[test]
fn default_command_is_started_again_after_a_cancel() {
    let mut bench = Bench::new();
    let drive = bench.subsystem("drive");
    let idling = bench.command("idling", vec![drive]);
    bench.scheduler.register_subsystem(drive, idling);

    assert_eq!(bench.scheduler.run(CompetitionMode::Driver), Ok(()));
    assert_eq!(bench.calls(), lines(&["periodic drive", "initialize idling"]));
    bench.scheduler.cancel(idling);
    assert_eq!(bench.calls(), lines(&["end idling true"]));
    assert_eq!(bench.scheduler.requiring(&drive), None);

    assert_eq!(bench.scheduler.run(CompetitionMode::Driver), Ok(()));
    assert_eq!(bench.calls(), lines(&["periodic drive", "initialize idling"]));
    assert!(bench.scheduler.scheduled(&idling));
    assert_eq!(bench.scheduler.requiring(&drive), Some(&idling));

    assert_eq!(bench.scheduler.run(CompetitionMode::Driver), Ok(()));
    assert_eq!(bench.calls(), lines(&["periodic drive", "execute idling"]));
}

#[test]
fn default_command_takes_over_in_the_pass_in_which_the_holder_finishes() {
    let mut bench = Bench::new();
    let drive = bench.subsystem("drive");
    let idling = bench.command("idling", vec![drive]);
    let brief = bench.custom("brief", vec![drive], false, CancelBehavior::CancelRunning, Some(1));
    bench.scheduler.register_subsystem(drive, idling);

    assert_eq!(bench.scheduler.schedule(brief, CompetitionMode::Driver), Ok(()));
    bench.calls();
    assert_eq!(bench.scheduler.run(CompetitionMode::Driver), Ok(()));

    assert_eq!(
        bench.calls(),
        lines(&["periodic drive", "execute brief", "end brief false", "initialize idling"])
    );
    assert_eq!(bench.scheduler.requiring(&drive), Some(&idling));
}

#[test]
fn default_command_gives_way_and_comes_back() {
    let mut bench = Bench::new();
    let drive = bench.subsystem("drive");
    let idling = bench.command("idling", vec![drive]);
    let brief = bench.custom("brief", vec![drive], false, CancelBehavior::CancelRunning, Some(1));
    bench.scheduler.register_subsystem(drive, idling);

    assert_eq!(bench.scheduler.run(CompetitionMode::Driver), Ok(()));
    assert_eq!(bench.scheduler.schedule(brief, CompetitionMode::Driver), Ok(()));
    assert_eq!(bench.scheduler.requiring(&drive), Some(&brief));
    bench.calls();
    assert_eq!(bench.scheduler.run(CompetitionMode::Driver), Ok(()));

    assert_eq!(
        bench.calls(),
        lines(&["periodic drive", "execute brief", "end brief false", "initialize idling"])
    );
    assert!(bench.scheduler.scheduled(&idling));
}

#[test]
fn cancel_of_a_command_that_is_not_scheduled_does_nothing() {
    let mut bench = Bench::new();
    let drive = bench.subsystem("drive");
    let driving = bench.command("driving", vec![drive]);
    let waiting = bench.command("waiting", vec![drive]);

    assert_eq!(bench.scheduler.schedule(driving, CompetitionMode::Driver), Ok(()));
    bench.calls();
    bench.scheduler.cancel(waiting);
    bench.scheduler.cancel(AnyCommand { id: 40 });

    assert_eq!(bench.calls(), lines(&[]));
    assert!(bench.scheduler.scheduled(&driving));
    assert_eq!(bench.scheduler.requiring(&drive), Some(&driving));

    bench.scheduler.cancel(driving);
    bench.scheduler.cancel(driving);
    assert_eq!(bench.calls(), lines(&["end driving true"]));
    assert!(!bench.scheduler.scheduled(&driving));
    assert_eq!(bench.scheduler.requiring(&drive), None);
}

#[test]
fn cancel_keeps_the_order_of_the_others() {
    let mut bench = Bench::new();
    let first = bench.command("first", vec![]);
    let second = bench.command("second", vec![]);
    let third = bench.command("third", vec![]);

    assert_eq!(bench.scheduler.schedule(first, CompetitionMode::Driver), Ok(()));
    assert_eq!(bench.scheduler.schedule(second, CompetitionMode::Driver), Ok(()));
    assert_eq!(bench.scheduler.schedule(third, CompetitionMode::Driver), Ok(()));
    bench.scheduler.cancel(second);
    assert_eq!(bench.scheduler.schedule(second, CompetitionMode::Driver), Ok(()));
    bench.calls();
    assert_eq!(bench.scheduler.run(CompetitionMode::Driver), Ok(()));

    assert_eq!(bench.calls(), lines(&["execute first", "execute third", "execute second"]));
}

#[test]
fn retire_ends_a_command_as_not_interrupted() {
    let mut bench = Bench::new();
    let drive = bench.subsystem("drive");
    let driving = bench.command("driving", vec![drive]);

    assert_eq!(bench.scheduler.schedule(driving, CompetitionMode::Driver), Ok(()));
    bench.calls();
    bench.scheduler.retire(driving, false);
    bench.scheduler.retire(driving, false);

    assert_eq!(bench.calls(), lines(&["end driving false"]));
    assert!(!bench.scheduler.scheduled(&driving));
    assert_eq!(bench.scheduler.requiring(&drive), None);
}

#[test]
fn disabled_pass_executes_once_more_and_then_cancels() {
    let mut bench = Bench::new();
    let drive = bench.subsystem("drive");
    let arm = bench.subsystem("arm");
    let driving = bench.command("driving", vec![drive]);
    let logging = bench.custom("logging", vec![arm], true, CancelBehavior::CancelRunning, None);

    assert_eq!(bench.scheduler.schedule(driving, CompetitionMode::Driver), Ok(()));
    assert_eq!(bench.scheduler.schedule(logging, CompetitionMode::Driver), Ok(()));
    bench.calls();
    assert_eq!(bench.scheduler.run(CompetitionMode::Disabled), Ok(()));

    assert_eq!(bench.calls(), lines(&["execute driving", "execute logging", "end driving true"]));
    assert!(!bench.scheduler.scheduled(&driving));
    assert!(bench.scheduler.scheduled(&logging));
    assert_eq!(bench.scheduler.requiring(&drive), None);
    assert_eq!(bench.scheduler.requiring(&arm), Some(&logging));
}

#[test]
fn command_that_finishes_in_a_disabled_pass_is_ended_once() {
    let mut bench = Bench::new();
    let drive = bench.subsystem("drive");
    let brief = bench.custom("brief", vec![drive], false, CancelBehavior::CancelRunning, Some(1));

    assert_eq!(bench.scheduler.schedule(brief, CompetitionMode::Driver), Ok(()));
    bench.calls();
    assert_eq!(bench.scheduler.run(CompetitionMode::Disabled), Ok(()));

    assert_eq!(bench.calls(), lines(&["execute brief", "end brief false"]));
    assert!(!bench.scheduler.scheduled(&brief));
}

#[test]
fn disabled_pass_reports_a_default_command_that_may_not_run() {
    let mut bench = Bench::new();
    let drive = bench.subsystem("drive");
    let arm = bench.subsystem("arm");
    let claw = bench.subsystem("claw");
    let idling = bench.command("idling", vec![drive]);
    let resting = bench.custom("resting", vec![arm], true, CancelBehavior::CancelRunning, None);
    let gripping = bench.custom("gripping", vec![claw], true, CancelBehavior::CancelRunning, None);
    bench.scheduler.register_subsystem(drive, idling);
    bench.scheduler.register_subsystem(arm, resting);
    bench.scheduler.register_subsystem(claw, gripping);

    assert_eq!(
        bench.scheduler.run(CompetitionMode::Disabled),
        Err(ScheduleFailure::CompetitionDisabled)
    );

    assert_eq!(
        bench.calls(),
        lines(&[
            "periodic drive",
            "periodic arm",
            "periodic claw",
            "initialize resting",
            "initialize gripping",
        ])
    );
    assert!(!bench.scheduler.scheduled(&idling));
    assert_eq!(bench.scheduler.requiring(&drive), None);
    assert_eq!(bench.scheduler.requiring(&arm), Some(&resting));
    assert_eq!(bench.scheduler.requiring(&claw), Some(&gripping));

    assert_eq!(bench.scheduler.run(CompetitionMode::Driver), Ok(()));
    assert_eq!(bench.scheduler.requiring(&drive), Some(&idling));
}

#[test]
fn disabled_pass_cancels_a_default_command_and_reports_it() {
    let mut bench = Bench::new();
    let drive = bench.subsystem("drive");
    let idling = bench.command("idling", vec![drive]);
    bench.scheduler.register_subsystem(drive, idling);

    assert_eq!(bench.scheduler.run(CompetitionMode::Driver), Ok(()));
    bench.calls();
    assert_eq!(
        bench.scheduler.run(CompetitionMode::Disabled),
        Err(ScheduleFailure::CompetitionDisabled)
    );

    assert_eq!(bench.calls(), lines(&["periodic drive", "execute idling", "end idling true"]));
    assert!(!bench.scheduler.scheduled(&idling));
    assert_eq!(bench.scheduler.requiring(&drive), None);
}

#[test]
fn later_registration_replaces_the_default_command() {
    let mut bench = Bench::new();
    let drive = bench.subsystem("drive");
    let idling = bench.command("idling", vec![drive]);
    let braking = bench.command("braking", vec![drive]);
    bench.scheduler.register_subsystem(drive, idling);
    bench.scheduler.register_subsystem(drive, braking);

    assert_eq!(bench.scheduler.run(CompetitionMode::Driver), Ok(()));

    assert_eq!(bench.calls(), lines(&["periodic drive", "initialize braking"]));
    assert_eq!(bench.scheduler.requiring(&drive), Some(&braking));
}
