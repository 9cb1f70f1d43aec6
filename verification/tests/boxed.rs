use std::cell::Cell;
use std::rc::Rc;

use command_scheduler::command::{AnyCommand, Command};
use command_scheduler::subsystem::{AnySubsystem, Subsystem};
use command_scheduler::{CommandScheduler, CompetitionMode};

struct Drive {
    polls: Rc<Cell<u32>>,
}

impl Subsystem for Drive {
    fn periodic(&mut self) {
        self.polls.set(self.polls.get() + 1);
    }
}

struct Arm;

impl Subsystem for Arm {}

struct Forward {
    drive: [AnySubsystem; 1],
    steps: Rc<Cell<u32>>,
}

impl Command for Forward {
    fn execute(&mut self) {
        self.steps.set(self.steps.get() + 1);
    }

    fn finished(&self) -> bool {
        self.steps.get() >= 3
    }

    fn requirements(&self) -> &[AnySubsystem] {
        &self.drive
    }
}

struct Hold {
    wanted: Vec<AnySubsystem>,
    ended: Rc<Cell<Option<bool>>>,
}

impl Command for Hold {
    fn end(&mut self, interrupted: bool) {
        self.ended.set(Some(interrupted));
    }

    fn requirements(&self) -> &[AnySubsystem] {
        &self.wanted
    }
}

#[test]
fn boxed_commands_of_two_types_share_a_scheduler() {
    let mut scheduler: CommandScheduler<Box<dyn Command>, Box<dyn Subsystem>> =
        CommandScheduler::new();
    let polls = Rc::new(Cell::new(0));
    let steps = Rc::new(Cell::new(0));
    let ended = Rc::new(Cell::new(None));
    let drive = AnySubsystem::new(&mut scheduler, Box::new(Drive { polls: polls.clone() }));
    let arm = AnySubsystem::new(&mut scheduler, Box::new(Arm));
    let hold = AnyCommand::new(
        &mut scheduler,
        Box::new(Hold { wanted: vec![drive], ended: ended.clone() }),
    );
    let forward =
        AnyCommand::new(&mut scheduler, Box::new(Forward { drive: [drive], steps: steps.clone() }));
    scheduler.register_subsystem(drive, hold);

    assert_eq!(scheduler.run(CompetitionMode::Driver), Ok(()));
    assert_eq!(scheduler.requiring(&drive), Some(&hold));
    assert_eq!(scheduler.requiring(&arm), None);

    assert_eq!(scheduler.schedule(forward, CompetitionMode::Driver), Ok(()));
    assert_eq!(ended.get(), Some(true));
    assert_eq!(scheduler.requiring(&drive), Some(&forward));

    assert_eq!(scheduler.run(CompetitionMode::Driver), Ok(()));
    assert_eq!(scheduler.run(CompetitionMode::Driver), Ok(()));
    assert!(scheduler.scheduled(&forward));
    assert_eq!(scheduler.run(CompetitionMode::Driver), Ok(()));

    assert_eq!(steps.get(), 3);
    assert_eq!(polls.get(), 4);
    assert!(!scheduler.scheduled(&forward));
    assert_eq!(scheduler.requiring(&drive), Some(&hold));
}

#[test]
fn box_answers_what_the_command_in_it_answers() {
    struct Stubborn {
        wanted: Vec<AnySubsystem>,
    }

    impl Command for Stubborn {
        fn finished(&self) -> bool {
            true
        }

        fn requirements(&self) -> &[AnySubsystem] {
            &self.wanted
        }

        fn runs_when_disabled(&self) -> bool {
            true
        }

        fn cancel_behavior(&self) -> command_scheduler::command::CancelBehavior {
            command_scheduler::command::CancelBehavior::CancelIncoming
        }
    }

    let wanted = vec![AnySubsystem { id: 4 }, AnySubsystem { id: 1 }];
    let boxed: Box<dyn Command> = Box::new(Stubborn { wanted: wanted.clone() });

    assert_eq!(Command::finished(&boxed), true);
    assert_eq!(Command::requirements(&boxed), wanted.as_slice());
    assert_eq!(Command::runs_when_disabled(&boxed), true);
    assert_eq!(
        Command::cancel_behavior(&boxed),
        command_scheduler::command::CancelBehavior::CancelIncoming
    );
}
