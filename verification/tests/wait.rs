use command_scheduler::command::WaitCommand;

#[test]
fn wait_has_not_begun_when_new() {
    let wait = WaitCommand::new(1_000);
    assert_eq!(wait.started(), false);
}

#[test]
fn wait_finishes_once_more_than_the_duration_has_passed() {
    let mut wait = WaitCommand::new(1_000);
    wait.initialize_at(250);

    assert_eq!(wait.started(), true);
    assert_eq!(wait.finished_at(250), false);
    assert_eq!(wait.finished_at(1_249), false);
    assert_eq!(wait.finished_at(1_250), false);
    assert_eq!(wait.finished_at(1_251), true);
    assert_eq!(wait.finished_at(u64::MAX), true);
}

#[test]
fn wait_counts_no_time_before_its_start() {
    let mut wait = WaitCommand::new(0);
    wait.initialize_at(500);

    assert_eq!(wait.finished_at(0), false);
    assert_eq!(wait.finished_at(499), false);
    assert_eq!(wait.finished_at(500), false);
    assert_eq!(wait.finished_at(501), true);
}

#[test]
fn wait_begins_anew_when_initialized_again() {
    let mut wait = WaitCommand::new(10);
    wait.initialize_at(0);
    assert_eq!(wait.finished_at(11), true);

    wait.initialize_at(11);
    assert_eq!(wait.finished_at(11), false);
    assert_eq!(wait.finished_at(21), false);
    assert_eq!(wait.finished_at(22), true);
}

#[test]
fn wait_longer_than_the_clock_never_finishes() {
    let mut wait = WaitCommand::new(u64::MAX as u128);
    wait.initialize_at(0);
    assert_eq!(wait.finished_at(u64::MAX), false);

    let mut longer = WaitCommand::new(u128::MAX);
    longer.initialize_at(0);
    assert_eq!(longer.finished_at(u64::MAX), false);

    let mut shorter = WaitCommand::new(u64::MAX as u128 - 1);
    shorter.initialize_at(0);
    assert_eq!(shorter.finished_at(u64::MAX), true);
    assert_eq!(shorter.finished_at(u64::MAX - 1), false);
}
