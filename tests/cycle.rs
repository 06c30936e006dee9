use nvidia_update::{
    is_stale, recovery_for, Command, Event, ExitOutcome, Reload, ReloadCommand, UnholdGuard, UpgradeCycle,
    UpgradeError, INDEX_MAX_AGE_SECS, NANOS_PER_SEC,
};

const NOW: u128 = 1_700_000_000 * NANOS_PER_SEC;

fn ok() -> Event {
    Event::Exited(ExitOutcome::Success)
}

fn listed(text: &str) -> Event {
    Event::Listed(ExitOutcome::Success, text.as_bytes().to_vec())
}

fn strings(names: &[&str]) -> Vec<String> {
    names.iter().map(|n| n.to_string()).collect()
}

/// Feeds the events in order, collecting the commands the cycle asks for.
fn run(mark_only: bool, events: Vec<Event>) -> Vec<Command> {
    let mut cycle = UpgradeCycle::new(mark_only);
    let mut seen = vec![cycle.command()];
    for event in events {
        assert!(cycle.accepts(&event));
        cycle = cycle.step(event);
        seen.push(cycle.command());
    }
    seen
}

fn finish(commands: &[Command]) -> &Result<bool, UpgradeError> {
    match commands.last() {
        Some(Command::Finish(r)) => r,
        other => panic!("cycle not finished: {:?}", other),
    }
}

fn count(commands: &[Command], f: fn(&Command) -> bool) -> usize {
    commands.iter().filter(|c| f(c)).count()
}

#[test]
fn boundary_age_is_fresh() {
    let limit = INDEX_MAX_AGE_SECS as u128 * NANOS_PER_SEC;
    assert!(!is_stale(Some(NOW - limit), NOW, INDEX_MAX_AGE_SECS));
    assert!(is_stale(Some(NOW - limit - 1), NOW, INDEX_MAX_AGE_SECS));
    assert!(is_stale(Some(NOW - limit - NANOS_PER_SEC), NOW, INDEX_MAX_AGE_SECS));
    assert!(!is_stale(Some(NOW), NOW, INDEX_MAX_AGE_SECS));
}

#[test]
fn unreadable_marker_is_stale() {
    assert!(is_stale(None, NOW, INDEX_MAX_AGE_SECS));
    assert_eq!(INDEX_MAX_AGE_SECS, 172_800);
}

#[test]
fn future_marker_is_fresh() {
    assert!(!is_stale(Some(NOW + 1), NOW, INDEX_MAX_AGE_SECS));
    assert!(!is_stale(Some(u128::MAX), 0, 0));
}

#[test]
fn guard_holds_union_of_sets() {
    let mut guard = UnholdGuard::new(strings(&["a", "b"]));
    guard.extend(strings(&["b", "c"]));
    guard.extend(Vec::new());
    guard.extend(strings(&["d"]));
    assert_eq!(guard.names(), strings(&["a", "b", "b", "c", "d"]));
    let mut names = guard.names();
    names.sort();
    names.dedup();
    assert_eq!(names, strings(&["a", "b", "c", "d"]));
}

#[test]
fn version_change_needs_reload() {
    let seen = run(
        false,
        vec![
            Event::IndexAge { modified: Some(NOW), now: NOW },
            listed("ii A 1 amd64 d\n"),
            ok(),
            ok(),
            listed("ii A 2 amd64 d\n"),
            ok(),
        ],
    );
    assert!(matches!(seen[0], Command::CheckIndexAge));
    assert!(matches!(seen[1], Command::ListPackages));
    assert!(matches!(&seen[2], Command::Unhold(n) if *n == strings(&["A"])));
    assert!(matches!(seen[3], Command::Upgrade));
    assert!(matches!(seen[4], Command::ListPackages));
    assert!(matches!(&seen[5], Command::Hold(n) if *n == strings(&["A", "A"])));
    assert_eq!(finish(&seen), &Ok(true));
    let mut reload = recovery_for(finish(&seen)).unwrap();
    assert!(matches!(reload.command(), ReloadCommand::UnloadModule));
    reload = reload.step(&ok());
    assert!(matches!(reload.command(), ReloadCommand::LoadModule));
    reload = reload.step(&ok());
    assert!(matches!(reload.command(), ReloadCommand::Finish(Ok(()))));
}

#[test]
fn nothing_installed_needs_no_reload() {
    let seen = run(
        false,
        vec![
            Event::IndexAge { modified: Some(NOW), now: NOW },
            listed(""),
            ok(),
            ok(),
            listed(""),
            ok(),
        ],
    );
    assert!(matches!(&seen[2], Command::Unhold(n) if n.is_empty()));
    assert!(matches!(&seen[5], Command::Hold(n) if n.is_empty()));
    assert_eq!(finish(&seen), &Ok(false));
    assert!(recovery_for(finish(&seen)).is_none());
}

#[test]
fn stale_index_is_refreshed() {
    let seen = run(false, vec![Event::IndexAge { modified: None, now: NOW }, ok(), listed("")]);
    assert!(matches!(seen[1], Command::RefreshIndex));
    assert!(matches!(seen[2], Command::ListPackages));
}

#[test]
fn failed_refresh_stops_before_unhold() {
    let seen = run(
        false,
        vec![
            Event::IndexAge { modified: None, now: NOW },
            Event::Exited(ExitOutcome::Failure { code: Some(100) }),
        ],
    );
    assert_eq!(finish(&seen), &Err(UpgradeError::NonZeroExit { code: Some(100) }));
    assert_eq!(count(&seen, |c| matches!(c, Command::Unhold(_))), 0);
}

#[test]
fn new_packages_are_held_too() {
    let seen = run(
        false,
        vec![
            Event::IndexAge { modified: Some(NOW), now: NOW },
            listed("ii a 1 x\n"),
            ok(),
            ok(),
            listed("ii a 1 x\nii b 1 x\n"),
            ok(),
        ],
    );
    assert!(matches!(&seen[5], Command::Hold(n) if *n == strings(&["a", "a", "b"])));
    assert_eq!(finish(&seen), &Ok(true));
}

#[test]
fn failed_upgrade_still_holds_again() {
    let seen = run(
        false,
        vec![
            Event::IndexAge { modified: Some(NOW), now: NOW },
            listed("ii a 1 x\n"),
            ok(),
            Event::Exited(ExitOutcome::Failure { code: None }),
            ok(),
        ],
    );
    assert!(matches!(&seen[4], Command::Hold(n) if *n == strings(&["a"])));
    assert_eq!(finish(&seen), &Err(UpgradeError::NonZeroExit { code: None }));
}

#[test]
fn unstartable_upgrade_still_holds_again() {
    let seen = run(
        false,
        vec![
            Event::IndexAge { modified: Some(NOW), now: NOW },
            listed("ii a 1 x\n"),
            ok(),
            Event::NotStarted,
            ok(),
        ],
    );
    assert!(matches!(&seen[4], Command::Hold(n) if *n == strings(&["a"])));
    assert_eq!(finish(&seen), &Err(UpgradeError::Invocation));
}

#[test]
fn unreadable_second_listing_still_holds_again() {
    let seen = run(
        false,
        vec![
            Event::IndexAge { modified: Some(NOW), now: NOW },
            listed("ii a 1 x\n"),
            ok(),
            ok(),
            Event::Listed(ExitOutcome::Success, vec![0xc0]),
            ok(),
        ],
    );
    assert!(matches!(&seen[5], Command::Hold(n) if *n == strings(&["a"])));
    assert_eq!(finish(&seen), &Err(UpgradeError::QueryParse));
}

#[test]
fn failed_unhold_owes_nothing() {
    let seen = run(
        false,
        vec![
            Event::IndexAge { modified: Some(NOW), now: NOW },
            listed("ii a 1 x\n"),
            Event::Exited(ExitOutcome::Failure { code: Some(1) }),
        ],
    );
    assert_eq!(finish(&seen), &Err(UpgradeError::Pin { code: Some(1) }));
    assert_eq!(count(&seen, |c| matches!(c, Command::Hold(_))), 0);
}

#[test]
fn failed_listing_is_an_error() {
    let seen = run(
        true,
        vec![Event::Listed(ExitOutcome::Failure { code: Some(2) }, Vec::new())],
    );
    assert_eq!(finish(&seen), &Err(UpgradeError::NonZeroExit { code: Some(2) }));
}

#[test]
fn failed_hold_aborts_with_names() {
    let seen = run(
        false,
        vec![
            Event::IndexAge { modified: Some(NOW), now: NOW },
            listed("ii a 1 x\nii b 1 x\n"),
            ok(),
            ok(),
            listed("ii a 2 x\nii b 1 x\n"),
            Event::Exited(ExitOutcome::Failure { code: Some(1) }),
        ],
    );
    match seen.last() {
        Some(Command::Abort(n)) => assert_eq!(*n, strings(&["a", "b", "a", "b"])),
        other => panic!("expected an abort, got {:?}", other),
    }
}

#[test]
fn future_marker_skips_refresh() {
    let seen = run(false, vec![Event::IndexAge { modified: Some(NOW + 5), now: NOW }]);
    assert!(matches!(seen[1], Command::ListPackages));
    assert_eq!(count(&seen, |c| matches!(c, Command::RefreshIndex)), 0);
}

#[test]
fn mark_only_never_upgrades() {
    let seen = run(true, vec![listed("ii b 2 x\nii a 1 x\n"), ok(), ok()]);
    assert!(matches!(seen[0], Command::ListPackages));
    assert!(matches!(&seen[1], Command::Unhold(n) if *n == strings(&["a", "b"])));
    assert!(matches!(&seen[2], Command::Hold(n) if *n == strings(&["a", "b"])));
    assert_eq!(finish(&seen), &Ok(false));
    assert_eq!(count(&seen, |c| matches!(c, Command::Upgrade)), 0);
    assert_eq!(count(&seen, |c| matches!(c, Command::Unhold(_))), 1);
    assert_eq!(count(&seen, |c| matches!(c, Command::Hold(_))), 1);
}

#[test]
fn finished_cycle_takes_no_answer() {
    let mut cycle = UpgradeCycle::new(true);
    assert!(!cycle.accepts(&ok()));
    cycle = cycle.step(listed(""));
    assert!(!cycle.accepts(&listed("")));
    assert!(cycle.accepts(&ok()));
    cycle = cycle.step(ok());
    cycle = cycle.step(ok());
    assert!(!cycle.accepts(&ok()));
    assert!(!cycle.accepts(&Event::NotStarted));
}

#[test]
fn failed_unload_reboots() {
    let reload = Reload::new().step(&Event::Exited(ExitOutcome::Failure { code: Some(1) }));
    assert!(matches!(reload.command(), ReloadCommand::Reboot));
    let done = reload.step(&ok());
    assert!(matches!(done.command(), ReloadCommand::Finish(Ok(()))));
    let failed = Reload::new()
        .step(&Event::Exited(ExitOutcome::Failure { code: None }))
        .step(&Event::NotStarted);
    assert!(matches!(failed.command(), ReloadCommand::Finish(Err(UpgradeError::Invocation))));
}

#[test]
fn unstartable_unload_is_fatal() {
    let reload = Reload::new().step(&Event::NotStarted);
    assert!(matches!(reload.command(), ReloadCommand::Finish(Err(UpgradeError::Invocation))));
}

#[test]
fn failed_load_is_an_error() {
    let reload = Reload::new().step(&ok()).step(&Event::Exited(ExitOutcome::Failure { code: Some(1) }));
    assert!(matches!(
        reload.command(),
        ReloadCommand::Finish(Err(UpgradeError::NonZeroExit { code: Some(1) }))
    ));
}
