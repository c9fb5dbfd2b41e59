use safethrottle::command::CommandOutcome;
use safethrottle::config::Config;
use safethrottle::recovery::{
    disable_routing, failed_once_path, format_panic, handle_recovery_failure, is_boot_disabled,
    is_failed_once, is_present, mark_boot_disabled, mark_failed_once, marker_path, marker_paths,
    retry_start_within_budget, runtime_dir, FailureAction, FailureEnd, FailureEvent,
    RecoveryFailure, RetryAction, RECOVERY_BUDGET, RESTART_BACKOFF,
};
use safethrottle::route::RouteStage;

const MILLI: u64 = 1_000_000;

#[test]
fn marker_paths_under_runtime_dir() {
    assert!(marker_path("recovery-failed-once").contains(&runtime_dir()));
    assert_eq!(marker_path("recovery-failed-once"), failed_once_path());
    assert_eq!(failed_once_path(), "/run/safethrottle/recovery-failed-once");
}

#[test]
fn marker_paths_join_as_paths_do() {
    for name in ["", "x", "a/b", "/", "/etc/x", "//y", "./z"] {
        let path = std::path::Path::new("/run/safethrottle").join(name);
        assert_eq!(marker_path(name), path.to_string_lossy());
    }
}

/// Retries until a start goes well or the budget is used up; each start takes this long.
fn retry<T>(
    mut start: impl FnMut() -> Result<T, String>,
    budget: u64,
    start_takes: u64,
) -> Option<T> {
    let mut now = 0;
    let mut retries = retry_start_within_budget(now, budget);
    loop {
        match retries.next(now) {
            RetryAction::Attempt { backoff, .. } => {
                now += backoff;
                if let Ok(value) = start() {
                    return Some(value);
                }
                now += start_takes;
            }
            RetryAction::GiveUp => return None,
        }
    }
}

#[test]
fn retry_start_within_budget_recovers_before_deadline() {
    let mut attempts = 0u32;
    let result = retry(
        || {
            let n = attempts;
            attempts += 1;
            if n < 2 {
                Err(format!("start failed {n}"))
            } else {
                Ok(42)
            }
        },
        5_000 * MILLI,
        0,
    );
    assert_eq!(result, Some(42));
    assert_eq!(attempts, 3);
}

#[test]
fn retry_start_within_budget_gives_up_after_deadline() {
    let mut attempts = 0u32;
    let result = retry(
        || {
            attempts += 1;
            Err::<i32, _>("always fail".to_string())
        },
        200 * MILLI,
        0,
    );
    assert!(result.is_none());
    assert!(attempts >= 2);
    assert_eq!(attempts, 4);
}

#[test]
fn retries_count_and_tell_the_time_left() {
    assert_eq!(RECOVERY_BUDGET, 5_000 * MILLI);
    assert_eq!(RESTART_BACKOFF, 50 * MILLI);
    let mut retries = retry_start_within_budget(10, 100);
    assert_eq!(
        retries.next(30),
        RetryAction::Attempt { attempt: 1, remaining: 80, backoff: 50 * MILLI }
    );
    assert_eq!(
        retries.next(109),
        RetryAction::Attempt { attempt: 2, remaining: 1, backoff: 50 * MILLI }
    );
    assert_eq!(retries.next(110), RetryAction::GiveUp);
    assert_eq!(retries.attempt, 2);
    assert_eq!(retry_start_within_budget(7, 0).next(7), RetryAction::GiveUp);
}

#[test]
fn markers() {
    let once = mark_failed_once();
    assert_eq!(once.directory, "/run/safethrottle");
    assert_eq!(once.path, "/run/safethrottle/recovery-failed-once");
    assert_eq!(once.contents, "1\n");
    assert_eq!(mark_boot_disabled().path, "/run/safethrottle/boot-disabled");
    assert_eq!(
        marker_paths(),
        [
            "/run/safethrottle/recovery-failed-once",
            "/run/safethrottle/boot-disabled",
            "/run/safethrottle/routing-active",
        ]
    );

    let found = vec![mark_boot_disabled().path];
    assert!(is_boot_disabled(&found));
    assert!(!is_failed_once(&found));
    assert!(is_failed_once(&vec![once.path]));
    assert!(!is_boot_disabled(&Vec::new()));
    assert!(is_present(&found, "/run/safethrottle/boot-disabled"));
    assert!(!is_present(&found, "/run/safethrottle/boot"));
}

#[test]
fn panics_are_told() {
    let owned = "owned".to_string();
    assert_eq!(format_panic(Some("slice"), None), "slice");
    assert_eq!(format_panic(Some("slice"), Some(&owned)), "slice");
    assert_eq!(format_panic(None, Some(&owned)), "owned");
    assert_eq!(format_panic(None, None), "unknown panic payload");
}

/// Runs into a step; the commands before it go well or are not run.
fn handled(after: bool, commands_run: bool) -> RecoveryFailure {
    let mut failure = handle_recovery_failure(&Config::default_builtin(), "no tun", after);
    let mut commands = Vec::new();
    while let FailureAction::Run(args) = failure.action() {
        let shows = args.join(" ") == "-4 rule show";
        commands.push(args.join(" "));
        let listing = if shows { "5260:\tfrom all lookup 100\n" } else { "" };
        failure = failure.advance(FailureEvent::Command(if commands_run {
            CommandOutcome::Exited {
                success: true,
                stdout: listing.to_string(),
                stderr: String::new(),
            }
        } else {
            CommandOutcome::NotRun
        }));
    }
    assert_eq!(commands[0], "route del 0.0.0.0/1 dev safethrottle0 table 100");
    assert_eq!(commands.len(), if commands_run { 10 } else { 9 });
    failure
}

#[test]
fn the_first_failure_asks_for_a_restart() {
    let failure = handled(false, true);
    assert!(matches!(failure.action(), FailureAction::Unmark));
    let failure = failure.advance(FailureEvent::Unmarked);
    match failure.action() {
        FailureAction::WriteMarker(marker) => {
            assert_eq!(marker.path, "/run/safethrottle/recovery-failed-once");
            assert_eq!(marker.contents, "1\n");
        }
        other => panic!("{other:?}"),
    }
    let failure = failure.advance(FailureEvent::Marked);
    match failure.action() {
        FailureAction::Notify(notice) => assert_eq!(
            notice,
            "Gateway recovery failed (no tun). Routing disabled; systemd will retry once."
        ),
        other => panic!("{other:?}"),
    }
    let failure = failure.advance(FailureEvent::Notified);
    assert!(matches!(
        failure.action(),
        FailureAction::End(FailureEnd::WithError(err)) if err == "no tun"
    ));
}

#[test]
fn a_failure_after_the_restart_disables_the_gateway() {
    // Neither the removal nor the clearing of its marker has to go well.
    let failure = handled(true, false).advance(FailureEvent::UnmarkFailed);
    match failure.action() {
        FailureAction::WriteMarker(marker) => {
            assert_eq!(marker.path, "/run/safethrottle/boot-disabled")
        }
        other => panic!("{other:?}"),
    }
    let failure = failure.advance(FailureEvent::Marked);
    match failure.action() {
        FailureAction::Notify(notice) => {
            assert_eq!(notice, "Disabled for this boot after repeated gateway failures.")
        }
        other => panic!("{other:?}"),
    }
    let failure = failure.advance(FailureEvent::Notified);
    assert!(matches!(failure.action(), FailureAction::End(FailureEnd::Well)));
    let cfg = Config::default_builtin();
    assert!(matches!(disable_routing(&cfg).stage, RouteStage::Routes { next: 0 }));
}

#[test]
fn a_marker_that_cannot_be_written_ends_the_run_untold() {
    for after in [false, true] {
        let failure = handled(after, true)
            .advance(FailureEvent::Unmarked)
            .advance(FailureEvent::MarkFailed("read-only".to_string()));
        assert!(matches!(
            failure.action(),
            FailureAction::End(FailureEnd::MarkerNotWritten(err)) if err == "read-only"
        ));
        let failure = failure.advance(FailureEvent::Marked);
        assert!(matches!(failure.action(), FailureAction::End(_)));
    }
}
