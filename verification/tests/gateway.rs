use safethrottle::command::CommandOutcome;
use safethrottle::config::Config;
use safethrottle::gateway::{run, GatewayRun, RunAction, RunEvent, RunStage};
use safethrottle::recovery::{
    handle_recovery_failure, FailureAction, FailureEnd, FailureEvent, RECOVERY_BUDGET,
    RESTART_BACKOFF,
};
use safethrottle::session::{
    crash_message, start, RunnerEnd, SessionStart, StartAction, StartEvent, DNS_CAPACITY, TUN_MTU,
};

fn failed(err: &str) -> RunEvent {
    RunEvent::StartFailed(err.to_string())
}

/// Lets every start fail, after the pause, until the run gives up.
fn run_into_failure(found: &Vec<String>) -> GatewayRun {
    let mut now = 0;
    let mut gateway = run(found);
    let mut starts = 0;
    loop {
        match gateway.action() {
            RunAction::Start => {}
            RunAction::PauseAndStart { pause, attempt, deadline } => {
                assert_eq!((pause, attempt), (RESTART_BACKOFF, starts));
                assert_eq!(deadline, RECOVERY_BUDGET);
                now += pause;
            }
            _ => break,
        }
        gateway = gateway.advance(failed(&format!("start {starts}")), now);
        starts += 1;
    }
    assert_eq!(starts, 101);
    gateway
}

#[test]
fn two_failed_runs_disable_the_gateway_for_the_boot() {
    let cfg = Config::default_builtin();
    let mut found = Vec::new();
    for after in [false, true] {
        let gateway = run_into_failure(&found);
        let (err, after_systemd_retry) = match gateway.action() {
            RunAction::GiveUp { err, after_systemd_retry } => (err, after_systemd_retry),
            other => panic!("{other:?}"),
        };
        assert_eq!(err, "start 0");
        assert_eq!(after_systemd_retry, after);
        let mut failure = handle_recovery_failure(&cfg, &err, after_systemd_retry);
        loop {
            let event = match failure.action() {
                FailureAction::Run(_) => FailureEvent::Command(CommandOutcome::NotRun),
                FailureAction::Unmark => FailureEvent::Unmarked,
                FailureAction::WriteMarker(marker) => {
                    found.push(marker.path);
                    FailureEvent::Marked
                }
                FailureAction::Notify(_) => FailureEvent::Notified,
                FailureAction::End(end) => {
                    assert_eq!(matches!(end, FailureEnd::Well), after);
                    break;
                }
            };
            failure = failure.advance(event);
        }
    }
    match run(&found).action() {
        RunAction::StayStopped { notice } => assert_eq!(
            notice,
            "Still disabled for this boot after earlier gateway failures."
        ),
        other => panic!("{other:?}"),
    }
}

#[test]
fn a_crash_is_retried() {
    let gateway = run(&Vec::new());
    assert!(matches!(gateway.action(), RunAction::Start));
    let gateway = gateway.advance(RunEvent::Started, 0);
    assert!(matches!(gateway.action(), RunAction::AwaitCrash));
    let gateway = gateway.advance(RunEvent::Crashed("boom".to_string()), 1_000);
    match &gateway.stage {
        RunStage::Retrying { budget, err } => {
            assert_eq!((budget.deadline, budget.attempt), (1_000 + RECOVERY_BUDGET, 1));
            assert_eq!(err, "boom");
        }
        other => panic!("{other:?}"),
    }
    let gateway = gateway.advance(failed("again"), 2_000);
    assert!(matches!(
        &gateway.stage,
        RunStage::Retrying { budget, err } if budget.attempt == 2 && err == "boom"
    ));
    let well = gateway.clone().advance(RunEvent::Started, 3_000);
    assert!(matches!(well.action(), RunAction::AwaitCrash));
    let ill = gateway.advance(failed("again"), 1_000 + RECOVERY_BUDGET);
    assert!(matches!(ill.action(), RunAction::GiveUp { err, after_systemd_retry: false } if err == "boom"));
}

#[test]
fn ended_runs_stay() {
    let stopped = run(&vec!["/run/safethrottle/boot-disabled".to_string()]);
    let stopped = stopped.advance(RunEvent::Started, 0);
    assert!(matches!(stopped.stage, RunStage::Stopped));
    let failed_run = run_into_failure(&Vec::new()).advance(RunEvent::Started, 0);
    assert!(matches!(failed_run.stage, RunStage::Failed { .. }));
}

fn ran(stdout: &str) -> StartEvent {
    StartEvent::Command(CommandOutcome::Exited {
        success: true,
        stdout: stdout.to_string(),
        stderr: String::new(),
    })
}

fn line(action: StartAction) -> String {
    match action {
        StartAction::Run(args) => args.join(" "),
        other => panic!("{other:?}"),
    }
}

#[test]
fn a_session_finds_its_uplink_and_installs_the_capture() {
    let session = start(&Config::default_builtin());
    assert_eq!(line(session.action()), "-4 route show table main default");
    let session = session.advance(ran("default dev eth0\n"));
    assert!(matches!(session.action(), StartAction::Open { uplink } if uplink == "eth0"));
    let mut session = session.advance(StartEvent::Opened);
    assert_eq!(line(session.action()), "-4 rule show");
    let mut commands = 0;
    while let StartAction::Run(_) = session.action() {
        session = session.advance(ran(""));
        commands += 1;
    }
    assert_eq!(commands, 12);
    assert!(matches!(session.action(), StartAction::MarkActive));
    let ill = session.clone().advance(StartEvent::MarkFailed("full".to_string()));
    assert!(matches!(ill.action(), StartAction::Fail(message) if message == "full"));
    let session = session.advance(StartEvent::Marked);
    assert!(matches!(session.action(), StartAction::Serve { uplink } if uplink == "eth0"));
}

#[test]
fn a_named_uplink_is_taken_and_no_capture_installed_unasked() {
    let mut cfg = Config::default_builtin();
    cfg.uplink_iface = "tun9".to_string();
    cfg.default_route = false;
    let session = start(&cfg);
    assert!(matches!(session.action(), StartAction::Open { uplink } if uplink == "tun9"));
    let ill = session.clone().advance(StartEvent::OpenFailed("no tun".to_string()));
    assert!(matches!(ill.action(), StartAction::Fail(message) if message == "no tun"));
    let session = session.advance(StartEvent::Opened);
    assert!(matches!(session.action(), StartAction::Serve { uplink } if uplink == "tun9"));
}

fn not_run() -> StartEvent {
    StartEvent::Command(CommandOutcome::NotRun)
}

fn refused() -> StartEvent {
    StartEvent::Command(CommandOutcome::Exited {
        success: false,
        stdout: String::new(),
        stderr: "no".to_string(),
    })
}

fn searching() -> SessionStart {
    start(&Config::default_builtin())
}

#[test]
fn a_start_can_fail() {
    assert!(matches!(searching().advance(not_run()).action(), StartAction::NotRun));
    let any = searching().advance(ran(""));
    assert!(matches!(
        any.clone().advance(refused()).action(),
        StartAction::Fail(message) if message == "ip route show default failed"
    ));
    assert!(matches!(
        any.advance(ran("")).action(),
        StartAction::Fail(message) if message == "could not detect physical uplink iface"
    ));
    let capture = searching().advance(ran("default dev eth0")).advance(StartEvent::Opened);
    let adding = capture.advance(ran(""));
    assert!(matches!(adding.clone().advance(not_run()).action(), StartAction::NotRun));
    assert!(matches!(
        adding.advance(refused()).advance(ran("")).action(),
        StartAction::Fail(message) if message == "ip rule add pref 5260 lookup 100 failed: no"
    ));
}

#[test]
fn crashes_are_told() {
    let told = |end: RunnerEnd| crash_message(&end);
    assert_eq!(told(RunnerEnd::Exited), "smoltcp stack runner exited");
    assert_eq!(
        told(RunnerEnd::IoError("broken pipe".to_string())),
        "smoltcp stack runner I/O error: broken pipe"
    );
    assert_eq!(
        told(RunnerEnd::Panicked("oops".to_string())),
        "smoltcp stack runner panicked: oops"
    );
    assert_eq!(told(RunnerEnd::Missing), "smoltcp stack runner missing");
    assert_eq!(told(RunnerEnd::SignalLost), "crash signal channel closed");
    assert_eq!((TUN_MTU, DNS_CAPACITY), (1500, 8192));
}
