use safethrottle::command::CommandOutcome;
use safethrottle::route::{
    is_active, listing_shows, mark_active, routes_add, routes_del, rule_active, rule_exists,
    rule_show_args, split_cidrs, throw_cidrs, MarkerStep, RouteAction, RouteOptions, RouteStage,
    RouteTask, DEFAULT_RULE_PRIORITY, DEFAULT_TABLE_ID,
};

#[test]
fn throw_cidrs_cover_common_bypass_targets() {
    assert!(throw_cidrs().contains(&"10.0.0.0/8".to_string()));
    assert!(throw_cidrs().contains(&"100.64.0.0/10".to_string()));
    assert!(DEFAULT_RULE_PRIORITY < 5270);
}

#[test]
fn rule_line_matches_kernel_format() {
    let sample = "5260:\tfrom all lookup 100\n5270:\tfrom all lookup 52\n";
    assert!(sample.lines().any(|line| {
        line.starts_with("5260:") && line.contains("lookup 100")
    }));
    assert!(listing_shows(sample, 5260, 100));
    assert!(listing_shows(sample, 5270, 52));
    assert!(!listing_shows(sample, 5260, 52));
    assert!(!listing_shows(sample, 5261, 100));
}

#[test]
fn rule_line_forms() {
    assert!(listing_shows("x from all lookup 100 pref 5260", 5260, 100));
    assert!(listing_shows("5260: from all lookup 1000\r\n", 5260, 100));
    assert!(!listing_shows(" 5260: from all lookup 100", 5260, 100));
    assert!(!listing_shows("5260:\nlookup 100", 5260, 100));
    assert!(!listing_shows("", 5260, 100));
}

fn options() -> RouteOptions {
    RouteOptions {
        tun_name: "safethrottle0".to_string(),
        table_id: DEFAULT_TABLE_ID,
        rule_priority: DEFAULT_RULE_PRIORITY,
    }
}

fn ran(success: bool, stdout: &str, stderr: &str) -> CommandOutcome {
    CommandOutcome::Exited { success, stdout: stdout.to_string(), stderr: stderr.to_string() }
}

/// Runs a task against a kernel that says yes to everything but rule listings, which it answers
/// with this text, and gives the commands back.
fn commands(mut task: RouteTask, listing: &str) -> Vec<String> {
    let mut all = Vec::new();
    loop {
        match task.action() {
            RouteAction::Run(args) => {
                let line = args.join(" ");
                let shows = line == "-4 rule show";
                all.push(line);
                task.advance(&ran(true, if shows { listing } else { "" }, ""));
            }
            RouteAction::Done => return all,
            other => panic!("{other:?}"),
        }
    }
}

#[test]
fn installation_runs_its_commands_in_order() {
    assert_eq!(
        commands(routes_add(&options()), ""),
        [
            "-4 rule show",
            "rule add pref 5260 lookup 100",
            "route add throw 127.0.0.0/8 table 100",
            "route add throw 10.0.0.0/8 table 100",
            "route add throw 172.16.0.0/12 table 100",
            "route add throw 192.168.0.0/16 table 100",
            "route add throw 169.254.0.0/16 table 100",
            "route add throw 100.64.0.0/10 table 100",
            "route add 0.0.0.0/1 dev safethrottle0 table 100",
            "route add 128.0.0.0/1 dev safethrottle0 table 100",
            "route del 0.0.0.0/1 dev safethrottle0",
            "route del 128.0.0.0/1 dev safethrottle0",
        ]
    );
    assert_eq!(split_cidrs(), ["0.0.0.0/1", "128.0.0.0/1"]);
}

#[test]
fn a_rule_that_is_there_is_not_added_again() {
    let all = commands(routes_add(&options()), "5260:\tfrom all lookup 100\n");
    assert_eq!(all[0], "-4 rule show");
    assert_eq!(all[1], "route add throw 127.0.0.0/8 table 100");
    assert_eq!(all.len(), 11);
}

#[test]
fn removal_runs_its_commands_in_order() {
    assert_eq!(
        commands(routes_del(&options()), "5260:\tfrom all lookup 100\n"),
        [
            "route del 0.0.0.0/1 dev safethrottle0 table 100",
            "route del 128.0.0.0/1 dev safethrottle0 table 100",
            "route del throw 127.0.0.0/8 table 100",
            "route del throw 10.0.0.0/8 table 100",
            "route del throw 172.16.0.0/12 table 100",
            "route del throw 192.168.0.0/16 table 100",
            "route del throw 169.254.0.0/16 table 100",
            "route del throw 100.64.0.0/10 table 100",
            "-4 rule show",
            "rule del pref 5260 lookup 100",
        ]
    );
    let without_rule = commands(routes_del(&options()), "");
    assert_eq!(without_rule.len(), 9);
    assert_eq!(without_rule[8], "-4 rule show");
}

#[test]
fn a_rule_that_cannot_be_added_is_reported() {
    let mut task = routes_add(&options());
    task.advance(&ran(true, "", ""));
    task.advance(&ran(false, "", "RTNETLINK answers: Operation not permitted\n"));
    task.advance(&ran(true, "", ""));
    match task.action() {
        RouteAction::Refused(message) => assert_eq!(
            message,
            "ip rule add pref 5260 lookup 100 failed: RTNETLINK answers: Operation not permitted\n"
        ),
        other => panic!("{other:?}"),
    }
}

#[test]
fn a_rule_that_someone_else_added_is_fine() {
    let mut task = routes_add(&options());
    task.advance(&CommandOutcome::NotRun);
    task.advance(&ran(false, "", "RTNETLINK answers: File exists\n"));
    task.advance(&ran(true, "", ""));
    assert!(matches!(task.stage, RouteStage::Routes { next: 0 }));

    let mut task = routes_add(&options());
    task.advance(&ran(true, "", ""));
    task.advance(&ran(false, "", "no"));
    task.advance(&ran(true, "5260:\tfrom all lookup 100\n", ""));
    assert!(matches!(task.stage, RouteStage::Routes { next: 0 }));
}

#[test]
fn a_command_that_cannot_be_started_ends_the_task() {
    let mut task = routes_add(&options());
    task.advance(&ran(true, "", ""));
    task.advance(&CommandOutcome::NotRun);
    assert!(matches!(task.action(), RouteAction::NotRun));
}

#[test]
fn route_outcomes_do_not_matter() {
    let mut task = routes_del(&options());
    for _ in 0..8 {
        task.advance(&CommandOutcome::NotRun);
    }
    assert!(matches!(task.stage, RouteStage::CheckForRemoval));
}

#[test]
fn rule_lookups() {
    assert_eq!(rule_show_args(), ["-4", "rule", "show"]);
    let listing = "5260:\tfrom all lookup 100\n";
    assert!(rule_exists(&ran(true, listing, ""), 5260, 100));
    assert!(rule_active(&ran(true, listing, ""), 5260, 100));
    assert!(!rule_exists(&ran(false, listing, ""), 5260, 100));
    assert!(!rule_active(&CommandOutcome::NotRun, 5260, 100));
}

#[test]
fn the_marker_follows_the_capture() {
    let path = "/run/safethrottle/routing-active".to_string();
    let found = vec![path.clone()];
    let nothing = Vec::new();
    assert!(is_active(&found));
    assert!(!is_active(&nothing));

    let on = mark_active(true, &nothing);
    assert_eq!((on.directory.as_str(), &on.path), ("/run/safethrottle", &path));
    assert!(matches!(on.step, MarkerStep::Write(text) if text == "1\n"));
    assert!(matches!(mark_active(false, &found).step, MarkerStep::Remove));
    assert!(matches!(mark_active(false, &nothing).step, MarkerStep::Keep));
    assert!(matches!(mark_active(true, &found).step, MarkerStep::Write(_)));
}
