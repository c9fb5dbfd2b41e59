use safethrottle::command::CommandOutcome;
use safethrottle::dial::{
    detect_uplink_iface, first_physical_dev, is_virtual_uplink, parse_dev, physical_dev,
    UplinkSearch,
};

#[test]
fn parse_dev_from_default_route() {
    let line = "default via 10.0.0.1 dev wlp0s20f3 proto dhcp src 10.0.0.42";
    assert_eq!(parse_dev(line).as_deref(), Some("wlp0s20f3"));
}

#[test]
fn skips_virtual_uplinks() {
    assert!(is_virtual_uplink("tailscale0"));
    assert!(is_virtual_uplink("safethrottle0"));
    assert!(!is_virtual_uplink("wlp0s20f3"));
}

#[test]
fn more_devices() {
    assert!(is_virtual_uplink("lo"));
    assert!(!is_virtual_uplink("lo0"));
    assert!(is_virtual_uplink("tun7"));
    assert!(is_virtual_uplink("wg0"));
    assert!(!is_virtual_uplink("eth0"));
    assert_eq!(parse_dev("default via 10.0.0.1 dev"), None);
    assert_eq!(parse_dev("default via 10.0.0.1"), None);
    assert_eq!(parse_dev(""), None);
    assert_eq!(parse_dev("x\n dev\teth0\ny dev eth1").as_deref(), Some("eth0"));
    assert_eq!(physical_dev("default dev tun0\ndefault dev eth0"), None);
    let listing = "default dev tun0\ndefault via 1.1.1.1\ndefault dev eth0\ndefault dev eth1\n";
    assert_eq!(first_physical_dev(listing).as_deref(), Some("eth0"));
    assert_eq!(first_physical_dev("default dev wg0\n"), None);
}

fn ran(success: bool, stdout: &str) -> CommandOutcome {
    CommandOutcome::Exited { success, stdout: stdout.to_string(), stderr: String::new() }
}

#[test]
fn the_main_table_is_asked_first() {
    let search = detect_uplink_iface();
    assert_eq!(
        search.command().expect("command"),
        ["-4", "route", "show", "table", "main", "default"]
    );
    let found = search.advance(&ran(true, "default via 10.0.0.1 dev eth0\n"));
    assert!(matches!(&found, UplinkSearch::Found(dev) if dev == "eth0"));
    assert!(found.command().is_none());
}

#[test]
fn any_table_is_asked_next() {
    let search = detect_uplink_iface().advance(&ran(true, "default dev tailscale0\n"));
    assert_eq!(search.command().expect("command"), ["-4", "route", "show", "default"]);
    let found = search.advance(&ran(true, "default dev tun0\ndefault dev wlan0\n"));
    assert!(matches!(found, UplinkSearch::Found(dev) if dev == "wlan0"));
}

#[test]
fn the_search_can_fail() {
    let search = detect_uplink_iface().advance(&ran(false, "default dev eth0\n"));
    assert!(matches!(&search, UplinkSearch::Any));
    assert!(matches!(search.clone().advance(&ran(false, "")), UplinkSearch::ListFailed));
    assert!(matches!(search.clone().advance(&ran(true, "")), UplinkSearch::NoneFound));
    assert!(matches!(search.advance(&CommandOutcome::NotRun), UplinkSearch::NotRun));
    assert!(matches!(
        detect_uplink_iface().advance(&CommandOutcome::NotRun),
        UplinkSearch::NotRun
    ));
}
