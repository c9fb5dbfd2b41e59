use safethrottle::config::{
    config_paths, resolve_config_path, Config, ConfigError, FamilyConfig, RateUnit,
};
use safethrottle::decimal::Decimal;

fn decimal(negative: bool, digits: u64, exponent: i32) -> Decimal {
    Decimal::Finite { negative, digits, exponent }
}

#[test]
fn the_builtin_configuration_is_valid() {
    let cfg = Config::default_builtin();
    assert!(cfg.validate().is_ok());
    assert!(cfg.default_route);
    assert_eq!(cfg.tun_name, "safethrottle0");
    assert_eq!(cfg.tun_addr, "10.10.10.2");
    assert_eq!(cfg.tun_dest, "10.10.10.1");
    assert_eq!(cfg.tun_netmask, "255.255.255.0");
    assert_eq!(cfg.uplink_iface, "");
    assert_eq!((cfg.route_table_id, cfg.route_rule_priority), (100, 5260));
    assert_eq!((cfg.soft_ratio, cfg.soft_pace), (decimal(false, 7, -1), decimal(false, 7, -1)));
    assert_eq!(cfg.window_secs(), 60);
    assert_eq!(RateUnit::default(), RateUnit::ReqsPerMin);
    let opts = cfg.route_options();
    assert_eq!((opts.tun_name.as_str(), opts.table_id), ("safethrottle0", 100));
    assert_eq!(opts.rule_priority, 5260);
}

fn with_ratio(soft_ratio: Decimal) -> Result<(), ConfigError> {
    let mut cfg = Config::default_builtin();
    cfg.soft_ratio = soft_ratio;
    cfg.validate()
}

#[test]
fn soft_ratio_lies_inside_the_unit() {
    assert!(with_ratio(decimal(false, 1, -300)).is_ok());
    assert!(with_ratio(decimal(false, 9999, -4)).is_ok());
    for bad in [
        decimal(false, 0, 0),
        decimal(false, 1, 0),
        decimal(false, 10, -1),
        decimal(false, 1, 300),
        decimal(true, 7, -1),
        Decimal::Nan,
        Decimal::Infinite { negative: false },
        Decimal::Infinite { negative: true },
    ] {
        assert!(matches!(with_ratio(bad), Err(ConfigError::SoftRatio(d)) if d == bad));
    }
}

fn with_pace(soft_pace: Decimal) -> Result<(), ConfigError> {
    let mut cfg = Config::default_builtin();
    cfg.soft_pace = soft_pace;
    cfg.validate()
}

#[test]
fn soft_pace_is_at_most_one() {
    assert!(with_pace(decimal(false, 1, 0)).is_ok());
    assert!(with_pace(decimal(false, 100, -2)).is_ok());
    for bad in [
        decimal(false, 0, -3),
        decimal(false, 101, -2),
        decimal(true, 1, 0),
        Decimal::Nan,
        Decimal::Infinite { negative: false },
    ] {
        assert!(matches!(with_pace(bad), Err(ConfigError::SoftPace(d)) if d == bad));
    }
}

#[test]
fn the_rule_comes_before_the_overlay() {
    let mut cfg = Config::default_builtin();
    cfg.route_rule_priority = 5269;
    assert!(cfg.validate().is_ok());
    cfg.route_rule_priority = 5270;
    assert!(matches!(cfg.validate(), Err(ConfigError::RulePriority(5270))));
}

#[test]
fn the_first_family_without_a_limit_is_named() {
    let mut cfg = Config::default_builtin();
    let empty = || FamilyConfig { limit: 0, suffixes: Vec::new() };
    cfg.families.insert("zoo".to_string(), empty());
    cfg.families.insert("news".to_string(), empty());
    assert!(matches!(cfg.validate(), Err(ConfigError::Limit(name)) if name == "news"));
}

#[test]
fn errors_come_in_order() {
    let mut cfg = Config::default_builtin();
    cfg.families.insert("news".to_string(), FamilyConfig { limit: 0, suffixes: Vec::new() });
    cfg.route_rule_priority = 6000;
    assert!(matches!(cfg.validate(), Err(ConfigError::RulePriority(6000))));
    cfg.soft_pace = Decimal::Nan;
    assert!(matches!(cfg.validate(), Err(ConfigError::SoftPace(_))));
    cfg.soft_ratio = Decimal::Nan;
    assert!(matches!(cfg.validate(), Err(ConfigError::SoftRatio(_))));
}

#[test]
fn configuration_files_are_looked_for_in_order() {
    let run = "/run/safethrottle/config.toml".to_string();
    let etc = "/etc/safethrottle/config.toml".to_string();
    let asked = "my.toml".to_string();
    assert_eq!(config_paths("my.toml"), [asked.clone(), run.clone(), etc.clone()]);
    let all = vec![etc.clone(), run.clone(), asked.clone()];
    assert_eq!(resolve_config_path("my.toml", &all), asked);
    assert_eq!(resolve_config_path("my.toml", &vec![etc.clone(), run.clone()]), run);
    assert_eq!(resolve_config_path("my.toml", &vec![etc.clone()]), etc);
    assert_eq!(resolve_config_path("my.toml", &Vec::new()), asked);
}
