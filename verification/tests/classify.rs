use safethrottle::classify::{normalize_host, Classifier};
use safethrottle::config::{Config, FamilyConfig};

#[test]
fn matches_site_families() {
    let c = Classifier::from_config(&Config::default_builtin(), 0);
    assert_eq!(c.match_host("api.github.com"), Some("github"));
    assert_eq!(c.match_host("raw.githubusercontent.com"), Some("github"));
    assert_eq!(c.match_host("www.youtube.com"), Some("youtube"));
    assert_eq!(c.match_host("r1---sn-abc.googlevideo.com"), Some("youtube"));
    assert_eq!(c.match_host("foo.substack.com"), Some("substack"));
    assert_eq!(c.match_host("example.com"), None);
}

fn family(limit: u32, suffixes: &[&str]) -> FamilyConfig {
    FamilyConfig { limit, suffixes: suffixes.iter().map(|s| s.to_string()).collect() }
}

#[test]
fn normalizes_hosts() {
    assert_eq!(normalize_host(" API.GitHub.com.. "), "api.github.com");
    assert_eq!(normalize_host("\u{a0}x\u{3000}"), "x");
    assert_eq!(normalize_host("a ."), "a ");
    assert_eq!(normalize_host("\u{c9}T\u{c9}.fr"), "\u{c9}t\u{c9}.fr");
    assert_eq!(normalize_host(""), "");
}

#[test]
fn matches_the_suffix_itself_and_names_below_it() {
    let c = Classifier::from_config(&Config::default_builtin(), 0);
    assert_eq!(c.match_host("GITHUB.COM."), Some("github"));
    assert_eq!(c.match_host("notgithub.com"), None);
    assert_eq!(c.match_host("github.com.evil.org"), None);
    assert_eq!(c.match_host(""), None);
}

#[test]
fn longest_suffix_wins() {
    let mut cfg = Config::default_builtin();
    cfg.families.insert("api".to_string(), family(3, &["API.github.com."]));
    cfg.families.insert("zoo".to_string(), family(3, &["com"]));
    let c = Classifier::from_config(&cfg, 0);
    assert_eq!(c.match_host("v3.api.github.com"), Some("api"));
    assert_eq!(c.match_host("www.github.com"), Some("github"));
    assert_eq!(c.match_host("example.com"), Some("zoo"));
}

#[test]
fn among_equal_suffixes_the_first_family_by_name_wins() {
    let mut cfg = Config::default_builtin();
    cfg.families.insert("b".to_string(), family(3, &["example.org"]));
    cfg.families.insert("a".to_string(), family(4, &["example.org"]));
    let c = Classifier::from_config(&cfg, 0);
    assert_eq!(c.match_host("www.example.org"), Some("a"));
}

#[test]
fn every_family_has_its_limiter() {
    let mut cfg = Config::default_builtin();
    cfg.families.insert("zoo".to_string(), family(3, &["zoo.org"]));
    let mut c = Classifier::from_config(&cfg, 7);
    let lim = *c.limiter("zoo").expect("limiter");
    assert_eq!((lim.limit, lim.soft_start, lim.window), (3, 2, 60_000_000_000));
    assert_eq!((lim.cycle_start, lim.count), (7, 0));
    assert!(c.limiter("nosuch").is_none());

    let mut busy = lim;
    busy.set_count(2);
    c.set_limiter("zoo", busy);
    c.set_limiter("nosuch", busy);
    assert_eq!(c.limiter("zoo").expect("limiter").count, 2);
    assert_eq!(c.limiter("github").expect("limiter").count, 0);
    assert!(c.limiter("nosuch").is_none());
}
