//! What the gateway is configured with, and which configurations make sense.

use crate::command::{add_arg, arg_views};
use crate::decimal::Decimal;
use crate::names::{value_of, NameMap};
use crate::recovery::is_present;
use crate::route::{RouteOptions, DEFAULT_RULE_PRIORITY, DEFAULT_TABLE_ID};
use vstd::prelude::*;
use vstd::string::StringExecFns;

verus! {

/// The rule that captures traffic has to come before Tailscale's, which has this priority.
pub const TAILSCALE_RULE_PRIORITY: u32 = 5270;

#[derive(Debug, Clone, Copy, PartialEq, Eq, Structural)]
pub enum RateUnit {
    ReqsPerMin,
}

impl Default for RateUnit {
    fn default() -> (r: Self)
        ensures
            r == RateUnit::ReqsPerMin,
    {
        RateUnit::ReqsPerMin
    }
}

/// A domain family: how many requests it may take, and which domains belong to it.
#[derive(Debug, Clone)]
pub struct FamilyConfig {
    pub limit: u32,
    pub suffixes: Vec<String>,
}

impl FamilyConfig {
    /// The domain suffixes as they are written.
    pub open spec fn domains(self) -> Seq<Seq<char>> {
        self.suffixes@.map_values(|s: String| s@)
    }
}

#[derive(Debug, Clone)]
pub struct Config {
    pub default_route: bool,
    pub tun_name: String,
    pub tun_addr: String,
    pub tun_dest: String,
    pub tun_netmask: String,
    pub uplink_iface: String,
    /// Policy-routing table for split-default capture.
    pub route_table_id: u32,
    /// `ip rule` priority; must be lower than Tailscale's.
    pub route_rule_priority: u32,
    /// Free band until floor(limit * soft_ratio).
    pub soft_ratio: Decimal,
    /// Multiplier on soft-zone waits: (time_left / slots_left) * soft_pace.
    pub soft_pace: Decimal,
    pub unit: RateUnit,
    pub families: NameMap<FamilyConfig>,
}

/// The number 0.7.
pub open spec fn seven_tenths() -> Decimal {
    Decimal::Finite { negative: false, digits: 7, exponent: (-1) as i32 }
}

pub fn default_true() -> (r: bool)
    ensures
        r,
{
    true
}

pub fn default_tun_name() -> (r: String)
    ensures
        r@ == "safethrottle0"@,
{
    String::from_str("safethrottle0")
}

pub fn default_tun_addr() -> (r: String)
    ensures
        r@ == "10.10.10.2"@,
{
    String::from_str("10.10.10.2")
}

pub fn default_tun_dest() -> (r: String)
    ensures
        r@ == "10.10.10.1"@,
{
    String::from_str("10.10.10.1")
}

pub fn default_tun_netmask() -> (r: String)
    ensures
        r@ == "255.255.255.0"@,
{
    String::from_str("255.255.255.0")
}

pub fn default_soft_ratio() -> (r: Decimal)
    ensures
        r == seven_tenths(),
{
    Decimal::Finite { negative: false, digits: 7, exponent: -1 }
}

pub fn default_soft_pace() -> (r: Decimal)
    ensures
        r == seven_tenths(),
{
    Decimal::Finite { negative: false, digits: 7, exponent: -1 }
}

pub fn default_route_table_id() -> (r: u32)
    ensures
        r == DEFAULT_TABLE_ID,
{
    DEFAULT_TABLE_ID
}

pub fn default_route_rule_priority() -> (r: u32)
    ensures
        r == DEFAULT_RULE_PRIORITY,
{
    DEFAULT_RULE_PRIORITY
}

/// What is wrong with a configuration.
#[derive(Debug, Clone)]
pub enum ConfigError {
    /// The soft ratio must lie between 0 and 1.
    SoftRatio(Decimal),
    /// The soft pace must be above 0 and at most 1.
    SoftPace(Decimal),
    /// The family must allow at least one request.
    Limit(String),
    /// The rule priority must be below Tailscale's.
    RulePriority(u32),
}

/// The family at a position is the first whose limit is zero.
pub open spec fn first_without_limit(
    families: Seq<(Seq<char>, FamilyConfig)>,
    at: int,
) -> bool {
    &&& 0 <= at < families.len()
    &&& families[at].1.limit < 1
    &&& forall|i: int| 0 <= i < at ==> (#[trigger] families[i]).1.limit >= 1
}

impl Config {
    /// Every number is in its range, and every family allows at least one request.
    pub open spec fn valid(self) -> bool {
        &&& self.soft_ratio.inside_unit()
        &&& self.soft_pace.upto_unit()
        &&& self.route_rule_priority < TAILSCALE_RULE_PRIORITY
        &&& forall|i: int|
            0 <= i < self.families.entries().len() ==> (
            #[trigger] self.families.entries()[i]).1.limit >= 1
    }

    /// Accepts a configuration, or tells the first thing that is wrong with it: the soft ratio, the
    /// soft pace, the rule priority, then the families in the order of their names.
    pub fn validate(&self) -> (r: Result<(), ConfigError>)
        ensures
            r is Ok <==> self.valid(),
            match r {
                Ok(()) => true,
                Err(ConfigError::SoftRatio(ratio)) => {
                    &&& !self.soft_ratio.inside_unit()
                    &&& ratio == self.soft_ratio
                },
                Err(ConfigError::SoftPace(pace)) => {
                    &&& self.soft_ratio.inside_unit()
                    &&& !self.soft_pace.upto_unit()
                    &&& pace == self.soft_pace
                },
                Err(ConfigError::RulePriority(priority)) => {
                    &&& self.soft_ratio.inside_unit()
                    &&& self.soft_pace.upto_unit()
                    &&& self.route_rule_priority >= TAILSCALE_RULE_PRIORITY
                    &&& priority == self.route_rule_priority
                },
                Err(ConfigError::Limit(name)) => {
                    &&& self.soft_ratio.inside_unit()
                    &&& self.soft_pace.upto_unit()
                    &&& self.route_rule_priority < TAILSCALE_RULE_PRIORITY
                    &&& exists|i: int| #[trigger]
                        first_without_limit(self.families.entries(), i) && name@
                            == self.families.entries()[i].0
                },
            },
    {
        if !self.soft_ratio.is_inside_unit() {
            return Err(ConfigError::SoftRatio(self.soft_ratio));
        }
        if !self.soft_pace.is_upto_unit() {
            return Err(ConfigError::SoftPace(self.soft_pace));
        }
        if self.route_rule_priority >= TAILSCALE_RULE_PRIORITY {
            return Err(ConfigError::RulePriority(self.route_rule_priority));
        }
        let ghost families = self.families.entries();
        let mut i: usize = 0;
        while i < self.families.len()
            invariant
                families == self.families.entries(),
                self.soft_ratio.inside_unit(),
                self.soft_pace.upto_unit(),
                self.route_rule_priority < TAILSCALE_RULE_PRIORITY,
                i <= families.len(),
                forall|j: int| 0 <= j < i ==> (#[trigger] families[j]).1.limit >= 1,
            decreases families.len() - i,
        {
            if self.families.value_at(i).limit < 1 {
                assert(first_without_limit(families, i as int));
                return Err(ConfigError::Limit(self.families.name_at(i).clone()));
            }
            i += 1;
        }
        Ok(())
    }

    pub fn route_options(&self) -> (r: RouteOptions)
        ensures
            r.tun_name@ == self.tun_name@,
            r.table_id == self.route_table_id,
            r.rule_priority == self.route_rule_priority,
    {
        RouteOptions {
            tun_name: self.tun_name.clone(),
            table_id: self.route_table_id,
            rule_priority: self.route_rule_priority,
        }
    }

    /// The window of the configured unit (requests per minute: 60 seconds).
    pub fn window_secs(&self) -> (r: u64)
        ensures
            r == 60,
    {
        match self.unit {
            RateUnit::ReqsPerMin => 60,
        }
    }

    /// The configuration that is used when there is no file.
    pub fn default_builtin() -> (r: Config)
        ensures
            r.default_route,
            r.tun_name@ == "safethrottle0"@,
            r.tun_addr@ == "10.10.10.2"@,
            r.tun_dest@ == "10.10.10.1"@,
            r.tun_netmask@ == "255.255.255.0"@,
            r.uplink_iface@ == Seq::<char>::empty(),
            r.route_table_id == DEFAULT_TABLE_ID,
            r.route_rule_priority == DEFAULT_RULE_PRIORITY,
            r.soft_ratio == seven_tenths(),
            r.soft_pace == seven_tenths(),
            r.unit == RateUnit::ReqsPerMin,
            r.families.wf(),
            forall|k: Seq<char>| #[trigger]
                value_of(r.families.entries(), k) is Some <==> k == "github"@ || k == "youtube"@
                    || k == "substack"@,
            value_of(r.families.entries(), "github"@) matches Some(f) && f.limit == 20
                && f.domains() == seq!["github.com"@, "githubusercontent.com"@],
            value_of(r.families.entries(), "youtube"@) matches Some(f) && f.limit == 20
                && f.domains() == seq!["youtube.com"@, "googlevideo.com"@],
            value_of(r.families.entries(), "substack"@) matches Some(f) && f.limit == 20
                && f.domains() == seq!["substack.com"@],
            r.valid(),
    {
        let mut families: NameMap<FamilyConfig> = NameMap::new();
        let github = FamilyConfig {
            limit: 20,
            suffixes: vec![
                String::from_str("github.com"),
                String::from_str("githubusercontent.com"),
            ],
        };
        let youtube = FamilyConfig {
            limit: 20,
            suffixes: vec![
                String::from_str("youtube.com"),
                String::from_str("googlevideo.com"),
            ],
        };
        let substack = FamilyConfig {
            limit: 20,
            suffixes: vec![String::from_str("substack.com")],
        };
        proof {
            reveal_strlit("github");
            reveal_strlit("youtube");
            reveal_strlit("substack");
            assert(github.domains() =~= seq!["github.com"@, "githubusercontent.com"@]);
            assert(youtube.domains() =~= seq!["youtube.com"@, "googlevideo.com"@]);
            assert(substack.domains() =~= seq!["substack.com"@]);
        }
        families.insert(String::from_str("github"), github);
        families.insert(String::from_str("youtube"), youtube);
        families.insert(String::from_str("substack"), substack);
        proof {
            let s = families.entries();
            assert forall|i: int| 0 <= i < s.len() implies (#[trigger] s[i]).1.limit >= 1 by {
                crate::names::lemma_value_at(s, i);
            }
            reveal_with_fuel(crate::decimal::pow10, 2);
        }
        Config {
            default_route: default_true(),
            tun_name: default_tun_name(),
            tun_addr: default_tun_addr(),
            tun_dest: default_tun_dest(),
            tun_netmask: default_tun_netmask(),
            uplink_iface: String::new(),
            route_table_id: default_route_table_id(),
            route_rule_priority: default_route_rule_priority(),
            soft_ratio: default_soft_ratio(),
            soft_pace: default_soft_pace(),
            unit: RateUnit::ReqsPerMin,
            families,
        }
    }
}

/// The configuration file that is read: the one that was asked for if it is among the files that
/// were found, else the first of the usual places that is, else the one that was asked for.
pub open spec fn chosen_path(asked: Seq<char>, found: Seq<Seq<char>>) -> Seq<char> {
    if found.contains(asked) {
        asked
    } else if found.contains("/run/safethrottle/config.toml"@) {
        "/run/safethrottle/config.toml"@
    } else if found.contains("/etc/safethrottle/config.toml"@) {
        "/etc/safethrottle/config.toml"@
    } else {
        asked
    }
}

/// Where configuration files are looked for.
pub fn config_paths(asked: &str) -> (r: Vec<String>)
    ensures
        arg_views(r@) == seq![
            asked@,
            "/run/safethrottle/config.toml"@,
            "/etc/safethrottle/config.toml"@,
        ],
{
    let mut r: Vec<String> = Vec::new();
    add_arg(&mut r, asked);
    add_arg(&mut r, "/run/safethrottle/config.toml");
    add_arg(&mut r, "/etc/safethrottle/config.toml");
    assert(arg_views(r@) =~= seq![
        asked@,
        "/run/safethrottle/config.toml"@,
        "/etc/safethrottle/config.toml"@,
    ]);
    r
}

/// Picks the configuration file, given which files were found.
pub fn resolve_config_path(asked: &str, found: &Vec<String>) -> (r: String)
    ensures
        r@ == chosen_path(asked@, arg_views(found@)),
{
    if is_present(found, asked) {
        asked.to_owned()
    } else if is_present(found, "/run/safethrottle/config.toml") {
        String::from_str("/run/safethrottle/config.toml")
    } else if is_present(found, "/etc/safethrottle/config.toml") {
        String::from_str("/etc/safethrottle/config.toml")
    } else {
        asked.to_owned()
    }
}

/// The family that is named for its limit is the first by name: it has none, and every family
/// whose name is before it has one.
pub proof fn lemma_first_without_limit_by_name(
    families: Seq<(Seq<char>, FamilyConfig)>,
    at: int,
    other: int,
)
    requires
        crate::names::ordered(families),
        first_without_limit(families, at),
        0 <= other < families.len(),
    ensures
        families[at].1.limit == 0,
        crate::names::text_less(families[other].0, families[at].0) ==> families[other].1.limit >= 1,
{
    if crate::names::text_less(families[other].0, families[at].0) && other >= at {
        if other > at {
            assert(crate::names::text_less(families[at].0, families[other].0));
            crate::names::lemma_text_less_transitive(
                families[other].0,
                families[at].0,
                families[other].0,
            );
        }
        crate::names::lemma_text_less_irreflexive(families[other].0);
    }
}

/// The file that is read: the one that was asked for, unless it is missing and one of the two usual
/// ones is there; then that one, and the first of the two if both are. No other file matters.
pub proof fn lemma_chosen_configuration_file(asked: Seq<char>, found: Seq<Seq<char>>)
    ensures
        ({
            let chosen = chosen_path(asked, found);
            let run = "/run/safethrottle/config.toml"@;
            let etc = "/etc/safethrottle/config.toml"@;
            &&& found.contains(asked) ==> chosen == asked
            &&& chosen != asked ==> found.contains(chosen) && (chosen == run || chosen == etc)
            &&& !found.contains(asked) && found.contains(run) ==> chosen == run
            &&& !found.contains(asked) && !found.contains(run) && found.contains(etc) ==> chosen
                == etc
            &&& !found.contains(asked) && !found.contains(run) && !found.contains(etc) ==> chosen
                == asked
        }),
{
}

} // verus!
