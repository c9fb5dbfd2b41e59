//! Install and remove split-default capture through a dedicated policy-routing table.
//!
//! Tailscale installs `ip rule pref 5270 lookup 52` with a default via its own device, so
//! split-default routes in the main table never win. The capture rule has a lower priority number,
//! so that outbound traffic is captured before that rule.
//!
//! The routing commands are run outside. A `RouteTask` says which one is next and takes what came
//! of it.

use crate::command::{add_arg, arg_views, CommandOutcome, OutcomeView};
use crate::recovery::{
    is_present, routing_active_path, runtime_path, write_marker, MarkerWrite,
};
use crate::text::{
    begins, chars_of, contains, decimal, has_text, lines, lines_of, render, starts_with, texts,
};
use vstd::prelude::*;
use vstd::string::StringExecFns;

verus! {

/// Routing table for the capture.
pub const DEFAULT_TABLE_ID: u32 = 100;

/// Evaluated before Tailscale's rule.
pub const DEFAULT_RULE_PRIORITY: u32 = 5260;

#[derive(Debug, Clone)]
pub struct RouteOptions {
    pub tun_name: String,
    pub table_id: u32,
    pub rule_priority: u32,
}

/// Route options, as the specifications speak of them.
pub struct OptionsView {
    pub tun_name: Seq<char>,
    pub table_id: u32,
    pub rule_priority: u32,
}

impl View for RouteOptions {
    type V = OptionsView;

    open spec fn view(&self) -> OptionsView {
        OptionsView {
            tun_name: self.tun_name@,
            table_id: self.table_id,
            rule_priority: self.rule_priority,
        }
    }
}

/// Private and local ranges, which fall through to later rules.
pub open spec fn bypassed() -> Seq<Seq<char>> {
    seq![
        "127.0.0.0/8"@,
        "10.0.0.0/8"@,
        "172.16.0.0/12"@,
        "192.168.0.0/16"@,
        "169.254.0.0/16"@,
        "100.64.0.0/10"@,
    ]
}

/// The two halves of the address space, which together beat a default route.
pub open spec fn halves() -> Seq<Seq<char>> {
    seq!["0.0.0.0/1"@, "128.0.0.0/1"@]
}

/// Private and local ranges, which fall through to later rules.
pub fn throw_cidrs() -> (r: Vec<String>)
    ensures
        arg_views(r@) == bypassed(),
{
    let mut r: Vec<String> = Vec::new();
    add_arg(&mut r, "127.0.0.0/8");
    add_arg(&mut r, "10.0.0.0/8");
    add_arg(&mut r, "172.16.0.0/12");
    add_arg(&mut r, "192.168.0.0/16");
    add_arg(&mut r, "169.254.0.0/16");
    add_arg(&mut r, "100.64.0.0/10");
    assert(arg_views(r@) =~= bypassed());
    r
}

/// The two halves of the address space.
pub fn split_cidrs() -> (r: Vec<String>)
    ensures
        arg_views(r@) == halves(),
{
    let mut r: Vec<String> = Vec::new();
    add_arg(&mut r, "0.0.0.0/1");
    add_arg(&mut r, "128.0.0.0/1");
    assert(arg_views(r@) =~= halves());
    r
}

/// `ip -4 rule show`.
pub open spec fn show_rules() -> Seq<Seq<char>> {
    seq!["-4"@, "rule"@, "show"@]
}

/// `ip rule <op> pref <priority> lookup <table>`.
pub open spec fn rule_command(op: Seq<char>, priority: u32, table_id: u32) -> Seq<Seq<char>> {
    seq!["rule"@, op, "pref"@, decimal(priority as nat), "lookup"@, decimal(table_id as nat)]
}

/// `ip route <op> throw <range> table <table>`.
pub open spec fn throw_command(op: Seq<char>, cidr: Seq<char>, table_id: u32) -> Seq<Seq<char>> {
    seq!["route"@, op, "throw"@, cidr, "table"@, decimal(table_id as nat)]
}

/// `ip route <op> <range> dev <device> table <table>`.
pub open spec fn split_command(
    op: Seq<char>,
    cidr: Seq<char>,
    tun_name: Seq<char>,
    table_id: u32,
) -> Seq<Seq<char>> {
    seq!["route"@, op, cidr, "dev"@, tun_name, "table"@, decimal(table_id as nat)]
}

/// `ip route del <range> dev <device>`, in the main table.
pub open spec fn legacy_command(cidr: Seq<char>, tun_name: Seq<char>) -> Seq<Seq<char>> {
    seq!["route"@, "del"@, cidr, "dev"@, tun_name]
}

/// What the routes of the capture take, once the rule is there: the ranges to bypass, the two
/// halves into the device, and away with split routes in the main table, which no longer help.
pub open spec fn install_commands(opts: OptionsView) -> Seq<Seq<Seq<char>>> {
    bypassed().map_values(|c: Seq<char>| throw_command("add"@, c, opts.table_id))
        + halves().map_values(
        |c: Seq<char>| split_command("add"@, c, opts.tun_name, opts.table_id),
    ) + halves().map_values(|c: Seq<char>| legacy_command(c, opts.tun_name))
}

/// What removes the routes of the capture.
pub open spec fn removal_commands(opts: OptionsView) -> Seq<Seq<Seq<char>>> {
    halves().map_values(|c: Seq<char>| split_command("del"@, c, opts.tun_name, opts.table_id))
        + bypassed().map_values(|c: Seq<char>| throw_command("del"@, c, opts.table_id))
}

/// A line of the rule list shows the rule.
pub open spec fn rule_line(line: Seq<char>, priority: u32, table_id: u32) -> bool {
    &&& begins(line, decimal(priority as nat).push(':')) || has_text(
        line,
        "pref "@ + decimal(priority as nat),
    )
    &&& has_text(line, "lookup "@ + decimal(table_id as nat))
}

/// The rule list shows the rule.
pub open spec fn rule_listed(listing: Seq<char>, priority: u32, table_id: u32) -> bool {
    exists|i: int|
        0 <= i < lines_of(listing).len() && rule_line(
            #[trigger] lines_of(listing)[i],
            priority,
            table_id,
        )
}

/// The outcome of listing the rules shows the rule; a list that could not be had shows none.
pub open spec fn rule_shown(outcome: OutcomeView, priority: u32, table_id: u32) -> bool {
    match outcome {
        OutcomeView::Exited { success: true, stdout, .. } => rule_listed(
            stdout,
            priority,
            table_id,
        ),
        _ => false,
    }
}

fn text_with(head: &str, n: u32) -> (r: Vec<char>)
    ensures
        r@ == head@ + decimal(n as nat),
{
    let digits = render(n as u64);
    chars_of(String::from_str(head).concat(&digits).as_str())
}

/// Whether a rule list shows the rule.
pub fn listing_shows(listing: &str, priority: u32, table_id: u32) -> (r: bool)
    ensures
        r == rule_listed(listing@, priority, table_id),
{
    let mut head = chars_of(render(priority as u64).as_str());
    head.push(':');
    let pref = text_with("pref ", priority);
    let lookup = text_with("lookup ", table_id);
    let all = lines(&chars_of(listing));
    let ghost listed = lines_of(listing@);
    let mut i: usize = 0;
    while i < all.len()
        invariant
            i <= all@.len(),
            listed == texts(all@),
            listed == lines_of(listing@),
            head@ == decimal(priority as nat).push(':'),
            pref@ == "pref "@ + decimal(priority as nat),
            lookup@ == "lookup "@ + decimal(table_id as nat),
            forall|j: int| 0 <= j < i ==> !rule_line(#[trigger] listed[j], priority, table_id),
        decreases all@.len() - i,
    {
        let line = &all[i];
        assert(line@ == listed[i as int]);
        if (starts_with(line, &head) || contains(line, &pref)) && contains(line, &lookup) {
            return true;
        }
        i += 1;
    }
    false
}

/// Whether the outcome of `ip -4 rule show` shows the rule.
pub fn rule_exists(outcome: &CommandOutcome, priority: u32, table_id: u32) -> (r: bool)
    ensures
        r == rule_shown(outcome@, priority, table_id),
{
    match outcome {
        CommandOutcome::NotRun => false,
        CommandOutcome::Exited { success, stdout, .. } => *success && listing_shows(
            stdout,
            priority,
            table_id,
        ),
    }
}

/// Whether the capture rule is in force, going by the outcome of `ip -4 rule show`.
pub fn rule_active(outcome: &CommandOutcome, priority: u32, table_id: u32) -> (r: bool)
    ensures
        r == rule_shown(outcome@, priority, table_id),
{
    rule_exists(outcome, priority, table_id)
}

/// The arguments of `ip` that list the rules.
pub fn rule_show_args() -> (r: Vec<String>)
    ensures
        arg_views(r@) == show_rules(),
{
    let mut r: Vec<String> = Vec::new();
    add_arg(&mut r, "-4");
    add_arg(&mut r, "rule");
    add_arg(&mut r, "show");
    assert(arg_views(r@) =~= show_rules());
    r
}

fn rule_args(op: &str, priority: u32, table_id: u32) -> (r: Vec<String>)
    ensures
        arg_views(r@) == rule_command(op@, priority, table_id),
{
    let mut r: Vec<String> = Vec::new();
    add_arg(&mut r, "rule");
    add_arg(&mut r, op);
    add_arg(&mut r, "pref");
    add_arg(&mut r, render(priority as u64).as_str());
    add_arg(&mut r, "lookup");
    add_arg(&mut r, render(table_id as u64).as_str());
    assert(arg_views(r@) =~= rule_command(op@, priority, table_id));
    r
}

fn throw_args(op: &str, cidr: &str, table_id: u32) -> (r: Vec<String>)
    ensures
        arg_views(r@) == throw_command(op@, cidr@, table_id),
{
    let mut r: Vec<String> = Vec::new();
    add_arg(&mut r, "route");
    add_arg(&mut r, op);
    add_arg(&mut r, "throw");
    add_arg(&mut r, cidr);
    add_arg(&mut r, "table");
    add_arg(&mut r, render(table_id as u64).as_str());
    assert(arg_views(r@) =~= throw_command(op@, cidr@, table_id));
    r
}

fn split_args(op: &str, cidr: &str, tun_name: &str, table_id: u32) -> (r: Vec<String>)
    ensures
        arg_views(r@) == split_command(op@, cidr@, tun_name@, table_id),
{
    let mut r: Vec<String> = Vec::new();
    add_arg(&mut r, "route");
    add_arg(&mut r, op);
    add_arg(&mut r, cidr);
    add_arg(&mut r, "dev");
    add_arg(&mut r, tun_name);
    add_arg(&mut r, "table");
    add_arg(&mut r, render(table_id as u64).as_str());
    assert(arg_views(r@) =~= split_command(op@, cidr@, tun_name@, table_id));
    r
}

fn legacy_args(cidr: &str, tun_name: &str) -> (r: Vec<String>)
    ensures
        arg_views(r@) == legacy_command(cidr@, tun_name@),
{
    let mut r: Vec<String> = Vec::new();
    add_arg(&mut r, "route");
    add_arg(&mut r, "del");
    add_arg(&mut r, cidr);
    add_arg(&mut r, "dev");
    add_arg(&mut r, tun_name);
    assert(arg_views(r@) =~= legacy_command(cidr@, tun_name@));
    r
}

/// How far a task has come.
#[derive(Debug, Clone)]
pub enum RouteStage {
    /// Is the rule there already?
    CheckRule,
    /// Add the rule.
    AddRule,
    /// Adding failed with this message; has someone else added the rule?
    RecheckRule { stderr: String },
    /// Run the route command at this position. Its outcome does not matter.
    Routes { next: usize },
    /// Is there a rule to remove?
    CheckForRemoval,
    /// Remove the rule.
    RemoveRule,
    Done,
    /// A command that had to run could not be started.
    NotRun,
    /// The rule could not be added.
    Refused { message: String },
}

/// How far a task has come, as the specifications speak of it.
pub enum StageView {
    CheckRule,
    AddRule,
    RecheckRule { stderr: Seq<char> },
    Routes { next: nat },
    CheckForRemoval,
    RemoveRule,
    Done,
    NotRun,
    Refused { message: Seq<char> },
}

impl View for RouteStage {
    type V = StageView;

    open spec fn view(&self) -> StageView {
        match *self {
            RouteStage::CheckRule => StageView::CheckRule,
            RouteStage::AddRule => StageView::AddRule,
            RouteStage::RecheckRule { stderr } => StageView::RecheckRule { stderr: stderr@ },
            RouteStage::Routes { next } => StageView::Routes { next: next as nat },
            RouteStage::CheckForRemoval => StageView::CheckForRemoval,
            RouteStage::RemoveRule => StageView::RemoveRule,
            RouteStage::Done => StageView::Done,
            RouteStage::NotRun => StageView::NotRun,
            RouteStage::Refused { message } => StageView::Refused { message: message@ },
        }
    }
}

/// What a task wants done.
#[derive(Debug, Clone)]
pub enum RouteAction {
    /// Run `ip` with these arguments and report the outcome.
    Run(Vec<String>),
    Done,
    /// Give up: the command that was last asked for could not be started.
    NotRun,
    /// Give up with this message.
    Refused(String),
}

/// What a task wants done, as the specifications speak of it.
pub enum ActionView {
    Run(Seq<Seq<char>>),
    Done,
    NotRun,
    Refused(Seq<char>),
}

impl View for RouteAction {
    type V = ActionView;

    open spec fn view(&self) -> ActionView {
        match *self {
            RouteAction::Run(args) => ActionView::Run(arg_views(args@)),
            RouteAction::Done => ActionView::Done,
            RouteAction::NotRun => ActionView::NotRun,
            RouteAction::Refused(message) => ActionView::Refused(message@),
        }
    }
}

/// The route commands of a task.
pub open spec fn task_commands(install: bool, opts: OptionsView) -> Seq<Seq<Seq<char>>> {
    if install {
        install_commands(opts)
    } else {
        removal_commands(opts)
    }
}

/// The message of a rule that could not be added.
pub open spec fn refusal(opts: OptionsView, stderr: Seq<char>) -> Seq<char> {
    "ip rule add pref "@ + decimal(opts.rule_priority as nat) + " lookup "@ + decimal(
        opts.table_id as nat,
    ) + " failed: "@ + stderr
}

/// What a task at a stage wants done.
pub open spec fn stage_action(install: bool, opts: OptionsView, stage: StageView) -> ActionView {
    match stage {
        StageView::CheckRule => ActionView::Run(show_rules()),
        StageView::AddRule => ActionView::Run(
            rule_command("add"@, opts.rule_priority, opts.table_id),
        ),
        StageView::RecheckRule { .. } => ActionView::Run(show_rules()),
        StageView::Routes { next } => ActionView::Run(task_commands(install, opts)[next as int]),
        StageView::CheckForRemoval => ActionView::Run(show_rules()),
        StageView::RemoveRule => ActionView::Run(
            rule_command("del"@, opts.rule_priority, opts.table_id),
        ),
        StageView::Done => ActionView::Done,
        StageView::NotRun => ActionView::NotRun,
        StageView::Refused { message } => ActionView::Refused(message),
    }
}

/// The stage that follows when the command of a stage has this outcome.
pub open spec fn next_stage(
    install: bool,
    opts: OptionsView,
    stage: StageView,
    outcome: OutcomeView,
) -> StageView {
    let shown = rule_shown(outcome, opts.rule_priority, opts.table_id);
    match stage {
        StageView::CheckRule => if shown {
            StageView::Routes { next: 0 }
        } else {
            StageView::AddRule
        },
        StageView::AddRule => match outcome {
            OutcomeView::NotRun => StageView::NotRun,
            OutcomeView::Exited { success, stderr, .. } => if success {
                StageView::Routes { next: 0 }
            } else {
                StageView::RecheckRule { stderr }
            },
        },
        StageView::RecheckRule { stderr } => if shown || has_text(stderr, "File exists"@) {
            StageView::Routes { next: 0 }
        } else {
            StageView::Refused { message: refusal(opts, stderr) }
        },
        StageView::Routes { next } => if next + 1 < task_commands(install, opts).len() {
            StageView::Routes { next: next + 1 }
        } else if install {
            StageView::Done
        } else {
            StageView::CheckForRemoval
        },
        StageView::CheckForRemoval => if shown {
            StageView::RemoveRule
        } else {
            StageView::Done
        },
        StageView::RemoveRule => match outcome {
            OutcomeView::NotRun => StageView::NotRun,
            OutcomeView::Exited { .. } => StageView::Done,
        },
        other => other,
    }
}

/// Installing or removing the capture, one command after the other.
#[derive(Debug, Clone)]
pub struct RouteTask {
    pub install: bool,
    pub opts: RouteOptions,
    pub stage: RouteStage,
}

impl RouteTask {
    /// A task among its routes is at one of them.
    pub open spec fn wf(self) -> bool {
        self.stage@ matches StageView::Routes { next } ==> next < task_commands(
            self.install,
            self.opts@,
        ).len()
    }

    /// The route command at a position.
    fn route_args(&self, next: usize) -> (r: Vec<String>)
        requires
            next < task_commands(self.install, self.opts@).len(),
        ensures
            arg_views(r@) == task_commands(self.install, self.opts@)[next as int],
    {
        let throws = throw_cidrs();
        let splits = split_cidrs();
        let tun = self.opts.tun_name.as_str();
        let table: u32 = self.opts.table_id;
        assert(forall|i: int| 0 <= i < 6 ==> #[trigger] arg_views(throws@)[i] == throws@[i]@);
        assert(forall|i: int| 0 <= i < 2 ==> #[trigger] arg_views(splits@)[i] == splits@[i]@);
        if self.install {
            if next < 6 {
                throw_args("add", throws[next].as_str(), table)
            } else if next < 8 {
                split_args("add", splits[next - 6].as_str(), tun, table)
            } else {
                legacy_args(splits[next - 8].as_str(), tun)
            }
        } else if next < 2 {
            split_args("del", splits[next].as_str(), tun, table)
        } else {
            throw_args("del", throws[next - 2].as_str(), table)
        }
    }

    /// What is to be done now.
    pub fn action(&self) -> (r: RouteAction)
        requires
            self.wf(),
        ensures
            r@ == stage_action(self.install, self.opts@, self.stage@),
    {
        match &self.stage {
            RouteStage::CheckRule => RouteAction::Run(rule_show_args()),
            RouteStage::AddRule => RouteAction::Run(
                rule_args("add", self.opts.rule_priority, self.opts.table_id),
            ),
            RouteStage::RecheckRule { .. } => RouteAction::Run(rule_show_args()),
            RouteStage::Routes { next } => RouteAction::Run(self.route_args(*next)),
            RouteStage::CheckForRemoval => RouteAction::Run(rule_show_args()),
            RouteStage::RemoveRule => RouteAction::Run(
                rule_args("del", self.opts.rule_priority, self.opts.table_id),
            ),
            RouteStage::Done => RouteAction::Done,
            RouteStage::NotRun => RouteAction::NotRun,
            RouteStage::Refused { message } => RouteAction::Refused(message.clone()),
        }
    }

    /// Takes the outcome of the command that `action` asked for.
    pub fn advance(&mut self, outcome: &CommandOutcome)
        requires
            old(self).wf(),
        ensures
            final(self).wf(),
            final(self).install == old(self).install,
            final(self).opts == old(self).opts,
            final(self).stage@ == next_stage(
                old(self).install,
                old(self).opts@,
                old(self).stage@,
                outcome@,
            ),
    {
        let priority: u32 = self.opts.rule_priority;
        let table: u32 = self.opts.table_id;
        let stage = match &self.stage {
            RouteStage::CheckRule => if rule_exists(outcome, priority, table) {
                RouteStage::Routes { next: 0 }
            } else {
                RouteStage::AddRule
            },
            RouteStage::AddRule => match outcome {
                CommandOutcome::NotRun => RouteStage::NotRun,
                CommandOutcome::Exited { success, stderr, .. } => if *success {
                    RouteStage::Routes { next: 0 }
                } else {
                    RouteStage::RecheckRule { stderr: stderr.clone() }
                },
            },
            RouteStage::RecheckRule { stderr } => if rule_exists(outcome, priority, table)
                || contains(&chars_of(stderr), &chars_of("File exists")) {
                RouteStage::Routes { next: 0 }
            } else {
                RouteStage::Refused {
                    message: String::from_str("ip rule add pref ").concat(
                        &render(priority as u64),
                    ).concat(" lookup ").concat(&render(table as u64)).concat(" failed: ").concat(
                        stderr,
                    ),
                }
            },
            RouteStage::Routes { next } => {
                let count: usize = if self.install {
                    10
                } else {
                    8
                };
                if *next < count - 1 {
                    RouteStage::Routes { next: *next + 1 }
                } else if self.install {
                    RouteStage::Done
                } else {
                    RouteStage::CheckForRemoval
                }
            },
            RouteStage::CheckForRemoval => if rule_exists(outcome, priority, table) {
                RouteStage::RemoveRule
            } else {
                RouteStage::Done
            },
            RouteStage::RemoveRule => match outcome {
                CommandOutcome::NotRun => RouteStage::NotRun,
                CommandOutcome::Exited { .. } => RouteStage::Done,
            },
            RouteStage::Done => RouteStage::Done,
            RouteStage::NotRun => RouteStage::NotRun,
            RouteStage::Refused { message } => RouteStage::Refused { message: message.clone() },
        };
        self.stage = stage;
    }
}

/// Begins to install the capture: the rule first, then the routes.
pub fn routes_add(opts: &RouteOptions) -> (r: RouteTask)
    ensures
        r.wf(),
        r.install,
        r.opts@ == opts@,
        r.stage == RouteStage::CheckRule,
{
    RouteTask {
        install: true,
        opts: RouteOptions {
            tun_name: opts.tun_name.clone(),
            table_id: opts.table_id,
            rule_priority: opts.rule_priority,
        },
        stage: RouteStage::CheckRule,
    }
}

/// Begins to remove the capture: the routes first, then the rule.
pub fn routes_del(opts: &RouteOptions) -> (r: RouteTask)
    ensures
        r.wf(),
        !r.install,
        r.opts@ == opts@,
        r.stage == (RouteStage::Routes { next: 0 }),
{
    RouteTask {
        install: false,
        opts: RouteOptions {
            tun_name: opts.tun_name.clone(),
            table_id: opts.table_id,
            rule_priority: opts.rule_priority,
        },
        stage: RouteStage::Routes { next: 0 },
    }
}

/// What is to be done with the marker of the capture. Its directory is made first.
#[derive(Debug, Clone)]
pub struct MarkerChange {
    pub directory: String,
    pub path: String,
    pub step: MarkerStep,
}

#[derive(Debug, Clone)]
pub enum MarkerStep {
    /// Write the file, with this text.
    Write(String),
    Remove,
    Keep,
}

/// The files after a change was made.
pub open spec fn changed(files: Set<Seq<char>>, change: MarkerChange) -> Set<Seq<char>> {
    match change.step {
        MarkerStep::Write(_) => files.insert(change.path@),
        MarkerStep::Remove => files.remove(change.path@),
        MarkerStep::Keep => files,
    }
}

/// Keeps a marker file so that scripts know whether the capture is active: it is written when the
/// capture was installed, and removed, if it was found, when the capture was removed.
pub fn mark_active(active: bool, found: &Vec<String>) -> (r: MarkerChange)
    ensures
        r.directory@ == "/run/safethrottle"@,
        r.path@ == runtime_path("routing-active"@),
        match r.step {
            MarkerStep::Write(text) => active && text@ == "1\n"@,
            MarkerStep::Remove => !active && arg_views(found@).contains(r.path@),
            MarkerStep::Keep => !active && !arg_views(found@).contains(r.path@),
        },
        changed(arg_views(found@).to_set(), r).contains(r.path@) == active,
{
    let MarkerWrite { directory, path, contents } = write_marker(routing_active_path());
    let step = if active {
        MarkerStep::Write(contents)
    } else if is_active(found) {
        MarkerStep::Remove
    } else {
        MarkerStep::Keep
    };
    MarkerChange { directory, path, step }
}

/// Whether the marker of the capture is among the files that were found.
pub fn is_active(found: &Vec<String>) -> (r: bool)
    ensures
        r == arg_views(found@).contains(runtime_path("routing-active"@)),
{
    is_present(found, &routing_active_path())
}

/// How many commands a task has before it at most.
pub open spec fn commands_left(install: bool, opts: OptionsView, stage: StageView) -> nat {
    let routes = task_commands(install, opts).len();
    match stage {
        StageView::CheckRule => routes + 5,
        StageView::AddRule => routes + 4,
        StageView::RecheckRule { .. } => routes + 3,
        StageView::Routes { next } => if next < routes {
            (routes - next + 2) as nat
        } else {
            3
        },
        StageView::CheckForRemoval => 2,
        StageView::RemoveRule => 1,
        _ => 0,
    }
}

/// Every task ends: each outcome brings it nearer to its end, whatever the outcomes are.
pub proof fn lemma_tasks_end(
    install: bool,
    opts: OptionsView,
    stage: StageView,
    outcome: OutcomeView,
)
    requires
        stage_action(install, opts, stage) is Run,
    ensures
        commands_left(install, opts, next_stage(install, opts, stage, outcome)) < commands_left(
            install,
            opts,
            stage,
        ),
{
}

/// A task that ended stays where it is.
pub proof fn lemma_ended_tasks_stay(
    install: bool,
    opts: OptionsView,
    stage: StageView,
    outcome: OutcomeView,
)
    requires
        !(stage_action(install, opts, stage) is Run),
    ensures
        next_stage(install, opts, stage, outcome) == stage,
        commands_left(install, opts, stage) == 0,
{
}

/// The command that takes back a route command.
pub open spec fn undoing(command: Seq<Seq<char>>) -> Seq<Seq<char>> {
    command.update(1, "del"@)
}

/// Removing the capture takes back every route that installing it puts into its table.
pub proof fn lemma_removal_undoes_installation(opts: OptionsView, i: int)
    requires
        0 <= i < bypassed().len() + halves().len(),
    ensures
        removal_commands(opts).contains(undoing(install_commands(opts)[i])),
{
    let add = install_commands(opts);
    let del = removal_commands(opts);
    if i < 6 {
        assert(add[i] == throw_command("add"@, bypassed()[i], opts.table_id));
        assert(undoing(add[i]) =~= throw_command("del"@, bypassed()[i], opts.table_id));
        assert(del[i + 2] == undoing(add[i]));
    } else {
        assert(add[i] == split_command("add"@, halves()[i - 6], opts.tun_name, opts.table_id));
        assert(undoing(add[i]) =~= split_command(
            "del"@,
            halves()[i - 6],
            opts.tun_name,
            opts.table_id,
        ));
        assert(del[i - 6] == undoing(add[i]));
    }
}

/// What a route command reports does not matter: the task goes on the same way, and never gives up
/// on its account.
pub proof fn lemma_route_outcomes_do_not_matter(
    install: bool,
    opts: OptionsView,
    next: nat,
    a: OutcomeView,
    b: OutcomeView,
)
    ensures
        next_stage(install, opts, StageView::Routes { next }, a) == next_stage(
            install,
            opts,
            StageView::Routes { next },
            b,
        ),
        !(next_stage(install, opts, StageView::Routes { next }, a) is NotRun),
        !(next_stage(install, opts, StageView::Routes { next }, a) is Refused),
{
}

/// A rule counts as listed wherever it stands: a listing of two parts shows the rule exactly when
/// one of the parts does, however many lines they have.
pub proof fn lemma_rule_is_found_in_either_part(
    a: Seq<char>,
    b: Seq<char>,
    priority: u32,
    table_id: u32,
)
    requires
        a.len() > 0 ==> a.last() == '\n',
    ensures
        rule_listed(a + b, priority, table_id) <==> rule_listed(a, priority, table_id)
            || rule_listed(b, priority, table_id),
{
    crate::text::lemma_lines_of_joined_texts(a, b);
    let la = lines_of(a);
    let lb = lines_of(b);
    let lines = lines_of(a + b);
    assert(forall|i: int| 0 <= i < la.len() ==> #[trigger] lines[i] == la[i]);
    assert(forall|i: int| 0 <= i < lb.len() ==> lines[la.len() + i] == #[trigger] lb[i]);
    if rule_listed(a + b, priority, table_id) {
        let i = choose|i: int|
            0 <= i < lines.len() && rule_line(#[trigger] lines[i], priority, table_id);
        if i < la.len() {
            assert(rule_line(la[i], priority, table_id));
        } else {
            assert(rule_line(lb[i - la.len()], priority, table_id));
        }
    }
    if rule_listed(a, priority, table_id) {
        let i = choose|i: int| 0 <= i < la.len() && rule_line(#[trigger] la[i], priority, table_id);
        assert(rule_line(lines[i], priority, table_id));
    }
    if rule_listed(b, priority, table_id) {
        let i = choose|i: int| 0 <= i < lb.len() && rule_line(#[trigger] lb[i], priority, table_id);
        assert(rule_line(lines[la.len() + i], priority, table_id));
    }
}

/// One line shows the rule exactly when it looks up the table, and begins with the priority and a
/// colon or names the priority as a preference; how the line ends does not matter.
pub proof fn lemma_line_that_shows_the_rule(line: Seq<char>, priority: u32, table_id: u32)
    requires
        forall|i: int| 0 <= i < line.len() ==> #[trigger] line[i] != '\n',
    ensures
        rule_listed(line, priority, table_id) <==> {
            &&& (exists|rest: Seq<char>|
                line == #[trigger] (decimal(priority as nat) + seq![':'] + rest)) || (exists|
                front: Seq<char>,
                rest: Seq<char>,
            |
                line == #[trigger] (front + ("pref "@ + decimal(priority as nat)) + rest))
            &&& exists|front: Seq<char>, rest: Seq<char>|
                line == #[trigger] (front + ("lookup "@ + decimal(table_id as nat)) + rest)
        },
        line.len() == 0 || line.last() != '\r' ==> rule_listed(
            line + seq!['\n'],
            priority,
            table_id,
        ) == rule_listed(line, priority, table_id),
        rule_listed(line + seq!['\r'] + seq!['\n'], priority, table_id) == rule_listed(
            line,
            priority,
            table_id,
        ),
{
    let none = Seq::<char>::empty();
    crate::text::lemma_lines_one_by_one(line, none);
    crate::text::lemma_lines_one_by_one(none, none);
    assert(line + seq!['\n'] + none =~= line + seq!['\n']);
    assert(line + seq!['\r'] + seq!['\n'] + none =~= line + seq!['\r'] + seq!['\n']);
    assert(seq![line] + lines_of(none) =~= seq![line]);
    let head = decimal(priority as nat).push(':');
    let lookup = "lookup "@ + decimal(table_id as nat);
    crate::text::lemma_parts_of_a_text(line, head);
    crate::text::lemma_parts_of_a_text(line, "pref "@ + decimal(priority as nat));
    crate::text::lemma_parts_of_a_text(line, lookup);
    assert(head =~= decimal(priority as nat) + seq![':']);
    crate::text::lemma_decimal_reads_back(table_id as nat);
    assert(seq![line][0] == line);
    if rule_line(line, priority, table_id) {
        assert(line.len() > 0) by {
            let at = choose|at: int| #[trigger] crate::text::occurs_at(line, lookup, at);
            assert(lookup.len() > 0);
        }
    }
    let one = seq![line];
    assert((exists|i: int| 0 <= i < one.len() && rule_line(#[trigger] one[i], priority, table_id))
        == rule_line(line, priority, table_id)) by {
        if rule_line(line, priority, table_id) {
            assert(rule_line(one[0], priority, table_id));
        }
    }
}

/// A listing that could not be had shows no rule, and one that was had shows what stands in it.
pub proof fn lemma_only_a_listing_shows_rules(
    success: bool,
    stdout: Seq<char>,
    stderr: Seq<char>,
    priority: u32,
    table_id: u32,
)
    ensures
        !rule_shown(OutcomeView::NotRun, priority, table_id),
        rule_shown(OutcomeView::Exited { success, stdout, stderr }, priority, table_id) == (success
            && rule_listed(stdout, priority, table_id)),
{
}

/// The commands name the table, the device and the priority that they are given, at their places,
/// and say the same for all options elsewhere.
pub proof fn lemma_commands_name_their_options(a: OptionsView, b: OptionsView, i: int, j: int)
    ensures
        install_commands(a).len() == 10 && removal_commands(a).len() == 8,
        ({
            let c = install_commands(a)[i];
            let d = install_commands(b)[i];
            0 <= i < 10 ==> {
                &&& c.len() == d.len()
                &&& i < 8 ==> c.last() == decimal(a.table_id as nat)
                &&& i >= 6 ==> c[4] == a.tun_name
                &&& 0 <= j < c.len() && !(i < 8 && j == c.len() - 1) && !(i >= 6 && j == 4)
                    ==> c[j] == d[j]
            }
        }),
        ({
            let c = removal_commands(a)[i];
            let d = removal_commands(b)[i];
            0 <= i < 8 ==> {
                &&& c.len() == d.len()
                &&& c.last() == decimal(a.table_id as nat)
                &&& i < 2 ==> c[4] == a.tun_name
                &&& 0 <= j < c.len() - 1 && !(i < 2 && j == 4) ==> c[j] == d[j]
            }
        }),
        ({
            let c = rule_command("add"@, a.rule_priority, a.table_id);
            let d = rule_command("del"@, b.rule_priority, b.table_id);
            &&& c.len() == 6 && d.len() == 6
            &&& c[1] == "add"@ && d[1] == "del"@
            &&& c[3] == decimal(a.rule_priority as nat)
            &&& c[5] == decimal(a.table_id as nat)
            &&& c[0] == d[0] && c[2] == d[2] && c[4] == d[4]
        }),
{
}

/// The stage of a task after several outcomes.
pub open spec fn task_through(
    install: bool,
    opts: OptionsView,
    stage: StageView,
    outcomes: Seq<OutcomeView>,
) -> StageView
    decreases outcomes.len(),
{
    if outcomes.len() == 0 {
        stage
    } else {
        next_stage(
            install,
            opts,
            task_through(install, opts, stage, outcomes.drop_last()),
            outcomes.last(),
        )
    }
}

/// The routes are not touched before the rule is there. It is there if the listing shows it, if
/// adding it went well, or if adding it failed but it is listed by then or the message says that it
/// exists. Else the installation ends, with a message that names the rule and tells the reason.
pub proof fn lemma_rule_comes_before_the_routes(
    opts: OptionsView,
    first: OutcomeView,
    adding: OutcomeView,
    second: OutcomeView,
)
    ensures
        ({
            let begun = StageView::CheckRule;
            let routes = StageView::Routes { next: 0 };
            let listed = |o: OutcomeView| rule_shown(o, opts.rule_priority, opts.table_id);
            let after = |o: Seq<OutcomeView>| task_through(true, opts, begun, o);
            &&& stage_action(true, opts, begun) == ActionView::Run(show_rules())
            &&& listed(first) ==> after(seq![first]) == routes
            &&& !listed(first) ==> stage_action(true, opts, after(seq![first])) == ActionView::Run(
                rule_command("add"@, opts.rule_priority, opts.table_id),
            )
            &&& !listed(first) ==> match adding {
                OutcomeView::NotRun => after(seq![first, adding]) is NotRun,
                OutcomeView::Exited { success, stderr, .. } => if success {
                    after(seq![first, adding]) == routes
                } else {
                    &&& stage_action(true, opts, after(seq![first, adding])) == ActionView::Run(
                        show_rules(),
                    )
                    &&& if listed(second) || exists|front: Seq<char>, rest: Seq<char>|
                        stderr == #[trigger] (front + "File exists"@ + rest) {
                        after(seq![first, adding, second]) == routes
                    } else {
                        after(seq![first, adding, second]) == (StageView::Refused {
                            message: "ip rule add pref "@ + decimal(opts.rule_priority as nat)
                                + " lookup "@ + decimal(opts.table_id as nat) + " failed: "@
                                + stderr,
                        })
                    }
                },
            }
        }),
{
    reveal_with_fuel(task_through, 4);
    let one = seq![first];
    let two = seq![first, adding];
    let three = seq![first, adding, second];
    assert(one.drop_last() =~= Seq::empty());
    assert(two.drop_last() =~= one);
    assert(three.drop_last() =~= two);
    if let OutcomeView::Exited { stderr, .. } = adding {
        crate::text::lemma_parts_of_a_text(stderr, "File exists"@);
    }
}

proof fn lemma_routes_walked(install: bool, opts: OptionsView, outcomes: Seq<OutcomeView>)
    requires
        outcomes.len() < task_commands(install, opts).len(),
    ensures
        task_through(install, opts, StageView::Routes { next: 0 }, outcomes) == (StageView::Routes {
            next: outcomes.len(),
        }),
    decreases outcomes.len(),
{
    if outcomes.len() > 0 {
        lemma_routes_walked(install, opts, outcomes.drop_last());
    }
}

/// Every route command of a task is run once, in its place, whatever comes of the ones before it.
/// Then an installation is done; a removal looks for its rule, removes it if the listing shows it,
/// and is done, unless that command could not be started.
pub proof fn lemma_every_route_command_is_run(
    install: bool,
    opts: OptionsView,
    outcomes: Seq<OutcomeView>,
    listing: OutcomeView,
    removing: OutcomeView,
)
    requires
        outcomes.len() <= task_commands(install, opts).len(),
    ensures
        ({
            let routes = StageView::Routes { next: 0 };
            let after = |o: Seq<OutcomeView>| task_through(install, opts, routes, o);
            let commands = task_commands(install, opts);
            &&& outcomes.len() < commands.len() ==> stage_action(install, opts, after(outcomes))
                == ActionView::Run(commands[outcomes.len() as int])
            &&& outcomes.len() == commands.len() && install ==> after(outcomes) is Done
            &&& outcomes.len() == commands.len() && !install ==> {
                let shown = rule_shown(listing, opts.rule_priority, opts.table_id);
                &&& stage_action(install, opts, after(outcomes)) == ActionView::Run(show_rules())
                &&& !shown ==> after(outcomes.push(listing)) is Done
                &&& shown ==> {
                    &&& stage_action(install, opts, after(outcomes.push(listing)))
                        == ActionView::Run(
                        rule_command("del"@, opts.rule_priority, opts.table_id),
                    )
                    &&& after(outcomes.push(listing).push(removing)) is NotRun <==> removing is NotRun
                    &&& after(outcomes.push(listing).push(removing)) is Done
                        <==> removing is Exited
                }
            }
        }),
{
    let n = task_commands(install, opts).len();
    if outcomes.len() < n {
        lemma_routes_walked(install, opts, outcomes);
    } else {
        lemma_routes_walked(install, opts, outcomes.drop_last());
        let more = outcomes.push(listing);
        assert(more.drop_last() =~= outcomes);
        assert(more.push(removing).drop_last() =~= more);
    }
}

/// A task that has ended says how: that it is done, that a command could not be started, or the
/// message that it ended with.
pub proof fn lemma_ended_tasks_say_how(install: bool, opts: OptionsView, message: Seq<char>)
    ensures
        stage_action(install, opts, StageView::Done) is Done,
        stage_action(install, opts, StageView::NotRun) is NotRun,
        stage_action(install, opts, StageView::Refused { message }) == ActionView::Refused(message),
        task_commands(true, opts) == install_commands(opts),
        task_commands(false, opts) == removal_commands(opts),
{
}

} // verus!
