//! Gateway crash recovery, and giving up for the rest of the boot after repeated failure.

use crate::command::{arg_views, CommandOutcome, OutcomeView};
use crate::config::Config;
use crate::route::{
    commands_left, next_stage, routes_del, stage_action, ActionView, OptionsView, RouteAction,
    RouteOptions, RouteStage, RouteTask, StageView,
};
use crate::text::{chars_of, same};
use vstd::prelude::*;
use vstd::string::StringExecFns;

verus! {

/// How long a crashed gateway is retried, in nanoseconds: five seconds.
pub const RECOVERY_BUDGET: u64 = 5_000_000_000;

/// The pause before each retry, in nanoseconds: 50 milliseconds.
pub const RESTART_BACKOFF: u64 = 50_000_000;

/// The directory of the marker files.
pub fn runtime_dir() -> (r: String)
    ensures
        r@ == "/run/safethrottle"@,
{
    String::from_str("/run/safethrottle")
}

/// The path of a file in the runtime directory.
pub open spec fn runtime_path(name: Seq<char>) -> Seq<char> {
    "/run/safethrottle"@ + "/"@ + name
}

/// The path that a name stands for: a file in the runtime directory, unless the name is an
/// absolute path itself.
pub open spec fn joined(name: Seq<char>) -> Seq<char> {
    if name.len() > 0 && name[0] == '/' {
        name
    } else {
        runtime_path(name)
    }
}

/// The path of a marker.
pub fn marker_path(name: &str) -> (r: String)
    ensures
        r@ == joined(name@),
{
    let chars = chars_of(name);
    if chars.len() > 0 && chars[0] == '/' {
        name.to_owned()
    } else {
        runtime_dir().concat("/").concat(name)
    }
}

/// The marker that says that recovery failed once in this boot.
pub fn failed_once_path() -> (r: String)
    ensures
        r@ == runtime_path("recovery-failed-once"@),
{
    proof {
        reveal_strlit("recovery-failed-once");
    }
    marker_path("recovery-failed-once")
}

/// The marker that says that the gateway is to stay stopped for the rest of this boot.
pub fn boot_disabled_path() -> (r: String)
    ensures
        r@ == runtime_path("boot-disabled"@),
{
    proof {
        reveal_strlit("boot-disabled");
    }
    marker_path("boot-disabled")
}

/// The marker that says that the capture is active.
pub fn routing_active_path() -> (r: String)
    ensures
        r@ == runtime_path("routing-active"@),
{
    proof {
        reveal_strlit("routing-active");
    }
    marker_path("routing-active")
}

/// A marker file to be written: its directory is made first.
#[derive(Debug, Clone)]
pub struct MarkerWrite {
    pub directory: String,
    pub path: String,
    pub contents: String,
}

impl MarkerWrite {
    /// The file is the marker of this name.
    pub open spec fn marks(self, name: Seq<char>) -> bool {
        &&& self.directory@ == "/run/safethrottle"@
        &&& self.path@ == runtime_path(name)
        &&& self.contents@ == "1\n"@
    }
}

/// A marker file that holds a one.
pub(crate) fn write_marker(path: String) -> (r: MarkerWrite)
    ensures
        r.directory@ == "/run/safethrottle"@,
        r.path@ == path@,
        r.contents@ == "1\n"@,
{
    MarkerWrite { directory: runtime_dir(), path, contents: String::from_str("1\n") }
}

/// The marker to be written when recovery failed for the first time.
pub fn mark_failed_once() -> (r: MarkerWrite)
    ensures
        r.marks("recovery-failed-once"@),
{
    write_marker(failed_once_path())
}

/// The marker to be written when recovery failed again.
pub fn mark_boot_disabled() -> (r: MarkerWrite)
    ensures
        r.marks("boot-disabled"@),
{
    write_marker(boot_disabled_path())
}

/// The paths of all marker files.
pub fn marker_paths() -> (r: Vec<String>)
    ensures
        arg_views(r@) == seq![
            runtime_path("recovery-failed-once"@),
            runtime_path("boot-disabled"@),
            runtime_path("routing-active"@),
        ],
{
    let r = vec![failed_once_path(), boot_disabled_path(), routing_active_path()];
    assert(arg_views(r@) =~= seq![
        runtime_path("recovery-failed-once"@),
        runtime_path("boot-disabled"@),
        runtime_path("routing-active"@),
    ]);
    r
}

/// Whether a path is among those that were found.
pub fn is_present(found: &Vec<String>, path: &str) -> (r: bool)
    ensures
        r == arg_views(found@).contains(path@),
{
    let wanted = chars_of(path);
    let mut i: usize = 0;
    while i < found.len()
        invariant
            i <= found@.len(),
            wanted@ == path@,
            forall|j: int| 0 <= j < i ==> arg_views(found@)[j] != path@,
        decreases found@.len() - i,
    {
        let name = chars_of(&found[i]);
        assert(arg_views(found@)[i as int] == name@);
        if same(&name, &wanted) {
            return true;
        }
        i += 1;
    }
    false
}

/// Whether the marker that keeps the gateway stopped is among the files that were found.
pub fn is_boot_disabled(found: &Vec<String>) -> (r: bool)
    ensures
        r == arg_views(found@).contains(runtime_path("boot-disabled"@)),
{
    is_present(found, &boot_disabled_path())
}

/// Whether the marker of a first failure is among the files that were found.
pub fn is_failed_once(found: &Vec<String>) -> (r: bool)
    ensures
        r == arg_views(found@).contains(runtime_path("recovery-failed-once"@)),
{
    is_present(found, &failed_once_path())
}

/// The text of a panic: what its payload holds as a string slice, else what it holds as a string.
pub fn format_panic(slice: Option<&str>, string: Option<&String>) -> (r: String)
    ensures
        r@ == match slice {
            Some(s) => s@,
            None => match string {
                Some(s) => s@,
                None => "unknown panic payload"@,
            },
        },
{
    match slice {
        Some(s) => s.to_owned(),
        None => match string {
            Some(s) => s.clone(),
            None => String::from_str("unknown panic payload"),
        },
    }
}

/// Retries that have to begin before a deadline.
#[derive(Debug, Clone, Copy, PartialEq, Eq, Structural)]
pub struct RetryBudget {
    pub deadline: u64,
    /// The retries so far.
    pub attempt: u32,
}

#[derive(Debug, Clone, Copy, PartialEq, Eq, Structural)]
pub enum RetryAction {
    /// Sleep for the pause, then try.
    Attempt { attempt: u32, remaining: u64, backoff: u64 },
    GiveUp,
}

/// Begins to retry at `now`, for as long as the budget lasts.
pub fn retry_start_within_budget(now: u64, budget: u64) -> (r: RetryBudget)
    requires
        now + budget <= u64::MAX,
    ensures
        r.deadline == now + budget,
        r.attempt == 0,
{
    RetryBudget { deadline: now + budget, attempt: 0 }
}

impl RetryBudget {
    /// What a retry loop does at `now`.
    pub open spec fn decision(self, now: u64) -> RetryAction {
        if now < self.deadline {
            RetryAction::Attempt {
                attempt: (self.attempt + 1) as u32,
                remaining: (self.deadline - now) as u64,
                backoff: RESTART_BACKOFF,
            }
        } else {
            RetryAction::GiveUp
        }
    }

    /// The budget after that decision.
    pub open spec fn after(self, now: u64) -> RetryBudget {
        if now < self.deadline {
            RetryBudget { attempt: (self.attempt + 1) as u32, ..self }
        } else {
            self
        }
    }

    /// Another attempt while the deadline is ahead, and none from then on.
    pub fn next(&mut self, now: u64) -> (r: RetryAction)
        requires
            old(self).attempt < u32::MAX,
        ensures
            r == old(self).decision(now),
            *final(self) == old(self).after(now),
            r is GiveUp <==> now >= old(self).deadline,
            final(self).deadline == old(self).deadline,
            final(self).attempt == old(self).attempt + if r is Attempt {
                1int
            } else {
                0
            },
    {
        if now < self.deadline {
            self.attempt = self.attempt + 1;
            RetryAction::Attempt {
                attempt: self.attempt,
                remaining: self.deadline - now,
                backoff: RESTART_BACKOFF,
            }
        } else {
            RetryAction::GiveUp
        }
    }
}

/// Retrying ends: since each attempt takes the pause at least, no more of them begin within the
/// budget than pauses fit into it, and one.
pub proof fn lemma_attempts_are_bounded(times: Seq<u64>, deadline: u64)
    requires
        times.len() > 0,
        forall|i: int| 0 <= i < times.len() ==> (#[trigger] times[i]) < deadline,
        forall|i: int, j: int|
            0 <= i && j == i + 1 && j < times.len() ==> (#[trigger] times[i]) + RESTART_BACKOFF
                <= (#[trigger] times[j]),
    ensures
        times[0] + (times.len() - 1) * RESTART_BACKOFF < deadline,
{
    lemma_attempt_times(times, times.len() - 1);
}

proof fn lemma_attempt_times(times: Seq<u64>, k: int)
    requires
        0 <= k < times.len(),
        forall|i: int, j: int|
            0 <= i && j == i + 1 && j < times.len() ==> (#[trigger] times[i]) + RESTART_BACKOFF
                <= (#[trigger] times[j]),
    ensures
        times[0] + k * RESTART_BACKOFF <= times[k],
    decreases k,
{
    if k > 0 {
        lemma_attempt_times(times, k - 1);
        assert(times[k - 1] + RESTART_BACKOFF <= times[k]);
    }
}

/// The message for a recovery that failed for the first time.
pub open spec fn first_failure_notice(err: Seq<char>) -> Seq<char> {
    "Gateway recovery failed ("@ + err + "). Routing disabled; systemd will retry once."@
}

/// The message for a failed recovery.
pub open spec fn failure_notice(after_systemd_retry: bool, err: Seq<char>) -> Seq<char> {
    if after_systemd_retry {
        "Disabled for this boot after repeated gateway failures."@
    } else {
        first_failure_notice(err)
    }
}

/// How a run ends whose recovery failed.
#[derive(Debug, Clone)]
pub enum FailureEnd {
    /// End well, so that nobody starts the gateway again.
    Well,
    /// End with the error of the recovery, so that the gateway is started once more.
    WithError(String),
    /// End with the error that kept the marker from being written.
    MarkerNotWritten(String),
}

/// How a run ends, as the specifications speak of it.
pub enum EndView {
    Well,
    WithError(Seq<char>),
    MarkerNotWritten(Seq<char>),
}

impl View for FailureEnd {
    type V = EndView;

    open spec fn view(&self) -> EndView {
        match *self {
            FailureEnd::Well => EndView::Well,
            FailureEnd::WithError(err) => EndView::WithError(err@),
            FailureEnd::MarkerNotWritten(err) => EndView::MarkerNotWritten(err@),
        }
    }
}

/// How far the handling of a failed recovery has come.
#[derive(Debug, Clone)]
pub enum FailureStage {
    /// Remove the capture. Whether that goes well does not matter.
    Remove(RouteTask),
    /// Clear the marker of the capture. Whether that goes well does not matter.
    Unmark,
    /// Write the marker of the failure.
    Mark,
    /// Tell the user.
    Notify,
    Ended(FailureEnd),
}

/// How far the handling has come, as the specifications speak of it.
pub enum FailureView {
    Remove(StageView),
    Unmark,
    Mark,
    Notify,
    Ended(EndView),
}

impl View for FailureStage {
    type V = FailureView;

    open spec fn view(&self) -> FailureView {
        match *self {
            FailureStage::Remove(task) => FailureView::Remove(task.stage@),
            FailureStage::Unmark => FailureView::Unmark,
            FailureStage::Mark => FailureView::Mark,
            FailureStage::Notify => FailureView::Notify,
            FailureStage::Ended(end) => FailureView::Ended(end@),
        }
    }
}

/// What came of a step.
#[derive(Debug, Clone)]
pub enum FailureEvent {
    Command(CommandOutcome),
    Unmarked,
    UnmarkFailed,
    Marked,
    MarkFailed(String),
    Notified,
}

/// What came of a step, as the specifications speak of it.
pub enum FailureEventView {
    Command(OutcomeView),
    Unmarked,
    UnmarkFailed,
    Marked,
    MarkFailed(Seq<char>),
    Notified,
}

impl View for FailureEvent {
    type V = FailureEventView;

    open spec fn view(&self) -> FailureEventView {
        match *self {
            FailureEvent::Command(outcome) => FailureEventView::Command(outcome@),
            FailureEvent::Unmarked => FailureEventView::Unmarked,
            FailureEvent::UnmarkFailed => FailureEventView::UnmarkFailed,
            FailureEvent::Marked => FailureEventView::Marked,
            FailureEvent::MarkFailed(err) => FailureEventView::MarkFailed(err@),
            FailureEvent::Notified => FailureEventView::Notified,
        }
    }
}

/// What the handling of a failed recovery wants done.
#[derive(Debug, Clone)]
pub enum FailureAction {
    /// Run `ip` with these arguments.
    Run(Vec<String>),
    /// Clear the marker of the capture.
    Unmark,
    WriteMarker(MarkerWrite),
    Notify(String),
    End(FailureEnd),
}

/// How a run ends once the user was told.
pub open spec fn planned_end(after_systemd_retry: bool, err: Seq<char>) -> EndView {
    if after_systemd_retry {
        EndView::Well
    } else {
        EndView::WithError(err)
    }
}

/// The stage after what came of a step. The removal of the capture and of its marker go on
/// whatever comes of them; a marker of the failure that cannot be written ends the run with that
/// error, and the user is not told. An event that the stage does not wait for changes nothing.
pub open spec fn failure_next(
    opts: OptionsView,
    after_systemd_retry: bool,
    err: Seq<char>,
    stage: FailureView,
    event: FailureEventView,
) -> FailureView {
    match (stage, event) {
        (FailureView::Remove(stage), FailureEventView::Command(outcome)) => {
            let next = next_stage(false, opts, stage, outcome);
            if stage_action(false, opts, next) is Run {
                FailureView::Remove(next)
            } else {
                FailureView::Unmark
            }
        },
        (FailureView::Unmark, FailureEventView::Unmarked) => FailureView::Mark,
        (FailureView::Unmark, FailureEventView::UnmarkFailed) => FailureView::Mark,
        (FailureView::Mark, FailureEventView::Marked) => FailureView::Notify,
        (FailureView::Mark, FailureEventView::MarkFailed(e)) => FailureView::Ended(
            EndView::MarkerNotWritten(e),
        ),
        (FailureView::Notify, FailureEventView::Notified) => FailureView::Ended(
            planned_end(after_systemd_retry, err),
        ),
        _ => stage,
    }
}

/// A failed recovery that is being handled.
#[derive(Debug, Clone)]
pub struct RecoveryFailure {
    /// An earlier run of this boot failed.
    pub after_systemd_retry: bool,
    pub err: String,
    pub routes: RouteOptions,
    pub stage: FailureStage,
}

/// Begins to handle a failed recovery. The first failure leaves a marker and ends with the error,
/// so that the gateway is started once more; a failure after that disables it for the boot and
/// ends well.
pub fn handle_recovery_failure(cfg: &Config, err: &str, after_systemd_retry: bool) -> (r:
    RecoveryFailure)
    ensures
        r.wf(),
        r.after_systemd_retry == after_systemd_retry,
        r.err@ == err@,
        r.routes@ == (OptionsView {
            tun_name: cfg.tun_name@,
            table_id: cfg.route_table_id,
            rule_priority: cfg.route_rule_priority,
        }),
        r.stage@ == FailureView::Remove(StageView::Routes { next: 0 }),
{
    RecoveryFailure {
        after_systemd_retry,
        err: err.to_owned(),
        routes: cfg.route_options(),
        stage: FailureStage::Remove(disable_routing(cfg)),
    }
}

impl RecoveryFailure {
    /// A removal that is under way has a command to run, and is that of the capture's routes.
    pub open spec fn wf(self) -> bool {
        match self.stage {
            FailureStage::Remove(task) => {
                &&& task.wf()
                &&& !task.install
                &&& task.opts@ == self.routes@
                &&& stage_action(false, self.routes@, task.stage@) is Run
            },
            _ => true,
        }
    }

    /// What is to be done now.
    pub fn action(&self) -> (r: FailureAction)
        requires
            self.wf(),
        ensures
            match self.stage@ {
                FailureView::Remove(stage) => r matches FailureAction::Run(args)
                    && ActionView::Run(arg_views(args@)) == stage_action(
                    false,
                    self.routes@,
                    stage,
                ),
                FailureView::Unmark => r is Unmark,
                FailureView::Mark => r matches FailureAction::WriteMarker(marker) && marker.marks(
                    failure_marker(self.after_systemd_retry),
                ),
                FailureView::Notify => r matches FailureAction::Notify(notice) && notice@
                    == failure_notice(self.after_systemd_retry, self.err@),
                FailureView::Ended(end) => r matches FailureAction::End(e) && e@ == end,
            },
    {
        match &self.stage {
            FailureStage::Remove(task) => match task.action() {
                RouteAction::Run(args) => FailureAction::Run(args),
                _ => FailureAction::Unmark,
            },
            FailureStage::Unmark => FailureAction::Unmark,
            FailureStage::Mark => FailureAction::WriteMarker(
                if self.after_systemd_retry {
                    mark_boot_disabled()
                } else {
                    mark_failed_once()
                },
            ),
            FailureStage::Notify => FailureAction::Notify(
                if self.after_systemd_retry {
                    String::from_str("Disabled for this boot after repeated gateway failures.")
                } else {
                    String::from_str("Gateway recovery failed (").concat(&self.err).concat(
                        "). Routing disabled; systemd will retry once.",
                    )
                },
            ),
            FailureStage::Ended(end) => FailureAction::End(
                match end {
                    FailureEnd::Well => FailureEnd::Well,
                    FailureEnd::WithError(err) => FailureEnd::WithError(err.clone()),
                    FailureEnd::MarkerNotWritten(err) => FailureEnd::MarkerNotWritten(err.clone()),
                },
            ),
        }
    }

    /// Takes what came of the step that `action` asked for.
    pub fn advance(self, event: FailureEvent) -> (r: RecoveryFailure)
        requires
            self.wf(),
        ensures
            r.wf(),
            r.after_systemd_retry == self.after_systemd_retry,
            r.err@ == self.err@,
            r.routes@ == self.routes@,
            r.stage@ == failure_next(
                self.routes@,
                self.after_systemd_retry,
                self.err@,
                self.stage@,
                event@,
            ),
    {
        let RecoveryFailure { after_systemd_retry, err, routes, stage } = self;
        let stage = match (stage, event) {
            (FailureStage::Remove(task), FailureEvent::Command(outcome)) => {
                let mut task = task;
                task.advance(&outcome);
                match task.action() {
                    RouteAction::Run(_) => FailureStage::Remove(task),
                    _ => FailureStage::Unmark,
                }
            },
            (FailureStage::Unmark, FailureEvent::Unmarked) => FailureStage::Mark,
            (FailureStage::Unmark, FailureEvent::UnmarkFailed) => FailureStage::Mark,
            (FailureStage::Mark, FailureEvent::Marked) => FailureStage::Notify,
            (FailureStage::Mark, FailureEvent::MarkFailed(e)) => FailureStage::Ended(
                FailureEnd::MarkerNotWritten(e),
            ),
            (FailureStage::Notify, FailureEvent::Notified) => FailureStage::Ended(
                if after_systemd_retry {
                    FailureEnd::Well
                } else {
                    FailureEnd::WithError(err.clone())
                },
            ),
            (stage, _) => stage,
        };
        RecoveryFailure { after_systemd_retry, err, routes, stage }
    }
}

/// The stage after several events.
pub open spec fn failure_through(
    opts: OptionsView,
    after_systemd_retry: bool,
    err: Seq<char>,
    stage: FailureView,
    events: Seq<FailureEventView>,
) -> FailureView
    decreases events.len(),
{
    if events.len() == 0 {
        stage
    } else {
        failure_next(
            opts,
            after_systemd_retry,
            err,
            failure_through(opts, after_systemd_retry, err, stage, events.drop_last()),
            events.last(),
        )
    }
}

/// The capture and its marker come first, and nothing that comes of removing them ends the
/// handling: it ends through the marker of the failure only. The user is told only once that marker was written, and then the
/// run ends as planned; a marker that was not written ends it with the error that writing gave.
pub proof fn lemma_failure_is_handled_in_order(
    opts: OptionsView,
    after_systemd_retry: bool,
    err: Seq<char>,
    begun: StageView,
    events: Seq<FailureEventView>,
)
    ensures
        match failure_through(
            opts,
            after_systemd_retry,
            err,
            FailureView::Remove(begun),
            events,
        ) {
            FailureView::Notify => events.contains(FailureEventView::Marked),
            FailureView::Ended(EndView::MarkerNotWritten(e)) => events.contains(
                FailureEventView::MarkFailed(e),
            ),
            FailureView::Ended(end) => end == planned_end(after_systemd_retry, err)
                && events.contains(FailureEventView::Marked) && events.contains(
                FailureEventView::Notified,
            ),
            _ => true,
        },
    decreases events.len(),
{
    if events.len() > 0 {
        let before = events.drop_last();
        lemma_failure_is_handled_in_order(opts, after_systemd_retry, err, begun, before);
        assert(events[events.len() - 1] == events.last());
        assert forall|e: FailureEventView| #[trigger] before.contains(e) implies events.contains(
            e,
        ) by {
            let i = choose|i: int| 0 <= i < before.len() && before[i] == e;
            assert(events[i] == e);
        }
    }
}

/// A stage has the event that it waits for.
pub open spec fn failure_awaits(stage: FailureView, event: FailureEventView) -> bool {
    match stage {
        FailureView::Remove(_) => event is Command,
        FailureView::Unmark => event is Unmarked || event is UnmarkFailed,
        FailureView::Mark => event is Marked || event is MarkFailed,
        FailureView::Notify => event is Notified,
        FailureView::Ended(_) => false,
    }
}

/// How many steps the handling has before it at most.
pub open spec fn failure_left(opts: OptionsView, stage: FailureView) -> nat {
    match stage {
        FailureView::Remove(stage) => 3 + commands_left(false, opts, stage),
        FailureView::Unmark => 3,
        FailureView::Mark => 2,
        FailureView::Notify => 1,
        FailureView::Ended(_) => 0,
    }
}

/// The handling ends: what comes of a step, good or bad, brings it nearer to its end.
pub proof fn lemma_failure_handling_ends(
    opts: OptionsView,
    after_systemd_retry: bool,
    err: Seq<char>,
    stage: FailureView,
    event: FailureEventView,
)
    requires
        stage matches FailureView::Remove(s) ==> stage_action(false, opts, s) is Run,
        failure_awaits(stage, event),
    ensures
        failure_left(opts, failure_next(opts, after_systemd_retry, err, stage, event))
            < failure_left(opts, stage),
{
    if let (FailureView::Remove(s), FailureEventView::Command(outcome)) = (stage, event) {
        crate::route::lemma_tasks_end(false, opts, s, outcome);
    }
}

/// The removal of the capture that a configuration describes.
pub fn disable_routing(cfg: &Config) -> (r: RouteTask)
    ensures
        r.wf(),
        !r.install,
        r.stage == (RouteStage::Routes { next: 0 }),
        r.opts@ == (OptionsView {
            tun_name: cfg.tun_name@,
            table_id: cfg.route_table_id,
            rule_priority: cfg.route_rule_priority,
        }),
{
    routes_del(&cfg.route_options())
}

/// The marker that a failed recovery leaves.
pub open spec fn failure_marker(after_systemd_retry: bool) -> Seq<char> {
    if after_systemd_retry {
        "boot-disabled"@
    } else {
        "recovery-failed-once"@
    }
}

/// The files after a run that began with `files` and whose recovery failed.
pub open spec fn files_after_failure(files: Set<Seq<char>>) -> Set<Seq<char>> {
    files.insert(
        runtime_path(failure_marker(files.contains(runtime_path("recovery-failed-once"@)))),
    )
}

/// Two failed runs in a boot disable the gateway for the rest of it, and the first alone does not.
pub proof fn lemma_second_failure_disables(files: Set<Seq<char>>)
    requires
        !files.contains(runtime_path("recovery-failed-once"@)),
        !files.contains(runtime_path("boot-disabled"@)),
    ensures
        !files_after_failure(files).contains(runtime_path("boot-disabled"@)),
        files_after_failure(files_after_failure(files)).contains(runtime_path("boot-disabled"@)),
{
    reveal_strlit("recovery-failed-once");
    reveal_strlit("boot-disabled");
    let once = runtime_path("recovery-failed-once"@);
    let disabled = runtime_path("boot-disabled"@);
    assert(once.len() == disabled.len() + 7);
}

/// A budget after several retries at these times.
pub open spec fn retried(budget: RetryBudget, times: Seq<u64>) -> RetryBudget
    decreases times.len(),
{
    if times.len() == 0 {
        budget
    } else {
        retried(budget, times.drop_last()).after(times.last())
    }
}

/// Retries are numbered without a gap and go on until the deadline, and no longer: after any number
/// of them before it the next one has the next number and is told the time left and to pause for 50
/// milliseconds, and at the deadline or later there is none. The deadline never moves.
pub proof fn lemma_retries_go_on_until_the_deadline(
    budget: RetryBudget,
    times: Seq<u64>,
    now: u64,
)
    requires
        budget.attempt + times.len() < u32::MAX,
        forall|i: int| 0 <= i < times.len() ==> (#[trigger] times[i]) < budget.deadline,
    ensures
        retried(budget, times).deadline == budget.deadline,
        retried(budget, times).attempt == budget.attempt + times.len(),
        now < budget.deadline ==> (retried(budget, times).decision(now)
            matches RetryAction::Attempt { attempt, remaining, backoff } && attempt
            == budget.attempt + times.len() + 1 && now + remaining == budget.deadline && backoff
            == 50_000_000),
        now >= budget.deadline ==> retried(budget, times).decision(now) is GiveUp
            && retried(budget, times).after(now) == retried(budget, times),
    decreases times.len(),
{
    if times.len() > 0 {
        let front = times.drop_last();
        assert(times.last() == times[times.len() - 1]);
        assert(forall|i: int| 0 <= i < front.len() ==> #[trigger] front[i] == times[i]);
        lemma_retries_go_on_until_the_deadline(budget, front, now);
    }
}

/// A marker is a file of its name in the runtime directory; a name that is a path of its own is
/// that path. Different names are different markers.
pub proof fn lemma_marker_paths(a: Seq<char>, b: Seq<char>)
    ensures
        a.len() > 0 && a[0] == '/' ==> joined(a) == a,
        a.len() == 0 || a[0] != '/' ==> joined(a) == "/run/safethrottle"@ + "/"@ + a,
        runtime_path(a) == runtime_path(b) ==> a == b,
{
    let front = "/run/safethrottle"@ + "/"@;
    assert((front + a).skip(front.len() as int) =~= a);
    assert((front + b).skip(front.len() as int) =~= b);
}

/// The user is told the error of a first failure, whatever it is, and of a later one that the
/// gateway is disabled, whatever it was.
pub proof fn lemma_notices_tell_the_error(err: Seq<char>, other: Seq<char>)
    ensures
        failure_notice(false, err) == "Gateway recovery failed ("@ + err
            + "). Routing disabled; systemd will retry once."@,
        failure_notice(true, err) == failure_notice(true, other),
        failure_notice(true, err) == "Disabled for this boot after repeated gateway failures."@,
        planned_end(false, err) == EndView::WithError(err),
        planned_end(true, err) is Well,
        failure_marker(false) == "recovery-failed-once"@,
        failure_marker(true) == "boot-disabled"@,
{
}

/// No step of handling a failure is skipped: the marker of the capture is cleared after the
/// removal, the marker of the failure is written after that was tried, the user is told after that
/// was written, and the handling ends after the user was told or when it could not be written.
pub proof fn lemma_failure_handling_skips_no_step(
    opts: OptionsView,
    after_systemd_retry: bool,
    err: Seq<char>,
    stage: FailureView,
    event: FailureEventView,
)
    ensures
        ({
            let next = failure_next(opts, after_systemd_retry, err, stage, event);
            match next {
                FailureView::Remove(s) => stage matches FailureView::Remove(before) && match event {
                    FailureEventView::Command(outcome) => s == next_stage(
                        false,
                        opts,
                        before,
                        outcome,
                    ) && stage_action(false, opts, s) is Run,
                    _ => s == before,
                },
                FailureView::Unmark => next == stage || (stage is Remove && event is Command),
                FailureView::Mark => next == stage || (stage is Unmark && (event is Unmarked
                    || event is UnmarkFailed)),
                FailureView::Notify => next == stage || (stage is Mark && event is Marked),
                FailureView::Ended(_) => {
                    ||| next == stage
                    ||| stage is Notify && event is Notified
                    ||| stage is Mark && event is MarkFailed
                },
            }
        }),
        stage is Unmark && (event is Unmarked || event is UnmarkFailed) ==> failure_next(
            opts,
            after_systemd_retry,
            err,
            stage,
            event,
        ) is Mark,
        stage is Mark && event is Marked ==> failure_next(
            opts,
            after_systemd_retry,
            err,
            stage,
            event,
        ) is Notify,
{
}

} // verus!
