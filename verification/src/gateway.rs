//! A run of the gateway: when to start, to start again after a failure, and to give up.
//!
//! Sessions are started and watched outside. A `GatewayRun` says what is to be done next and takes
//! what happened.

use crate::command::arg_views;
use crate::recovery::{
    is_boot_disabled, is_failed_once, retry_start_within_budget, runtime_path, RetryAction,
    RetryBudget, RECOVERY_BUDGET, RESTART_BACKOFF,
};
use vstd::prelude::*;
use vstd::string::StringExecFns;

verus! {

/// How far a run of the gateway has come.
#[derive(Debug, Clone)]
pub enum RunStage {
    /// Disabled for this boot.
    Stopped,
    /// The first start is under way.
    Starting,
    /// Starting again after a failed start or a crash, which gave this error.
    Retrying { budget: RetryBudget, err: String },
    Running,
    /// The retries are used up.
    Failed { err: String },
}

/// How far a run has come, as the specifications speak of it.
pub enum RunView {
    Stopped,
    Starting,
    Retrying { budget: RetryBudget, err: Seq<char> },
    Running,
    Failed { err: Seq<char> },
}

impl View for RunStage {
    type V = RunView;

    open spec fn view(&self) -> RunView {
        match *self {
            RunStage::Stopped => RunView::Stopped,
            RunStage::Starting => RunView::Starting,
            RunStage::Retrying { budget, err } => RunView::Retrying { budget, err: err@ },
            RunStage::Running => RunView::Running,
            RunStage::Failed { err } => RunView::Failed { err: err@ },
        }
    }
}

/// What happened to the gateway's stack.
#[derive(Debug, Clone)]
pub enum RunEvent {
    Started,
    StartFailed(String),
    Crashed(String),
}

/// What happened to the stack, as the specifications speak of it.
pub enum EventView {
    Started,
    StartFailed(Seq<char>),
    Crashed(Seq<char>),
}

impl View for RunEvent {
    type V = EventView;

    open spec fn view(&self) -> EventView {
        match *self {
            RunEvent::Started => EventView::Started,
            RunEvent::StartFailed(err) => EventView::StartFailed(err@),
            RunEvent::Crashed(err) => EventView::Crashed(err@),
        }
    }
}

/// What a run does next.
#[derive(Debug, Clone)]
pub enum RunAction {
    /// Tell the user and end well.
    StayStopped { notice: String },
    Start,
    /// Sleep for the pause, then start: the number of this retry, and when no other one begins.
    PauseAndStart { pause: u64, attempt: u32, deadline: u64 },
    AwaitCrash,
    /// Handle the failed recovery.
    GiveUp { err: String, after_systemd_retry: bool },
}

/// The first retry after an error at `now`.
pub open spec fn first_retry(err: Seq<char>, now: u64) -> RunView {
    RunView::Retrying {
        budget: RetryBudget { deadline: (now + RECOVERY_BUDGET) as u64, attempt: 1 },
        err,
    }
}

/// The stage after an event at `now`. A start that failed, or a crash, begins the retries; they
/// end with a start that went well or with the budget, and then the error that began them stands.
/// An event that the stage does not wait for changes nothing.
pub open spec fn run_next(stage: RunView, event: EventView, now: u64) -> RunView {
    match (stage, event) {
        (RunView::Starting, EventView::Started) => RunView::Running,
        (RunView::Starting, EventView::StartFailed(err)) => first_retry(err, now),
        (RunView::Retrying { .. }, EventView::Started) => RunView::Running,
        (RunView::Retrying { budget, err }, EventView::StartFailed(_)) => if now < budget.deadline {
            RunView::Retrying { budget: budget.after(now), err }
        } else {
            RunView::Failed { err }
        },
        (RunView::Running, EventView::Crashed(err)) => first_retry(err, now),
        _ => stage,
    }
}

/// A run of the gateway.
#[derive(Debug, Clone)]
pub struct GatewayRun {
    /// An earlier run of this boot failed.
    pub after_systemd_retry: bool,
    pub stage: RunStage,
}

/// Begins a run, given the marker files that were found: it stays stopped if an earlier failure
/// disabled the gateway for this boot.
pub fn run(found: &Vec<String>) -> (r: GatewayRun)
    ensures
        r.after_systemd_retry == arg_views(found@).contains(runtime_path("recovery-failed-once"@)),
        r.stage@ == if arg_views(found@).contains(runtime_path("boot-disabled"@)) {
            RunView::Stopped
        } else {
            RunView::Starting
        },
{
    let stage = if is_boot_disabled(found) {
        RunStage::Stopped
    } else {
        RunStage::Starting
    };
    GatewayRun { after_systemd_retry: is_failed_once(found), stage }
}

fn begin_retries(err: String, now: u64) -> (r: RunStage)
    requires
        now + RECOVERY_BUDGET <= u64::MAX,
    ensures
        r@ == first_retry(err@, now),
{
    let mut budget = retry_start_within_budget(now, RECOVERY_BUDGET);
    budget.next(now);
    RunStage::Retrying { budget, err }
}

impl GatewayRun {
    /// What the run does next.
    pub fn action(&self) -> (r: RunAction)
        ensures
            match self.stage {
                RunStage::Stopped => r matches RunAction::StayStopped { notice } && notice@
                    == "Still disabled for this boot after earlier gateway failures."@,
                RunStage::Starting => r is Start,
                RunStage::Retrying { budget, .. } => r == (RunAction::PauseAndStart {
                    pause: RESTART_BACKOFF,
                    attempt: budget.attempt,
                    deadline: budget.deadline,
                }),
                RunStage::Running => r is AwaitCrash,
                RunStage::Failed { err } => r matches RunAction::GiveUp {
                    err: e,
                    after_systemd_retry,
                } && e@ == err@ && after_systemd_retry == self.after_systemd_retry,
            },
    {
        match &self.stage {
            RunStage::Stopped => RunAction::StayStopped {
                notice: String::from_str(
                    "Still disabled for this boot after earlier gateway failures.",
                ),
            },
            RunStage::Starting => RunAction::Start,
            RunStage::Retrying { budget, .. } => RunAction::PauseAndStart {
                pause: RESTART_BACKOFF,
                attempt: budget.attempt,
                deadline: budget.deadline,
            },
            RunStage::Running => RunAction::AwaitCrash,
            RunStage::Failed { err } => RunAction::GiveUp {
                err: err.clone(),
                after_systemd_retry: self.after_systemd_retry,
            },
        }
    }

    /// Takes what happened at `now`.
    pub fn advance(self, event: RunEvent, now: u64) -> (r: GatewayRun)
        requires
            now + RECOVERY_BUDGET <= u64::MAX,
            self.stage matches RunStage::Retrying { budget, .. } ==> budget.attempt < u32::MAX,
        ensures
            r.after_systemd_retry == self.after_systemd_retry,
            r.stage@ == run_next(self.stage@, event@, now),
    {
        let after_systemd_retry = self.after_systemd_retry;
        let stage = match (self.stage, event) {
            (RunStage::Starting, RunEvent::Started) => RunStage::Running,
            (RunStage::Starting, RunEvent::StartFailed(err)) => begin_retries(err, now),
            (RunStage::Retrying { .. }, RunEvent::Started) => RunStage::Running,
            (RunStage::Retrying { budget, err }, RunEvent::StartFailed(_)) => {
                let mut budget = budget;
                match budget.next(now) {
                    RetryAction::Attempt { .. } => RunStage::Retrying { budget, err },
                    RetryAction::GiveUp => RunStage::Failed { err },
                }
            },
            (RunStage::Running, RunEvent::Crashed(err)) => begin_retries(err, now),
            (stage, _) => stage,
        };
        GatewayRun { after_systemd_retry, stage }
    }
}

/// The stage after several events, each with its time.
pub open spec fn run_through(stage: RunView, events: Seq<(EventView, u64)>) -> RunView
    decreases events.len(),
{
    if events.len() == 0 {
        stage
    } else {
        run_next(run_through(stage, events.drop_last()), events.last().0, events.last().1)
    }
}

/// Failing starts keep the error that began the retries: whether the run still retries or gave
/// up, that is the one it reports.
pub proof fn lemma_first_error_stands(
    budget: RetryBudget,
    err: Seq<char>,
    events: Seq<(EventView, u64)>,
)
    requires
        forall|i: int| 0 <= i < events.len() ==> (#[trigger] events[i]).0 is StartFailed,
    ensures
        match run_through(RunView::Retrying { budget, err }, events) {
            RunView::Retrying { budget: b, err: e } => e == err && b.deadline == budget.deadline,
            RunView::Failed { err: e } => e == err,
            _ => false,
        },
    decreases events.len(),
{
    if events.len() > 0 {
        lemma_first_error_stands(budget, err, events.drop_last());
        assert(events.last().0 is StartFailed);
    }
}

/// A start that fails at the deadline or later ends the run, whatever failed before it.
pub proof fn lemma_budget_ends_the_run(
    budget: RetryBudget,
    err: Seq<char>,
    events: Seq<(EventView, u64)>,
)
    requires
        events.len() > 0,
        forall|i: int| 0 <= i < events.len() ==> (#[trigger] events[i]).0 is StartFailed,
        events.last().1 >= budget.deadline,
    ensures
        run_through(RunView::Retrying { budget, err }, events) == (RunView::Failed { err }),
{
    lemma_first_error_stands(budget, err, events.drop_last());
    assert(events.last().0 is StartFailed);
}

/// A run that is stopped or has given up does nothing more.
pub proof fn lemma_ended_runs_stay(stage: RunView, events: Seq<(EventView, u64)>)
    requires
        stage is Stopped || stage is Failed,
    ensures
        run_through(stage, events) == stage,
    decreases events.len(),
{
    if events.len() > 0 {
        lemma_ended_runs_stay(stage, events.drop_last());
    }
}

/// A run goes its way, whatever the times and errors are: a start that goes well runs, one that
/// fails is retried for five seconds, and so is a crash, from then on and with its own error; a
/// retry that goes well runs again, one that fails is followed by the next while there is time, and
/// by giving up with the first error otherwise.
pub proof fn lemma_runs_go_their_way(
    err: Seq<char>,
    other: Seq<char>,
    budget: RetryBudget,
    now: u64,
)
    requires
        now + 5_000_000_000 <= u64::MAX,
        budget.attempt < u32::MAX,
    ensures
        ({
            let retrying = RunView::Retrying { budget, err };
            let again = RunView::Retrying {
                budget: RetryBudget { deadline: (now + 5_000_000_000) as u64, attempt: 1 },
                err,
            };
            &&& run_next(RunView::Starting, EventView::Started, now) is Running
            &&& run_next(RunView::Starting, EventView::StartFailed(err), now) == again
            &&& run_next(RunView::Running, EventView::Crashed(err), now) == again
            &&& run_next(retrying, EventView::Started, now) is Running
            &&& now < budget.deadline ==> run_next(retrying, EventView::StartFailed(other), now)
                == (RunView::Retrying {
                budget: RetryBudget {
                    deadline: budget.deadline,
                    attempt: (budget.attempt + 1) as u32,
                },
                err,
            })
            &&& now >= budget.deadline ==> run_next(retrying, EventView::StartFailed(other), now)
                == (RunView::Failed { err })
        }),
{
}

/// No step of a run is skipped: it runs only after a start that went well, retries only after a
/// failed start or a crash, and gives up only from a retry that failed.
pub proof fn lemma_runs_skip_no_step(stage: RunView, event: EventView, now: u64)
    ensures
        ({
            let next = run_next(stage, event, now);
            match next {
                RunView::Stopped => stage is Stopped,
                RunView::Starting => stage is Starting,
                RunView::Running => next == stage || (event is Started && (stage is Starting
                    || stage is Retrying)),
                RunView::Retrying { .. } => {
                    ||| next == stage
                    ||| event is StartFailed && (stage is Starting || stage is Retrying)
                    ||| event is Crashed && stage is Running
                },
                RunView::Failed { .. } => next == stage || (event is StartFailed
                    && stage is Retrying),
            }
        }),
{
}

} // verus!
