//! Starting a gateway session: the uplink first, then the tunnel and its stack, then the capture
//! if the configuration asks for it.
//!
//! Commands are run and devices are opened outside. A `SessionStart` says what is next and takes
//! what came of it.

use crate::command::{arg_views, CommandOutcome, OutcomeView};
use crate::config::Config;
use crate::dial::{
    detect_uplink_iface, search_command, search_next, virtual_device, SearchView, UplinkSearch,
};
use crate::route::{
    next_stage, routes_add, stage_action, OptionsView, RouteAction, RouteOptions, RouteStage,
    RouteTask, StageView,
};
use vstd::prelude::*;
use vstd::string::StringExecFns;

verus! {

/// The largest packet of the tunnel and of the stack behind it.
pub const TUN_MTU: u16 = 1500;

/// The number of addresses whose names are remembered.
pub const DNS_CAPACITY: usize = 8192;

/// How far the start has come.
#[derive(Debug, Clone)]
pub enum StartStage {
    /// Look for the uplink.
    Search(UplinkSearch),
    /// Open the tunnel and build the stack.
    Open { uplink: String },
    /// Install the capture.
    Capture { uplink: String, task: RouteTask },
    /// Write the marker of the capture.
    Mark { uplink: String },
    /// Take connections.
    Serve { uplink: String },
    /// A command that had to run could not be started.
    NotRun,
    Failed { message: String },
}

/// How far the start has come, as the specifications speak of it.
pub enum StartView {
    Search(SearchView),
    Open { uplink: Seq<char> },
    Capture { uplink: Seq<char>, stage: StageView },
    Mark { uplink: Seq<char> },
    Serve { uplink: Seq<char> },
    NotRun,
    Failed { message: Seq<char> },
}

impl View for StartStage {
    type V = StartView;

    open spec fn view(&self) -> StartView {
        match *self {
            StartStage::Search(search) => StartView::Search(search@),
            StartStage::Open { uplink } => StartView::Open { uplink: uplink@ },
            StartStage::Capture { uplink, task } => StartView::Capture {
                uplink: uplink@,
                stage: task.stage@,
            },
            StartStage::Mark { uplink } => StartView::Mark { uplink: uplink@ },
            StartStage::Serve { uplink } => StartView::Serve { uplink: uplink@ },
            StartStage::NotRun => StartView::NotRun,
            StartStage::Failed { message } => StartView::Failed { message: message@ },
        }
    }
}

/// What came of the last step.
#[derive(Debug, Clone)]
pub enum StartEvent {
    Command(CommandOutcome),
    Opened,
    OpenFailed(String),
    Marked,
    MarkFailed(String),
}

/// What came of the last step, as the specifications speak of it.
pub enum StepView {
    Command(OutcomeView),
    Opened,
    OpenFailed(Seq<char>),
    Marked,
    MarkFailed(Seq<char>),
}

impl View for StartEvent {
    type V = StepView;

    open spec fn view(&self) -> StepView {
        match *self {
            StartEvent::Command(outcome) => StepView::Command(outcome@),
            StartEvent::Opened => StepView::Opened,
            StartEvent::OpenFailed(message) => StepView::OpenFailed(message@),
            StartEvent::Marked => StepView::Marked,
            StartEvent::MarkFailed(message) => StepView::MarkFailed(message@),
        }
    }
}

/// What the start wants done.
#[derive(Debug, Clone)]
pub enum StartAction {
    /// Run `ip` with these arguments.
    Run(Vec<String>),
    Open { uplink: String },
    MarkActive,
    Serve { uplink: String },
    /// Give up: the command that was last asked for could not be started.
    NotRun,
    /// Give up with this message.
    Fail(String),
}

/// What the start wants done, as the specifications speak of it.
pub enum WantView {
    Run(Seq<Seq<char>>),
    Open { uplink: Seq<char> },
    MarkActive,
    Serve { uplink: Seq<char> },
    NotRun,
    Fail(Seq<char>),
}

impl View for StartAction {
    type V = WantView;

    open spec fn view(&self) -> WantView {
        match *self {
            StartAction::Run(args) => WantView::Run(arg_views(args@)),
            StartAction::Open { uplink } => WantView::Open { uplink: uplink@ },
            StartAction::MarkActive => WantView::MarkActive,
            StartAction::Serve { uplink } => WantView::Serve { uplink: uplink@ },
            StartAction::NotRun => WantView::NotRun,
            StartAction::Fail(message) => WantView::Fail(message@),
        }
    }
}

/// What a stage wants done.
pub open spec fn start_want(opts: OptionsView, stage: StartView) -> WantView {
    match stage {
        StartView::Search(search) => WantView::Run(search_command(search)->0),
        StartView::Open { uplink } => WantView::Open { uplink },
        StartView::Capture { stage, .. } => WantView::Run(stage_action(true, opts, stage)->Run_0),
        StartView::Mark { .. } => WantView::MarkActive,
        StartView::Serve { uplink } => WantView::Serve { uplink },
        StartView::NotRun => WantView::NotRun,
        StartView::Failed { message } => WantView::Fail(message),
    }
}

/// The stage after a step of the search for the uplink.
pub open spec fn after_search(search: SearchView) -> StartView {
    match search {
        SearchView::Found(uplink) => StartView::Open { uplink },
        SearchView::NotRun => StartView::NotRun,
        SearchView::ListFailed => StartView::Failed { message: "ip route show default failed"@ },
        SearchView::NoneFound => StartView::Failed {
            message: "could not detect physical uplink iface"@,
        },
        other => StartView::Search(other),
    }
}

/// The stage after a step of installing the capture.
pub open spec fn after_capture(uplink: Seq<char>, stage: StageView) -> StartView {
    match stage {
        StageView::Done => StartView::Mark { uplink },
        StageView::NotRun => StartView::NotRun,
        StageView::Refused { message } => StartView::Failed { message },
        other => StartView::Capture { uplink, stage: other },
    }
}

/// The stage after what came of a step. An event that the stage does not wait for changes nothing.
pub open spec fn start_next(
    capture: bool,
    opts: OptionsView,
    stage: StartView,
    event: StepView,
) -> StartView {
    match (stage, event) {
        (StartView::Search(search), StepView::Command(outcome)) => after_search(
            search_next(search, outcome),
        ),
        (StartView::Open { uplink }, StepView::Opened) => if capture {
            StartView::Capture { uplink, stage: StageView::CheckRule }
        } else {
            StartView::Serve { uplink }
        },
        (StartView::Open { .. }, StepView::OpenFailed(message)) => StartView::Failed { message },
        (StartView::Capture { uplink, stage }, StepView::Command(outcome)) => after_capture(
            uplink,
            next_stage(true, opts, stage, outcome),
        ),
        (StartView::Mark { uplink }, StepView::Marked) => StartView::Serve { uplink },
        (StartView::Mark { .. }, StepView::MarkFailed(message)) => StartView::Failed { message },
        _ => stage,
    }
}

/// A session that is being started.
#[derive(Debug, Clone)]
pub struct SessionStart {
    /// Whether the capture is to be installed.
    pub capture: bool,
    pub routes: RouteOptions,
    pub stage: StartStage,
}

/// Begins a session: an uplink that the configuration names is taken, else one is looked for.
pub fn start(cfg: &Config) -> (r: SessionStart)
    ensures
        r.wf(),
        r.capture == cfg.default_route,
        r.routes@ == (OptionsView {
            tun_name: cfg.tun_name@,
            table_id: cfg.route_table_id,
            rule_priority: cfg.route_rule_priority,
        }),
        r.stage@ == if cfg.uplink_iface@.len() == 0 {
            StartView::Search(SearchView::Main)
        } else {
            StartView::Open { uplink: cfg.uplink_iface@ }
        },
{
    let stage = if cfg.uplink_iface.as_str().is_empty() {
        StartStage::Search(detect_uplink_iface())
    } else {
        StartStage::Open { uplink: cfg.uplink_iface.clone() }
    };
    SessionStart { capture: cfg.default_route, routes: cfg.route_options(), stage }
}

impl SessionStart {
    /// A search or an installation that is under way has a command to run, and the installation is
    /// that of the session's routes.
    pub open spec fn wf(self) -> bool {
        match self.stage {
            StartStage::Search(search) => search_command(search@) is Some,
            StartStage::Capture { task, .. } => {
                &&& task.wf()
                &&& task.install
                &&& task.opts@ == self.routes@
                &&& stage_action(true, self.routes@, task.stage@) is Run
            },
            _ => true,
        }
    }

    /// What is to be done now.
    pub fn action(&self) -> (r: StartAction)
        requires
            self.wf(),
        ensures
            r@ == start_want(self.routes@, self.stage@),
    {
        match &self.stage {
            StartStage::Search(search) => match search.command() {
                Some(args) => StartAction::Run(args),
                None => StartAction::NotRun,
            },
            StartStage::Open { uplink } => StartAction::Open { uplink: uplink.clone() },
            StartStage::Capture { task, .. } => match task.action() {
                RouteAction::Run(args) => StartAction::Run(args),
                _ => StartAction::NotRun,
            },
            StartStage::Mark { .. } => StartAction::MarkActive,
            StartStage::Serve { uplink } => StartAction::Serve { uplink: uplink.clone() },
            StartStage::NotRun => StartAction::NotRun,
            StartStage::Failed { message } => StartAction::Fail(message.clone()),
        }
    }

    /// Takes what came of the step that `action` asked for.
    pub fn advance(self, event: StartEvent) -> (r: SessionStart)
        requires
            self.wf(),
        ensures
            r.wf(),
            r.capture == self.capture,
            r.routes@ == self.routes@,
            r.stage@ == start_next(self.capture, self.routes@, self.stage@, event@),
    {
        let SessionStart { capture, routes, stage } = self;
        let stage = match (stage, event) {
            (StartStage::Search(search), StartEvent::Command(outcome)) => {
                match search.advance(&outcome) {
                    UplinkSearch::Found(uplink) => StartStage::Open { uplink },
                    UplinkSearch::NotRun => StartStage::NotRun,
                    UplinkSearch::ListFailed => StartStage::Failed {
                        message: String::from_str("ip route show default failed"),
                    },
                    UplinkSearch::NoneFound => StartStage::Failed {
                        message: String::from_str("could not detect physical uplink iface"),
                    },
                    other => StartStage::Search(other),
                }
            },
            (StartStage::Open { uplink }, StartEvent::Opened) => if capture {
                StartStage::Capture { uplink, task: routes_add(&routes) }
            } else {
                StartStage::Serve { uplink }
            },
            (StartStage::Open { .. }, StartEvent::OpenFailed(message)) => StartStage::Failed {
                message,
            },
            (StartStage::Capture { uplink, task }, StartEvent::Command(outcome)) => {
                let mut task = task;
                task.advance(&outcome);
                match task.stage {
                    RouteStage::Done => StartStage::Mark { uplink },
                    RouteStage::NotRun => StartStage::NotRun,
                    RouteStage::Refused { message } => StartStage::Failed { message },
                    stage => StartStage::Capture {
                        uplink,
                        task: RouteTask { install: task.install, opts: task.opts, stage },
                    },
                }
            },
            (StartStage::Mark { uplink }, StartEvent::Marked) => StartStage::Serve { uplink },
            (StartStage::Mark { .. }, StartEvent::MarkFailed(message)) => StartStage::Failed {
                message,
            },
            (stage, _) => stage,
        };
        SessionStart { capture, routes, stage }
    }
}

/// The stage after several events.
pub open spec fn start_through(
    capture: bool,
    opts: OptionsView,
    stage: StartView,
    events: Seq<StepView>,
) -> StartView
    decreases events.len(),
{
    if events.len() == 0 {
        stage
    } else {
        start_next(
            capture,
            opts,
            start_through(capture, opts, stage, events.drop_last()),
            events.last(),
        )
    }
}

/// Whatever happens, a session whose configuration does not ask for the capture leaves the routes
/// alone: its start never installs the capture and never writes its marker.
pub proof fn lemma_no_capture_unasked(opts: OptionsView, stage: StartView, events: Seq<StepView>)
    requires
        stage is Search || stage is Open,
    ensures
        !(start_through(false, opts, stage, events) is Capture),
        !(start_through(false, opts, stage, events) is Mark),
    decreases events.len(),
{
    if events.len() > 0 {
        lemma_no_capture_unasked(opts, stage, events.drop_last());
    }
}

/// A stage whose uplink, if it has one, satisfies what a found uplink satisfies.
spec fn uplink_physical(stage: StartView) -> bool {
    match stage {
        StartView::Search(search) => search is Main || search is Any,
        StartView::Open { uplink } => !virtual_device(uplink),
        StartView::Capture { uplink, .. } => !virtual_device(uplink),
        StartView::Mark { uplink } => !virtual_device(uplink),
        StartView::Serve { uplink } => !virtual_device(uplink),
        _ => true,
    }
}

proof fn lemma_uplink_stays_physical(
    capture: bool,
    opts: OptionsView,
    events: Seq<StepView>,
)
    ensures
        uplink_physical(
            start_through(capture, opts, StartView::Search(SearchView::Main), events),
        ),
    decreases events.len(),
{
    if events.len() > 0 {
        lemma_uplink_stays_physical(capture, opts, events.drop_last());
        let before = start_through(
            capture,
            opts,
            StartView::Search(SearchView::Main),
            events.drop_last(),
        );
        match (before, events.last()) {
            (StartView::Search(search), StepView::Command(outcome)) => {
                crate::dial::lemma_uplink_is_physical(search, outcome);
            },
            _ => {},
        }
    }
}

/// A session that had to look for its uplink never takes connections over a virtual device.
pub proof fn lemma_found_uplink_is_physical(
    capture: bool,
    opts: OptionsView,
    events: Seq<StepView>,
)
    ensures
        start_through(capture, opts, StartView::Search(SearchView::Main), events) matches
            StartView::Serve { uplink } ==> !virtual_device(uplink),
{
    lemma_uplink_stays_physical(capture, opts, events);
}

/// Why the stack of a session ended.
#[derive(Debug, Clone)]
pub enum RunnerEnd {
    Exited,
    IoError(String),
    Panicked(String),
    /// The stack came without a runner.
    Missing,
    /// Nobody is left to say why.
    SignalLost,
}

/// The message of a crash.
pub open spec fn crash_text(end: RunnerEnd) -> Seq<char> {
    match end {
        RunnerEnd::Exited => "smoltcp stack runner exited"@,
        RunnerEnd::IoError(err) => "smoltcp stack runner I/O error: "@ + err@,
        RunnerEnd::Panicked(message) => "smoltcp stack runner panicked: "@ + message@,
        RunnerEnd::Missing => "smoltcp stack runner missing"@,
        RunnerEnd::SignalLost => "crash signal channel closed"@,
    }
}

/// The message of a crash.
pub fn crash_message(end: &RunnerEnd) -> (r: String)
    ensures
        r@ == crash_text(*end),
{
    match end {
        RunnerEnd::Exited => String::from_str("smoltcp stack runner exited"),
        RunnerEnd::IoError(err) => String::from_str("smoltcp stack runner I/O error: ").concat(err),
        RunnerEnd::Panicked(message) => String::from_str(
            "smoltcp stack runner panicked: ",
        ).concat(message),
        RunnerEnd::Missing => String::from_str("smoltcp stack runner missing"),
        RunnerEnd::SignalLost => String::from_str("crash signal channel closed"),
    }
}

/// What became of the uplink of a session that began with one.
spec fn uplink_kept(stage: StartView, uplink: Seq<char>) -> bool {
    match stage {
        StartView::Search(_) => false,
        StartView::Open { uplink: u } => u == uplink,
        StartView::Capture { uplink: u, .. } => u == uplink,
        StartView::Mark { uplink: u } => u == uplink,
        StartView::Serve { uplink: u } => u == uplink,
        _ => true,
    }
}

/// A session serves over the uplink that it began with, after the tunnel was opened, and, if the
/// capture is asked for, only after that was marked as active.
pub proof fn lemma_sessions_serve_when_all_is_done(
    capture: bool,
    opts: OptionsView,
    uplink: Seq<char>,
    events: Seq<StepView>,
)
    ensures
        ({
            let end = start_through(capture, opts, StartView::Open { uplink }, events);
            &&& end is Serve ==> end->Serve_uplink == uplink
            &&& end is Serve ==> events.contains(StepView::Opened)
            &&& end is Serve && capture ==> events.contains(StepView::Marked)
            &&& end is Capture || end is Mark ==> capture && events.contains(StepView::Opened)
        }),
{
    lemma_uplink_is_kept(capture, opts, uplink, events);
}

proof fn lemma_uplink_is_kept(
    capture: bool,
    opts: OptionsView,
    uplink: Seq<char>,
    events: Seq<StepView>,
)
    ensures
        ({
            let end = start_through(capture, opts, StartView::Open { uplink }, events);
            &&& uplink_kept(end, uplink)
            &&& end is Capture || end is Mark ==> capture && events.contains(StepView::Opened)
            &&& end is Serve ==> events.contains(StepView::Opened) && (capture ==> events.contains(
                StepView::Marked,
            ))
        }),
    decreases events.len(),
{
    if events.len() > 0 {
        let before = events.drop_last();
        lemma_uplink_is_kept(capture, opts, uplink, before);
        assert(events[events.len() - 1] == events.last());
        assert forall|e: StepView| #[trigger] before.contains(e) implies events.contains(e) by {
            let i = choose|i: int| 0 <= i < before.len() && before[i] == e;
            assert(events[i] == e);
        }
    }
}

/// A session goes its way, whatever the messages and the device are: a device that was found is
/// opened, an open tunnel is captured if that is asked for and served at once otherwise, a capture
/// that is installed is marked, and then it is served. What fails ends the start with its message.
pub proof fn lemma_sessions_go_their_way(
    capture: bool,
    opts: OptionsView,
    uplink: Seq<char>,
    message: Seq<char>,
    search: SearchView,
    stage: StageView,
    outcome: OutcomeView,
)
    ensures
        ({
            let after = |s: StartView, e: StepView| start_next(capture, opts, s, e);
            let open = StartView::Open { uplink };
            let mark = StartView::Mark { uplink };
            let found = search_next(search, outcome);
            let searched = after(StartView::Search(search), StepView::Command(outcome));
            let installed = next_stage(true, opts, stage, outcome);
            let captured = after(StartView::Capture { uplink, stage }, StepView::Command(outcome));
            &&& after(open, StepView::Opened) == if capture {
                StartView::Capture { uplink, stage: StageView::CheckRule }
            } else {
                StartView::Serve { uplink }
            }
            &&& after(open, StepView::OpenFailed(message)) == (StartView::Failed { message })
            &&& after(mark, StepView::Marked) == (StartView::Serve { uplink })
            &&& after(mark, StepView::MarkFailed(message)) == (StartView::Failed { message })
            &&& found matches SearchView::Found(d) ==> searched == (StartView::Open { uplink: d })
            &&& found is Main || found is Any ==> searched == StartView::Search(found)
            &&& found is NotRun ==> searched is NotRun
            &&& found is ListFailed || found is NoneFound ==> searched is Failed
            &&& installed is Done ==> captured == mark
            &&& installed is NotRun ==> captured is NotRun
            &&& installed matches StageView::Refused { message: m } ==> captured
                == (StartView::Failed { message: m })
            &&& stage_action(true, opts, installed) is Run ==> captured == (StartView::Capture {
                uplink,
                stage: installed,
            })
        }),
{
}

/// A crash is told with its reason, whatever that is.
pub proof fn lemma_crashes_tell_their_reason(reason: String)
    ensures
        crash_text(RunnerEnd::IoError(reason)) == "smoltcp stack runner I/O error: "@ + reason@,
        crash_text(RunnerEnd::Panicked(reason)) == "smoltcp stack runner panicked: "@ + reason@,
        crash_text(RunnerEnd::Exited) == "smoltcp stack runner exited"@,
        crash_text(RunnerEnd::Missing) == "smoltcp stack runner missing"@,
        crash_text(RunnerEnd::SignalLost) == "crash signal channel closed"@,
{
}

/// A start asks for what its stage needs, with the device and the message that it has.
pub proof fn lemma_sessions_ask_for_what_they_need(
    opts: OptionsView,
    text: Seq<char>,
    search: SearchView,
    stage: StageView,
)
    ensures
        start_want(opts, StartView::Open { uplink: text }) == (WantView::Open { uplink: text }),
        start_want(opts, StartView::Serve { uplink: text }) == (WantView::Serve { uplink: text }),
        start_want(opts, StartView::Mark { uplink: text }) is MarkActive,
        start_want(opts, StartView::NotRun) is NotRun,
        start_want(opts, StartView::Failed { message: text }) == WantView::Fail(text),
        search_command(search) matches Some(args) ==> start_want(opts, StartView::Search(search))
            == WantView::Run(args),
        stage_action(true, opts, stage) is Run ==> start_want(
            opts,
            StartView::Capture { uplink: text, stage },
        ) == WantView::Run(stage_action(true, opts, stage)->Run_0),
{
}

} // verus!
