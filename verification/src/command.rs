//! Commands that are run outside, and what comes back of them.

use vstd::prelude::*;

verus! {

/// What came of running a command.
#[derive(Debug, Clone)]
pub enum CommandOutcome {
    /// It could not be started.
    NotRun,
    /// It ran: whether it reported success, and what it wrote.
    Exited { success: bool, stdout: String, stderr: String },
}

/// What came of running a command, as the specifications speak of it.
pub enum OutcomeView {
    NotRun,
    Exited { success: bool, stdout: Seq<char>, stderr: Seq<char> },
}

impl View for CommandOutcome {
    type V = OutcomeView;

    open spec fn view(&self) -> OutcomeView {
        match *self {
            CommandOutcome::NotRun => OutcomeView::NotRun,
            CommandOutcome::Exited { success, stdout, stderr } => OutcomeView::Exited {
                success,
                stdout: stdout@,
                stderr: stderr@,
            },
        }
    }
}

/// The arguments of a command.
pub open spec fn arg_views(args: Seq<String>) -> Seq<Seq<char>> {
    args.map_values(|a: String| a@)
}

/// Adds an argument.
pub fn add_arg(args: &mut Vec<String>, arg: &str)
    ensures
        arg_views(final(args)@) == arg_views(old(args)@).push(arg@),
{
    args.push(arg.to_owned());
    assert(arg_views(args@) =~= arg_views(old(args)@).push(arg@));
}

} // verus!
