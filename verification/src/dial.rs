//! Finds the physical uplink that outbound connections are bound to, so that their packets never
//! come back into the tunnel.

use crate::command::{add_arg, arg_views, CommandOutcome, OutcomeView};
use crate::text::{
    begins, chars_of, lines, lines_of, same, starts_with, string_of, texts, words, words_of,
};
use vstd::prelude::*;

verus! {

/// The word behind the first `dev` among words.
pub open spec fn device_in(words: Seq<Seq<char>>) -> Option<Seq<char>>
    decreases words.len(),
{
    if words.len() == 0 {
        None
    } else if words[0] == "dev"@ {
        if words.len() > 1 {
            Some(words[1])
        } else {
            None
        }
    } else {
        device_in(words.drop_first())
    }
}

/// The device that a route listing names first.
pub open spec fn named_device(text: Seq<char>) -> Option<Seq<char>> {
    device_in(words_of(text))
}

/// Loopback, tunnel and overlay devices, which are no way out.
pub open spec fn virtual_device(dev: Seq<char>) -> bool {
    ||| dev == "lo"@
    ||| begins(dev, "tailscale"@)
    ||| begins(dev, "safethrottle"@)
    ||| begins(dev, "tun"@)
    ||| begins(dev, "wg"@)
}

/// The physical device that a route listing names first, if it names one first.
pub open spec fn physical_device(text: Seq<char>) -> Option<Seq<char>> {
    match named_device(text) {
        Some(dev) => if virtual_device(dev) {
            None
        } else {
            Some(dev)
        },
        None => None,
    }
}

/// The device of the first line that names a physical one.
pub open spec fn first_physical(lines: Seq<Seq<char>>) -> Option<Seq<char>>
    decreases lines.len(),
{
    if lines.len() == 0 {
        None
    } else if physical_device(lines[0]) is Some {
        physical_device(lines[0])
    } else {
        first_physical(lines.drop_first())
    }
}

/// The device named behind the first `dev` of a route listing.
pub fn parse_dev(text: &str) -> (r: Option<String>)
    ensures
        match r {
            Some(dev) => named_device(text@) == Some(dev@),
            None => named_device(text@) is None,
        },
{
    let all = words(&chars_of(text));
    let dev = chars_of("dev");
    let ghost w = words_of(text@);
    assert(w.skip(0) =~= w);
    let mut i: usize = 0;
    while i < all.len()
        invariant
            i <= all@.len(),
            w == texts(all@),
            w == words_of(text@),
            dev@ == "dev"@,
            device_in(w) == device_in(w.skip(i as int)),
        decreases all@.len() - i,
    {
        let ghost rest = w.skip(i as int);
        assert(rest[0] == all@[i as int]@);
        if same(&all[i], &dev) {
            if i + 1 < all.len() {
                assert(rest[1] == all@[i + 1]@);
                return Some(string_of(&all[i + 1]));
            }
            return None;
        }
        assert(rest.drop_first() =~= w.skip(i + 1));
        i += 1;
    }
    None
}

/// Whether a device is a loopback, tunnel or overlay device.
pub fn is_virtual_uplink(dev: &str) -> (r: bool)
    ensures
        r == virtual_device(dev@),
{
    let name = chars_of(dev);
    same(&name, &chars_of("lo")) || starts_with(&name, &chars_of("tailscale")) || starts_with(
        &name,
        &chars_of("safethrottle"),
    ) || starts_with(&name, &chars_of("tun")) || starts_with(&name, &chars_of("wg"))
}

/// The physical device that a route listing names first, if it names one first.
pub fn physical_dev(text: &str) -> (r: Option<String>)
    ensures
        match r {
            Some(dev) => physical_device(text@) == Some(dev@),
            None => physical_device(text@) is None,
        },
{
    match parse_dev(text) {
        Some(dev) => if is_virtual_uplink(&dev) {
            None
        } else {
            Some(dev)
        },
        None => None,
    }
}

/// The device of the first line of a route listing that names a physical one.
pub fn first_physical_dev(text: &str) -> (r: Option<String>)
    ensures
        match r {
            Some(dev) => first_physical(lines_of(text@)) == Some(dev@),
            None => first_physical(lines_of(text@)) is None,
        },
{
    let all = lines(&chars_of(text));
    let ghost l = lines_of(text@);
    assert(l.skip(0) =~= l);
    let mut i: usize = 0;
    while i < all.len()
        invariant
            i <= all@.len(),
            l == texts(all@),
            l == lines_of(text@),
            first_physical(l) == first_physical(l.skip(i as int)),
        decreases all@.len() - i,
    {
        let line = string_of(&all[i]);
        assert(l.skip(i as int)[0] == line@);
        match physical_dev(&line) {
            Some(dev) => {
                return Some(dev);
            },
            None => {},
        }
        assert(l.skip(i as int).drop_first() =~= l.skip(i + 1));
        i += 1;
    }
    None
}

/// How far the search for the uplink has come.
#[derive(Debug, Clone)]
pub enum UplinkSearch {
    /// Ask for the default route of the main table.
    Main,
    /// Ask for the default routes of any table.
    Any,
    Found(String),
    /// A command could not be started.
    NotRun,
    /// The default routes could not be listed.
    ListFailed,
    /// No default route leaves through a physical device.
    NoneFound,
}

/// How far the search has come, as the specifications speak of it.
pub enum SearchView {
    Main,
    Any,
    Found(Seq<char>),
    NotRun,
    ListFailed,
    NoneFound,
}

impl View for UplinkSearch {
    type V = SearchView;

    open spec fn view(&self) -> SearchView {
        match *self {
            UplinkSearch::Main => SearchView::Main,
            UplinkSearch::Any => SearchView::Any,
            UplinkSearch::Found(dev) => SearchView::Found(dev@),
            UplinkSearch::NotRun => SearchView::NotRun,
            UplinkSearch::ListFailed => SearchView::ListFailed,
            UplinkSearch::NoneFound => SearchView::NoneFound,
        }
    }
}

/// The arguments of `ip` that a search wants run.
pub open spec fn search_command(search: SearchView) -> Option<Seq<Seq<char>>> {
    match search {
        SearchView::Main => Some(
            seq!["-4"@, "route"@, "show"@, "table"@, "main"@, "default"@],
        ),
        SearchView::Any => Some(seq!["-4"@, "route"@, "show"@, "default"@]),
        _ => None,
    }
}

/// Where a search stands after the outcome of its command. The main table is asked first; what it
/// names first counts unless that is a virtual device. Else the first physical default route of
/// any table is taken.
pub open spec fn search_next(search: SearchView, outcome: OutcomeView) -> SearchView {
    match search {
        SearchView::Main => match outcome {
            OutcomeView::NotRun => SearchView::NotRun,
            OutcomeView::Exited { success, stdout, .. } => if success && physical_device(
                stdout,
            ) is Some {
                SearchView::Found(physical_device(stdout)->0)
            } else {
                SearchView::Any
            },
        },
        SearchView::Any => match outcome {
            OutcomeView::NotRun => SearchView::NotRun,
            OutcomeView::Exited { success, stdout, .. } => if !success {
                SearchView::ListFailed
            } else if first_physical(lines_of(stdout)) is Some {
                SearchView::Found(first_physical(lines_of(stdout))->0)
            } else {
                SearchView::NoneFound
            },
        },
        other => other,
    }
}

/// Begins the search for the uplink.
pub fn detect_uplink_iface() -> (r: UplinkSearch)
    ensures
        r@ == SearchView::Main,
{
    UplinkSearch::Main
}

impl UplinkSearch {
    /// The arguments of `ip` to be run now, or nothing when the search is over.
    pub fn command(&self) -> (r: Option<Vec<String>>)
        ensures
            match r {
                Some(args) => search_command(self@) == Some(arg_views(args@)),
                None => search_command(self@) is None,
            },
    {
        let mut args: Vec<String> = Vec::new();
        match self {
            UplinkSearch::Main => {
                add_arg(&mut args, "-4");
                add_arg(&mut args, "route");
                add_arg(&mut args, "show");
                add_arg(&mut args, "table");
                add_arg(&mut args, "main");
                add_arg(&mut args, "default");
                assert(arg_views(args@) =~= search_command(self@)->0);
                Some(args)
            },
            UplinkSearch::Any => {
                add_arg(&mut args, "-4");
                add_arg(&mut args, "route");
                add_arg(&mut args, "show");
                add_arg(&mut args, "default");
                assert(arg_views(args@) =~= search_command(self@)->0);
                Some(args)
            },
            _ => None,
        }
    }

    /// Takes the outcome of the command.
    pub fn advance(self, outcome: &CommandOutcome) -> (r: UplinkSearch)
        ensures
            r@ == search_next(self@, outcome@),
    {
        match self {
            UplinkSearch::Main => match outcome {
                CommandOutcome::NotRun => UplinkSearch::NotRun,
                CommandOutcome::Exited { success, stdout, .. } => {
                    if *success {
                        match physical_dev(stdout) {
                            Some(dev) => {
                                return UplinkSearch::Found(dev);
                            },
                            None => {},
                        }
                    }
                    UplinkSearch::Any
                },
            },
            UplinkSearch::Any => match outcome {
                CommandOutcome::NotRun => UplinkSearch::NotRun,
                CommandOutcome::Exited { success, stdout, .. } => {
                    if !*success {
                        return UplinkSearch::ListFailed;
                    }
                    match first_physical_dev(stdout) {
                        Some(dev) => UplinkSearch::Found(dev),
                        None => UplinkSearch::NoneFound,
                    }
                },
            },
            other => other,
        }
    }
}

proof fn lemma_first_physical(lines: Seq<Seq<char>>)
    ensures
        first_physical(lines) matches Some(dev) ==> !virtual_device(dev),
    decreases lines.len(),
{
    if lines.len() > 0 {
        lemma_first_physical(lines.drop_first());
    }
}

/// A virtual device is never taken for the uplink.
pub proof fn lemma_uplink_is_physical(search: SearchView, outcome: OutcomeView)
    requires
        !(search is Found),
    ensures
        search_next(search, outcome) matches SearchView::Found(dev) ==> !virtual_device(dev),
{
    if let OutcomeView::Exited { stdout, .. } = outcome {
        lemma_first_physical(lines_of(stdout));
    }
}

/// The search is over after two commands.
pub proof fn lemma_search_ends(first: OutcomeView, second: OutcomeView)
    ensures
        search_command(search_next(search_next(SearchView::Main, first), second)) is None,
{
}

/// The device is the word behind the first `dev`: with that word somewhere, whatever stands before
/// and behind it, the next word is taken, and without it, or with nothing behind it, there is none.
pub proof fn lemma_device_is_behind_the_first_dev(
    before: Seq<Seq<char>>,
    device: Seq<char>,
    after: Seq<Seq<char>>,
)
    requires
        forall|i: int| 0 <= i < before.len() ==> #[trigger] before[i] != "dev"@,
    ensures
        device_in(before + seq!["dev"@, device] + after) == Some(device),
        device_in(before + seq!["dev"@]) is None,
        device_in(before) is None,
    decreases before.len(),
{
    let all = before + seq!["dev"@, device] + after;
    let cut = before + seq!["dev"@];
    if before.len() == 0 {
        assert(all[0] == "dev"@ && all[1] == device);
        assert(cut[0] == "dev"@);
    } else {
        let rest = before.drop_first();
        assert(forall|i: int| 0 <= i < rest.len() ==> #[trigger] rest[i] == before[i + 1]);
        lemma_device_is_behind_the_first_dev(rest, device, after);
        assert(all[0] == before[0] && cut[0] == before[0]);
        assert(all.drop_first() =~= rest + seq!["dev"@, device] + after);
        assert(cut.drop_first() =~= rest + seq!["dev"@]);
    }
}

/// A device is virtual exactly when it is the loopback device or its name begins like that of an
/// overlay, of this gateway, of a tunnel or of WireGuard, however it goes on.
pub proof fn lemma_virtual_devices(dev: Seq<char>)
    ensures
        virtual_device(dev) <==> {
            ||| dev == "lo"@
            ||| exists|rest: Seq<char>| dev == #[trigger] ("tailscale"@ + rest)
            ||| exists|rest: Seq<char>| dev == #[trigger] ("safethrottle"@ + rest)
            ||| exists|rest: Seq<char>| dev == #[trigger] ("tun"@ + rest)
            ||| exists|rest: Seq<char>| dev == #[trigger] ("wg"@ + rest)
        },
{
    crate::text::lemma_parts_of_a_text(dev, "tailscale"@);
    crate::text::lemma_parts_of_a_text(dev, "safethrottle"@);
    crate::text::lemma_parts_of_a_text(dev, "tun"@);
    crate::text::lemma_parts_of_a_text(dev, "wg"@);
}

/// The first physical device: that of a line that names one, where no line before it does; and none
/// only if no line does. A line names one if the device it names is not virtual.
pub proof fn lemma_first_physical_line(lines: Seq<Seq<char>>)
    ensures
        match first_physical(lines) {
            Some(dev) => exists|i: int|
                {
                    &&& 0 <= i < lines.len()
                    &&& named_device(#[trigger] lines[i]) == Some(dev)
                    &&& !virtual_device(dev)
                    &&& forall|j: int|
                        0 <= j < i ==> match named_device(#[trigger] lines[j]) {
                            Some(d) => virtual_device(d),
                            None => true,
                        }
                },
            None => forall|j: int|
                0 <= j < lines.len() ==> match named_device(#[trigger] lines[j]) {
                    Some(d) => virtual_device(d),
                    None => true,
                },
        },
    decreases lines.len(),
{
    if lines.len() > 0 && physical_device(lines[0]) is None {
        let rest = lines.drop_first();
        lemma_first_physical_line(rest);
        assert(forall|j: int| 0 <= j < rest.len() ==> #[trigger] rest[j] == lines[j + 1]);
        match first_physical(rest) {
            Some(dev) => {
                let i = choose|i: int|
                    {
                        &&& 0 <= i < rest.len()
                        &&& named_device(#[trigger] rest[i]) == Some(dev)
                        &&& !virtual_device(dev)
                        &&& forall|j: int|
                            0 <= j < i ==> match named_device(#[trigger] rest[j]) {
                                Some(d) => virtual_device(d),
                                None => true,
                            }
                    };
                assert(named_device(lines[i + 1]) == Some(dev));
                assert forall|j: int| 0 <= j < i + 1 implies match named_device(
                    #[trigger] lines[j],
                ) {
                    Some(d) => virtual_device(d),
                    None => true,
                } by {
                    if j > 0 {
                        assert(rest[j - 1] == lines[j]);
                    }
                }
            },
            None => {
                assert forall|j: int| 0 <= j < lines.len() implies match named_device(
                    #[trigger] lines[j],
                ) {
                    Some(d) => virtual_device(d),
                    None => true,
                } by {
                    if j > 0 {
                        assert(rest[j - 1] == lines[j]);
                    }
                }
            },
        }
    } else if lines.len() > 0 {
        assert(named_device(lines[0]) == first_physical(lines));
    }
}

/// The whole search, for any two outcomes: the device that the main table names first if it is
/// physical; else, whatever the first command said, the first physical one of the second list; and
/// for each way to fail its own end.
pub proof fn lemma_search_takes_the_first_way_out(
    main: OutcomeView,
    any: OutcomeView,
)
    ensures
        ({
            let one = search_next(SearchView::Main, main);
            let two = search_next(one, any);
            match main {
                OutcomeView::NotRun => one is NotRun && two is NotRun,
                OutcomeView::Exited { success, stdout, .. } => {
                    let named = named_device(stdout);
                    if success && named is Some && !virtual_device(named->0) {
                        one == SearchView::Found(named->0) && two == one
                    } else {
                        &&& one is Any
                        &&& match any {
                            OutcomeView::NotRun => two is NotRun,
                            OutcomeView::Exited { success: ok, stdout: list, .. } => {
                                let first = first_physical(lines_of(list));
                                &&& !ok ==> two is ListFailed
                                &&& ok && first is Some ==> two == SearchView::Found(first->0)
                                &&& ok && first is None ==> two is NoneFound
                            },
                        }
                    }
                },
            }
        }),
{
}

} // verus!
