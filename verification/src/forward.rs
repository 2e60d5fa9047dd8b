//! The life of one forward: how `kubectl` is called, what its output tells, and when it is
//! called again.

use vstd::prelude::*;

use crate::config::{ForwardSpec, ForwardView};
use crate::config;
use crate::route;
use crate::text;

verus! {

/// The seconds before the first new attempt.
pub const FIRST_DELAY: u64 = 1;

/// The most seconds between two attempts.
pub const LONGEST_DELAY: u64 = 30;

/// What has happened to a forward.
#[derive(Clone, Copy, Debug, PartialEq, Eq, Structural)]
pub enum ForwardEvent {
    /// It is about to be set up, unless it is to stop already.
    Begun { stopping: bool },
    /// `kubectl` has ended because the forward was to stop.
    Ended,
    /// `kubectl` could not be run, or has ended by itself.
    Failed,
    /// The forward was told to stop while it waited.
    Interrupted,
    /// The wait is over, and the forward is to stop or not.
    Waited { stopping: bool },
}

/// What is to be done for a forward.
#[derive(Clone, Copy, Debug, PartialEq, Eq, Structural)]
pub enum ForwardAction {
    /// Run `kubectl`.
    Attempt,
    /// Wait for so many seconds, or until told to stop.
    Wait(u64),
    /// Nothing more.
    Quit,
}

/// A forward that is kept up until it is told to stop.
#[derive(Debug)]
pub struct ForwardRun {
    delay: u64,
}

/// Twice the delay, up to the longest one.
pub open spec fn longer_delay(delay: u64) -> u64 {
    if 2 * delay <= LONGEST_DELAY {
        (2 * delay) as u64
    } else {
        LONGEST_DELAY
    }
}

/// The delay after an event, and what is to be done.
pub open spec fn forward_step(delay: u64, event: ForwardEvent) -> (u64, ForwardAction) {
    match event {
        ForwardEvent::Begun { stopping } => (
            delay,
            if stopping {
                ForwardAction::Quit
            } else {
                ForwardAction::Attempt
            },
        ),
        ForwardEvent::Ended => (delay, ForwardAction::Quit),
        ForwardEvent::Failed => (delay, ForwardAction::Wait(delay)),
        ForwardEvent::Interrupted => (delay, ForwardAction::Quit),
        ForwardEvent::Waited { stopping } => (
            longer_delay(delay),
            if stopping {
                ForwardAction::Quit
            } else {
                ForwardAction::Attempt
            },
        ),
    }
}

impl View for ForwardRun {
    type V = u64;

    closed spec fn view(&self) -> u64 {
        self.delay
    }
}

impl ForwardRun {
    /// Whether the delay lies between the first and the longest one.
    pub open spec fn wf(&self) -> bool {
        FIRST_DELAY <= self@ <= LONGEST_DELAY
    }

    /// A forward that has not failed yet.
    pub fn new() -> (r: Self)
        ensures
            r.wf(),
            r@ == FIRST_DELAY,
    {
        ForwardRun { delay: FIRST_DELAY }
    }

    /// What is to be done after an event.
    pub fn next(&mut self, event: ForwardEvent) -> (action: ForwardAction)
        requires
            old(self).wf(),
        ensures
            final(self).wf(),
            (final(self)@, action) == forward_step(old(self)@, event),
    {
        match event {
            ForwardEvent::Begun { stopping } => if stopping {
                ForwardAction::Quit
            } else {
                ForwardAction::Attempt
            },
            ForwardEvent::Ended => ForwardAction::Quit,
            ForwardEvent::Failed => ForwardAction::Wait(self.delay),
            ForwardEvent::Interrupted => ForwardAction::Quit,
            ForwardEvent::Waited { stopping } => {
                self.delay = if 2 * self.delay <= LONGEST_DELAY {
                    2 * self.delay
                } else {
                    LONGEST_DELAY
                };
                if stopping {
                    ForwardAction::Quit
                } else {
                    ForwardAction::Attempt
                }
            },
        }
    }
}

/// The report of an attempt that failed.
pub open spec fn retry_text(route: Seq<char>, error: Seq<char>, delay: u64) -> Seq<char> {
    route + ": "@ + error + "; retrying in "@ + text::decimal(delay as nat) + "s"@
}

/// The report of an attempt that failed.
pub fn retry_notice(route: &str, error: &str, delay: u64) -> (r: String)
    ensures
        r@ == retry_text(route@, error@, delay),
{
    let mut r = route.to_owned().concat(": ").concat(error).concat("; retrying in ");
    text::push_decimal(&mut r, delay);
    r.concat("s")
}

/// The arguments with which `kubectl` sets up a forward from a local port of its choice.
pub open spec fn kubectl_arguments(forward: ForwardView) -> Seq<Seq<char>> {
    seq![
        "--context"@,
        forward.context,
        "port-forward"@,
        "--address"@,
        "127.0.0.1"@,
        "--namespace"@,
        forward.namespace,
        forward.target,
        "0:"@ + text::decimal(forward.remote_port as nat),
    ]
}

/// The arguments with which `kubectl` sets up a forward.
pub fn port_forward_args(forward: &ForwardSpec) -> (r: Vec<String>)
    ensures
        config::texts_view(r@) == kubectl_arguments(forward@),
{
    let mut ports = "0:".to_owned();
    text::push_decimal(&mut ports, forward.remote_port as u64);
    let mut r: Vec<String> = Vec::new();
    r.push("--context".to_owned());
    r.push(forward.context.clone());
    r.push("port-forward".to_owned());
    r.push("--address".to_owned());
    r.push("127.0.0.1".to_owned());
    r.push("--namespace".to_owned());
    r.push(forward.namespace.clone());
    r.push(forward.target.clone());
    r.push(ports);
    assert(config::texts_view(r@) =~= kubectl_arguments(forward@));
    r
}

/// Why a `kubectl` ended that was not to stop, and nothing where it was.
pub open spec fn exit_complaint(stopping: bool, exit: Seq<char>) -> Option<Seq<char>> {
    if stopping {
        None
    } else {
        Some("kubectl port-forward exited with "@ + exit)
    }
}

/// The event that an attempt with or without a complaint is.
pub open spec fn event_of(complained: bool) -> ForwardEvent {
    if complained {
        ForwardEvent::Failed
    } else {
        ForwardEvent::Ended
    }
}

/// What a `kubectl` that has ended means: it was to stop, or else why it ended.
pub fn forward_outcome(stopping: bool, exit: &str) -> (r: Result<(), String>)
    ensures
        match r {
            Ok(_) => exit_complaint(stopping, exit@) is None,
            Err(e) => exit_complaint(stopping, exit@) == Some(e@),
        },
{
    if stopping {
        Ok(())
    } else {
        Err("kubectl port-forward exited with ".to_owned().concat(exit))
    }
}

/// The event that the outcome of an attempt is.
pub fn attempt_event(outcome: &Result<(), String>) -> (event: ForwardEvent)
    ensures
        event == event_of(*outcome is Err),
{
    match outcome {
        Ok(_) => ForwardEvent::Ended,
        Err(_) => ForwardEvent::Failed,
    }
}

/// The notice to give for a line of output: the port that it reports, or else the line.
pub open spec fn output_notice(route: Seq<char>, line: Seq<char>) -> Seq<char> {
    match route::forwarded_port(line) {
        Some(port) => route + ": connected on 127.0.0.1:"@ + text::decimal(port as nat),
        None => route + ": "@ + line,
    }
}

/// What a line of output means: the port to write down, if it reports one, and the notice
/// to give.
pub fn forward_output(route: &str, line: &str) -> (r: (Option<u16>, String))
    ensures
        r.0 == route::forwarded_port(line@),
        r.1@ == output_notice(route@, line@),
{
    match route::parse_forwarded_port(line) {
        Some(port) => {
            let mut notice = route.to_owned().concat(": connected on 127.0.0.1:");
            text::push_decimal(&mut notice, port as u64);
            (Some(port), notice)
        },
        None => (None, route.to_owned().concat(": ").concat(line)),
    }
}

} // verus!
