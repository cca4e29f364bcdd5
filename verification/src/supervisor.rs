//! The supervision loop as a state machine. The machine names the next thing
//! to find out, the caller finds it out and reports it as an event, and the
//! machine answers with what to show or do.

use crate::digits::{push_signed, signed_decimal};
use crate::render::{final_frame, line_reset, line_reset_text, render, status_frame, status_text};
use crate::sample::MemorySample;
use crate::units::UnitChoice;
use vstd::prelude::*;

verus! {

/// Sampling interval used when none is given, in milliseconds.
pub const DEFAULT_INTERVAL_MS: u64 = 1000;

/// One of the two output streams, of the child or of the supervisor.
#[derive(Clone, Copy, Debug, PartialEq, Eq, Structural)]
pub enum Stream {
    Stdout,
    Stderr,
}

/// A line that the child wrote, without its line terminator.
#[derive(Debug, PartialEq, Eq)]
pub struct OutputLine {
    pub origin: Stream,
    pub text: String,
}

/// Where the supervision stands.
#[derive(Clone, Copy, Debug, PartialEq, Eq, Structural)]
pub enum Phase {
    /// The child runs and no interruption was observed.
    Running,
    /// An interruption was observed, or the child has exited: the output
    /// that remains is relayed before the final report.
    Draining,
    /// The final report was issued.
    Done,
}

/// What the machine needs to learn next.
#[derive(Clone, Copy, Debug, PartialEq, Eq, Structural)]
pub enum Request {
    /// Take one output line if one is available, without blocking.
    PollOutput,
    /// Read the interruption flag.
    PollInterrupt,
    /// Check, without blocking, whether the child has exited.
    PollChild,
    /// Take a memory sample and read the elapsed time.
    Sample,
    /// Wait for an output line, for at most `millis` milliseconds.
    Await { millis: u64 },
    /// Let `millis` milliseconds pass: no output can arrive any more.
    Pause { millis: u64 },
    /// Nothing more: the supervision is over.
    Stop,
}

/// Whether the child has exited, and its exit code where it has one.
#[derive(Clone, Copy, Debug, PartialEq, Eq, Structural)]
pub enum ChildStatus {
    Alive,
    Exited { code: Option<i32> },
}

/// What the caller found out in answer to a request.
#[derive(Debug, PartialEq, Eq)]
pub enum Event {
    /// An output line arrived.
    Line(OutputLine),
    /// No line is available now, none arrived before the deadline, or the
    /// pause is over.
    Quiet,
    /// Both readers have finished: no line will arrive any more.
    Closed,
    /// The interruption flag, as read.
    Interrupt(bool),
    /// The child's liveness, as checked.
    Child(ChildStatus),
    /// The elapsed whole seconds and the memory sample, where one could be taken.
    Sampled { elapsed_secs: u64, sample: Option<MemorySample> },
}

/// What the caller is to show or do before it serves the next request.
#[derive(Debug, PartialEq, Eq)]
pub enum Effect {
    Nothing,
    /// Write `reset` to standard output, then `line` to the stream `origin`.
    Relay { reset: String, origin: Stream, line: String },
    /// Ask the child to terminate.
    Terminate,
    /// Write `frame` to standard output.
    Status { frame: String },
    /// Write `frame` to standard output, then `report` to standard error.
    Final { frame: String, report: String },
}

/// The mathematical content of an [`Effect`].
pub enum EffectView {
    Nothing,
    Relay { reset: Seq<char>, origin: Stream, line: Seq<char> },
    Terminate,
    Status { frame: Seq<char> },
    Final { frame: Seq<char>, report: Seq<char> },
}

impl View for Effect {
    type V = EffectView;

    open spec fn view(&self) -> EffectView {
        match *self {
            Effect::Nothing => EffectView::Nothing,
            Effect::Relay { reset, origin, line } => EffectView::Relay {
                reset: reset@,
                origin,
                line: line@,
            },
            Effect::Terminate => EffectView::Terminate,
            Effect::Status { frame } => EffectView::Status { frame: frame@ },
            Effect::Final { frame, report } => EffectView::Final { frame: frame@, report: report@ },
        }
    }
}

/// The state of the machine.
#[derive(Clone, Copy, Debug, PartialEq, Eq, Structural)]
pub struct SupervisorState {
    /// The sampling interval, in milliseconds.
    pub interval_ms: u64,
    /// How display units are chosen.
    pub unit: UnitChoice,
    /// The request that the next event has to answer.
    pub pending: Request,
    /// Whether an interruption was observed.
    pub interrupted: bool,
    /// The child's exit code, once the child is known to have exited.
    pub exit: Option<Option<i32>>,
    /// Whether both readers are known to have finished.
    pub closed: bool,
}

/// The state in which supervision starts.
pub open spec fn initial_state(interval_ms: u64, unit: UnitChoice) -> SupervisorState {
    SupervisorState {
        interval_ms,
        unit,
        pending: Request::PollOutput,
        interrupted: false,
        exit: None,
        closed: false,
    }
}

/// The phase that a state is in.
pub open spec fn phase_of(s: SupervisorState) -> Phase {
    if s.pending is Stop {
        Phase::Done
    } else if s.interrupted || s.exit is Some {
        Phase::Draining
    } else {
        Phase::Running
    }
}

/// Whether `event` answers the request that is pending in `s`.
pub open spec fn accepts(s: SupervisorState, event: Event) -> bool {
    match s.pending {
        Request::PollOutput => event is Line || event is Quiet || event is Closed,
        Request::Await { .. } => event is Line || event is Quiet || event is Closed,
        Request::Pause { .. } => event is Quiet,
        Request::PollInterrupt => event is Interrupt,
        Request::PollChild => event is Child,
        Request::Sample => event is Sampled,
        Request::Stop => false,
    }
}

/// The state that follows `s` on `event`. An event that does not answer the
/// pending request changes nothing.
///
/// While the child runs, a tick drains the output, reads the interruption
/// flag, checks the child, samples, and waits for a line or for the interval
/// to pass; once the channel has closed it pauses instead of waiting on it.
/// Once the child has exited, lines are awaited and relayed until the channel
/// closes; a wait that passes without a line gives up only where an
/// interruption was observed. Then the last sample is taken.
pub open spec fn next_state(s: SupervisorState, event: Event) -> SupervisorState {
    if !accepts(s, event) {
        s
    } else {
        let wait = Request::Await { millis: s.interval_ms };
        match event {
            Event::Line(_) => match s.exit {
                Some(_) => SupervisorState { pending: wait, ..s },
                None => SupervisorState { pending: Request::PollOutput, ..s },
            },
            Event::Quiet => match (s.pending, s.exit) {
                (Request::Await { .. }, None) => SupervisorState { pending: Request::PollOutput, ..s },
                _ => SupervisorState { pending: Request::PollInterrupt, ..s },
            },
            Event::Closed => match s.exit {
                Some(_) => SupervisorState { pending: Request::Sample, closed: true, ..s },
                None => SupervisorState { pending: Request::PollInterrupt, closed: true, ..s },
            },
            Event::Interrupt(flag) => {
                let interrupted = s.interrupted || flag;
                match s.exit {
                    Some(_) => SupervisorState {
                        pending: if interrupted {
                            Request::Sample
                        } else {
                            wait
                        },
                        interrupted,
                        ..s
                    },
                    None => SupervisorState { pending: Request::PollChild, interrupted, ..s },
                }
            },
            Event::Child(ChildStatus::Alive) => SupervisorState { pending: Request::Sample, ..s },
            Event::Child(ChildStatus::Exited { code }) => SupervisorState {
                pending: wait,
                exit: Some(code),
                ..s
            },
            Event::Sampled { .. } => match s.exit {
                Some(_) => SupervisorState { pending: Request::Stop, ..s },
                None => SupervisorState {
                    pending: if s.closed {
                        Request::Pause { millis: s.interval_ms }
                    } else {
                        wait
                    },
                    ..s
                },
            },
        }
    }
}

/// The sample that is shown: the one taken, or zero where none could be.
pub open spec fn shown_sample(sample: Option<MemorySample>) -> MemorySample {
    match sample {
        Some(taken) => taken,
        None => MemorySample { resident_bytes: 0, virtual_bytes: 0 },
    }
}

/// The report that ends a run: the exit code, or -1 where the child left
/// none, and a second line when the run was interrupted.
pub open spec fn report_text(code: Option<i32>, interrupted: bool) -> Seq<char> {
    let shown: int = match code {
        Some(c) => c as int,
        None => -1,
    };
    let first = "Process exited with status: "@ + signed_decimal(shown) + seq!['\n'];
    if interrupted {
        first + "Interrupted (Ctrl+C)\n"@
    } else {
        first
    }
}

/// What `event` makes the caller show or do in state `s`.
pub open spec fn effect_of(s: SupervisorState, event: Event) -> EffectView {
    if !accepts(s, event) {
        EffectView::Nothing
    } else {
        match event {
            Event::Line(line) => EffectView::Relay {
                reset: line_reset_text(),
                origin: line.origin,
                line: line.text@ + seq!['\n'],
            },
            Event::Interrupt(flag) => if s.exit is None && (s.interrupted || flag) {
                EffectView::Terminate
            } else {
                EffectView::Nothing
            },
            Event::Sampled { elapsed_secs, sample } => {
                let line = status_text(elapsed_secs as nat, shown_sample(sample), s.unit);
                match s.exit {
                    Some(code) => EffectView::Final {
                        frame: line_reset_text() + line + seq!['\n'],
                        report: report_text(code, s.interrupted),
                    },
                    None => EffectView::Status { frame: line_reset_text() + line },
                }
            },
            _ => EffectView::Nothing,
        }
    }
}

/// Renders the report that ends a run.
pub fn exit_report(code: Option<i32>, interrupted: bool) -> (report: String)
    ensures
        report@ == report_text(code, interrupted),
{
    let shown: i32 = match code {
        Some(c) => c,
        None => -1,
    };
    let mut report = String::from_str("Process exited with status: ");
    push_signed(&mut report, shown);
    proof {
        reveal_strlit("\n");
    }
    report.append("\n");
    if interrupted {
        report.append("Interrupted (Ctrl+C)\n");
    }
    assert(report@ =~= report_text(code, interrupted));
    report
}

/// The supervision loop's decisions.
pub struct Supervisor {
    state: SupervisorState,
}

impl View for Supervisor {
    type V = SupervisorState;

    closed spec fn view(&self) -> SupervisorState {
        self.state
    }
}

impl Supervisor {
    /// A supervisor at the start of its first tick.
    pub fn new(interval_ms: u64, unit: UnitChoice) -> (supervisor: Supervisor)
        ensures
            supervisor@ == initial_state(interval_ms, unit),
    {
        Supervisor {
            state: SupervisorState {
                interval_ms,
                unit,
                pending: Request::PollOutput,
                interrupted: false,
                exit: None,
                closed: false,
            },
        }
    }

    /// The request that the next event has to answer.
    pub fn pending(&self) -> (request: Request)
        ensures
            request == self@.pending,
    {
        self.state.pending
    }

    /// The phase of the supervision.
    pub fn phase(&self) -> (phase: Phase)
        ensures
            phase == phase_of(self@),
    {
        match self.state.pending {
            Request::Stop => Phase::Done,
            _ => if self.state.interrupted || self.state.exit.is_some() {
                Phase::Draining
            } else {
                Phase::Running
            },
        }
    }

    /// Takes the answer to the pending request, moves to the next state and
    /// says what to show or do. An event that does not answer the pending
    /// request is refused with `None` and changes nothing.
    pub fn step(&mut self, event: Event) -> (effect: Option<Effect>)
        ensures
            final(self)@ == next_state(old(self)@, event),
            effect is Some <==> accepts(old(self)@, event),
            effect matches Some(e) ==> e@ == effect_of(old(self)@, event),
    {
        let s = self.state;
        let wait = Request::Await { millis: s.interval_ms };
        match event {
            Event::Line(line) => match s.pending {
                Request::PollOutput | Request::Await { .. } => {
                    self.state.pending = match s.exit {
                        Some(_) => wait,
                        None => Request::PollOutput,
                    };
                    let origin = line.origin;
                    let ghost written = line.text@;
                    let mut text = line.text;
                    proof {
                        reveal_strlit("\n");
                    }
                    text.append("\n");
                    assert(text@ =~= written + seq!['\n']);
                    Some(Effect::Relay { reset: line_reset(), origin, line: text })
                },
                _ => None,
            },
            Event::Quiet => match s.pending {
                Request::PollOutput | Request::Pause { .. } => {
                    self.state.pending = Request::PollInterrupt;
                    Some(Effect::Nothing)
                },
                Request::Await { .. } => {
                    self.state.pending = match s.exit {
                        Some(_) => Request::PollInterrupt,
                        None => Request::PollOutput,
                    };
                    Some(Effect::Nothing)
                },
                _ => None,
            },
            Event::Closed => match s.pending {
                Request::PollOutput | Request::Await { .. } => {
                    self.state.closed = true;
                    self.state.pending = match s.exit {
                        Some(_) => Request::Sample,
                        None => Request::PollInterrupt,
                    };
                    Some(Effect::Nothing)
                },
                _ => None,
            },
            Event::Interrupt(flag) => match s.pending {
                Request::PollInterrupt => {
                    let interrupted = s.interrupted || flag;
                    self.state.interrupted = interrupted;
                    match s.exit {
                        Some(_) => {
                            self.state.pending = if interrupted {
                                Request::Sample
                            } else {
                                wait
                            };
                            Some(Effect::Nothing)
                        },
                        None => {
                            self.state.pending = Request::PollChild;
                            if interrupted {
                                Some(Effect::Terminate)
                            } else {
                                Some(Effect::Nothing)
                            }
                        },
                    }
                },
                _ => None,
            },
            Event::Child(status) => match s.pending {
                Request::PollChild => {
                    match status {
                        ChildStatus::Alive => {
                            self.state.pending = Request::Sample;
                        },
                        ChildStatus::Exited { code } => {
                            self.state.pending = wait;
                            self.state.exit = Some(code);
                        },
                    }
                    Some(Effect::Nothing)
                },
                _ => None,
            },
            Event::Sampled { elapsed_secs, sample } => match s.pending {
                Request::Sample => {
                    let shown = match sample {
                        Some(taken) => taken,
                        None => MemorySample::zero(),
                    };
                    let line = render(elapsed_secs, shown, s.unit);
                    match s.exit {
                        Some(code) => {
                            self.state.pending = Request::Stop;
                            Some(
                                Effect::Final {
                                    frame: final_frame(line.as_str()),
                                    report: exit_report(code, s.interrupted),
                                },
                            )
                        },
                        None => {
                            self.state.pending = if s.closed {
                                Request::Pause { millis: s.interval_ms }
                            } else {
                                wait
                            };
                            Some(Effect::Status { frame: status_frame(line.as_str()) })
                        },
                    }
                },
                _ => None,
            },
        }
    }
}

} // verus!
