//! Whole runs of the supervisor: what holds of every sequence of events.

use crate::supervisor::{
    accepts, effect_of, initial_state, next_state, phase_of, report_text, ChildStatus, EffectView,
    Event, Phase, Request, Stream, SupervisorState,
};
use crate::units::UnitChoice;
use vstd::prelude::*;

verus! {

/// The state reached from `s` after `events`, taken in turn.
pub open spec fn state_after(s: SupervisorState, events: Seq<Event>) -> SupervisorState
    decreases events.len(),
{
    if events.len() == 0 {
        s
    } else {
        next_state(state_after(s, events.drop_last()), events.last())
    }
}

/// The effects of a run, one for each event.
pub open spec fn effects_along(s: SupervisorState, events: Seq<Event>) -> Seq<EffectView> {
    Seq::new(events.len(), |i: int| effect_of(state_after(s, events.take(i)), events[i]))
}

/// Every event answers the request that was pending when it came.
pub open spec fn answers_in_turn(s: SupervisorState, events: Seq<Event>) -> bool {
    forall|i: int|
        0 <= i < events.len() ==> accepts(state_after(s, events.take(i)), #[trigger] events[i])
}

/// The lines of `stream` among `events`, each with its line feed, in order of arrival.
pub open spec fn lines_produced(events: Seq<Event>, stream: Stream) -> Seq<Seq<char>>
    decreases events.len(),
{
    if events.len() == 0 {
        Seq::empty()
    } else {
        let before = lines_produced(events.drop_last(), stream);
        match events.last() {
            Event::Line(line) => if line.origin == stream {
                before.push(line.text@ + seq!['\n'])
            } else {
                before
            },
            _ => before,
        }
    }
}

/// The lines that `effects` write to `stream`, in order.
pub open spec fn lines_relayed(effects: Seq<EffectView>, stream: Stream) -> Seq<Seq<char>>
    decreases effects.len(),
{
    if effects.len() == 0 {
        Seq::empty()
    } else {
        let before = lines_relayed(effects.drop_last(), stream);
        match effects.last() {
            EffectView::Relay { origin, line, .. } => if origin == stream {
                before.push(line)
            } else {
                before
            },
            _ => before,
        }
    }
}

/// The number of final reports among `effects`.
pub open spec fn final_reports(effects: Seq<EffectView>) -> nat
    decreases effects.len(),
{
    if effects.len() == 0 {
        0
    } else {
        final_reports(effects.drop_last()) + if effects.last() is Final {
            1nat
        } else {
            0nat
        }
    }
}

proof fn lemma_run_without_last(s: SupervisorState, events: Seq<Event>)
    requires
        events.len() > 0,
    ensures
        effects_along(s, events).drop_last() == effects_along(s, events.drop_last()),
        effects_along(s, events).last() == effect_of(
            state_after(s, events.drop_last()),
            events.last(),
        ),
        answers_in_turn(s, events) ==> answers_in_turn(s, events.drop_last()) && accepts(
            state_after(s, events.drop_last()),
            events.last(),
        ),
{
    let shorter = events.drop_last();
    assert forall|i: int| 0 <= i < shorter.len() implies #[trigger] shorter.take(i) == events.take(
        i,
    ) by {
        assert(shorter.take(i) =~= events.take(i));
    }
    assert(events.take(events.len() - 1) =~= shorter);
    assert(effects_along(s, events).drop_last() =~= effects_along(s, shorter));
    if answers_in_turn(s, events) {
        assert forall|i: int| 0 <= i < shorter.len() implies accepts(
            state_after(s, shorter.take(i)),
            #[trigger] shorter[i],
        ) by {
            assert(shorter.take(i) == events.take(i));
            assert(accepts(state_after(s, events.take(i)), events[i]));
        }
        assert(accepts(state_after(s, events.take(events.len() - 1)), events[events.len() - 1]));
    }
}

proof fn lemma_run_in_two(s: SupervisorState, head: Seq<Event>, tail: Seq<Event>)
    ensures
        state_after(s, head + tail) == state_after(state_after(s, head), tail),
    decreases tail.len(),
{
    if tail.len() == 0 {
        assert(head + tail =~= head);
    } else {
        lemma_run_in_two(s, head, tail.drop_last());
        assert((head + tail).drop_last() =~= head + tail.drop_last());
        assert((head + tail).last() == tail.last());
    }
}

proof fn lemma_stop_is_kept(s: SupervisorState, events: Seq<Event>)
    requires
        s.pending is Stop,
    ensures
        state_after(s, events) == s,
    decreases events.len(),
{
    if events.len() > 0 {
        lemma_stop_is_kept(s, events.drop_last());
    }
}

proof fn lemma_interruption_is_kept(s: SupervisorState, events: Seq<Event>)
    requires
        s.interrupted,
    ensures
        state_after(s, events).interrupted,
    decreases events.len(),
{
    if events.len() > 0 {
        lemma_interruption_is_kept(s, events.drop_last());
    }
}

/// Lines are relayed in the order in which they arrive, none lost, none
/// repeated: where every event answers what was asked, the lines written to
/// a stream are exactly the lines that arrived from it, in the same order.
pub proof fn relay_keeps_order(s: SupervisorState, events: Seq<Event>, stream: Stream)
    requires
        answers_in_turn(s, events),
    ensures
        lines_relayed(effects_along(s, events), stream) == lines_produced(events, stream),
    decreases events.len(),
{
    if events.len() > 0 {
        lemma_run_without_last(s, events);
        relay_keeps_order(s, events.drop_last(), stream);
    }
}

/// The final report is issued at most once in any run, and exactly once in
/// a run that ends the supervision; once it is over, nothing more is shown
/// or done.
pub proof fn final_report_comes_once(s: SupervisorState, events: Seq<Event>)
    ensures
        final_reports(effects_along(s, events)) <= 1,
        final_reports(effects_along(s, events)) == 1 <==> !(s.pending is Stop) && phase_of(
            state_after(s, events),
        ) == Phase::Done,
        s.pending is Stop ==> forall|i: int|
            0 <= i < events.len() ==> #[trigger] effects_along(s, events)[i] == EffectView::Nothing,
    decreases events.len(),
{
    if events.len() > 0 {
        lemma_run_without_last(s, events);
        final_report_comes_once(s, events.drop_last());
        if s.pending is Stop {
            lemma_stop_is_kept(s, events.drop_last());
            assert forall|i: int| 0 <= i < events.len() implies #[trigger] effects_along(
                s,
                events,
            )[i] == EffectView::Nothing by {
                lemma_stop_is_kept(s, events.take(i));
            }
        }
    }
}

proof fn lemma_interrupted_run_ends_reported(s: SupervisorState, events: Seq<Event>) -> (found: (
    int,
    Option<i32>,
))
    requires
        s.interrupted,
        !(s.pending is Stop),
        state_after(s, events).pending is Stop,
    ensures
        0 <= found.0 < events.len(),
        effects_along(s, events)[found.0] matches EffectView::Final { report, .. } && report
            == report_text(found.1, true),
    decreases events.len(),
{
    lemma_run_without_last(s, events);
    let shorter = events.drop_last();
    let before = state_after(s, shorter);
    if before.pending is Stop {
        let found = lemma_interrupted_run_ends_reported(s, shorter);
        assert(effects_along(s, shorter)[found.0] == effects_along(s, events)[found.0]);
        found
    } else {
        lemma_interruption_is_kept(s, shorter);
        assert(before.exit is Some);
        (events.len() - 1, before.exit->0)
    }
}

/// An interruption observed while the child runs makes the supervisor ask the
/// child to terminate and enter the draining phase; when the run then ends,
/// its one final report says that the run was interrupted.
pub proof fn interruption_is_reported(s: SupervisorState, events: Seq<Event>, i: int)
    requires
        0 <= i < events.len(),
        events[i] == Event::Interrupt(true),
        accepts(state_after(s, events.take(i)), events[i]),
    ensures
        state_after(s, events.take(i)).exit is None ==> effects_along(s, events)[i]
            == EffectView::Terminate,
        phase_of(state_after(s, events.take(i + 1))) == Phase::Draining,
        phase_of(state_after(s, events)) == Phase::Done ==> final_reports(effects_along(s, events))
            == 1 && exists|j: int, code: Option<i32>|
            i < j < events.len() && (#[trigger] effects_along(s, events)[j] matches EffectView::Final {
                report,
                ..
            } && report == #[trigger] report_text(code, true)),
{
    let head = events.take(i + 1);
    let tail = events.skip(i + 1);
    let reached = state_after(s, head);
    assert(head.drop_last() =~= events.take(i));
    assert(head.last() == events[i]);
    assert(events =~= head + tail);
    lemma_run_in_two(s, head, tail);
    if phase_of(state_after(s, events)) == Phase::Done {
        final_report_comes_once(s, events);
        let found = lemma_interrupted_run_ends_reported(reached, tail);
        let j = i + 1 + found.0;
        assert(events.take(j) =~= head + tail.take(found.0));
        lemma_run_in_two(s, head, tail.take(found.0));
        assert(effects_along(s, events)[j] == effects_along(reached, tail)[found.0]);
        assert(effects_along(s, events)[j] matches EffectView::Final { report, .. } && report
            == report_text(found.1, true));
    }
}

/// Event `k` of the run answers the request that was pending when it came.
pub open spec fn answered_at(s: SupervisorState, events: Seq<Event>, k: int) -> bool {
    0 <= k < events.len() && accepts(state_after(s, events.take(k)), events[k])
}

/// The event says that the child has exited.
pub open spec fn tells_exit(event: Event) -> bool {
    match event {
        Event::Child(ChildStatus::Exited { .. }) => true,
        _ => false,
    }
}

/// The run saw the child exit and, after that, a request for output
/// answered `Closed` or `Quiet`. With `for_report`, an answer of `Quiet`
/// counts only where the run has observed an interruption.
spec fn output_answered_since_exit(
    s: SupervisorState,
    events: Seq<Event>,
    for_report: bool,
) -> bool {
    exists|e: int, k: int|
        #![trigger answered_at(s, events, e), answered_at(s, events, k)]
        e < k && answered_at(s, events, e) && tells_exit(events[e]) && answered_at(s, events, k) && (
        events[k] is Closed || (!for_report && events[k] is Quiet) || (for_report
            && events[k] is Quiet && state_after(s, events).interrupted))
}

/// What holds of the state after every run from the start.
spec fn run_is_orderly(s: SupervisorState, events: Seq<Event>) -> bool {
    let now = state_after(s, events);
    &&& now.exit is Some ==> (now.pending is Await || now.pending is PollInterrupt
        || now.pending is Sample || now.pending is Stop)
    &&& now.exit is Some ==> exists|e: int| #[trigger]
        answered_at(s, events, e) && tells_exit(events[e])
    &&& now.exit is Some && now.pending is PollInterrupt ==> output_answered_since_exit(
        s,
        events,
        false,
    )
    &&& now.exit is Some && now.pending is Sample ==> output_answered_since_exit(s, events, true)
}

proof fn lemma_answered_in_longer(s: SupervisorState, events: Seq<Event>, n: int, k: int)
    requires
        0 <= n <= events.len(),
        answered_at(s, events.take(n), k),
    ensures
        answered_at(s, events, k),
        events.take(n)[k] == events[k],
{
    assert(events.take(n).take(k) =~= events.take(k));
}

proof fn lemma_runs_are_orderly(interval_ms: u64, unit: UnitChoice, events: Seq<Event>)
    ensures
        run_is_orderly(initial_state(interval_ms, unit), events),
    decreases events.len(),
{
    let s = initial_state(interval_ms, unit);
    if events.len() > 0 {
        let shorter = events.drop_last();
        let last = events.len() - 1;
        lemma_runs_are_orderly(interval_ms, unit, shorter);
        lemma_run_without_last(s, events);
        assert(shorter =~= events.take(last));
        let before = state_after(s, shorter);
        let now = state_after(s, events);
        let event = events.last();
        if !accepts(before, event) {
            assert(now == before);
        } else {
            assert(answered_at(s, events, last));
        }
        if now.exit is Some {
            // the exit was seen
            if before.exit is Some {
                let e = choose|e: int| #[trigger]
                    answered_at(s, shorter, e) && tells_exit(shorter[e]);
                lemma_answered_in_longer(s, events, last, e);
            } else {
                assert(tells_exit(event));
            }
            let e = choose|e: int| #[trigger] answered_at(s, events, e) && tells_exit(events[e]);
            if now.pending is PollInterrupt {
                if accepts(before, event) {
                    // a wait for output passed without a line
                    assert(event is Quiet);
                    assert(e < last);
                    assert(output_answered_since_exit(s, events, false));
                } else {
                    let (e0, k0) = choose|e: int, k: int|
                        #![trigger answered_at(s, shorter, e), answered_at(s, shorter, k)]
                        e < k && answered_at(s, shorter, e) && tells_exit(shorter[e]) && answered_at(
                            s,
                            shorter,
                            k,
                        ) && (shorter[k] is Closed || shorter[k] is Quiet);
                    lemma_answered_in_longer(s, events, last, e0);
                    lemma_answered_in_longer(s, events, last, k0);
                    assert(output_answered_since_exit(s, events, false));
                }
            }
            if now.pending is Sample {
                if !accepts(before, event) {
                    let (e0, k0) = choose|e: int, k: int|
                        #![trigger answered_at(s, shorter, e), answered_at(s, shorter, k)]
                        e < k && answered_at(s, shorter, e) && tells_exit(shorter[e]) && answered_at(
                            s,
                            shorter,
                            k,
                        ) && (shorter[k] is Closed || (shorter[k] is Quiet && before.interrupted));
                    lemma_answered_in_longer(s, events, last, e0);
                    lemma_answered_in_longer(s, events, last, k0);
                    assert(output_answered_since_exit(s, events, true));
                } else if event is Closed {
                    assert(e < last);
                    assert(output_answered_since_exit(s, events, true));
                } else {
                    // an interruption ended the wait
                    assert(event is Interrupt);
                    assert(before.pending is PollInterrupt && before.exit is Some);
                    let (e0, k0) = choose|e: int, k: int|
                        #![trigger answered_at(s, shorter, e), answered_at(s, shorter, k)]
                        e < k && answered_at(s, shorter, e) && tells_exit(shorter[e]) && answered_at(
                            s,
                            shorter,
                            k,
                        ) && (shorter[k] is Closed || shorter[k] is Quiet);
                    lemma_answered_in_longer(s, events, last, e0);
                    lemma_answered_in_longer(s, events, last, k0);
                    assert(now.interrupted);
                    assert(output_answered_since_exit(s, events, true));
                }
            }
        }
    }
}

/// The final report waits for the output: in every run from the start, a
/// final report comes only after the child's exit was seen and a request for
/// output, made after that, was answered. Either the answer was that the
/// channel has closed, after which no line can arrive; or a whole wait
/// passed without a line and an interruption was observed.
pub proof fn report_waits_for_output(
    interval_ms: u64,
    unit: UnitChoice,
    events: Seq<Event>,
    j: int,
)
    requires
        0 <= j < events.len(),
        effects_along(initial_state(interval_ms, unit), events)[j] is Final,
    ensures
        ({
            let s = initial_state(interval_ms, unit);
            exists|e: int, k: int|
                #![trigger answered_at(s, events, e), answered_at(s, events, k)]
                e < k < j && answered_at(s, events, e) && tells_exit(events[e]) && answered_at(
                    s,
                    events,
                    k,
                ) && (events[k] is Closed || (events[k] is Quiet && state_after(
                    s,
                    events.take(j),
                ).interrupted))
        }),
{
    let s = initial_state(interval_ms, unit);
    let prefix = events.take(j);
    lemma_runs_are_orderly(interval_ms, unit, prefix);
    let before = state_after(s, prefix);
    assert(before.pending is Sample && before.exit is Some);
    let (e, k) = choose|e: int, k: int|
        #![trigger answered_at(s, prefix, e), answered_at(s, prefix, k)]
        e < k && answered_at(s, prefix, e) && tells_exit(prefix[e]) && answered_at(s, prefix, k) && (
        prefix[k] is Closed || (prefix[k] is Quiet && before.interrupted));
    lemma_answered_in_longer(s, events, j, e);
    lemma_answered_in_longer(s, events, j, k);
}

proof fn lemma_closure_is_kept(s: SupervisorState, events: Seq<Event>)
    ensures
        state_after(s, events).interval_ms == s.interval_ms,
        s.closed ==> state_after(s, events).closed,
    decreases events.len(),
{
    if events.len() > 0 {
        lemma_closure_is_kept(s, events.drop_last());
    }
}

/// Once the channel has closed, the cadence is kept by pausing: the closure
/// is never forgotten, and after every redraw of the status line the caller
/// is told to let the interval pass, not to wait on the channel. A pause is
/// left only by the event that says it is over.
pub proof fn closed_channel_keeps_the_cadence(s: SupervisorState, events: Seq<Event>, j: int)
    requires
        s.closed,
        0 <= j < events.len(),
        effects_along(s, events)[j] is Status,
    ensures
        state_after(s, events).closed,
        state_after(s, events.take(j + 1)).pending == (Request::Pause { millis: s.interval_ms }),
        forall|event: Event|
            accepts(state_after(s, events.take(j + 1)), event) ==> #[trigger] next_state(
                state_after(s, events.take(j + 1)),
                event,
            ).pending == Request::PollInterrupt && event is Quiet,
{
    lemma_closure_is_kept(s, events);
    lemma_closure_is_kept(s, events.take(j));
    let head = events.take(j + 1);
    assert(head.drop_last() =~= events.take(j));
    assert(head.last() == events[j]);
}

} // verus!
