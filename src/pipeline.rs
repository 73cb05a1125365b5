use vstd::prelude::*;

verus! {

/// Why a run ended early. Every one of them ends the run at once.
#[derive(Clone, Copy, Debug, PartialEq, Eq, Structural)]
pub enum RunError {
    /// The capture stream could not be opened.
    StreamCreation,
    /// The tempo estimator refused its window, hop or sample rate.
    EstimatorInit,
    /// Writing or flushing the status line failed.
    OutputIo,
    /// The platform broke its own contract (an output buffer on an input
    /// stream, or an event out of order): a defect, not an environmental
    /// failure.
    InternalInvariant,
}

/// Where a run stands.
#[derive(Clone, Copy, Debug, PartialEq, Eq, Structural)]
pub enum Phase {
    OpeningStream,
    StartingEstimator,
    Streaming,
    Stopped,
    Failed(RunError),
}

/// What the outside world reports back to the run.
#[derive(Clone, Copy, Debug, PartialEq, Eq, Structural)]
pub enum Event {
    StreamOpened,
    StreamFailed,
    EstimatorReady,
    EstimatorFailed,
    ChunkReceived,
    ChannelClosed,
    OutputFailed,
    OutputBufferReceived,
}

/// What the run asks the outside world to do next.
#[derive(Clone, Copy, Debug, PartialEq, Eq, Structural)]
pub enum Action {
    StartEstimator,
    AwaitChunk,
    /// Accumulate the chunk, analyse every complete window, report.
    AnalyseAndReport,
    Finish,
    Abort(RunError),
    Idle,
}

impl Phase {
    /// The run has ended, cleanly or not.
    pub open spec fn is_terminal(self) -> bool {
        self is Stopped || self is Failed
    }
}

/// The run's rules: it opens the stream, then starts the estimator, then
/// analyses each chunk until the channel closes. Any failure ends it with its
/// own error and nothing is retried; once ended, it does no more work.
pub open spec fn step_spec(p: Phase, e: Event) -> (Phase, Action) {
    match p {
        Phase::Stopped => (p, Action::Idle),
        Phase::Failed(_) => (p, Action::Idle),
        _ => match e {
            Event::StreamFailed => fail(RunError::StreamCreation),
            Event::EstimatorFailed => fail(RunError::EstimatorInit),
            Event::OutputFailed => fail(RunError::OutputIo),
            Event::OutputBufferReceived => fail(RunError::InternalInvariant),
            Event::StreamOpened if p is OpeningStream => (
                Phase::StartingEstimator,
                Action::StartEstimator,
            ),
            Event::EstimatorReady if p is StartingEstimator => (
                Phase::Streaming,
                Action::AwaitChunk,
            ),
            Event::ChunkReceived if p is Streaming => (Phase::Streaming, Action::AnalyseAndReport),
            Event::ChannelClosed if p is Streaming => (Phase::Stopped, Action::Finish),
            _ => fail(RunError::InternalInvariant),
        },
    }
}

/// A run that fails with `k`.
pub open spec fn fail(k: RunError) -> (Phase, Action) {
    (Phase::Failed(k), Action::Abort(k))
}

/// The phases and actions of a run that starts in `p` and sees `events`.
pub open spec fn run_spec(p: Phase, events: Seq<Event>) -> (Phase, Seq<Action>)
    decreases events.len(),
{
    if events.len() == 0 {
        (p, Seq::empty())
    } else {
        let (q, a) = step_spec(p, events[0]);
        let rest = run_spec(q, events.drop_first());
        (rest.0, seq![a] + rest.1)
    }
}

fn failure(k: RunError) -> (r: (Phase, Action))
    ensures
        r == fail(k),
{
    (Phase::Failed(k), Action::Abort(k))
}

/// Decides the run's next phase and action from an event.
pub fn step(p: Phase, e: Event) -> (r: (Phase, Action))
    ensures
        r == step_spec(p, e),
{
    match p {
        Phase::Stopped => (p, Action::Idle),
        Phase::Failed(_) => (p, Action::Idle),
        _ => match e {
            Event::StreamFailed => failure(RunError::StreamCreation),
            Event::EstimatorFailed => failure(RunError::EstimatorInit),
            Event::OutputFailed => failure(RunError::OutputIo),
            Event::OutputBufferReceived => failure(RunError::InternalInvariant),
            Event::StreamOpened => match p {
                Phase::OpeningStream => (Phase::StartingEstimator, Action::StartEstimator),
                _ => failure(RunError::InternalInvariant),
            },
            Event::EstimatorReady => match p {
                Phase::StartingEstimator => (Phase::Streaming, Action::AwaitChunk),
                _ => failure(RunError::InternalInvariant),
            },
            Event::ChunkReceived => match p {
                Phase::Streaming => (Phase::Streaming, Action::AnalyseAndReport),
                _ => failure(RunError::InternalInvariant),
            },
            Event::ChannelClosed => match p {
                Phase::Streaming => (Phase::Stopped, Action::Finish),
                _ => failure(RunError::InternalInvariant),
            },
        },
    }
}

/// Once a run has ended it stays where it is and asks for nothing more,
/// whatever is reported to it afterwards.
pub proof fn lemma_end_is_final(p: Phase, events: Seq<Event>)
    requires
        p.is_terminal(),
    ensures
        run_spec(p, events).0 == p,
        forall|i: int|
            0 <= i < events.len() ==> #[trigger] run_spec(p, events).1[i] == Action::Idle,
        run_spec(p, events).1.len() == events.len(),
    decreases events.len(),
{
    if events.len() > 0 {
        lemma_end_is_final(p, events.drop_first());
        let rest = run_spec(p, events.drop_first());
        assert forall|i: int| 0 <= i < events.len() implies #[trigger] run_spec(
            p,
            events,
        ).1[i] == Action::Idle by {
            if i > 0 {
                assert(run_spec(p, events).1[i] == rest.1[i - 1]);
            }
        }
    }
}

/// A stream that cannot be opened ends the run with `StreamCreation` at once:
/// the estimator is never started and no chunk is ever analysed.
pub proof fn lemma_stream_failure_is_fatal(events: Seq<Event>)
    ensures
        run_spec(Phase::OpeningStream, seq![Event::StreamFailed] + events).0 == Phase::Failed(
            RunError::StreamCreation,
        ),
        run_spec(Phase::OpeningStream, seq![Event::StreamFailed] + events).1 == seq![
            Action::Abort(RunError::StreamCreation),
        ] + Seq::new(events.len(), |i: int| Action::Idle),
{
    let all = seq![Event::StreamFailed] + events;
    let failed = Phase::Failed(RunError::StreamCreation);
    assert(all.drop_first() =~= events);
    lemma_end_is_final(failed, events);
    assert(run_spec(failed, events).1 =~= Seq::new(events.len(), |i: int| Action::Idle));
}

} // verus!
