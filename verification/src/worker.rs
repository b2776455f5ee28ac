//! The stream worker's decision logic: classification of incremental
//! service events into stream messages, the fold describing the messages
//! of a whole stream, and the laws of its terminal behaviour.

use vstd::prelude::*;
use crate::message::{StreamMessage, StreamMessageView};

verus! {

/// One event observed from the service stream, after transport decoding:
/// either an incremental response unit or a failure of the call itself.
pub enum ServiceEvent {
    /// An incremental unit: possibly a finish indicator equal to "stop",
    /// possibly a piece of generated text.
    Unit { finish_stop: bool, content: Option<String> },
    /// A connection- or service-level failure, with its description.
    Failure(String),
}

/// The abstract value of a [`ServiceEvent`].
pub enum ServiceEventView {
    Unit { finish_stop: bool, content: Option<Seq<char>> },
    Failure(Seq<char>),
}

impl View for ServiceEvent {
    type V = ServiceEventView;

    open spec fn view(&self) -> ServiceEventView {
        match self {
            ServiceEvent::Unit { finish_stop, content } => ServiceEventView::Unit {
                finish_stop: *finish_stop,
                content: match content {
                    Some(t) => Some(t@),
                    None => None,
                },
            },
            ServiceEvent::Failure(d) => ServiceEventView::Failure(d@),
        }
    }
}

/// An event on which the worker stops reading the stream: a unit whose
/// finish indicator equals "stop", or a failure.
pub open spec fn is_terminal_event(e: ServiceEventView) -> bool {
    match e {
        ServiceEventView::Unit { finish_stop, .. } => finish_stop,
        ServiceEventView::Failure(_) => true,
    }
}

/// A unit carrying the finish indicator "stop".
pub open spec fn is_stop_event(e: ServiceEventView) -> bool {
    match e {
        ServiceEventView::Unit { finish_stop, .. } => finish_stop,
        ServiceEventView::Failure(_) => false,
    }
}

/// The messages the worker pushes for one observed event: completion for
/// a stop indicator, the text for a non-empty piece, a failure notice for
/// an error, and nothing otherwise.
pub open spec fn event_messages(e: ServiceEventView) -> Seq<StreamMessageView> {
    match e {
        ServiceEventView::Unit { finish_stop, content } => if finish_stop {
            seq![StreamMessageView::Done]
        } else {
            match content {
                Some(t) => if t.len() > 0 {
                    seq![StreamMessageView::Token(t)]
                } else {
                    Seq::empty()
                },
                None => Seq::empty(),
            }
        },
        ServiceEventView::Failure(d) => seq![StreamMessageView::Error(d)],
    }
}

/// The messages a whole observed event sequence produces: events are
/// folded in order, and the first terminal event ends the stream — later
/// events are never read.
pub open spec fn stream_messages(events: Seq<ServiceEventView>) -> Seq<StreamMessageView>
    decreases events.len(),
{
    if events.len() == 0 {
        Seq::empty()
    } else if is_terminal_event(events[0]) {
        event_messages(events[0])
    } else {
        event_messages(events[0]) + stream_messages(events.drop_first())
    }
}

/// The abstract values of a sequence of events.
pub open spec fn events_view(s: Seq<ServiceEvent>) -> Seq<ServiceEventView> {
    s.map_values(|e: ServiceEvent| e@)
}

/// The messages an optional push stands for.
pub open spec fn message_option_view(o: Option<StreamMessage>) -> Seq<StreamMessageView> {
    match o {
        Some(m) => seq![m@],
        None => Seq::empty(),
    }
}

/// Classify one observed event: the message to push, if any, and whether
/// the worker must stop reading the stream.
pub fn classify_event(e: ServiceEvent) -> (r: (Option<StreamMessage>, bool))
    ensures
        message_option_view(r.0) == event_messages(e@),
        r.1 == is_terminal_event(e@),
{
    match e {
        ServiceEvent::Unit { finish_stop, content } => {
            if finish_stop {
                (Some(StreamMessage::Done), true)
            } else {
                match content {
                    Some(t) => if t.as_str().is_empty() {
                        (None, false)
                    } else {
                        (Some(StreamMessage::Token(t)), false)
                    },
                    None => (None, false),
                }
            }
        },
        ServiceEvent::Failure(d) => (Some(StreamMessage::Error(d)), true),
    }
}

/// Decomposition of a stream at a point not yet reached by a terminal
/// event: the messages of the whole stream are those of the prefix
/// followed by those of the rest, and the prefix yields only tokens.
pub proof fn lemma_stream_decompose(events: Seq<ServiceEventView>, i: int)
    requires
        0 <= i <= events.len(),
        forall|j: int| 0 <= j < i ==> !is_terminal_event(#[trigger] events[j]),
    ensures
        stream_messages(events) == stream_messages(events.take(i)) + stream_messages(
            events.skip(i),
        ),
        forall|k: int|
            0 <= k < stream_messages(events.take(i)).len() ==> (#[trigger] stream_messages(
                events.take(i),
            )[k]) is Token,
    decreases i,
{
    if i == 0 {
        assert(events.take(0) =~= Seq::<ServiceEventView>::empty());
        assert(events.skip(0) =~= events);
        assert(stream_messages(events.take(0)) + stream_messages(events.skip(0)) =~= stream_messages(
            events,
        ));
    } else {
        let rest = events.drop_first();
        assert(!is_terminal_event(events[0]));
        lemma_stream_decompose(rest, i - 1);
        assert(rest.take(i - 1) =~= events.take(i).drop_first());
        assert(rest.skip(i - 1) =~= events.skip(i));
        assert(stream_messages(events.take(i)) == event_messages(events[0]) + stream_messages(
            rest.take(i - 1),
        ));
        assert(stream_messages(events) =~= stream_messages(events.take(i)) + stream_messages(
            events.skip(i),
        ));
        assert forall|k: int| 0 <= k < stream_messages(events.take(i)).len() implies (
        #[trigger] stream_messages(events.take(i))[k]) is Token by {
            let head = event_messages(events[0]);
            if k >= head.len() {
                assert(stream_messages(events.take(i))[k] == stream_messages(rest.take(i - 1))[k
                    - head.len()]);
            }
        }
    }
}

/// A stream that receives the finish indicator "stop" ends with exactly
/// one completion message: the last message is `Done`, every earlier
/// message is a token, and nothing follows.
pub proof fn lemma_stop_ends_stream(events: Seq<ServiceEventView>, i: int)
    requires
        0 <= i < events.len(),
        is_stop_event(events[i]),
        forall|j: int| 0 <= j < i ==> !is_terminal_event(#[trigger] events[j]),
    ensures
        stream_messages(events).len() >= 1,
        stream_messages(events).last() == StreamMessageView::Done,
        forall|k: int|
            0 <= k < stream_messages(events).len() - 1 ==> (#[trigger] stream_messages(
                events,
            )[k]) is Token,
{
    lemma_stream_decompose(events, i);
    assert(events.skip(i)[0] == events[i]);
    assert(stream_messages(events.skip(i)) == event_messages(events[i]));
    assert(event_messages(events[i]) == seq![StreamMessageView::Done]);
}

/// A stream whose first terminal event is a failure ends with exactly one
/// error message carrying that failure's description: it is the last
/// message, every earlier message is a token, and nothing follows.
pub proof fn lemma_failure_ends_stream(events: Seq<ServiceEventView>, i: int, d: Seq<char>)
    requires
        0 <= i < events.len(),
        events[i] == ServiceEventView::Failure(d),
        forall|j: int| 0 <= j < i ==> !is_terminal_event(#[trigger] events[j]),
    ensures
        stream_messages(events).len() >= 1,
        stream_messages(events).last() == StreamMessageView::Error(d),
        forall|k: int|
            0 <= k < stream_messages(events).len() - 1 ==> (#[trigger] stream_messages(
                events,
            )[k]) is Token,
{
    lemma_stream_decompose(events, i);
    assert(events.skip(i)[0] == events[i]);
    assert(stream_messages(events.skip(i)) == event_messages(events[i]));
    assert(event_messages(events[i]) == seq![StreamMessageView::Error(d)]);
}

} // verus!
