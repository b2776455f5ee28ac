//! The per-request session: the relay queue between the stream worker and
//! the host callback dispatcher, with the ordering and termination
//! invariants of delivery, and the streaming entry point.

use vstd::prelude::*;
use crate::message::{
    decode_message,
    decoded,
    is_terminal_message,
    messages_view,
    StreamMessage,
    StreamMessageView,
};
use crate::models::{ChatRequest, MalformedRequest, RequestFields};
use crate::worker::{
    classify_event,
    event_messages,
    events_view,
    is_terminal_event,
    stream_messages,
    ServiceEvent,
    ServiceEventView,
};

verus! {

/// One in-flight request: the relay queue that the stream worker fills
/// and the host dispatcher drains, together with the history of what was
/// pushed and what was delivered to the callback.
pub struct Session {
    queue: Vec<StreamMessage>,
    worker_done: bool,
    closed: bool,
    pushed: Ghost<Seq<StreamMessageView>>,
    delivered: Ghost<Seq<StreamMessageView>>,
}

impl Session {
    /// Everything the worker has pushed onto the relay, in order.
    pub closed spec fn pushed(self) -> Seq<StreamMessageView> {
        self.pushed@
    }

    /// Everything the dispatcher has delivered to the callback, in order.
    pub closed spec fn delivered(self) -> Seq<StreamMessageView> {
        self.delivered@
    }

    /// What sits in the relay queue, pushed but not yet delivered.
    pub closed spec fn queued(self) -> Seq<StreamMessageView> {
        messages_view(self.queue@)
    }

    /// Whether the worker has stopped reading the stream.
    pub closed spec fn worker_finished(self) -> bool {
        self.worker_done
    }

    /// Whether a terminal message has been delivered: afterwards the
    /// dispatcher holds no handles and the callback is never invoked again.
    pub closed spec fn is_closed(self) -> bool {
        self.closed
    }

    /// The session invariant: the pushed messages are the delivered ones
    /// followed by the queued ones; a terminal message only ever stands
    /// last among the pushed messages; the session is closed exactly when
    /// the last delivered message is terminal; and while the worker is
    /// running nothing terminal has been pushed.
    pub closed spec fn wf(self) -> bool {
        &&& self.pushed@ == self.delivered@ + messages_view(self.queue@)
        &&& forall|k: int|
            0 <= k < self.pushed@.len() - 1 ==> !is_terminal_message(#[trigger] self.pushed@[k])
        &&& (self.closed <==> self.delivered@.len() > 0 && is_terminal_message(
            self.delivered@.last(),
        ))
        &&& (!self.worker_done ==> forall|k: int|
            0 <= k < self.pushed@.len() ==> !is_terminal_message(#[trigger] self.pushed@[k]))
    }

    /// A fresh session: nothing pushed, nothing delivered, worker running.
    pub fn new() -> (s: Session)
        ensures
            s.wf(),
            s.pushed() == Seq::<StreamMessageView>::empty(),
            s.delivered() == Seq::<StreamMessageView>::empty(),
            s.queued() == Seq::<StreamMessageView>::empty(),
            !s.worker_finished(),
            !s.is_closed(),
    {
        let s = Session {
            queue: Vec::new(),
            worker_done: false,
            closed: false,
            pushed: Ghost(Seq::empty()),
            delivered: Ghost(Seq::empty()),
        };
        proof {
            assert(messages_view(s.queue@) =~= Seq::<StreamMessageView>::empty());
            assert(s.pushed@ =~= s.delivered@ + messages_view(s.queue@));
        }
        s
    }

    /// The worker observed one event: push its message, if any, wake the
    /// dispatcher, and stop reading at a terminal event. The dispatcher's
    /// side of the session is untouched.
    pub fn worker_event(&mut self, e: ServiceEvent)
        requires
            old(self).wf(),
            !old(self).worker_finished(),
        ensures
            final(self).wf(),
            final(self).pushed() == old(self).pushed() + event_messages(e@),
            final(self).queued() == old(self).queued() + event_messages(e@),
            final(self).delivered() == old(self).delivered(),
            final(self).is_closed() == old(self).is_closed(),
            final(self).worker_finished() == is_terminal_event(e@),
    {
        let ghost e_view = e@;
        let (msg, terminal) = classify_event(e);
        match msg {
            Some(m) => {
                proof {
                    self.pushed@ = self.pushed@ + seq![m@];
                }
                self.queue.push(m);
                proof {
                    assert(messages_view(self.queue@) =~= messages_view(old(self).queue@)
                        + seq![m@]);
                    assert(self.pushed@ =~= self.delivered@ + messages_view(self.queue@));
                    assert(self.pushed@ =~= old(self).pushed() + event_messages(e_view));
                    assert(messages_view(self.queue@) =~= old(self).queued() + event_messages(
                        e_view,
                    ));
                }
            },
            None => {
                proof {
                    assert(self.pushed@ =~= old(self).pushed() + event_messages(e_view));
                    assert(messages_view(self.queue@) =~= old(self).queued() + event_messages(
                        e_view,
                    ));
                }
            },
        }
        self.worker_done = terminal;
    }

    /// The service closed the stream without a stop indicator and without
    /// a failure: the worker stops without pushing a terminal message.
    pub fn worker_close(&mut self)
        requires
            old(self).wf(),
        ensures
            final(self).wf(),
            final(self).pushed() == old(self).pushed(),
            final(self).queued() == old(self).queued(),
            final(self).delivered() == old(self).delivered(),
            final(self).is_closed() == old(self).is_closed(),
            final(self).worker_finished(),
    {
        self.worker_done = true;
    }

    /// Feed a whole observed event sequence to the worker's side of the
    /// session, as the stream worker's loop does: events are consumed in
    /// order up to the first terminal one, then the worker stops; when
    /// the stream ends with no terminal event the worker stops silently.
    pub fn worker_run(&mut self, events: Vec<ServiceEvent>)
        requires
            old(self).wf(),
            !old(self).worker_finished(),
        ensures
            final(self).wf(),
            final(self).pushed() == old(self).pushed() + stream_messages(events_view(events@)),
            final(self).queued() == old(self).queued() + stream_messages(events_view(events@)),
            final(self).delivered() == old(self).delivered(),
            final(self).is_closed() == old(self).is_closed(),
            final(self).worker_finished(),
    {
        let ghost evs = events_view(events@);
        let ghost mut i: int = 0;
        let mut events = events;
        while events.len() > 0 && !self.worker_done
            invariant
                self.wf(),
                self.delivered() == old(self).delivered(),
                self.is_closed() == old(self).is_closed(),
                0 <= i <= evs.len(),
                events_view(events@) == evs.skip(i),
                !self.worker_finished() ==> {
                    &&& forall|j: int| 0 <= j < i ==> !is_terminal_event(#[trigger] evs[j])
                    &&& self.pushed() == old(self).pushed() + stream_messages(evs.take(i))
                    &&& self.queued() == old(self).queued() + stream_messages(evs.take(i))
                },
                self.worker_finished() ==> {
                    &&& self.pushed() == old(self).pushed() + stream_messages(evs)
                    &&& self.queued() == old(self).queued() + stream_messages(evs)
                },
            decreases events.len(),
        {
            let ghost pre = events@;
            let e = events.remove(0);
            proof {
                assert(events_view(pre) == evs.skip(i));
                assert(evs.skip(i).len() == evs.len() - i);
                assert(pre.len() > 0);
                assert(i < evs.len());
                assert(evs.skip(i + 1).len() == evs.len() - (i + 1));
                assert(events_view(pre)[0] == pre[0]@);
                assert(e@ == evs.skip(i)[0]);
                assert(evs.skip(i)[0] == evs[i + 0]);
                assert(e@ == evs[i]);
                assert(events@ =~= pre.drop_first());
                assert forall|j: int| 0 <= j < events@.len() implies events_view(events@)[j]
                    == evs.skip(i + 1)[j] by {
                    assert(events@[j] == pre[j + 1]);
                    assert(events_view(events@)[j] == events@[j]@);
                    assert(evs.skip(i + 1)[j] == evs[i + 1 + j]);
                    assert(events_view(pre)[j + 1] == pre[j + 1]@);
                    assert(evs.skip(i)[j + 1] == evs[i + j + 1]);
                }
                assert(events_view(events@) =~= evs.skip(i + 1));
            }
            self.worker_event(e);
            proof {
                if is_terminal_event(evs[i]) {
                    crate::worker::lemma_stream_decompose(evs, i);
                    assert(evs.skip(i)[0] == evs[i]);
                    assert(stream_messages(evs.skip(i)) == event_messages(evs[i]));
                    assert(self.pushed() =~= old(self).pushed() + stream_messages(evs));
                    assert(self.queued() =~= old(self).queued() + stream_messages(evs));
                } else {
                    crate::worker::lemma_stream_decompose(evs.take(i + 1), i);
                    assert(evs.take(i + 1).take(i) =~= evs.take(i));
                    assert(evs.take(i + 1).skip(i) =~= seq![evs[i]]);
                    let s1 = seq![evs[i]];
                    assert(s1.drop_first() =~= Seq::<ServiceEventView>::empty());
                    assert(stream_messages(s1.drop_first())
                        == Seq::<StreamMessageView>::empty());
                    assert(stream_messages(s1) =~= event_messages(evs[i]));
                    assert(stream_messages(evs.take(i + 1)) =~= stream_messages(evs.take(i))
                        + event_messages(evs[i]));
                    assert(self.pushed() =~= old(self).pushed() + stream_messages(
                        evs.take(i + 1),
                    ));
                    assert(self.queued() =~= old(self).queued() + stream_messages(
                        evs.take(i + 1),
                    ));
                }
                i = i + 1;
            }
        }
        if !self.worker_done {
            proof {
                assert(events_view(events@).len() == 0);
                assert(i == evs.len());
                assert(evs.take(i) =~= evs);
            }
            self.worker_close();
        }
    }

    /// One wake of the dispatcher: deliver exactly one queued message to
    /// the callback as its decoded string argument. After a terminal
    /// message has been delivered the session is closed and nothing more
    /// is ever handed out.
    pub fn dispatch_step(&mut self) -> (r: Option<String>)
        requires
            old(self).wf(),
        ensures
            final(self).wf(),
            final(self).pushed() == old(self).pushed(),
            final(self).worker_finished() == old(self).worker_finished(),
            (old(self).is_closed() || old(self).queued().len() == 0) ==> {
                &&& r is None
                &&& final(self).delivered() == old(self).delivered()
                &&& final(self).queued() == old(self).queued()
                &&& final(self).is_closed() == old(self).is_closed()
            },
            (!old(self).is_closed() && old(self).queued().len() > 0) ==> {
                &&& r matches Some(a) && a@ == decoded(old(self).queued()[0])
                &&& final(self).delivered() == old(self).delivered().push(old(self).queued()[0])
                &&& final(self).queued() == old(self).queued().drop_first()
                &&& final(self).is_closed() == is_terminal_message(old(self).queued()[0])
            },
    {
        if self.closed || self.queue.len() == 0 {
            return None;
        }
        let m = self.queue.remove(0);
        proof {
            assert(m@ == old(self).queued()[0]);
            assert(messages_view(self.queue@) =~= old(self).queued().drop_first());
            self.delivered@ = self.delivered@ + seq![m@];
            assert(self.delivered@ =~= old(self).delivered().push(m@));
        }
        let arg = decode_message(&m);
        let terminal = match m {
            StreamMessage::Token(_) => false,
            StreamMessage::Done => true,
            StreamMessage::Error(_) => true,
        };
        self.closed = terminal;
        proof {
            assert(terminal == is_terminal_message(m@));
            assert(self.pushed@ =~= self.delivered@ + messages_view(self.queue@));
            assert(self.delivered@.last() == m@);
        }
        Some(arg)
    }

    /// Delivery preserves order: what has been delivered is exactly a
    /// prefix of what the worker pushed, in the order it was pushed.
    pub proof fn lemma_delivery_preserves_order(self)
        requires
            self.wf(),
        ensures
            self.delivered() == self.pushed().take(self.delivered().len() as int),
    {
        assert(self.delivered() =~= self.pushed().take(self.delivered().len() as int));
    }

    /// A terminal message is final: once `Done` or an error notice has
    /// been delivered it stands at the very end of the delivered
    /// sequence — the callback is never invoked after it.
    pub proof fn lemma_terminal_delivery_is_final(self, i: int)
        requires
            self.wf(),
            0 <= i < self.delivered().len(),
            is_terminal_message(self.delivered()[i]),
        ensures
            i == self.delivered().len() - 1,
    {
        assert(self.pushed()[i] == self.delivered()[i]);
    }
}

/// The streaming entry point: validate the request synchronously and, on
/// success, hand back a fresh session together with the validated request
/// for the worker; a request with an absent field is rejected before
/// anything is spawned. At return nothing has been delivered — every
/// callback invocation for the request happens later, through
/// [`Session::dispatch_step`].
pub fn start_stream(fields: RequestFields) -> (r: Result<(Session, ChatRequest), MalformedRequest>)
    ensures
        fields@.complete() ==> (r matches Ok(p) && {
            &&& p.0.wf()
            &&& p.0.pushed() == Seq::<StreamMessageView>::empty()
            &&& p.0.queued() == Seq::<StreamMessageView>::empty()
            &&& p.0.delivered() == Seq::<StreamMessageView>::empty()
            &&& !p.0.worker_finished()
            &&& !p.0.is_closed()
            &&& p.1@ == fields@.as_request()
        }),
        !fields@.complete() ==> r is Err,
{
    let req = ChatRequest::from_fields(fields)?;
    Ok((Session::new(), req))
}

} // verus!
