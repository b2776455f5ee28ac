//! Stream messages and the decoding rule for the host callback argument.

use vstd::prelude::*;
use vstd::string::StringExecFns;

verus! {

/// One item carried across the relay from the worker to the dispatcher.
pub enum StreamMessage {
    /// One incremental piece of generated text.
    Token(String),
    /// Sentinel of successful completion; exactly one per stream, always last.
    Done,
    /// A failure notice with its description; it closes the stream.
    Error(String),
}

/// The abstract value of a [`StreamMessage`].
pub enum StreamMessageView {
    Token(Seq<char>),
    Done,
    Error(Seq<char>),
}

impl View for StreamMessage {
    type V = StreamMessageView;

    open spec fn view(&self) -> StreamMessageView {
        match self {
            StreamMessage::Token(t) => StreamMessageView::Token(t@),
            StreamMessage::Done => StreamMessageView::Done,
            StreamMessage::Error(d) => StreamMessageView::Error(d@),
        }
    }
}

/// A message that closes the stream: after it, nothing more is delivered.
pub open spec fn is_terminal_message(m: StreamMessageView) -> bool {
    m is Done || m is Error
}

/// The abstract values of a sequence of messages.
pub open spec fn messages_view(s: Seq<StreamMessage>) -> Seq<StreamMessageView> {
    s.map_values(|m: StreamMessage| m@)
}

/// The string argument the host callback receives for a message.
pub open spec fn decoded(m: StreamMessageView) -> Seq<char> {
    match m {
        StreamMessageView::Token(t) => t,
        StreamMessageView::Done => "[[DONE]]"@,
        StreamMessageView::Error(d) => "Error: "@ + d,
    }
}

/// Decoding rule for the callback argument: a token carries its text,
/// completion the sentinel, and a failure its description behind the
/// error marker.
pub fn decode_message(m: &StreamMessage) -> (r: String)
    ensures
        r@ == decoded(m@),
{
    match m {
        StreamMessage::Token(t) => t.clone(),
        StreamMessage::Done => String::from_str("[[DONE]]"),
        StreamMessage::Error(d) => String::from_str("Error: ").concat(d.as_str()),
    }
}

} // verus!
