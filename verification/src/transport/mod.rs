//! Transports: what a session needs from the layer that moves whole messages.

pub mod channel;
pub mod framed;
pub mod russh;

use crate::framing::FrameError;
use vstd::prelude::*;

verus! {

/// Why a transport gave no message or took none.
#[derive(Debug, Clone, Copy, PartialEq, Eq, Structural)]
pub enum TransportError {
    /// The peer closed the stream before a message was complete.
    ConnectionClosed,
    /// The byte channel reported a failure.
    Io,
    /// The bytes that arrived do not make a message.
    Framing(FrameError),
}

/// One call of `write_xml`: the payload handed in, and how the call ended.
pub type Written = (Seq<char>, Result<(), TransportError>);

/// What one call of `read_xml` handed out: the text of a message, or a
/// failure.
pub type Delivered = Result<Seq<char>, TransportError>;

/// What a read handed out, with the text as a sequence.
pub open spec fn delivered(reply: Result<String, TransportError>) -> Delivered {
    match reply {
        Ok(text) => Ok(text@),
        Err(e) => Err(e),
    }
}

/// A transport moves whole messages to and from the peer.
///
/// The two spec functions are the transport's history. A transport
/// implemented outside verified code keeps their defaults, and nothing checks
/// that it honours what `read_xml` and `write_xml` promise here.
pub trait Transport: Send {
    /// Every call of `write_xml` so far, oldest first.
    open spec fn outbox(&self) -> Seq<Written> {
        arbitrary()
    }

    /// What every call of `read_xml` so far has handed out, oldest first.
    open spec fn inbox(&self) -> Seq<Delivered> {
        arbitrary()
    }

    /// Waits for the next complete message from the peer.
    fn read_xml(&mut self) -> (reply: Result<String, TransportError>)
        ensures
            final(self).outbox() == old(self).outbox(),
            final(self).inbox() == old(self).inbox().push(delivered(reply)),
    ;

    /// Sends `data` as one message.
    fn write_xml(&mut self, data: &str) -> (outcome: Result<(), TransportError>)
        ensures
            final(self).outbox() == old(self).outbox().push((data@, outcome)),
            final(self).inbox() == old(self).inbox(),
    ;
}

} // verus!
