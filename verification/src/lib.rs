//! A NETCONF client core: end-of-message framing over a byte channel, the
//! capability handshake, and the synchronous request/reply session.

pub mod framing;
pub mod greeting;
pub mod payload;
pub mod transport;

use crate::greeting::check_greeting;
use crate::greeting::document_tokens;
use crate::greeting::greeting_verdict;
use crate::greeting::listed_capabilities;
use crate::greeting::GreetingError;
use crate::greeting::BASE_CAPABILITY;
use crate::transport::Delivered;
use crate::transport::Transport;
use crate::transport::TransportError;
use vstd::prelude::*;

verus! {

/// The greeting that a session opens with: the base namespace and the
/// capabilities of this side.
pub const HELLO: &'static str = r#"
<?xml version="1.0" encoding="UTF-8"?>
<hello xmlns="urn:ietf:params:xml:ns:netconf:base:1.0">
    <capabilities>
        <capability>
            urn:ietf:params:netconf:base:1.0
        </capability>
    </capabilities>
</hello>
        "#;

/// The request for the running configuration.
pub const GET_CONFIG: &'static str = r#"
<?xml version="1.0" encoding="UTF-8"?>
<rpc message-id="100"
    xmlns="urn:ietf:params:xml:ns:netconf:base:1.0">
    <get-config>
        <source>
            <running/>
        </source>
    </get-config>
</rpc>
        "#;

/// Where a session stands.
#[derive(Debug, Clone, Copy, PartialEq, Eq, Structural)]
pub enum SessionState {
    /// The transport is there and no message has been exchanged.
    Uninitialized,
    /// The greetings are being exchanged.
    Handshaking,
    /// The handshake succeeded; requests may be sent.
    Ready,
    /// The session is over; nothing more is sent.
    Closed,
}

/// Why a session gave no reply, or did not come about.
#[derive(Debug, Clone, Copy, PartialEq, Eq, Structural)]
pub enum SessionError {
    /// The session is not ready: it was closed, or it failed before.
    Closed,
    /// The transport failed; the session is closed from now on.
    Transport(TransportError),
    /// The peer's greeting was not accepted.
    Handshake(GreetingError),
}

/// What a reply is, with the text as a sequence.
pub open spec fn reply_text(reply: Result<String, SessionError>) -> Result<
    Seq<char>,
    SessionError,
> {
    match reply {
        Ok(text) => Ok(text@),
        Err(e) => Err(e),
    }
}

/// How a handshake ends, given how the writing of this side's greeting ended
/// and, where it was written, what the reading of the peer's greeting
/// handed out. It succeeds exactly where both went well and the peer's
/// greeting is accepted.
pub open spec fn handshake_verdict(wrote: Result<(), TransportError>, read: Delivered) -> Result<
    (),
    SessionError,
> {
    match (wrote, read) {
        (Err(e), _) => Err(SessionError::Transport(e)),
        (Ok(_), Err(e)) => Err(SessionError::Transport(e)),
        (Ok(_), Ok(greeting)) => match greeting_verdict(greeting) {
            Ok(_) => Ok(()),
            Err(e) => Err(SessionError::Handshake(e)),
        },
    }
}

/// What a request is answered with, given how the writing of the request
/// ended and, where it was written, what the reading of the reply handed
/// out: the reply as it was read, or the failure of the transport.
pub open spec fn exchange_reply(wrote: Result<(), TransportError>, read: Delivered) -> Result<
    Seq<char>,
    SessionError,
> {
    match (wrote, read) {
        (Err(e), _) => Err(SessionError::Transport(e)),
        (Ok(_), Err(e)) => Err(SessionError::Transport(e)),
        (Ok(_), Ok(text)) => Ok(text),
    }
}

/// A connection to a NETCONF server.
pub struct Connection<T: Transport> {
    transport: T,
    state: SessionState,
}

impl<T: Transport> Connection<T> {
    /// The transport that the session owns.
    pub closed spec fn transport(&self) -> T {
        self.transport
    }

    /// Where the session stands.
    pub closed spec fn spec_state(&self) -> SessionState {
        self.state
    }

    /// A session over `transport` before its handshake.
    pub closed spec fn fresh(transport: T) -> Connection<T> {
        Connection { transport, state: SessionState::Uninitialized }
    }

    /// Whether, between the moments `before` and `after`, the transport was
    /// handed `payload` to write, once, and then, if and only if that went
    /// well, asked to read, once; and nothing else was asked of it.
    pub open spec fn wrote_then_read(before: Self, after: Self, payload: Seq<char>) -> bool {
        let calls = after.transport().outbox();
        let reads = after.transport().inbox();
        &&& calls.len() == before.transport().outbox().len() + 1
        &&& calls.drop_last() == before.transport().outbox()
        &&& calls.last().0 == payload
        &&& if calls.last().1 is Ok {
            reads.len() == before.transport().inbox().len() + 1 && reads.drop_last()
                == before.transport().inbox()
        } else {
            reads == before.transport().inbox()
        }
    }

    /// How a handshake relates the session before it, the session after it
    /// and the outcome. The transport is handed this side's greeting and
    /// then, where that went well, asked for the peer's. The outcome is what
    /// `handshake_verdict` makes of the two. The session is ready where the
    /// handshake succeeded and closed where it did not.
    pub open spec fn handshake_outcome(
        before: Self,
        after: Self,
        outcome: Result<(), SessionError>,
    ) -> bool {
        &&& Self::wrote_then_read(before, after, HELLO@)
        &&& outcome == handshake_verdict(
            after.transport().outbox().last().1,
            after.transport().inbox().last(),
        )
        &&& after.state() == if outcome is Ok {
            SessionState::Ready
        } else {
            SessionState::Closed
        }
    }

    /// How a request relates the session before it, the session after it and
    /// the reply. A session that is not ready refuses and touches nothing. A
    /// ready one hands the request to the transport and then, where that
    /// went well, asks it for the reply. The reply is what `exchange_reply`
    /// makes of the two. The session stays ready where there is a reply and
    /// is closed where there is none.
    pub open spec fn exchange_outcome(
        before: Self,
        after: Self,
        request: Seq<char>,
        reply: Result<String, SessionError>,
    ) -> bool {
        if before.state() != SessionState::Ready {
            &&& reply == Err::<String, SessionError>(SessionError::Closed)
            &&& after == before
        } else {
            &&& Self::wrote_then_read(before, after, request)
            &&& reply_text(reply) == exchange_reply(
                after.transport().outbox().last().1,
                after.transport().inbox().last(),
            )
            &&& after.state() == if reply is Ok {
                SessionState::Ready
            } else {
                SessionState::Closed
            }
        }
    }

    /// Opens a session over `transport`: exchanges greetings and hands back
    /// the session, ready, or says why there is none.
    pub fn new(transport: T) -> (opened: Result<Connection<T>, SessionError>)
        ensures
            match opened {
                Ok(conn) => Self::handshake_outcome(Self::fresh(transport), conn, Ok(())),
                Err(e) => exists|failed: Connection<T>|
                    Self::handshake_outcome(Self::fresh(transport), failed, Err(e)),
            },
    {
        let mut conn = Connection { transport, state: SessionState::Uninitialized };
        match conn.hello() {
            Ok(()) => Ok(conn),
            Err(e) => {
                assert(Self::handshake_outcome(Self::fresh(transport), conn, Err(e)));
                Err(e)
            },
        }
    }

    /// Exchanges greetings with the peer.
    fn hello(&mut self) -> (outcome: Result<(), SessionError>)
        requires
            old(self).state() == SessionState::Uninitialized,
        ensures
            Self::handshake_outcome(*old(self), *final(self), outcome),
    {
        self.state = SessionState::Handshaking;
        if let Err(e) = self.transport.write_xml(HELLO) {
            self.state = SessionState::Closed;
            assert(self.transport.outbox().drop_last() =~= old(self).transport().outbox());
            return Err(SessionError::Transport(e));
        }
        let ghost reads = self.transport.inbox();
        assert(self.transport.outbox().drop_last() =~= old(self).transport().outbox());
        let read = self.transport.read_xml();
        assert(self.transport.inbox().drop_last() =~= reads);
        match read {
            Err(e) => {
                self.state = SessionState::Closed;
                Err(SessionError::Transport(e))
            },
            Ok(greeting) => {
                match check_greeting(greeting.as_str()) {
                    Ok(()) => {
                        self.state = SessionState::Ready;
                        Ok(())
                    },
                    Err(e) => {
                        self.state = SessionState::Closed;
                        Err(SessionError::Handshake(e))
                    },
                }
            },
        }
    }

    /// Where the session stands.
    #[verifier::when_used_as_spec(spec_state)]
    pub fn state(&self) -> (state: SessionState)
        ensures
            state == self.spec_state(),
    {
        self.state
    }

    /// Sends `request` and waits for the reply, which comes back as the peer
    /// sent it.
    pub fn execute(&mut self, request: &str) -> (reply: Result<String, SessionError>)
        ensures
            Self::exchange_outcome(*old(self), *final(self), request@, reply),
    {
        match self.state {
            SessionState::Ready => {},
            _ => {
                return Err(SessionError::Closed);
            },
        }
        let ghost reads = self.transport.inbox();
        let wrote = self.transport.write_xml(request);
        assert(self.transport.outbox().drop_last() =~= old(self).transport().outbox());
        if let Err(e) = wrote {
            self.state = SessionState::Closed;
            return Err(SessionError::Transport(e));
        }
        let read = self.transport.read_xml();
        assert(self.transport.inbox().drop_last() =~= reads);
        match read {
            Ok(text) => Ok(text),
            Err(e) => {
                self.state = SessionState::Closed;
                Err(SessionError::Transport(e))
            },
        }
    }

    /// Asks the peer for its running configuration.
    pub fn get_config(&mut self) -> (reply: Result<String, SessionError>)
        ensures
            Self::exchange_outcome(*old(self), *final(self), GET_CONFIG@, reply),
    {
        self.execute(GET_CONFIG)
    }

    /// Ends the session. The transport is not touched.
    pub fn close(&mut self)
        ensures
            final(self).state() == SessionState::Closed,
            final(self).transport() == old(self).transport(),
    {
        self.state = SessionState::Closed;
    }

    /// Gives the transport back.
    pub fn into_transport(self) -> (transport: T)
        ensures
            transport == self.transport(),
    {
        self.transport
    }

    /// A handshake in which the peer's greeting arrives and lists no
    /// capability fails for that reason, and leaves the session closed.
    pub proof fn law_greeting_without_capabilities_fails(
        before: Self,
        after: Self,
        outcome: Result<(), SessionError>,
        greeting: Seq<char>,
    )
        requires
            Self::handshake_outcome(before, after, outcome),
            after.transport().outbox().last().1 is Ok,
            after.transport().inbox().last() == Ok::<Seq<char>, TransportError>(greeting),
            listed_capabilities(document_tokens(greeting)) == Some(Seq::<Seq<char>>::empty()),
        ensures
            outcome == Err::<(), SessionError>(
                SessionError::Handshake(GreetingError::NoCapabilities),
            ),
            after.state() == SessionState::Closed,
    {
    }

    /// A handshake in which the peer's greeting arrives and lists the base
    /// capability, alone or among others, succeeds and leaves the session
    /// ready.
    pub proof fn law_greeting_with_base_capability_succeeds(
        before: Self,
        after: Self,
        outcome: Result<(), SessionError>,
        greeting: Seq<char>,
        listed: Seq<Seq<char>>,
    )
        requires
            Self::handshake_outcome(before, after, outcome),
            after.transport().outbox().last().1 is Ok,
            after.transport().inbox().last() == Ok::<Seq<char>, TransportError>(greeting),
            listed_capabilities(document_tokens(greeting)) == Some(listed),
            listed.contains(BASE_CAPABILITY@),
        ensures
            outcome is Ok,
            after.state() == SessionState::Ready,
    {
    }

    /// Once a request has failed, the session refuses every further request
    /// and asks nothing more of the transport.
    pub proof fn law_failure_closes_session(
        start: Self,
        failed: Self,
        end: Self,
        first_request: Seq<char>,
        next_request: Seq<char>,
        first_reply: Result<String, SessionError>,
        next_reply: Result<String, SessionError>,
    )
        requires
            Self::exchange_outcome(start, failed, first_request, first_reply),
            Self::exchange_outcome(failed, end, next_request, next_reply),
            first_reply is Err,
        ensures
            next_reply == Err::<String, SessionError>(SessionError::Closed),
            end == failed,
    {
    }
}

} // verus!
