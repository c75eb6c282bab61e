//! The framed transport: whole messages over a byte channel.

use crate::framing::decoded;
use crate::framing::delimiter;
use crate::framing::frame_payload;
use crate::framing::framed;
use crate::framing::lemma_next_frame_of_clean_payload;
use crate::framing::lemma_next_frame_of_longer_stream;
use crate::framing::lemma_partial_frame_is_incomplete;
use crate::framing::next_frame;
use crate::framing::trimmed;
use crate::framing::FrameBuffer;
use crate::framing::FrameError;
use crate::payload::law_consecutive_messages;
use crate::payload::lemma_text_frames_cleanly;
use crate::payload::survives_framing;
use crate::transport::channel::accepted;
use crate::transport::channel::lemma_received_concat;
use crate::transport::channel::lemma_received_push;
use crate::transport::channel::lemma_sent_concat;
use crate::transport::channel::lemma_sent_push;
use crate::transport::channel::read_result;
use crate::transport::channel::received;
use crate::transport::channel::sent;
use crate::transport::channel::ByteChannel;
use crate::transport::channel::ChannelError;
use crate::transport::channel::ReadResult;
use crate::transport::channel::WriteCall;
use crate::transport::delivered;
use crate::transport::Delivered;
use crate::transport::Transport;
use crate::transport::TransportError;
use crate::transport::Written;
use vstd::prelude::*;
use vstd::utf8::*;

verus! {

/// The most bytes asked of the channel in one read.
pub const READ_CHUNK: usize = 128;

/// Whole messages over a byte channel, told apart by the end-of-message
/// marker.
pub struct FramedTransport<C: ByteChannel> {
    channel: C,
    buffer: FrameBuffer,
    outbox: Ghost<Seq<Written>>,
    inbox: Ghost<Seq<Delivered>>,
}

/// What a message cut out of the stream is handed out as.
pub open spec fn reply_for(head: Seq<u8>) -> Delivered {
    match decoded(head) {
        Ok(text) => Ok(text),
        Err(e) => Err(TransportError::Framing(e)),
    }
}

/// How many bytes a read asks of the channel while `pending` wait for their
/// marker: a chunk, or what the limit still allows.
pub open spec fn asked(pending: Seq<u8>, limit: usize) -> int {
    if limit - pending.len() < READ_CHUNK {
        limit - pending.len()
    } else {
        READ_CHUNK as int
    }
}

/// Whether a read that holds `pending` turns to the channel: it does while no
/// message is complete and the limit is not reached.
pub open spec fn wants_more(pending: Seq<u8>, limit: usize) -> bool {
    next_frame(pending) is None && pending.len() < limit
}

/// Whether `result` lets a read that holds `pending` go on: it is a chunk
/// that is not empty and no longer than asked for.
pub open spec fn feeds(pending: Seq<u8>, limit: usize, result: ReadResult) -> bool {
    result matches Ok(chunk) && 0 < chunk.len() <= asked(pending, limit)
}

/// How a read ends that starts with `pending` and gets `results` from the
/// channel, one after the other: the reply and the bytes that stay pending.
/// `None` where a read would not get exactly these results: it turns to the
/// channel only while it wants more, and stops at the first result that does
/// not feed it: with no bytes the peer has closed the stream, with a failure
/// the channel has failed.
pub open spec fn read_steps(pending: Seq<u8>, limit: usize, results: Seq<ReadResult>) -> Option<
    (Delivered, Seq<u8>),
>
    decreases results.len(),
{
    if results.len() == 0 {
        match next_frame(pending) {
            Some((head, rest)) => Some((reply_for(head), rest)),
            None => if pending.len() >= limit {
                Some((Err(TransportError::Framing(FrameError::TooLarge)), pending))
            } else {
                None
            },
        }
    } else if !wants_more(pending, limit) {
        None
    } else if feeds(pending, limit, results[0]) {
        read_steps(pending + results[0]->Ok_0, limit, results.drop_first())
    } else if results.len() > 1 {
        None
    } else {
        match results[0] {
            Ok(chunk) => if chunk.len() == 0 {
                Some((Err(TransportError::ConnectionClosed), pending))
            } else {
                None
            },
            Err(_) => Some((Err(TransportError::Io), pending)),
        }
    }
}

/// What a read holds after `results`, all of which fed it: `pending` and
/// the chunks behind it. `None` where the read would have stopped before.
spec fn fed_by(pending: Seq<u8>, limit: usize, results: Seq<ReadResult>) -> Option<
    Seq<u8>,
>
    decreases results.len(),
{
    if results.len() == 0 {
        Some(pending)
    } else if wants_more(pending, limit) && feeds(pending, limit, results[0]) {
        fed_by(pending + results[0]->Ok_0, limit, results.drop_first())
    } else {
        None
    }
}

/// Whether `call` takes a write on that has `rest` left to send: all of
/// `rest` was offered, and some of it accepted.
pub open spec fn takes(rest: Seq<u8>, call: WriteCall) -> bool {
    &&& call.0 == rest
    &&& call.1 matches Ok(count) && 0 < count <= rest.len()
}

/// How a write of `wire` ends that makes `calls` of the channel, one after
/// the other. `None` where a write would not make exactly these calls: it
/// offers all that is left each time, and fails at the first call that
/// accepts nothing.
pub open spec fn write_steps(wire: Seq<u8>, calls: Seq<WriteCall>) -> Option<
    Result<(), TransportError>,
>
    decreases calls.len(),
{
    if calls.len() == 0 {
        if wire.len() == 0 {
            Some(Ok(()))
        } else {
            None
        }
    } else if wire.len() == 0 {
        None
    } else if takes(wire, calls[0]) {
        write_steps(wire.skip(calls[0].1->Ok_0 as int), calls.drop_first())
    } else if calls.len() > 1 || calls[0].0 != wire {
        None
    } else {
        match calls[0].1 {
            Ok(count) => if count == 0 {
                Some(Err(TransportError::Io))
            } else {
                None
            },
            Err(_) => Some(Err(TransportError::Io)),
        }
    }
}

/// What a write of `wire` has left to send after `calls`, each of which took
/// it on. `None` where the write would have stopped before.
spec fn left_after(wire: Seq<u8>, calls: Seq<WriteCall>) -> Option<Seq<u8>>
    decreases calls.len(),
{
    if calls.len() == 0 {
        Some(wire)
    } else if wire.len() > 0 && takes(wire, calls[0]) {
        left_after(wire.skip(calls[0].1->Ok_0 as int), calls.drop_first())
    } else {
        None
    }
}

/// A read that was fed by `results` and is fed by `next` too holds that
/// chunk as well.
proof fn lemma_fed_by_push(
    pending: Seq<u8>,
    limit: usize,
    results: Seq<ReadResult>,
    next: ReadResult,
)
    requires
        fed_by(pending, limit, results) is Some,
        wants_more(fed_by(pending, limit, results).unwrap(), limit),
        feeds(fed_by(pending, limit, results).unwrap(), limit, next),
    ensures
        fed_by(pending, limit, results.push(next)) == Some(
            fed_by(pending, limit, results).unwrap() + next->Ok_0,
        ),
    decreases results.len(),
{
    let longer = results.push(next);
    if results.len() == 0 {
        assert(longer.drop_first() =~= Seq::<ReadResult>::empty());
        assert(longer[0] == next);
        assert(fed_by(pending + next->Ok_0, limit, longer.drop_first()) == Some(
            pending + next->Ok_0,
        ));
    } else {
        assert(longer.drop_first() =~= results.drop_first().push(next));
        assert(longer[0] == results[0]);
        lemma_fed_by_push(pending + results[0]->Ok_0, limit, results.drop_first(), next);
    }
}

/// A read that was fed by `results` ends as one that starts with what it
/// holds by then.
proof fn lemma_read_steps_after(
    pending: Seq<u8>,
    limit: usize,
    results: Seq<ReadResult>,
    then: Seq<ReadResult>,
)
    requires
        fed_by(pending, limit, results) is Some,
    ensures
        read_steps(pending, limit, results + then) == read_steps(
            fed_by(pending, limit, results).unwrap(),
            limit,
            then,
        ),
    decreases results.len(),
{
    if results.len() == 0 {
        assert(results + then =~= then);
    } else {
        assert((results + then).drop_first() =~= results.drop_first() + then);
        lemma_read_steps_after(pending + results[0]->Ok_0, limit, results.drop_first(), then);
    }
}

/// A write that `calls` took on and `next` takes on too has that much less
/// left.
proof fn lemma_left_after_push(wire: Seq<u8>, calls: Seq<WriteCall>, next: WriteCall)
    requires
        left_after(wire, calls) is Some,
        left_after(wire, calls).unwrap().len() > 0,
        takes(left_after(wire, calls).unwrap(), next),
    ensures
        left_after(wire, calls.push(next)) == Some(
            left_after(wire, calls).unwrap().skip(next.1->Ok_0 as int),
        ),
    decreases calls.len(),
{
    let longer = calls.push(next);
    if calls.len() == 0 {
        assert(longer.drop_first() =~= Seq::<WriteCall>::empty());
        assert(longer[0] == next);
        assert(left_after(wire.skip(next.1->Ok_0 as int), longer.drop_first()) == Some(
            wire.skip(next.1->Ok_0 as int),
        ));
    } else {
        assert(longer.drop_first() =~= calls.drop_first().push(next));
        assert(longer[0] == calls[0]);
        lemma_left_after_push(wire.skip(calls[0].1->Ok_0 as int), calls.drop_first(), next);
    }
}

/// A write that `calls` took on ends as one of what is left by then.
proof fn lemma_write_steps_after(wire: Seq<u8>, calls: Seq<WriteCall>, then: Seq<WriteCall>)
    requires
        left_after(wire, calls) is Some,
    ensures
        write_steps(wire, calls + then) == write_steps(left_after(wire, calls).unwrap(), then),
    decreases calls.len(),
{
    if calls.len() == 0 {
        assert(calls + then =~= then);
    } else {
        assert((calls + then).drop_first() =~= calls.drop_first() + then);
        lemma_write_steps_after(wire.skip(calls[0].1->Ok_0 as int), calls.drop_first(), then);
    }
}

impl<C: ByteChannel> FramedTransport<C> {
    /// The channel under the transport.
    pub closed spec fn channel(&self) -> C {
        self.channel
    }

    /// Bytes that have arrived and belong to no message handed out yet.
    pub closed spec fn pending(&self) -> Seq<u8> {
        self.buffer@
    }

    /// The most bytes that may wait for their marker.
    pub closed spec fn limit(&self) -> usize {
        self.buffer.limit()
    }

    /// Every call of `write_message` so far, oldest first.
    pub closed spec fn written(&self) -> Seq<Written> {
        self.outbox@
    }

    /// What every call of `read_message` so far has handed out, oldest
    /// first.
    pub closed spec fn delivered(&self) -> Seq<Delivered> {
        self.inbox@
    }

    /// What the channel handed out between the moments `before` and `after`.
    pub open spec fn reads_between(before: Self, after: Self) -> Seq<ReadResult> {
        after.channel().reads().skip(before.channel().reads().len() as int)
    }

    /// The calls of `write` that the channel got between the moments
    /// `before` and `after`.
    pub open spec fn writes_between(before: Self, after: Self) -> Seq<WriteCall> {
        after.channel().writes().skip(before.channel().writes().len() as int)
    }

    /// How a read relates the transport before it, the transport after it
    /// and the reply: the read ends as `read_steps` says of the bytes that
    /// were pending and of what the channel handed out during the read.
    pub open spec fn read_outcome(
        before: Self,
        after: Self,
        reply: Result<String, TransportError>,
    ) -> bool {
        &&& after.limit() == before.limit()
        &&& after.written() == before.written()
        &&& after.delivered() == before.delivered().push(delivered(reply))
        &&& after.channel().writes() == before.channel().writes()
        &&& before.channel().reads().is_prefix_of(after.channel().reads())
        &&& read_steps(before.pending(), before.limit(), Self::reads_between(before, after))
            == Some((delivered(reply), after.pending()))
    }

    /// How a write relates the transport before it, the transport after it
    /// and the outcome: the write ends as `write_steps` says of the frame of
    /// `payload` and of the calls that the channel got during the write.
    pub open spec fn write_outcome(
        before: Self,
        after: Self,
        payload: Seq<char>,
        outcome: Result<(), TransportError>,
    ) -> bool {
        &&& after.limit() == before.limit()
        &&& after.pending() == before.pending()
        &&& after.delivered() == before.delivered()
        &&& after.written() == before.written().push((payload, outcome))
        &&& after.channel().reads() == before.channel().reads()
        &&& before.channel().writes().is_prefix_of(after.channel().writes())
        &&& write_steps(framed(payload), Self::writes_between(before, after)) == Some(outcome)
    }

    /// A transport over `channel` whose buffer is bounded only by the address
    /// space.
    pub fn new(channel: C) -> (transport: Self)
        ensures
            transport.channel() == channel,
            transport.pending() == Seq::<u8>::empty(),
            transport.limit() == usize::MAX,
            transport.written() == Seq::<Written>::empty(),
            transport.delivered() == Seq::<Delivered>::empty(),
    {
        FramedTransport {
            channel,
            buffer: FrameBuffer::new(),
            outbox: Ghost(Seq::empty()),
            inbox: Ghost(Seq::empty()),
        }
    }

    /// A transport over `channel` that gives up on a message once `limit`
    /// bytes wait for their marker.
    pub fn with_limit(channel: C, limit: usize) -> (transport: Self)
        ensures
            transport.channel() == channel,
            transport.pending() == Seq::<u8>::empty(),
            transport.limit() == limit,
            transport.written() == Seq::<Written>::empty(),
            transport.delivered() == Seq::<Delivered>::empty(),
    {
        FramedTransport {
            channel,
            buffer: FrameBuffer::with_limit(limit),
            outbox: Ghost(Seq::empty()),
            inbox: Ghost(Seq::empty()),
        }
    }

    /// Gives the channel back.
    pub fn into_channel(self) -> (channel: C)
        ensures
            channel == self.channel(),
    {
        self.channel
    }

    /// Number of bytes that have arrived and belong to no message handed out
    /// yet.
    pub fn buffered(&self) -> (n: usize)
        ensures
            n == self.pending().len(),
    {
        self.buffer.len()
    }

    /// Hands out the next complete message, reading from the channel until
    /// its marker has arrived.
    pub fn read_message(&mut self) -> (reply: Result<String, TransportError>)
        ensures
            Self::read_outcome(*old(self), *final(self), reply),
    {
        let ghost start = old(self).pending();
        let ghost limit = old(self).limit();
        let ghost inbox = self.inbox@;
        assert(Self::reads_between(*old(self), *self) =~= Seq::<ReadResult>::empty());
        loop
            invariant
                start == old(self).pending(),
                limit == old(self).limit(),
                self.limit() == limit,
                self.written() == old(self).written(),
                self.inbox@ == inbox,
                inbox == old(self).delivered(),
                self.channel().writes() == old(self).channel().writes(),
                old(self).channel().reads().is_prefix_of(self.channel().reads()),
                fed_by(start, limit, Self::reads_between(*old(self), *self)) == Some(
                    self.pending(),
                ),
            decreases self.limit() - self.pending().len(),
        {
            let ghost got = Self::reads_between(*old(self), *self);
            proof {
                lemma_read_steps_after(start, limit, got, Seq::empty());
                assert(got + Seq::<ReadResult>::empty() =~= got);
            }
            match self.buffer.take_message() {
                Some(Ok(text)) => {
                    proof {
                        self.inbox@ = inbox.push(Ok(text@));
                    }
                    return Ok(text);
                },
                Some(Err(e)) => {
                    proof {
                        self.inbox@ = inbox.push(Err(TransportError::Framing(e)));
                    }
                    return Err(TransportError::Framing(e));
                },
                None => {},
            }
            let room = self.buffer.limit() - self.buffer.len();
            if room == 0 {
                let reply = Err(TransportError::Framing(FrameError::TooLarge));
                proof {
                    self.inbox@ = inbox.push(delivered(reply));
                }
                return reply;
            }
            let max = if room < READ_CHUNK {
                room
            } else {
                READ_CHUNK
            };
            let chunk = self.channel.read(max);
            let ghost last = read_result(chunk);
            proof {
                assert(Self::reads_between(*old(self), *self) =~= got.push(last));
                assert(got.push(last) =~= got + seq![last]);
                assert(seq![last].drop_first() =~= Seq::<ReadResult>::empty());
            }
            match chunk {
                Err(_) => {
                    let reply = Err(TransportError::Io);
                    proof {
                        lemma_read_steps_after(start, limit, got, seq![last]);
                        self.inbox@ = inbox.push(delivered(reply));
                    }
                    return reply;
                },
                Ok(bytes) => {
                    if bytes.len() == 0 {
                        let reply = Err(TransportError::ConnectionClosed);
                        proof {
                            lemma_read_steps_after(start, limit, got, seq![last]);
                            self.inbox@ = inbox.push(delivered(reply));
                        }
                        return reply;
                    }
                    proof {
                        lemma_fed_by_push(start, limit, got, last);
                    }
                    // The chunk is no longer than the room that was left, so
                    // the buffer takes it.
                    if let Err(e) = self.buffer.extend(bytes.as_slice()) {
                        return Err(TransportError::Framing(e));
                    }
                },
            }
        }
    }

    /// Sends `payload` as one message: its text without enclosing whitespace,
    /// then the end-of-message marker.
    pub fn write_message(&mut self, payload: &str) -> (outcome: Result<(), TransportError>)
        ensures
            Self::write_outcome(*old(self), *final(self), payload@, outcome),
    {
        let wire = frame_payload(payload);
        let ghost outbox = self.outbox@;
        let mut done: usize = 0;
        assert(Self::writes_between(*old(self), *self) =~= Seq::<WriteCall>::empty());
        assert(wire@.skip(0) =~= wire@);
        while done < wire.len()
            invariant
                done <= wire@.len(),
                wire@ == framed(payload@),
                self.limit() == old(self).limit(),
                self.pending() == old(self).pending(),
                self.delivered() == old(self).delivered(),
                self.outbox@ == outbox,
                outbox == old(self).written(),
                self.channel().reads() == old(self).channel().reads(),
                old(self).channel().writes().is_prefix_of(self.channel().writes()),
                left_after(wire@, Self::writes_between(*old(self), *self)) == Some(
                    wire@.skip(done as int),
                ),
            decreases wire@.len() - done,
        {
            let ghost made = Self::writes_between(*old(self), *self);
            let rest = vstd::slice::slice_subrange(wire.as_slice(), done, wire.len());
            assert(rest@ =~= wire@.skip(done as int));
            let count = self.channel.write(rest);
            let ghost call: WriteCall = (rest@, count);
            proof {
                assert(Self::writes_between(*old(self), *self) =~= made.push(call));
                assert(made.push(call) =~= made + seq![call]);
                assert(seq![call].drop_first() =~= Seq::<WriteCall>::empty());
            }
            let accepted = match count {
                Ok(n) => n,
                Err(_) => 0,
            };
            if accepted == 0 {
                let outcome = Err(TransportError::Io);
                proof {
                    lemma_write_steps_after(wire@, made, seq![call]);
                    self.outbox@ = outbox.push((payload@, outcome));
                }
                return outcome;
            }
            proof {
                lemma_left_after_push(wire@, made, call);
                assert(rest@.skip(accepted as int) =~= wire@.skip(done + accepted));
            }
            done = done + accepted;
        }
        proof {
            let made = Self::writes_between(*old(self), *self);
            lemma_write_steps_after(wire@, made, Seq::empty());
            assert(made + Seq::<WriteCall>::empty() =~= made);
            self.outbox@ = outbox.push((payload@, Ok(())));
        }
        Ok(())
    }
}

/// What a single read handed out is its chunk, or nothing.
proof fn lemma_received_one(result: ReadResult)
    ensures
        received(seq![result]) == match result {
            Ok(bytes) => bytes,
            Err(_) => Seq::<u8>::empty(),
        },
{
    lemma_received_push(Seq::empty(), result);
    assert(Seq::<ReadResult>::empty().push(result) =~= seq![result]);
    assert(received(Seq::<ReadResult>::empty()) == Seq::<u8>::empty());
    match result {
        Ok(bytes) => {
            assert(Seq::<u8>::empty() + bytes =~= bytes);
        },
        Err(_) => {},
    }
}

/// What the end of a read says of the stream, that is of the bytes that were
/// pending followed by all that the channel handed out during the read.
/// Where the stream holds a complete message, the read hands out the first
/// one and leaves pending what follows its marker. Where it holds none, the
/// whole stream stays pending, and the read fails: because the limit is
/// reached, because the channel failed last, or because the channel handed
/// out nothing last.
pub proof fn lemma_read_steps_stream(
    pending: Seq<u8>,
    limit: usize,
    results: Seq<ReadResult>,
    reply: Delivered,
    left: Seq<u8>,
)
    requires
        read_steps(pending, limit, results) == Some((reply, left)),
    ensures
        match next_frame(pending + received(results)) {
            Some((head, rest)) => reply == reply_for(head) && left == rest,
            None => {
                &&& left == pending + received(results)
                &&& match reply {
                    Err(TransportError::Framing(FrameError::TooLarge)) => left.len() >= limit,
                    Err(TransportError::Io) => results.len() > 0 && results.last() is Err,
                    Err(TransportError::ConnectionClosed) => results.len() > 0 && results.last()
                        == Ok::<Seq<u8>, ChannelError>(Seq::empty()),
                    _ => false,
                }
            },
        },
    decreases results.len(),
{
    if results.len() == 0 {
        assert(received(results) == Seq::<u8>::empty());
        assert(pending + received(results) =~= pending);
    } else {
        let first = results[0];
        let others = results.drop_first();
        assert(results =~= seq![first] + others);
        lemma_received_concat(seq![first], others);
        lemma_received_one(first);
        if feeds(pending, limit, first) {
            lemma_read_steps_stream(pending + first->Ok_0, limit, others, reply, left);
            assert(pending + first->Ok_0 + received(others) =~= pending + received(results));
            if others.len() > 0 {
                assert(results.last() == others.last());
            }
        } else {
            assert(others =~= Seq::<ReadResult>::empty());
            assert(received(others) == Seq::<u8>::empty());
            assert(pending + received(results) =~= pending);
        }
    }
}

/// What the end of a write says of the bytes that the channel accepted
/// during it: on success they are the wire, on failure a proper part of it
/// from its start.
pub proof fn lemma_write_steps_sent(
    wire: Seq<u8>,
    calls: Seq<WriteCall>,
    outcome: Result<(), TransportError>,
)
    requires
        write_steps(wire, calls) == Some(outcome),
    ensures
        match outcome {
            Ok(_) => sent(calls) == wire,
            Err(e) => {
                &&& e == TransportError::Io
                &&& sent(calls).len() < wire.len()
                &&& sent(calls) == wire.take(sent(calls).len() as int)
            },
        },
    decreases calls.len(),
{
    if calls.len() == 0 {
        assert(sent(calls) == Seq::<u8>::empty());
        assert(wire =~= Seq::<u8>::empty());
    } else {
        let first = calls[0];
        let others = calls.drop_first();
        assert(calls =~= seq![first] + others);
        lemma_sent_concat(seq![first], others);
        lemma_sent_push(Seq::empty(), first);
        assert(Seq::<WriteCall>::empty().push(first) =~= seq![first]);
        assert(sent(Seq::<WriteCall>::empty()) == Seq::<u8>::empty());
        assert(sent(seq![first]) =~= accepted(first));
        if takes(wire, first) {
            let count = first.1->Ok_0 as int;
            lemma_write_steps_sent(wire.skip(count), others, outcome);
            assert(wire.take(count) + wire.skip(count) =~= wire);
            if outcome is Err {
                let more = sent(others).len() as int;
                assert(wire.take(count) + wire.skip(count).take(more) =~= wire.take(count + more));
            }
        } else {
            assert(others =~= Seq::<WriteCall>::empty());
            assert(sent(others) == Seq::<u8>::empty());
            assert(accepted(first) =~= Seq::<u8>::empty());
            assert(sent(calls) =~= Seq::<u8>::empty());
            assert(wire.take(0) =~= Seq::<u8>::empty());
        }
    }
}

/// A run of reads that each hand out a chunk that is not empty hands out
/// nothing only where the run is empty.
proof fn lemma_received_nothing(reads: Seq<ReadResult>)
    requires
        forall|i: int| 0 <= i < reads.len() ==> (#[trigger] reads[i] matches Ok(chunk) && chunk.len() > 0),
        received(reads).len() == 0,
    ensures
        reads.len() == 0,
{
    if reads.len() > 0 {
        assert(reads.last() == reads[reads.len() - 1]);
    }
}

/// Sending: once a write has succeeded, the bytes that the channel accepted
/// during it, in however many pieces, are the payload without enclosing
/// whitespace followed by the marker, and nothing else.
pub proof fn law_write_sends_frame<C: ByteChannel>(
    before: FramedTransport<C>,
    after: FramedTransport<C>,
    payload: Seq<char>,
    outcome: Result<(), TransportError>,
)
    requires
        FramedTransport::write_outcome(before, after, payload, outcome),
        outcome is Ok,
    ensures
        sent(FramedTransport::writes_between(before, after)) == framed(payload),
        framed(payload) == encode_utf8(trimmed(payload)) + delimiter(),
{
    lemma_write_steps_sent(framed(payload), FramedTransport::writes_between(before, after), outcome);
}

/// Round trip and split delivery: once the bytes that were pending and those
/// that arrived during a read, in however many pieces, make up the frame of a
/// payload that survives framing, followed by `tail`, the read hands out
/// that payload and leaves `tail` pending.
pub proof fn law_read_delivers_payload<C: ByteChannel>(
    before: FramedTransport<C>,
    after: FramedTransport<C>,
    reply: Result<String, TransportError>,
    payload: Seq<char>,
    tail: Seq<u8>,
)
    requires
        FramedTransport::read_outcome(before, after, reply),
        before.pending() + received(FramedTransport::reads_between(before, after)) == framed(
            payload,
        ) + tail,
        survives_framing(payload),
    ensures
        reply matches Ok(text) && text@ == payload,
        after.pending() == tail,
{
    lemma_read_steps_stream(
        before.pending(),
        before.limit(),
        FramedTransport::reads_between(before, after),
        delivered(reply),
        after.pending(),
    );
    lemma_text_frames_cleanly(payload);
    lemma_next_frame_of_clean_payload(encode_utf8(payload), tail);
    encode_utf8_valid_utf8(payload);
    encode_utf8_decode_utf8(payload);
}

/// Round trip over a channel that hands back what it accepted: a payload
/// that survives framing is written, and then a read starts with nothing
/// pending. Let the channel, during the read, hand out only bytes that it
/// accepted during the write, in their order, and never fail or hand out
/// nothing. Then the read hands out the payload as it was written, and
/// leaves nothing pending.
pub proof fn law_echo_round_trip<C: ByteChannel>(
    start: FramedTransport<C>,
    between: FramedTransport<C>,
    end: FramedTransport<C>,
    payload: Seq<char>,
    outcome: Result<(), TransportError>,
    reply: Result<String, TransportError>,
)
    requires
        FramedTransport::write_outcome(start, between, payload, outcome),
        FramedTransport::read_outcome(between, end, reply),
        outcome is Ok,
        between.pending() == Seq::<u8>::empty(),
        survives_framing(payload),
        framed(payload).len() <= between.limit(),
        received(FramedTransport::reads_between(between, end)).is_prefix_of(
            sent(FramedTransport::writes_between(start, between)),
        ),
        forall|i: int|
            0 <= i < FramedTransport::reads_between(between, end).len() ==> (
            #[trigger] FramedTransport::reads_between(between, end)[i] matches Ok(chunk)
                && chunk.len() > 0),
    ensures
        reply matches Ok(text) && text@ == payload,
        end.pending() == Seq::<u8>::empty(),
{
    let taken = FramedTransport::reads_between(between, end);
    let stream = received(taken);
    let wire = framed(payload);
    law_write_sends_frame(start, between, payload, outcome);
    assert(sent(FramedTransport::writes_between(start, between)) == wire);
    assert(Seq::<u8>::empty() + stream =~= stream);
    assert(wire.take(stream.len() as int) =~= stream);
    lemma_read_steps_stream(
        between.pending(),
        between.limit(),
        taken,
        delivered(reply),
        end.pending(),
    );
    if stream.len() < wire.len() {
        lemma_text_frames_cleanly(payload);
        lemma_partial_frame_is_incomplete(encode_utf8(payload), stream.len() as int);
        if taken.len() > 0 {
            assert(taken.last() == taken[taken.len() - 1]);
        }
    } else {
        assert(stream =~= wire);
        assert(stream + Seq::<u8>::empty() =~= stream);
        law_read_delivers_payload(between, end, reply, payload, Seq::empty());
    }
}

/// Split delivery, read by read: let the channel hand out the frame of such
/// a payload in the pieces of `plan`, none of them empty, cut wherever,
/// inside the payload or inside the marker. A read that starts with nothing
/// pending, and whose limit the frame does not pass, takes every piece of
/// the plan, hands out the payload and leaves nothing pending.
pub proof fn law_split_reads_deliver_payload<C: ByteChannel>(
    before: FramedTransport<C>,
    after: FramedTransport<C>,
    reply: Result<String, TransportError>,
    payload: Seq<char>,
    plan: Seq<ReadResult>,
)
    requires
        FramedTransport::read_outcome(before, after, reply),
        before.pending() == Seq::<u8>::empty(),
        forall|i: int|
            0 <= i < plan.len() ==> (#[trigger] plan[i] matches Ok(chunk) && chunk.len() > 0),
        received(plan) == framed(payload),
        FramedTransport::reads_between(before, after).is_prefix_of(plan),
        framed(payload).len() <= before.limit(),
        survives_framing(payload),
    ensures
        reply matches Ok(text) && text@ == payload,
        FramedTransport::reads_between(before, after) == plan,
        after.pending() == Seq::<u8>::empty(),
{
    let taken = FramedTransport::reads_between(before, after);
    let untaken = plan.skip(taken.len() as int);
    let stream = received(taken);
    let wire = framed(payload);
    assert(plan =~= taken + untaken);
    lemma_received_concat(taken, untaken);
    assert(Seq::<u8>::empty() + stream =~= stream);
    assert(wire.take(stream.len() as int) =~= stream);
    lemma_read_steps_stream(
        before.pending(),
        before.limit(),
        taken,
        delivered(reply),
        after.pending(),
    );
    if stream.len() < wire.len() {
        lemma_text_frames_cleanly(payload);
        lemma_partial_frame_is_incomplete(encode_utf8(payload), stream.len() as int);
        if taken.len() > 0 {
            assert(taken.last() == plan[taken.len() - 1]);
        }
    } else {
        assert(stream =~= wire);
        assert forall|i: int| 0 <= i < untaken.len() implies (#[trigger] untaken[i] matches Ok(
            chunk,
        ) && chunk.len() > 0) by {
            assert(untaken[i] == plan[taken.len() + i]);
        }
        lemma_received_nothing(untaken);
        assert(taken =~= plan);
        assert(stream + Seq::<u8>::empty() =~= stream);
        law_read_delivers_payload(before, after, reply, payload, Seq::empty());
    }
}

/// Two messages in a row: where the bytes pending before the first of two
/// reads, together with all that arrived during both, make up the frames of
/// two such payloads followed by `tail`, and the first read hands out a
/// message, the first read hands out the first payload, the second read the
/// second, and `tail` is what stays pending: no byte is lost and none is
/// handed out twice.
pub proof fn law_reads_deliver_in_order<C: ByteChannel>(
    start: FramedTransport<C>,
    between: FramedTransport<C>,
    end: FramedTransport<C>,
    first_reply: Result<String, TransportError>,
    second_reply: Result<String, TransportError>,
    first: Seq<char>,
    second: Seq<char>,
    tail: Seq<u8>,
)
    requires
        FramedTransport::read_outcome(start, between, first_reply),
        FramedTransport::read_outcome(between, end, second_reply),
        first_reply is Ok,
        start.pending() + received(FramedTransport::reads_between(start, between)) + received(
            FramedTransport::reads_between(between, end),
        ) == framed(first) + framed(second) + tail,
        survives_framing(first),
        survives_framing(second),
    ensures
        first_reply matches Ok(text) && text@ == first,
        second_reply matches Ok(text) && text@ == second,
        end.pending() == tail,
{
    let early = start.pending() + received(FramedTransport::reads_between(start, between));
    let late = received(FramedTransport::reads_between(between, end));
    lemma_read_steps_stream(
        start.pending(),
        start.limit(),
        FramedTransport::reads_between(start, between),
        delivered(first_reply),
        between.pending(),
    );
    lemma_next_frame_of_longer_stream(early, late);
    law_consecutive_messages(first, second, tail);
    encode_utf8_valid_utf8(first);
    encode_utf8_decode_utf8(first);
    assert(between.pending() + late == framed(second) + tail);
    law_read_delivers_payload(between, end, second_reply, second, tail);
}

impl<C: ByteChannel + Send> Transport for FramedTransport<C> {
    open spec fn outbox(&self) -> Seq<Written> {
        self.written()
    }

    open spec fn inbox(&self) -> Seq<Delivered> {
        self.delivered()
    }

    fn read_xml(&mut self) -> (reply: Result<String, TransportError>)
        ensures
            Self::read_outcome(*old(self), *final(self), reply),
    {
        self.read_message()
    }

    fn write_xml(&mut self, data: &str) -> (outcome: Result<(), TransportError>)
        ensures
            Self::write_outcome(*old(self), *final(self), data@, outcome),
    {
        self.write_message(data)
    }
}

} // verus!
