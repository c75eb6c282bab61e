//! The byte channel under a framed transport, and one that lives in memory.

use vstd::prelude::*;

verus! {

/// A byte channel failed to read or to write.
#[derive(Debug, Clone, Copy, PartialEq, Eq, Structural)]
pub struct ChannelError;

/// What one read handed out: the bytes, none of them where the peer has
/// closed the stream, or a failure.
pub type ReadResult = Result<Seq<u8>, ChannelError>;

/// One call of `write`: the bytes offered, and how many of them were
/// accepted or that the channel failed.
pub type WriteCall = (Seq<u8>, Result<usize, ChannelError>);

/// What a read handed out, with the bytes as a sequence.
pub open spec fn read_result(chunk: Result<Vec<u8>, ChannelError>) -> ReadResult {
    match chunk {
        Ok(bytes) => Ok(bytes@),
        Err(e) => Err(e),
    }
}

/// All the bytes that these reads handed out, in order.
pub open spec fn received(reads: Seq<ReadResult>) -> Seq<u8>
    decreases reads.len(),
{
    if reads.len() == 0 {
        Seq::empty()
    } else {
        match reads.last() {
            Ok(bytes) => received(reads.drop_last()) + bytes,
            Err(_) => received(reads.drop_last()),
        }
    }
}

/// The bytes that one call of `write` got accepted.
pub open spec fn accepted(call: WriteCall) -> Seq<u8> {
    match call.1 {
        Ok(count) => call.0.take(count as int),
        Err(_) => Seq::empty(),
    }
}

/// All the bytes that these calls of `write` got accepted, in order.
pub open spec fn sent(writes: Seq<WriteCall>) -> Seq<u8>
    decreases writes.len(),
{
    if writes.len() == 0 {
        Seq::empty()
    } else {
        sent(writes.drop_last()) + accepted(writes.last())
    }
}

/// A connected duplex stream of bytes.
///
/// The two spec functions are the channel's history. A channel implemented
/// outside verified code keeps their defaults, and nothing checks that it
/// honours what `read` and `write` promise here.
pub trait ByteChannel {
    /// What every `read` so far has handed out, oldest first.
    open spec fn reads(&self) -> Seq<ReadResult> {
        arbitrary()
    }

    /// Every call of `write` so far, oldest first.
    open spec fn writes(&self) -> Seq<WriteCall> {
        arbitrary()
    }

    /// Hands out the bytes that arrive next, at most `max` of them. No bytes
    /// at all mean that the peer has closed the stream.
    fn read(&mut self, max: usize) -> (chunk: Result<Vec<u8>, ChannelError>)
        ensures
            final(self).writes() == old(self).writes(),
            final(self).reads() == old(self).reads().push(read_result(chunk)),
            chunk matches Ok(bytes) ==> bytes@.len() <= max,
    ;

    /// Accepts a prefix of `bytes` and says how long it is.
    fn write(&mut self, bytes: &[u8]) -> (count: Result<usize, ChannelError>)
        ensures
            final(self).reads() == old(self).reads(),
            final(self).writes() == old(self).writes().push((bytes@, count)),
            count matches Ok(n) ==> n <= bytes@.len(),
    ;
}

/// One more read adds its bytes to those received.
pub proof fn lemma_received_push(reads: Seq<ReadResult>, next: ReadResult)
    ensures
        received(reads.push(next)) == match next {
            Ok(bytes) => received(reads) + bytes,
            Err(_) => received(reads),
        },
{
    assert(reads.push(next).drop_last() =~= reads);
}

/// What two runs of reads handed out is what the first handed out, then what
/// the second did.
pub proof fn lemma_received_concat(first: Seq<ReadResult>, second: Seq<ReadResult>)
    ensures
        received(first + second) == received(first) + received(second),
    decreases second.len(),
{
    if second.len() == 0 {
        assert(first + second =~= first);
        assert(received(first) + received(second) =~= received(first));
    } else {
        let all = first + second;
        assert(all.drop_last() =~= first + second.drop_last());
        assert(all.last() == second.last());
        lemma_received_concat(first, second.drop_last());
        match second.last() {
            Ok(bytes) => {
                assert(received(first) + received(second.drop_last()) + bytes =~= received(first)
                    + (received(second.drop_last()) + bytes));
            },
            Err(_) => {},
        }
    }
}

/// One more call of `write` adds what it got accepted to what was sent.
pub proof fn lemma_sent_push(writes: Seq<WriteCall>, next: WriteCall)
    ensures
        sent(writes.push(next)) == sent(writes) + accepted(next),
{
    assert(writes.push(next).drop_last() =~= writes);
}

/// What two runs of calls of `write` got accepted is what the first did, then
/// what the second did.
pub proof fn lemma_sent_concat(first: Seq<WriteCall>, second: Seq<WriteCall>)
    ensures
        sent(first + second) == sent(first) + sent(second),
    decreases second.len(),
{
    if second.len() == 0 {
        assert(first + second =~= first);
        assert(sent(first) + sent(second) =~= sent(first));
    } else {
        let all = first + second;
        assert(all.drop_last() =~= first + second.drop_last());
        assert(all.last() == second.last());
        lemma_sent_concat(first, second.drop_last());
        assert(sent(first) + sent(second.drop_last()) + accepted(second.last()) =~= sent(first) + (
        sent(second.drop_last()) + accepted(second.last())));
    }
}

/// A channel in memory whose reads hand back what was written to it.
pub struct Loopback {
    wire: Vec<u8>,
    cursor: usize,
    reads: Ghost<Seq<ReadResult>>,
    writes: Ghost<Seq<WriteCall>>,
}

impl Loopback {
    #[verifier::type_invariant]
    spec fn consistent(&self) -> bool {
        &&& self.cursor <= self.wire@.len()
        &&& received(self.reads@) == self.wire@.take(self.cursor as int)
        &&& sent(self.writes@) == self.wire@
    }

    /// Bytes written and not yet read.
    pub closed spec fn in_flight(&self) -> Seq<u8> {
        self.wire@.skip(self.cursor as int)
    }

    /// A channel through which nothing has gone yet.
    pub fn new() -> (channel: Loopback)
        ensures
            channel.reads() == Seq::<ReadResult>::empty(),
            channel.writes() == Seq::<WriteCall>::empty(),
            channel.in_flight() == Seq::<u8>::empty(),
    {
        let wire: Vec<u8> = Vec::new();
        assert(wire@.take(0) =~= Seq::empty());
        assert(wire@.skip(0) =~= Seq::empty());
        assert(received(Seq::<ReadResult>::empty()) == Seq::<u8>::empty());
        assert(sent(Seq::<WriteCall>::empty()) == Seq::<u8>::empty());
        Loopback { wire, cursor: 0, reads: Ghost(Seq::empty()), writes: Ghost(Seq::empty()) }
    }

    /// Number of bytes written and not yet read. What was read and what is
    /// in flight make up what was written.
    pub fn available(&self) -> (n: usize)
        ensures
            n == self.in_flight().len(),
            received(self.reads()) + self.in_flight() == sent(self.writes()),
    {
        proof {
            use_type_invariant(self);
        }
        assert(self.wire@.take(self.cursor as int) + self.wire@.skip(self.cursor as int)
            =~= self.wire@);
        self.wire.len() - self.cursor
    }
}

impl ByteChannel for Loopback {
    closed spec fn reads(&self) -> Seq<ReadResult> {
        self.reads@
    }

    closed spec fn writes(&self) -> Seq<WriteCall> {
        self.writes@
    }

    /// Hands out the oldest unread bytes, `max` of them or all that are left.
    fn read(&mut self, max: usize) -> (chunk: Result<Vec<u8>, ChannelError>)
        ensures
            chunk matches Ok(bytes) && bytes@ == old(self).in_flight().take(
                if max <= old(self).in_flight().len() {
                    max as int
                } else {
                    old(self).in_flight().len() as int
                },
            ),
            final(self).in_flight() == old(self).in_flight().skip(chunk.unwrap()@.len() as int),
    {
        proof {
            use_type_invariant(&*self);
        }
        let left = self.wire.len() - self.cursor;
        let count = if max <= left {
            max
        } else {
            left
        };
        let end = self.cursor + count;
        let bytes = vstd::slice::slice_to_vec(
            vstd::slice::slice_subrange(self.wire.as_slice(), self.cursor, end),
        );
        proof {
            lemma_received_push(self.reads@, Ok(bytes@));
            assert(self.wire@.take(end as int) =~= self.wire@.take(self.cursor as int) + bytes@);
            assert(bytes@ =~= self.in_flight().take(count as int));
            assert(self.wire@.skip(end as int) =~= self.in_flight().skip(count as int));
        }
        let ghost reads = self.reads@.push(Ok(bytes@));
        let ghost writes = self.writes@;
        let mut taken = Loopback::new();
        std::mem::swap(self, &mut taken);
        *self = Loopback { wire: taken.wire, cursor: end, reads: Ghost(reads), writes: Ghost(writes) };
        Ok(bytes)
    }

    /// Accepts all of `bytes`.
    fn write(&mut self, bytes: &[u8]) -> (count: Result<usize, ChannelError>)
        ensures
            count == Ok::<usize, ChannelError>(bytes@.len() as usize),
            final(self).in_flight() == old(self).in_flight() + bytes@,
    {
        proof {
            use_type_invariant(&*self);
        }
        let mut taken = Loopback::new();
        std::mem::swap(self, &mut taken);
        let cursor = taken.cursor;
        let ghost reads = taken.reads@;
        let ghost writes = taken.writes@;
        let mut wire = taken.wire;
        wire.extend_from_slice(bytes);
        let count = bytes.len();
        let ghost call: WriteCall = (bytes@, Ok(count));
        proof {
            lemma_sent_push(writes, call);
            assert(bytes@.take(count as int) =~= bytes@);
            assert(wire@ =~= old(self).wire@ + bytes@);
            assert(wire@.take(cursor as int) =~= old(self).wire@.take(cursor as int));
            assert(wire@.skip(cursor as int) =~= old(self).in_flight() + bytes@);
            assert(sent(writes.push(call)) == wire@);
            assert(received(reads) == wire@.take(cursor as int));
        }
        *self = Loopback { wire, cursor, reads: Ghost(reads), writes: Ghost(writes.push(call)) };
        Ok(count)
    }
}

} // verus!
