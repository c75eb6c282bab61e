//! End-of-message framing: messages on the wire are separated by a fixed
//! delimiter, and a message is complete once the delimiter has been seen.

use memmem::Searcher;
use memmem::TwoWaySearcher;
use vstd::prelude::*;
use vstd::string::*;
use vstd::utf8::*;

verus! {

/// The end-of-message marker as text.
pub const DELIMITER: &'static str = "]]>]]>";

/// Number of bytes in the end-of-message marker.
pub const DELIMITER_LEN: usize = 6;

/// The end-of-message marker as bytes: `]]>]]>`.
pub open spec fn delimiter() -> Seq<u8> {
    seq![0x5du8, 0x5du8, 0x3eu8, 0x5du8, 0x5du8, 0x3eu8]
}

/// `needle` stands in `hay` at offset `at`.
pub open spec fn occurs_at(hay: Seq<u8>, needle: Seq<u8>, at: int) -> bool {
    &&& 0 <= at
    &&& at + needle.len() <= hay.len()
    &&& hay.subrange(at, at + needle.len()) == needle
}

/// `needle` stands somewhere in `hay`.
pub open spec fn contains(hay: Seq<u8>, needle: Seq<u8>) -> bool {
    exists|at: int| occurs_at(hay, needle, at)
}

/// `at` is the leftmost offset at which `needle` stands in `hay`.
pub open spec fn is_first_occurrence(hay: Seq<u8>, needle: Seq<u8>, at: int) -> bool {
    &&& occurs_at(hay, needle, at)
    &&& forall|earlier: int| earlier < at ==> !occurs_at(hay, needle, earlier)
}

/// The leftmost offset at which `needle` stands in `hay`, if it stands there at all.
pub open spec fn first_occurrence(hay: Seq<u8>, needle: Seq<u8>) -> Option<int> {
    if contains(hay, needle) {
        Some(choose|at: int| is_first_occurrence(hay, needle, at))
    } else {
        None
    }
}

/// `memmem::TwoWaySearcher`, carried through as it is: nothing inside it is
/// visible here.
#[verifier::external_type_specification]
#[verifier::external_body]
pub struct ExTwoWaySearcher<'a>(TwoWaySearcher<'a>);

/// The pattern that a searcher was built for.
pub uninterp spec fn searcher_needle(searcher: TwoWaySearcher<'_>) -> Seq<u8>;

/// `memmem::TwoWaySearcher::new`: a searcher for `needle`. The contract only
/// records which pattern the searcher carries.
#[verifier::external_body]
fn searcher_for<'a>(needle: &'a [u8]) -> (searcher: TwoWaySearcher<'a>)
    ensures
        searcher_needle(searcher) == needle@,
{
    TwoWaySearcher::new(needle)
}

/// `memmem::Searcher::search_in` on a `TwoWaySearcher`: the starting index of
/// the leftmost match of the searcher's pattern in `haystack`, or `None` when
/// the pattern does not occur.
#[verifier::external_body]
fn search_in(searcher: &TwoWaySearcher<'_>, haystack: &[u8]) -> (found: Option<usize>)
    ensures
        match found {
            Some(at) => is_first_occurrence(haystack@, searcher_needle(*searcher), at as int),
            None => !contains(haystack@, searcher_needle(*searcher)),
        },
{
    searcher.search_in(haystack)
}

/// The leftmost occurrence is unique: whoever is first is the value of
/// `first_occurrence`.
pub proof fn lemma_first_occurrence(hay: Seq<u8>, needle: Seq<u8>, at: int)
    requires
        is_first_occurrence(hay, needle, at),
    ensures
        first_occurrence(hay, needle) == Some(at),
{
    let chosen = choose|c: int| is_first_occurrence(hay, needle, c);
    assert(occurs_at(hay, needle, at));
    assert(is_first_occurrence(hay, needle, chosen));
    if chosen < at {
        assert(!occurs_at(hay, needle, chosen));
    }
    if at < chosen {
        assert(!occurs_at(hay, needle, at));
    }
}

/// Where `needle` occurs at all, it has a leftmost occurrence.
proof fn lemma_leftmost_exists(hay: Seq<u8>, needle: Seq<u8>, at: int)
    requires
        occurs_at(hay, needle, at),
    ensures
        exists|first: int| is_first_occurrence(hay, needle, first),
    decreases at,
{
    if exists|earlier: int| earlier < at && occurs_at(hay, needle, earlier) {
        let earlier = choose|earlier: int| earlier < at && occurs_at(hay, needle, earlier);
        lemma_leftmost_exists(hay, needle, earlier);
    } else {
        assert(is_first_occurrence(hay, needle, at));
    }
}

/// What `first_occurrence` returns is the leftmost occurrence, and it returns
/// nothing only where there is none.
pub proof fn lemma_first_occurrence_is_leftmost(hay: Seq<u8>, needle: Seq<u8>)
    ensures
        match first_occurrence(hay, needle) {
            Some(at) => is_first_occurrence(hay, needle, at),
            None => !contains(hay, needle),
        },
{
    if contains(hay, needle) {
        let at = choose|at: int| occurs_at(hay, needle, at);
        lemma_leftmost_exists(hay, needle, at);
    }
}

/// The bytes of the marker text are the marker.
pub proof fn lemma_delimiter_bytes()
    ensures
        DELIMITER.spec_bytes() == delimiter(),
        delimiter().len() == DELIMITER_LEN,
{
    reveal_strlit("]]>]]>");
    let text = DELIMITER@;
    assert(text.len() == 6);
    assert(is_ascii_chars(text)) by {
        assert forall|i: int| 0 <= i < text.len() implies 0 <= (#[trigger] text[i]) as nat <= 127 by {
            assert(text[i] == ']' || text[i] == '>');
        }
    }
    is_ascii_chars_encode_utf8(text);
    assert(encode_utf8(text) =~= delimiter());
}

/// Where the first end-of-message marker starts in `bytes`, if one is there.
pub fn find_delimiter(bytes: &[u8]) -> (found: Option<usize>)
    ensures
        match found {
            Some(at) => first_occurrence(bytes@, delimiter()) == Some(at as int),
            None => first_occurrence(bytes@, delimiter()) is None,
        },
{
    proof {
        lemma_delimiter_bytes();
    }
    let searcher = searcher_for(DELIMITER.as_bytes());
    let found = search_in(&searcher, bytes);
    proof {
        if let Some(at) = found {
            lemma_first_occurrence(bytes@, delimiter(), at as int);
        }
    }
    found
}

/// Whether `c` has the Unicode property White_Space.
pub open spec fn is_whitespace(c: char) -> bool {
    let code = c as u32;
    ||| 0x09 <= code <= 0x0d
    ||| code == 0x20
    ||| code == 0x85
    ||| code == 0xa0
    ||| code == 0x1680
    ||| 0x2000 <= code <= 0x200a
    ||| code == 0x2028
    ||| code == 0x2029
    ||| code == 0x202f
    ||| code == 0x205f
    ||| code == 0x3000
}

/// `text` without its leading and trailing whitespace.
pub open spec fn trimmed(text: Seq<char>) -> Seq<char>
    decreases text.len(),
{
    if text.len() == 0 {
        text
    } else if is_whitespace(text.first()) {
        trimmed(text.drop_first())
    } else if is_whitespace(text.last()) {
        trimmed(text.drop_last())
    } else {
        text
    }
}

/// What goes on the wire for `payload`: the UTF-8 bytes of the payload
/// without enclosing whitespace, then the end-of-message marker.
pub open spec fn framed(payload: Seq<char>) -> Seq<u8> {
    encode_utf8(trimmed(payload)) + delimiter()
}

/// Where the first complete message in `bytes` ends: the bytes of the message
/// and the bytes that follow its marker. `None` while no marker has arrived.
pub open spec fn next_frame(bytes: Seq<u8>) -> Option<(Seq<u8>, Seq<u8>)> {
    match first_occurrence(bytes, delimiter()) {
        Some(at) => Some(
            (bytes.subrange(0, at), bytes.subrange(at + delimiter().len(), bytes.len() as int)),
        ),
        None => None,
    }
}

/// What a completed byte range turns into: its text, or a decode failure
/// where the bytes are not UTF-8.
pub open spec fn decoded(message: Seq<u8>) -> Result<Seq<char>, FrameError> {
    if valid_utf8(message) {
        Ok(decode_utf8(message))
    } else {
        Err(FrameError::InvalidUtf8)
    }
}

/// Why the framing layer gave no message.
#[derive(Debug, Clone, Copy, PartialEq, Eq, Structural)]
pub enum FrameError {
    /// The bytes before the marker are not valid UTF-8.
    InvalidUtf8,
    /// Accepting more bytes would take the buffer past its limit.
    TooLarge,
}

/// `str::trim`: the slice of `text` that is left once leading and trailing
/// White_Space characters are taken away.
#[verifier::external_body]
pub(crate) fn trim(text: &str) -> (inner: &str)
    ensures
        inner@ == trimmed(text@),
{
    text.trim()
}

/// `String::from_utf8`: the text that `bytes` encode, or nothing where they
/// are not valid UTF-8.
#[verifier::external_body]
fn string_from_utf8(bytes: Vec<u8>) -> (text: Option<String>)
    ensures
        match text {
            Some(s) => valid_utf8(bytes@) && s@ == decode_utf8(bytes@),
            None => !valid_utf8(bytes@),
        },
{
    String::from_utf8(bytes).ok()
}

/// The bytes to put on the wire for `payload`.
pub fn frame_payload(payload: &str) -> (wire: Vec<u8>)
    ensures
        wire@ == framed(payload@),
{
    proof {
        lemma_delimiter_bytes();
    }
    let inner = trim(payload);
    let mut wire = inner.as_bytes_vec();
    wire.extend_from_slice(DELIMITER.as_bytes());
    assert(wire@ =~= framed(payload@));
    wire
}

/// Bytes that have arrived and have not yet been handed out as a message.
pub struct FrameBuffer {
    bytes: Vec<u8>,
    limit: usize,
}

impl View for FrameBuffer {
    type V = Seq<u8>;

    closed spec fn view(&self) -> Seq<u8> {
        self.bytes@
    }
}

impl FrameBuffer {
    #[verifier::type_invariant]
    spec fn within_limit(&self) -> bool {
        self.bytes@.len() <= self.limit
    }

    /// The most bytes the buffer holds at any time.
    pub closed spec fn spec_limit(&self) -> usize {
        self.limit
    }

    /// The most bytes the buffer holds at any time.
    #[verifier::when_used_as_spec(spec_limit)]
    pub fn limit(&self) -> (limit: usize)
        ensures
            limit == self.spec_limit(),
    {
        self.limit
    }

    /// An empty buffer bounded only by the address space.
    pub fn new() -> (buffer: FrameBuffer)
        ensures
            buffer@ == Seq::<u8>::empty(),
            buffer.limit() == usize::MAX,
    {
        FrameBuffer { bytes: Vec::new(), limit: usize::MAX }
    }

    /// An empty buffer that refuses to grow past `limit` bytes.
    pub fn with_limit(limit: usize) -> (buffer: FrameBuffer)
        ensures
            buffer@ == Seq::<u8>::empty(),
            buffer.limit() == limit,
    {
        FrameBuffer { bytes: Vec::new(), limit }
    }

    /// Moves the buffered bytes out and leaves the buffer empty.
    fn take_bytes(&mut self) -> (bytes: Vec<u8>)
        ensures
            bytes@ == old(self)@,
            final(self)@ == Seq::<u8>::empty(),
            final(self).limit() == old(self).limit(),
    {
        let mut taken = FrameBuffer { bytes: Vec::new(), limit: self.limit };
        std::mem::swap(self, &mut taken);
        taken.bytes
    }

    /// Number of buffered bytes, which never exceeds the limit.
    pub fn len(&self) -> (n: usize)
        ensures
            n == self@.len(),
            n <= self.limit(),
    {
        proof {
            use_type_invariant(self);
        }
        self.bytes.len()
    }

    /// Appends `chunk`, unless that would take the buffer past its limit; then
    /// nothing changes.
    pub fn extend(&mut self, chunk: &[u8]) -> (outcome: Result<(), FrameError>)
        ensures
            final(self).limit() == old(self).limit(),
            old(self)@.len() + chunk@.len() <= old(self).limit() ==> outcome is Ok && final(self)@
                == old(self)@ + chunk@,
            old(self)@.len() + chunk@.len() > old(self).limit() ==> outcome == Err::<
                (),
                FrameError,
            >(FrameError::TooLarge) && final(self)@ == old(self)@,
    {
        proof {
            use_type_invariant(&*self);
        }
        if chunk.len() > self.limit - self.bytes.len() {
            return Err(FrameError::TooLarge);
        }
        let mut bytes = self.take_bytes();
        bytes.extend_from_slice(chunk);
        assert(bytes@ =~= old(self)@ + chunk@);
        self.bytes = bytes;
        Ok(())
    }

    /// Takes the first complete message out of the buffer, with its marker.
    /// Bytes after the marker stay. Without a marker nothing changes.
    pub fn take_message(&mut self) -> (message: Option<Result<String, FrameError>>)
        ensures
            final(self).limit() == old(self).limit(),
            match next_frame(old(self)@) {
                None => message is None && final(self)@ == old(self)@,
                Some((head, rest)) => {
                    &&& final(self)@ == rest
                    &&& match message {
                        Some(Ok(text)) => decoded(head) == Ok::<Seq<char>, FrameError>(text@),
                        Some(Err(e)) => decoded(head) == Err::<Seq<char>, FrameError>(e),
                        None => false,
                    }
                },
            },
    {
        proof {
            use_type_invariant(&*self);
            lemma_first_occurrence_is_leftmost(self@, delimiter());
        }
        match find_delimiter(self.bytes.as_slice()) {
            None => None,
            Some(at) => {
                let mut head = self.take_bytes();
                let rest = head.split_off(at + DELIMITER_LEN);
                head.truncate(at);
                assert(head@ =~= old(self)@.subrange(0, at as int));
                self.bytes = rest;
                match string_from_utf8(head) {
                    Some(text) => Some(Ok(text)),
                    None => Some(Err(FrameError::InvalidUtf8)),
                }
            },
        }
    }
}

/// `hay` ends in `suffix`.
pub open spec fn ends_with(hay: Seq<u8>, suffix: Seq<u8>) -> bool {
    &&& suffix.len() <= hay.len()
    &&& hay.skip(hay.len() - suffix.len()) == suffix
}

/// The first half of the marker, `]]>`. The marker is this half twice, so a
/// payload that ends in it completes a marker three bytes early.
pub open spec fn half_delimiter() -> Seq<u8> {
    delimiter().take(3)
}

/// The payloads that come back from the wire as they went: those that neither
/// hold the marker nor end in its first half.
pub open spec fn frames_cleanly(payload: Seq<u8>) -> bool {
    &&& !contains(payload, delimiter())
    &&& !ends_with(payload, half_delimiter())
}

/// The marker byte by byte.
proof fn lemma_delimiter_shape()
    ensures
        delimiter().len() == 6,
        delimiter()[0] == 0x5d,
        delimiter()[1] == 0x5d,
        delimiter()[2] == 0x3e,
        delimiter()[3] == 0x5d,
        delimiter()[4] == 0x5d,
        delimiter()[5] == 0x3e,
        half_delimiter().len() == 3,
        half_delimiter()[0] == 0x5d,
        half_delimiter()[1] == 0x5d,
        half_delimiter()[2] == 0x3e,
{
}

/// Two markers that overlap without being the same lie three bytes apart.
proof fn lemma_overlapping_markers(wire: Seq<u8>, at: int, end: int)
    requires
        0 <= at < end < at + 6,
        end + 6 <= wire.len(),
        wire[at] == 0x5d,
        wire[at + 1] == 0x5d,
        wire[at + 2] == 0x3e,
        wire[at + 3] == 0x5d,
        wire[at + 4] == 0x5d,
        wire[at + 5] == 0x3e,
        wire[end] == 0x5d,
        wire[end + 1] == 0x5d,
        wire[end + 2] == 0x3e,
    ensures
        end == at + 3,
{
    if end == at + 1 {
        assert(wire[at + 2] == wire[end + 1]);
    } else if end == at + 2 {
        assert(wire[at + 2] == wire[end]);
    } else if end == at + 4 {
        assert(wire[at + 5] == wire[end + 1]);
    } else if end == at + 5 {
        assert(wire[at + 5] == wire[end]);
    }
}

/// Where `needle` stands in `hay` at `at`, the bytes of `hay` from `at` on
/// are those of `needle`.
proof fn lemma_occurrence_bytes(hay: Seq<u8>, needle: Seq<u8>, at: int)
    requires
        occurs_at(hay, needle, at),
    ensures
        forall|j: int| 0 <= j < needle.len() ==> #[trigger] hay[at + j] == needle[j],
{
    assert forall|j: int| 0 <= j < needle.len() implies #[trigger] hay[at + j] == needle[j] by {
        assert(hay.subrange(at, at + needle.len())[j] == needle[j]);
    }
}

/// Behind a payload that frames cleanly, the first marker on the wire is the
/// payload's own, whatever follows it.
pub proof fn lemma_clean_payload_ends_at_marker(payload: Seq<u8>, tail: Seq<u8>)
    requires
        frames_cleanly(payload),
    ensures
        is_first_occurrence(payload + delimiter() + tail, delimiter(), payload.len() as int),
{
    let mark = delimiter();
    let wire = payload + mark + tail;
    let end = payload.len() as int;
    lemma_delimiter_shape();
    assert(wire.subrange(end, end + 6) =~= mark);
    assert(occurs_at(wire, mark, end));
    lemma_occurrence_bytes(wire, mark, end);
    assert forall|at: int| at < end implies !occurs_at(wire, mark, at) by {
        if occurs_at(wire, mark, at) {
            lemma_occurrence_bytes(wire, mark, at);
            if at + 6 <= end {
                assert(payload.subrange(at, at + 6) =~= wire.subrange(at, at + 6));
                assert(occurs_at(payload, mark, at));
            } else {
                assert(wire[at + 0] == mark[0]);
                assert(wire[at + 1] == mark[1]);
                assert(wire[at + 2] == mark[2]);
                assert(wire[at + 3] == mark[3]);
                assert(wire[at + 4] == mark[4]);
                assert(wire[at + 5] == mark[5]);
                assert(wire[end + 0] == mark[0]);
                assert(wire[end + 1] == mark[1]);
                assert(wire[end + 2] == mark[2]);
                lemma_overlapping_markers(wire, at, end);
                let last = payload.skip(end - 3);
                assert(last.len() == 3);
                assert(last[0] == wire[at + 0]);
                assert(last[1] == wire[at + 1]);
                assert(last[2] == wire[at + 2]);
                assert(last =~= half_delimiter());
                assert(ends_with(payload, half_delimiter()));
            }
        }
    }
}

/// A payload that does not frame cleanly is cut short: a marker is complete
/// on the wire before the payload's own.
pub proof fn lemma_unclean_payload_ends_early(payload: Seq<u8>)
    requires
        !frames_cleanly(payload),
    ensures
        exists|at: int| at < payload.len() && occurs_at(payload + delimiter(), delimiter(), at),
{
    let mark = delimiter();
    let wire = payload + mark;
    lemma_delimiter_shape();
    if contains(payload, mark) {
        let at = choose|at: int| occurs_at(payload, mark, at);
        assert(wire.subrange(at, at + 6) =~= payload.subrange(at, at + 6));
        assert(at < payload.len() && occurs_at(wire, mark, at));
    } else {
        let at = payload.len() - 3;
        let last = payload.skip(at);
        assert(last == half_delimiter());
        let window = wire.subrange(at, at + 6);
        assert(window[0] == last[0]);
        assert(window[1] == last[1]);
        assert(window[2] == last[2]);
        assert(window[3] == mark[0]);
        assert(window[4] == mark[1]);
        assert(window[5] == mark[2]);
        assert(window =~= mark);
        assert(at < payload.len() && occurs_at(wire, mark, at));
    }
}

/// While only a proper part of a clean payload's frame has arrived, no
/// message is complete.
pub proof fn lemma_partial_frame_is_incomplete(payload: Seq<u8>, arrived: int)
    requires
        frames_cleanly(payload),
        0 <= arrived < payload.len() + delimiter().len(),
    ensures
        next_frame((payload + delimiter()).take(arrived)) is None,
{
    let mark = delimiter();
    let wire = payload + mark;
    let part = wire.take(arrived);
    lemma_clean_payload_ends_at_marker(payload, Seq::empty());
    assert(payload + mark + Seq::<u8>::empty() =~= wire);
    lemma_first_occurrence_is_leftmost(part, mark);
    if first_occurrence(part, mark) is Some {
        let at = first_occurrence(part, mark).unwrap();
        assert(wire.subrange(at, at + 6) =~= part.subrange(at, at + 6));
        assert(occurs_at(wire, mark, at));
    }
}

/// The first message of a stream that opens with the frame of a clean
/// payload is that payload, and what follows the frame is left over.
pub proof fn lemma_next_frame_of_clean_payload(payload: Seq<u8>, tail: Seq<u8>)
    requires
        frames_cleanly(payload),
    ensures
        next_frame(payload + delimiter() + tail) == Some((payload, tail)),
{
    let wire = payload + delimiter() + tail;
    let end = payload.len() as int;
    lemma_clean_payload_ends_at_marker(payload, tail);
    lemma_first_occurrence(wire, delimiter(), end);
    assert(wire.subrange(0, end) =~= payload);
    assert(wire.subrange(end + delimiter().len(), wire.len() as int) =~= tail);
}

/// A message that is complete in the first part of a stream is the first
/// message of the whole stream, and what the stream holds beyond that part
/// is left over with the rest.
pub proof fn lemma_next_frame_of_longer_stream(part: Seq<u8>, more: Seq<u8>)
    requires
        next_frame(part) is Some,
    ensures
        next_frame(part + more) == Some(
            (next_frame(part).unwrap().0, next_frame(part).unwrap().1 + more),
        ),
{
    let mark = delimiter();
    let whole = part + more;
    lemma_first_occurrence_is_leftmost(part, mark);
    let at = first_occurrence(part, mark).unwrap();
    assert(whole.subrange(at, at + mark.len()) =~= part.subrange(at, at + mark.len()));
    assert forall|earlier: int| earlier < at implies !occurs_at(whole, mark, earlier) by {
        if occurs_at(whole, mark, earlier) {
            assert(part.subrange(earlier, earlier + mark.len()) =~= whole.subrange(
                earlier,
                earlier + mark.len(),
            ));
            assert(occurs_at(part, mark, earlier));
        }
    }
    lemma_first_occurrence(whole, mark, at);
    assert(whole.subrange(0, at) =~= part.subrange(0, at));
    assert(whole.subrange(at + mark.len(), whole.len() as int) =~= part.subrange(
        at + mark.len(),
        part.len() as int,
    ) + more);
}

} // verus!
