//! Payload text and its bytes: a payload holds the end-of-message marker as
//! text exactly where its encoding holds the marker as bytes.

use crate::framing::contains;
use crate::framing::decoded;
use crate::framing::delimiter;
use crate::framing::ends_with;
use crate::framing::framed;
use crate::framing::frames_cleanly;
use crate::framing::half_delimiter;
use crate::framing::is_whitespace;
use crate::framing::lemma_delimiter_bytes;
use crate::framing::lemma_first_occurrence_is_leftmost;
use crate::framing::lemma_unclean_payload_ends_early;
use crate::framing::lemma_next_frame_of_clean_payload;
use crate::framing::lemma_partial_frame_is_incomplete;
use crate::framing::next_frame;
use crate::framing::occurs_at;
use crate::framing::trimmed;
use crate::framing::FrameError;
use crate::framing::DELIMITER;
use vstd::prelude::*;
use vstd::utf8::*;

verus! {

/// The first half of the end-of-message marker as text.
pub const HALF_DELIMITER: &'static str = "]]>";

/// `pattern` stands in `text` at offset `at`, counted in characters.
pub open spec fn text_occurs_at(text: Seq<char>, pattern: Seq<char>, at: int) -> bool {
    &&& 0 <= at
    &&& at + pattern.len() <= text.len()
    &&& text.subrange(at, at + pattern.len()) == pattern
}

/// `pattern` stands somewhere in `text`.
pub open spec fn text_contains(text: Seq<char>, pattern: Seq<char>) -> bool {
    exists|at: int| text_occurs_at(text, pattern, at)
}

/// `text` ends in `suffix`.
pub open spec fn text_ends_with(text: Seq<char>, suffix: Seq<char>) -> bool {
    text_occurs_at(text, suffix, text.len() - suffix.len())
}

/// The payloads that come back from the wire as they went: those that do
/// not hold the marker, do not end in its first half, and have no enclosing
/// whitespace.
pub open spec fn survives_framing(payload: Seq<char>) -> bool {
    &&& !text_contains(payload, DELIMITER@)
    &&& !text_ends_with(payload, HALF_DELIMITER@)
    &&& trimmed(payload) == payload
}

/// Setting the high bit, alone or with others, gives a byte outside ASCII.
proof fn lemma_high_bit(low: u8)
    by (bit_vector)
    ensures
        0x80u8 | low >= 0x80u8,
        0xC0u8 | low >= 0x80u8,
        0xE0u8 | low >= 0x80u8,
        0xF0u8 | low >= 0x80u8,
{
}

/// The encoding of an ASCII character is the one byte of its code; no byte
/// in the encoding of any other character is ASCII.
proof fn lemma_scalar_bytes(c: char)
    ensures
        encode_scalar(c as u32).len() >= 1,
        (c as u32) < 0x80 ==> encode_scalar(c as u32) == seq![c as u8],
        (c as u32) >= 0x80 ==> forall|k: int|
            0 <= k < encode_scalar(c as u32).len() ==> #[trigger] encode_scalar(c as u32)[k]
                >= 0x80,
{
    let s = c as u32;
    char_is_scalar(c);
    if has_width_1_encoding(s) {
        assert(s as u8 == leading_byte_width_1(s)) by (bit_vector)
            requires
                has_width_1_encoding(s),
        ;
        assert(encode_scalar(s) =~= seq![c as u8]);
    } else {
        lemma_high_bit(((s >> 6) & 0x1F) as u8);
        lemma_high_bit(((s >> 12) & 0x0F) as u8);
        lemma_high_bit(((s >> 18) & 0x7) as u8);
        lemma_high_bit((s & 0x3F) as u8);
        lemma_high_bit(((s >> 6) & 0x3F) as u8);
        lemma_high_bit(((s >> 12) & 0x3F) as u8);
    }
}

/// The byte of an ASCII character is its code.
proof fn lemma_ascii_code(c: char)
    requires
        (c as u32) < 0x80,
    ensures
        (c as u8) as u32 == c as u32,
{
    let s = c as u32;
    assert((s as u8) as u32 == s) by (bit_vector)
        requires
            s < 0x80,
    ;
}

/// The encoding of a text is the encoding of its first character, then that
/// of the others.
proof fn lemma_encode_first(text: Seq<char>)
    requires
        text.len() > 0,
    ensures
        encode_utf8(text) == encode_scalar(text[0] as u32) + encode_utf8(text.drop_first()),
{
}

/// The encoding of two texts in a row is their encodings in a row.
pub proof fn lemma_encode_concat(left: Seq<char>, right: Seq<char>)
    ensures
        encode_utf8(left + right) == encode_utf8(left) + encode_utf8(right),
    decreases left.len(),
{
    if left.len() == 0 {
        assert(left + right =~= right);
        assert(encode_utf8(left) + encode_utf8(right) =~= encode_utf8(right));
    } else {
        let all = left + right;
        assert(all[0] == left[0]);
        assert(all.drop_first() =~= left.drop_first() + right);
        lemma_encode_concat(left.drop_first(), right);
        assert(encode_scalar(left[0] as u32) + (encode_utf8(left.drop_first()) + encode_utf8(right))
            =~= encode_scalar(left[0] as u32) + encode_utf8(left.drop_first()) + encode_utf8(
            right,
        ));
    }
}

/// Every character takes at least one byte.
proof fn lemma_encode_len(text: Seq<char>)
    ensures
        encode_utf8(text).len() >= text.len(),
    decreases text.len(),
{
    if text.len() > 0 {
        lemma_scalar_bytes(text[0]);
        lemma_encode_len(text.drop_first());
    }
}

/// A text whose encoding opens with the encoding of an ASCII pattern opens
/// with that pattern.
proof fn lemma_ascii_prefix(text: Seq<char>, pattern: Seq<char>)
    requires
        is_ascii_chars(pattern),
        encode_utf8(pattern).is_prefix_of(encode_utf8(text)),
    ensures
        pattern.is_prefix_of(text),
    decreases pattern.len(),
{
    if pattern.len() > 0 {
        let wanted = encode_utf8(pattern);
        let bytes = encode_utf8(text);
        lemma_scalar_bytes(pattern[0]);
        lemma_encode_first(pattern);
        assert(wanted[0] == pattern[0] as u8);
        assert(bytes[0] == wanted[0]);
        assert(text.len() > 0);
        lemma_scalar_bytes(text[0]);
        lemma_encode_first(text);
        assert(bytes[0] == encode_scalar(text[0] as u32)[0]);
        assert((text[0] as u32) < 0x80);
        assert(bytes[0] == text[0] as u8);
        assert(text[0] as u8 == pattern[0] as u8);
        lemma_ascii_code(text[0]);
        lemma_ascii_code(pattern[0]);
        assert(text[0] as u32 == pattern[0] as u32);
        char_u32_cast(text[0], text[0] as u32);
        char_u32_cast(pattern[0], pattern[0] as u32);
        assert(text[0] == pattern[0]);
        assert(encode_utf8(pattern.drop_first()) =~= wanted.skip(1));
        assert(encode_utf8(text.drop_first()) =~= bytes.skip(1));
        assert(is_ascii_chars(pattern.drop_first()));
        lemma_ascii_prefix(text.drop_first(), pattern.drop_first());
        assert forall|i: int| 0 <= i < pattern.len() implies pattern[i] == text[i] by {
            if i > 0 {
                assert(pattern.drop_first()[i - 1] == text.drop_first()[i - 1]);
            }
        }
    }
}

/// Where the encoding of an ASCII pattern stands in the encoding of a text,
/// the pattern stands in the text, behind the characters that are encoded
/// before that place.
proof fn lemma_occurrence_in_text(text: Seq<char>, pattern: Seq<char>, at: int)
    requires
        is_ascii_chars(pattern),
        pattern.len() > 0,
        occurs_at(encode_utf8(text), encode_utf8(pattern), at),
    ensures
        exists|index: int|
            text_occurs_at(text, pattern, index) && encode_utf8(text.take(index)).len() == at,
    decreases text.len(),
{
    let bytes = encode_utf8(text);
    let wanted = encode_utf8(pattern);
    lemma_scalar_bytes(pattern[0]);
    lemma_encode_first(pattern);
    assert(wanted.len() >= 1 && wanted[0] == pattern[0] as u8);
    assert(bytes.subrange(at, at + wanted.len())[0] == wanted[0]);
    assert(text.len() > 0);
    lemma_scalar_bytes(text[0]);
    lemma_encode_first(text);
    let head = encode_scalar(text[0] as u32);
    let others = text.drop_first();
    if at >= head.len() {
        let shifted = at - head.len();
        assert(encode_utf8(others).subrange(shifted, shifted + wanted.len()) =~= bytes.subrange(
            at,
            at + wanted.len(),
        ));
        lemma_occurrence_in_text(others, pattern, shifted);
        let inner = choose|index: int|
            text_occurs_at(others, pattern, index) && encode_utf8(others.take(index)).len()
                == shifted;
        let index = inner + 1;
        assert(text.subrange(index, index + pattern.len()) =~= others.subrange(
            inner,
            inner + pattern.len(),
        ));
        assert(text.take(index)[0] == text[0]);
        assert(text.take(index).drop_first() =~= others.take(inner));
        lemma_encode_first(text.take(index));
        assert(text_occurs_at(text, pattern, index) && encode_utf8(text.take(index)).len() == at);
    } else {
        assert(bytes[at] == head[at]);
        assert(head[at] < 0x80);
        assert(at == 0);
        assert(bytes.subrange(0, wanted.len() as int) =~= wanted);
        lemma_ascii_prefix(text, pattern);
        assert(text.subrange(0, pattern.len() as int) =~= pattern);
        assert(text.take(0) =~= Seq::<char>::empty());
        assert(text_occurs_at(text, pattern, 0) && encode_utf8(text.take(0)).len() == at);
    }
}

/// Where a pattern stands in a text, its encoding stands in the encoding of
/// the text, behind the encoding of the characters before it.
proof fn lemma_occurrence_on_wire(text: Seq<char>, pattern: Seq<char>, index: int)
    requires
        text_occurs_at(text, pattern, index),
    ensures
        occurs_at(
            encode_utf8(text),
            encode_utf8(pattern),
            encode_utf8(text.take(index)).len() as int,
        ),
        encode_utf8(text).len() == encode_utf8(text.take(index)).len() + encode_utf8(
            pattern,
        ).len() + encode_utf8(text.skip(index + pattern.len())).len(),
{
    let before = text.take(index);
    let after = text.skip(index + pattern.len());
    assert(text =~= before + pattern + after);
    lemma_encode_concat(before + pattern, after);
    lemma_encode_concat(before, pattern);
    let at = encode_utf8(before).len() as int;
    assert(encode_utf8(text).subrange(at, at + encode_utf8(pattern).len()) =~= encode_utf8(
        pattern,
    ));
}

/// The marker and its first half are ASCII, and their encodings are the
/// bytes of the marker and of its first half.
proof fn lemma_marker_text()
    ensures
        is_ascii_chars(DELIMITER@),
        is_ascii_chars(HALF_DELIMITER@),
        DELIMITER@.len() == 6,
        HALF_DELIMITER@.len() == 3,
        encode_utf8(DELIMITER@) == delimiter(),
        encode_utf8(HALF_DELIMITER@) == half_delimiter(),
{
    reveal_strlit("]]>]]>");
    reveal_strlit("]]>");
    lemma_delimiter_bytes();
    let whole = DELIMITER@;
    let half = HALF_DELIMITER@;
    assert(is_ascii_chars(whole)) by {
        assert forall|i: int| 0 <= i < whole.len() implies '\0' <= #[trigger] whole[i]
            <= '\u{7f}' by {
            assert(whole[i] == ']' || whole[i] == '>');
        }
    }
    assert(is_ascii_chars(half)) by {
        assert forall|i: int| 0 <= i < half.len() implies '\0' <= #[trigger] half[i]
            <= '\u{7f}' by {
            assert(half[i] == ']' || half[i] == '>');
        }
    }
    is_ascii_chars_encode_utf8(half);
    assert(encode_utf8(half) =~= half_delimiter());
}

/// The payloads that hold the marker or end in its first half as text are
/// those whose bytes do.
pub proof fn lemma_text_frames_cleanly(payload: Seq<char>)
    ensures
        frames_cleanly(encode_utf8(payload)) <==> !text_contains(payload, DELIMITER@)
            && !text_ends_with(payload, HALF_DELIMITER@),
{
    let bytes = encode_utf8(payload);
    lemma_marker_text();
    if contains(bytes, delimiter()) {
        let at = choose|at: int| occurs_at(bytes, delimiter(), at);
        lemma_occurrence_in_text(payload, DELIMITER@, at);
    }
    if ends_with(bytes, half_delimiter()) {
        let at = bytes.len() - 3;
        assert(bytes.subrange(at, at + 3) =~= bytes.skip(at));
        lemma_occurrence_in_text(payload, HALF_DELIMITER@, at);
        let index = choose|index: int|
            text_occurs_at(payload, HALF_DELIMITER@, index) && encode_utf8(
                payload.take(index),
            ).len() == at;
        lemma_occurrence_on_wire(payload, HALF_DELIMITER@, index);
        lemma_encode_len(payload.skip(index + 3));
        assert(text_ends_with(payload, HALF_DELIMITER@));
    }
    if text_contains(payload, DELIMITER@) {
        let index = choose|index: int| text_occurs_at(payload, DELIMITER@, index);
        lemma_occurrence_on_wire(payload, DELIMITER@, index);
    }
    if text_ends_with(payload, HALF_DELIMITER@) {
        let index = payload.len() - 3;
        lemma_occurrence_on_wire(payload, HALF_DELIMITER@, index);
        assert(payload.skip(index + 3) =~= Seq::<char>::empty());
        let at = encode_utf8(payload.take(index)).len() as int;
        assert(bytes.skip(at) =~= bytes.subrange(at, at + 3));
    }
}

/// Round trip: what is put on the wire for a payload that survives framing
/// is cut, at its first marker, into the bytes of that payload and nothing
/// more, and these bytes decode to the payload.
pub proof fn law_round_trip(payload: Seq<char>)
    requires
        survives_framing(payload),
    ensures
        next_frame(framed(payload)) == Some((encode_utf8(payload), Seq::<u8>::empty())),
        decoded(encode_utf8(payload)) == Ok::<Seq<char>, FrameError>(payload),
{
    let bytes = encode_utf8(payload);
    lemma_text_frames_cleanly(payload);
    lemma_next_frame_of_clean_payload(bytes, Seq::empty());
    assert(bytes + delimiter() + Seq::<u8>::empty() =~= framed(payload));
    encode_utf8_valid_utf8(payload);
    encode_utf8_decode_utf8(payload);
}

/// What is left of a text without its enclosing whitespace has none.
pub proof fn lemma_trimmed_twice(text: Seq<char>)
    ensures
        trimmed(trimmed(text)) == trimmed(text),
    decreases text.len(),
{
    if text.len() == 0 {
    } else if is_whitespace(text.first()) {
        lemma_trimmed_twice(text.drop_first());
    } else if is_whitespace(text.last()) {
        lemma_trimmed_twice(text.drop_last());
    }
}

/// Round trip, whitespace apart: a payload comes back from the wire without
/// its enclosing whitespace, provided that what is left of it holds no
/// marker and does not end in the first half of one.
pub proof fn law_round_trip_trims(payload: Seq<char>)
    requires
        !text_contains(trimmed(payload), DELIMITER@),
        !text_ends_with(trimmed(payload), HALF_DELIMITER@),
    ensures
        next_frame(framed(payload)) == Some(
            (encode_utf8(trimmed(payload)), Seq::<u8>::empty()),
        ),
        decoded(encode_utf8(trimmed(payload))) == Ok::<Seq<char>, FrameError>(trimmed(payload)),
{
    lemma_trimmed_twice(payload);
    law_round_trip(trimmed(payload));
}

/// The other payloads do not come back: where a payload holds the marker or
/// ends in its first half, a marker is complete on the wire before the
/// payload's own, and the first message is shorter than the payload.
pub proof fn law_marker_in_payload_cuts_it_short(payload: Seq<char>)
    requires
        text_contains(payload, DELIMITER@) || text_ends_with(payload, HALF_DELIMITER@),
        trimmed(payload) == payload,
    ensures
        next_frame(framed(payload)) matches Some((head, _)) && head.len() < encode_utf8(
            payload,
        ).len(),
{
    let bytes = encode_utf8(payload);
    lemma_text_frames_cleanly(payload);
    lemma_unclean_payload_ends_early(bytes);
    lemma_first_occurrence_is_leftmost(framed(payload), delimiter());
}

/// Split delivery: wherever the frame of such a payload is cut, inside the
/// payload or inside the marker, no message is complete in the first part,
/// and with the second part added the payload is.
pub proof fn law_split_delivery(payload: Seq<char>, cut: int)
    requires
        survives_framing(payload),
        0 <= cut < framed(payload).len(),
    ensures
        next_frame(framed(payload).take(cut)) is None,
        next_frame(framed(payload).take(cut) + framed(payload).skip(cut)) == Some(
            (encode_utf8(payload), Seq::<u8>::empty()),
        ),
{
    lemma_text_frames_cleanly(payload);
    lemma_partial_frame_is_incomplete(encode_utf8(payload), cut);
    law_round_trip(payload);
    assert(framed(payload).take(cut) + framed(payload).skip(cut) =~= framed(payload));
}

/// Two messages in a row: from the frames of two such payloads, with
/// whatever follows them, the first message is the first payload; what is
/// left is the frame of the second with what follows; and from that the next
/// message is the second payload. No byte is dropped and none is handed out
/// twice.
pub proof fn law_consecutive_messages(first: Seq<char>, second: Seq<char>, tail: Seq<u8>)
    requires
        survives_framing(first),
        survives_framing(second),
    ensures
        next_frame(framed(first) + framed(second) + tail) == Some(
            (encode_utf8(first), framed(second) + tail),
        ),
        next_frame(framed(second) + tail) == Some((encode_utf8(second), tail)),
{
    let rest = framed(second) + tail;
    lemma_text_frames_cleanly(first);
    lemma_text_frames_cleanly(second);
    lemma_next_frame_of_clean_payload(encode_utf8(first), rest);
    lemma_next_frame_of_clean_payload(encode_utf8(second), tail);
    assert(framed(first) + rest =~= framed(first) + framed(second) + tail);
}

} // verus!
