//! What holds of every frame: its shape, its length, that decoding undoes
//! encoding, and that a damaged frame is not taken for a sound one.
use crate::crc::{crc8, lemma_crc8_detects_byte_change, lemma_crc8_self_check};
use crate::error::FrameError;
use crate::framing::{
    decoded, escape, escape_byte, frame, frame_body, strip_delimiters, unescape, unescape_first,
    END, ESC, ESC_END, ESC_ESC,
};
use vstd::prelude::*;

verus! {

/// `byte` is one of the two that may follow an `ESC`.
pub open spec fn continues_escape(byte: u8) -> bool {
    byte == ESC_END || byte == ESC_ESC
}

/// No delimiter occurs in `wire`, and every `ESC` in it is followed by one of
/// the two bytes that continue an escape sequence.
pub open spec fn no_bare_reserved(wire: Seq<u8>) -> bool {
    &&& forall|i: int| 0 <= i < wire.len() ==> #[trigger] wire[i] != END
    &&& forall|i: int|
        0 <= i < wire.len() && #[trigger] wire[i] == ESC ==> i + 1 < wire.len()
            && continues_escape(wire[i + 1])
}

/// Escaping a concatenation escapes its two parts.
pub proof fn lemma_escape_concat(a: Seq<u8>, b: Seq<u8>)
    ensures
        escape(a + b) == escape(a) + escape(b),
    decreases b.len(),
{
    if b.len() > 0 {
        assert((a + b).drop_last() == a + b.drop_last());
        lemma_escape_concat(a, b.drop_last());
    }
}

/// Escaping never shortens and at most doubles.
pub proof fn lemma_escape_len(data: Seq<u8>)
    ensures
        data.len() <= escape(data).len() <= 2 * data.len(),
    decreases data.len(),
{
    if data.len() > 0 {
        lemma_escape_len(data.drop_last());
    }
}

/// Escaping can be read from the front as well: the first byte escaped, then
/// the rest.
pub proof fn lemma_escape_front(data: Seq<u8>)
    requires
        data.len() > 0,
    ensures
        escape(data) == escape_byte(data[0]) + escape(data.skip(1)),
{
    let first = seq![data[0]];
    assert(data == first + data.skip(1));
    lemma_escape_concat(first, data.skip(1));
    assert(escape(first) == escape_byte(data[0])) by {
        assert(escape(first.drop_last()) == Seq::<u8>::empty());
    }
}

/// Unescaping undoes escaping, given room for every byte.
pub proof fn lemma_unescape_escape(data: Seq<u8>, room: nat)
    requires
        data.len() <= room,
    ensures
        unescape(escape(data), room) == Ok::<Seq<u8>, FrameError>(data),
    decreases data.len(),
{
    if data.len() > 0 {
        let rest = data.skip(1);
        let unit = escape_byte(data[0]);
        let wire = escape(data);
        lemma_escape_front(data);
        lemma_unescape_escape(rest, (room - 1) as nat);
        assert(wire.skip(unit.len() as int) == escape(rest));
        assert(seq![data[0]] + rest == data);
    } else {
        assert(data == Seq::<u8>::empty());
    }
}

/// Unescaping never runs out of room in a buffer that could hold the wire
/// bytes themselves, since no byte takes less room on the wire than in the
/// buffer.
pub proof fn lemma_unescape_fits(wire: Seq<u8>, room: nat)
    requires
        wire.len() <= room,
    ensures
        unescape(wire, room) != Err::<Seq<u8>, FrameError>(FrameError::CapacityExceeded),
    decreases wire.len(),
{
    if wire.len() > 0 {
        if let Some((_, used)) = unescape_first(wire) {
            lemma_unescape_fits(wire.skip(used), (room - 1) as nat);
        }
    }
}

/// A frame without its delimiters is its body.
pub proof fn lemma_strip_frame(payload: Seq<u8>)
    ensures
        strip_delimiters(frame(payload)) == frame_body(payload),
{
}

/// Decoding undoes encoding: a frame without its delimiters, unescaped into
/// a buffer with room for the payload and its checksum, gives the payload.
pub proof fn lemma_round_trip(payload: Seq<u8>, room: nat)
    requires
        payload.len() < room,
    ensures
        decoded(strip_delimiters(frame(payload)), room) == Ok::<Seq<u8>, FrameError>(payload),
{
    let message = payload.push(crc8(payload));
    lemma_strip_frame(payload);
    lemma_unescape_escape(message, room);
    lemma_crc8_self_check(payload);
    assert(message.drop_last() == payload);
}

/// A payload whose frame fits into a buffer comes back out of that frame when
/// it is decoded into a buffer of the same capacity.
pub proof fn lemma_round_trip_within(payload: Seq<u8>, capacity: nat)
    requires
        frame(payload).len() <= capacity,
    ensures
        decoded(strip_delimiters(frame(payload)), capacity) == Ok::<Seq<u8>, FrameError>(
            payload,
        ),
{
    lemma_frame_len(payload);
    lemma_round_trip(payload, capacity);
}

/// Different byte sequences are escaped differently.
pub proof fn lemma_escape_injective(a: Seq<u8>, b: Seq<u8>)
    requires
        escape(a) == escape(b),
    ensures
        a == b,
{
    let room = a.len() + b.len();
    lemma_unescape_escape(a, room);
    lemma_unescape_escape(b, room);
}

/// Different payloads have different frames.
pub proof fn lemma_frame_injective(p: Seq<u8>, q: Seq<u8>)
    requires
        frame(p) == frame(q),
    ensures
        p == q,
{
    let room = p.len() + q.len() + 1;
    lemma_round_trip(p, room);
    lemma_round_trip(q, room);
}

/// A frame takes at least three bytes more than its payload, and at most
/// four more than twice the payload: two delimiters and a checksum, with
/// every byte but the delimiters doubled at worst.
pub proof fn lemma_frame_len(payload: Seq<u8>)
    ensures
        payload.len() + 3 <= frame(payload).len() <= 2 * payload.len() + 4,
{
    lemma_escape_len(payload.push(crc8(payload)));
}

/// Escaped bytes hold no delimiter and no `ESC` but at the start of an escape
/// sequence.
pub proof fn lemma_escape_no_bare_reserved(data: Seq<u8>)
    ensures
        no_bare_reserved(escape(data)),
    decreases data.len(),
{
    if data.len() > 0 {
        // Each byte of the escaped data lies in what the bytes before the
        // last were escaped to, or in the escaped last byte.
        lemma_escape_no_bare_reserved(data.drop_last());
        let head = escape(data.drop_last());
        let wire = escape(data);
        assert forall|i: int| 0 <= i < wire.len() && #[trigger] wire[i] == ESC implies i + 1
            < wire.len() && continues_escape(wire[i + 1]) by {
            if i < head.len() {
                assert(head[i] == ESC);
            }
        }
    }
}

/// A frame starts and ends with a delimiter, and between the two there is no
/// delimiter and no `ESC` that does not start an escape sequence.
pub proof fn lemma_frame_delimited(payload: Seq<u8>)
    ensures
        frame(payload).len() >= 3,
        frame(payload).first() == END,
        frame(payload).last() == END,
        no_bare_reserved(strip_delimiters(frame(payload))),
{
    lemma_frame_len(payload);
    lemma_strip_frame(payload);
    lemma_escape_no_bare_reserved(payload.push(crc8(payload)));
}

/// With `byte` at position `at`, `wire` holds a broken escape sequence
/// there: either `byte` follows an `ESC` and cannot continue it, or `byte` is
/// an `ESC` that the next byte cannot continue.
pub open spec fn breaks_escape(wire: Seq<u8>, at: int, byte: u8) -> bool {
    ||| at > 0 && wire[at - 1] == ESC && !continues_escape(byte)
    ||| byte == ESC && (at + 1 >= wire.len() || !continues_escape(wire[at + 1]))
}

/// What unescaping makes of escaped bytes of which one was changed on the
/// wire, where the change neither hit an `ESC` nor made one that the next
/// byte continues. Either the change left a broken escape sequence, and
/// unescaping fails on it; or exactly one byte of `data` comes out
/// changed: the result names its index and its new value.
proof fn lemma_unescape_changed(data: Seq<u8>, at: int, byte: u8, room: nat) -> (hit: Option<
    (int, u8),
>)
    requires
        data.len() <= room,
        0 <= at < escape(data).len(),
        escape(data)[at] != ESC,
        byte != escape(data)[at],
        byte == ESC ==> breaks_escape(escape(data), at, byte),
    ensures
        hit.is_none() <==> breaks_escape(escape(data), at, byte),
        hit.is_none() ==> unescape(escape(data).update(at, byte), room) == Err::<
            Seq<u8>,
            FrameError,
        >(FrameError::MalformedEscape),
        hit matches Some((index, value)) ==> 0 <= index < data.len() && value != data[index]
            && unescape(escape(data).update(at, byte), room) == Ok::<Seq<u8>, FrameError>(
            data.update(index, value),
        ),
    decreases data.len(),
{
    lemma_escape_len(data);
    lemma_escape_front(data);
    let first = data[0];
    let rest = data.skip(1);
    let unit = escape_byte(first);
    let wire = escape(data);
    let changed = wire.update(at, byte);
    let less = (room - 1) as nat;
    if at >= unit.len() {
        let inner = at - unit.len();
        assert(wire[at - 1] == if inner > 0 {
            escape(rest)[inner - 1]
        } else {
            unit.last()
        });
        let hit_rest = lemma_unescape_changed(rest, inner, byte, less);
        assert(changed.skip(unit.len() as int) == escape(rest).update(inner, byte));
        match hit_rest {
            None => None,
            Some((index, value)) => {
                assert(seq![first] + rest.update(index, value) == data.update(index + 1, value));
                Some((index + 1, value))
            },
        }
    } else {
        lemma_unescape_escape(rest, less);
        assert(changed.skip(unit.len() as int) == escape(rest));
        if byte == ESC {
            None
        } else if at == 0 {
            assert(seq![byte] + rest == data.update(0, byte));
            Some((0int, byte))
        } else if byte == ESC_END {
            assert(seq![END] + rest == data.update(0, END));
            Some((0int, END))
        } else if byte == ESC_ESC {
            assert(seq![ESC] + rest == data.update(0, ESC));
            Some((0int, ESC))
        } else {
            None
        }
    }
}

/// Damage to one byte of a frame's body is always noticed, unless it hits an
/// `ESC` or makes one in front of a byte that can continue an escape
/// sequence. The decoder reports `MalformedEscape` where the damage left a
/// broken escape sequence, and `ChecksumMismatch` everywhere else. This holds
/// of any new value for the byte, so of every single flipped bit.
pub proof fn lemma_damage_detected(payload: Seq<u8>, at: int, byte: u8, room: nat)
    requires
        payload.len() < room,
        0 <= at < frame_body(payload).len(),
        frame_body(payload)[at] != ESC,
        byte != frame_body(payload)[at],
        byte == ESC ==> breaks_escape(frame_body(payload), at, byte),
    ensures
        breaks_escape(frame_body(payload), at, byte) ==> decoded(
            frame_body(payload).update(at, byte),
            room,
        ) == Err::<Seq<u8>, FrameError>(FrameError::MalformedEscape),
        !breaks_escape(frame_body(payload), at, byte) ==> decoded(
            frame_body(payload).update(at, byte),
            room,
        ) == Err::<Seq<u8>, FrameError>(FrameError::ChecksumMismatch),
{
    let message = payload.push(crc8(payload));
    lemma_crc8_self_check(payload);
    let hit = lemma_unescape_changed(message, at, byte, room);
    if let Some((index, value)) = hit {
        lemma_crc8_detects_byte_change(message, index, value);
    }
}

} // verus!
