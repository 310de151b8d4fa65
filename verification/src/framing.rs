//! The frame codec: escapes the bytes that collide with the frame delimiter,
//! appends the checksum, and undoes both on receipt.
//!
//! On the wire a frame is `END | escaped(payload) | escaped(checksum) | END`.
//! The four reserved values below must be pairwise different; nothing else
//! about them matters to the codec.
use crate::buffer::{as_slice, clear, contents, pop, push, CAPACITY};
use crate::crc::{calc_crc8, check_crc, crc8};
use crate::error::FrameError;
use crate::laws::{lemma_escape_concat, lemma_escape_len};
use vstd::prelude::*;

verus! {

/// Marks both ends of a frame and never occurs between them.
pub const END: u8 = 0x00;

/// Starts a two-byte escape sequence.
pub const ESC: u8 = 0x33;

/// After `ESC`: stands for a payload byte equal to `END`.
pub const ESC_END: u8 = 0x34;

/// After `ESC`: stands for a payload byte equal to `ESC`.
pub const ESC_ESC: u8 = 0x35;

/// How one byte goes onto the wire.
pub open spec fn escape_byte(byte: u8) -> Seq<u8> {
    if byte == END {
        seq![ESC, ESC_END]
    } else if byte == ESC {
        seq![ESC, ESC_ESC]
    } else {
        seq![byte]
    }
}

/// How a byte sequence goes onto the wire: each byte escaped, in order.
pub open spec fn escape(data: Seq<u8>) -> Seq<u8>
    decreases data.len(),
{
    if data.len() == 0 {
        Seq::empty()
    } else {
        escape(data.drop_last()) + escape_byte(data.last())
    }
}

/// What a frame holds between its delimiters: the payload and its checksum,
/// escaped.
pub open spec fn frame_body(payload: Seq<u8>) -> Seq<u8> {
    escape(payload.push(crc8(payload)))
}

/// The frame of a payload: its body between two delimiters.
pub open spec fn frame(payload: Seq<u8>) -> Seq<u8> {
    seq![END] + frame_body(payload) + seq![END]
}

/// Wire bytes without the first and the last: of a frame, what the decoder is
/// handed.
pub open spec fn strip_delimiters(wire: Seq<u8>) -> Seq<u8>
    recommends
        wire.len() >= 2,
{
    wire.subrange(1, wire.len() - 1)
}

/// The byte that the front of `wire` stands for, with the number of wire
/// bytes that spell it: one for a plain byte, two for an escape sequence.
/// `None` when `wire` starts with `ESC` and no valid continuation follows.
pub open spec fn unescape_first(wire: Seq<u8>) -> Option<(u8, int)>
    recommends
        wire.len() > 0,
{
    if wire[0] != ESC {
        Some((wire[0], 1int))
    } else if wire.len() >= 2 && wire[1] == ESC_END {
        Some((END, 2int))
    } else if wire.len() >= 2 && wire[1] == ESC_ESC {
        Some((ESC, 2int))
    } else {
        None
    }
}

/// `head` followed by `tail`, where `tail` may be an error, which then stays
/// what it is.
pub open spec fn prefixed(head: Seq<u8>, tail: Result<Seq<u8>, FrameError>) -> Result<
    Seq<u8>,
    FrameError,
> {
    match tail {
        Ok(rest) => Ok(head + rest),
        Err(e) => Err(e),
    }
}

/// The bytes that `wire` stands for, read front to back into a buffer with
/// room for `room` more bytes. The first thing to go wrong decides the error:
/// `MalformedEscape` at an `ESC` that starts no valid escape sequence,
/// `CapacityExceeded` at a byte for which no room is left.
pub open spec fn unescape(wire: Seq<u8>, room: nat) -> Result<Seq<u8>, FrameError>
    decreases wire.len(),
{
    if wire.len() == 0 {
        Ok(Seq::empty())
    } else {
        match unescape_first(wire) {
            None => Err(FrameError::MalformedEscape),
            Some((byte, used)) => {
                if room == 0 {
                    Err(FrameError::CapacityExceeded)
                } else {
                    prefixed(seq![byte], unescape(wire.skip(used), (room - 1) as nat))
                }
            },
        }
    }
}

/// The payload that a frame without its delimiters carries, when it is
/// unescaped into a buffer of `room` bytes: the unescaped bytes but the last,
/// which is the checksum. A frame that unescapes to nothing has no checksum
/// and counts as malformed.
pub open spec fn decoded(wire: Seq<u8>, room: nat) -> Result<Seq<u8>, FrameError> {
    match unescape(wire, room) {
        Err(e) => Err(e),
        Ok(message) => {
            if message.len() == 0 {
                Err(FrameError::MalformedEscape)
            } else if crc8(message) != 0 {
                Err(FrameError::ChecksumMismatch)
            } else {
                Ok(message.drop_last())
            }
        },
    }
}

/// Appends the escaped form of `byte` to `out`, or fails when `out` has no
/// room for all of it. After a failure `out` may hold the first half of an
/// escape sequence.
fn push_escaped(out: &mut heapless::Vec<u8, CAPACITY>, byte: u8) -> (res: Result<(), FrameError>)
    requires
        contents(*old(out)).len() <= CAPACITY,
    ensures
        res.is_ok() <==> contents(*old(out)).len() + escape_byte(byte).len() <= CAPACITY,
        res.is_ok() ==> contents(*final(out)) == contents(*old(out)) + escape_byte(byte),
        res matches Err(e) ==> e == FrameError::CapacityExceeded,
        contents(*final(out)).len() <= CAPACITY,
{
    if byte == END {
        if push(out, ESC).is_err() {
            return Err(FrameError::CapacityExceeded);
        }
        if push(out, ESC_END).is_err() {
            return Err(FrameError::CapacityExceeded);
        }
    } else if byte == ESC {
        if push(out, ESC).is_err() {
            return Err(FrameError::CapacityExceeded);
        }
        if push(out, ESC_ESC).is_err() {
            return Err(FrameError::CapacityExceeded);
        }
    } else {
        if push(out, byte).is_err() {
            return Err(FrameError::CapacityExceeded);
        }
    }
    Ok(())
}

/// Writes the frame of `data` into `output`, which is cleared first, and
/// returns the frame's length. Fails with `CapacityExceeded` exactly when the
/// frame is longer than `CAPACITY`; `output` is then to be discarded.
pub fn encode(data: &heapless::Vec<u8, CAPACITY>, output: &mut heapless::Vec<u8, CAPACITY>) -> (res:
    Result<usize, FrameError>)
    ensures
        res.is_ok() <==> frame(contents(*data)).len() <= CAPACITY,
        res matches Ok(n) ==> n == frame(contents(*data)).len() && contents(*final(output))
            == frame(contents(*data)),
        res matches Err(e) ==> e == FrameError::CapacityExceeded,
        contents(*final(output)).len() <= CAPACITY,
{
    let payload = as_slice(data);
    clear(output);
    if push(output, END).is_err() {
        return Err(FrameError::CapacityExceeded);
    }
    let mut i: usize = 0;
    while i < payload.len()
        invariant
            i <= payload.len(),
            payload@ == contents(*data),
            contents(*output) == seq![END] + escape(payload@.take(i as int)),
            contents(*output).len() <= CAPACITY,
        decreases payload.len() - i,
    {
        proof {
            assert(payload@.take(i + 1).drop_last() == payload@.take(i as int));
            lemma_frame_len_from(payload@, i as int);
        }
        if push_escaped(output, payload[i]).is_err() {
            return Err(FrameError::CapacityExceeded);
        }
        i = i + 1;
    }
    let sum = calc_crc8(payload);
    proof {
        assert(payload@.take(payload@.len() as int) == payload@);
        assert(payload@.push(sum).drop_last() == payload@);
    }
    if push_escaped(output, sum).is_err() {
        return Err(FrameError::CapacityExceeded);
    }
    if push(output, END).is_err() {
        return Err(FrameError::CapacityExceeded);
    }
    Ok(as_slice(output).len())
}

/// Reads a frame whose two delimiters have been taken off into `msg`, which
/// is cleared first, and returns the payload's length. On success `msg` holds
/// the payload; after a failure it is to be discarded.
///
/// The outcome is that of [`decoded`] for a buffer of `CAPACITY` bytes. Since
/// `input` holds no more than that and unescaping never lengthens, `msg`
/// cannot run out of room: `CapacityExceeded` is never returned.
pub fn decode(input: &heapless::Vec<u8, CAPACITY>, msg: &mut heapless::Vec<u8, CAPACITY>) -> (res:
    Result<usize, FrameError>)
    ensures
        res matches Ok(n) ==> decoded(contents(*input), CAPACITY as nat) == Ok::<
            Seq<u8>,
            FrameError,
        >(contents(*final(msg))) && n == contents(*final(msg)).len(),
        res matches Err(e) ==> decoded(contents(*input), CAPACITY as nat) == Err::<
            Seq<u8>,
            FrameError,
        >(e) && e != FrameError::CapacityExceeded,
        contents(*final(msg)).len() <= CAPACITY,
{
    let wire = as_slice(input);
    clear(msg);
    let mut i: usize = 0;
    proof {
        assert(wire@.skip(0) == wire@);
        assert(prefixed(Seq::empty(), unescape(wire@, CAPACITY as nat)) == unescape(
            wire@,
            CAPACITY as nat,
        ));
    }
    while i < wire.len()
        invariant
            contents(*msg).len() <= i <= wire.len() <= CAPACITY,
            wire@ == contents(*input),
            unescape(wire@, CAPACITY as nat) == prefixed(
                contents(*msg),
                unescape(wire@.skip(i as int), (CAPACITY - contents(*msg).len()) as nat),
            ),
        decreases wire.len() - i,
    {
        let ghost rest = wire@.skip(i as int);
        let ghost held = contents(*msg);
        let first = wire[i];
        let byte: u8;
        let used: usize;
        if first == ESC {
            if i + 1 >= wire.len() {
                return Err(FrameError::MalformedEscape);
            }
            let second = wire[i + 1];
            if second == ESC_END {
                byte = END;
            } else if second == ESC_ESC {
                byte = ESC;
            } else {
                return Err(FrameError::MalformedEscape);
            }
            used = 2;
        } else {
            byte = first;
            used = 1;
        }
        if push(msg, byte).is_err() {
            return Err(FrameError::CapacityExceeded);
        }
        i = i + used;
        proof {
            assert(rest.skip(used as int) == wire@.skip(i as int));
            let after = unescape(wire@.skip(i as int), (CAPACITY - held.len() - 1) as nat);
            assert(prefixed(held, prefixed(seq![byte], after)) == prefixed(held.push(byte), after))
                by {
                if let Ok(tail) = after {
                    assert(held + (seq![byte] + tail) == held.push(byte) + tail);
                }
            }
        }
    }
    let message = as_slice(msg);
    if check_crc(message).is_err() {
        return Err(FrameError::ChecksumMismatch);
    }
    if message.len() == 0 {
        return Err(FrameError::MalformedEscape);
    }
    pop(msg);
    Ok(as_slice(msg).len())
}

/// A frame is at least as long as the delimiter, the first `upto` payload
/// bytes escaped, the escaped byte that follows them, and what must still
/// follow that: the checksum and the closing delimiter.
proof fn lemma_frame_len_from(payload: Seq<u8>, upto: int)
    requires
        0 <= upto < payload.len(),
    ensures
        frame(payload).len() >= 1 + escape(payload.take(upto)).len() + escape_byte(
            payload[upto],
        ).len() + 2,
{
    let whole = payload.push(crc8(payload));
    let head = payload.take(upto + 1);
    let tail = whole.skip(upto + 1);
    assert(whole == head + tail);
    lemma_escape_concat(head, tail);
    assert(head.drop_last() == payload.take(upto));
    lemma_escape_len(tail);
}

} // verus!
