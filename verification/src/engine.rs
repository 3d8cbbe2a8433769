//! The frame engine as a state machine, for streams that deliver their
//! bytes piece by piece: the caller reads as many bytes as the machine
//! wants and hands them over; the machine says what it wants next and when
//! a message is complete.

use crate::frame::{accept, check_frame, scan, Header, Received, MAV_STX};
use crate::table::{CodecModel, CodecTable, MessageData, MessageValue};
use vstd::prelude::*;

verus! {

/// What the engine is waiting for.
#[derive(Debug, PartialEq, Eq, Clone, Copy)]
pub enum Phase {
    /// A sync byte.
    SeekingSync,
    /// The payload length, the first byte behind the sync byte.
    HeaderRead,
    /// The rest of a frame whose payload has this length: four header
    /// bytes, the payload and two checksum bytes.
    PayloadRead(u8),
}

/// The number of bytes the engine wants next.
pub open spec fn wanted_in(phase: Phase) -> nat {
    match phase {
        Phase::SeekingSync => 1,
        Phase::HeaderRead => 1,
        Phase::PayloadRead(len) => 6 + len as nat,
    }
}

/// The phase after the wanted bytes, and the message they completed, if
/// any. A byte that is not the sync byte is skipped. A complete frame is
/// accepted or dropped; either way the engine goes back to seeking.
pub open spec fn after(table: Seq<CodecModel>, phase: Phase, bytes: Seq<u8>) -> (
    Phase,
    Option<(Header, MessageData)>,
) {
    match phase {
        Phase::SeekingSync => if bytes[0] == MAV_STX {
            (Phase::HeaderRead, None)
        } else {
            (Phase::SeekingSync, None)
        },
        Phase::HeaderRead => (Phase::PayloadRead(bytes[0]), None),
        Phase::PayloadRead(len) => (Phase::SeekingSync, accept(table, seq![len] + bytes)),
    }
}

/// The first message that the engine completes when it is in `phase` and
/// the bytes from `pos` on are handed to it piece by piece, and the position
/// behind that message's frame. Nothing when the stream ends first.
pub open spec fn feed(table: Seq<CodecModel>, phase: Phase, stream: Seq<u8>, pos: int) -> Option<
    Received,
>
    decreases stream.len() - pos,
{
    let end = pos + wanted_in(phase);
    if pos < 0 || end > stream.len() {
        None
    } else {
        let (next, done) = after(table, phase, stream.subrange(pos, end));
        match done {
            Some((header, message)) => Some(Received { header, message, next: end }),
            None => feed(table, next, stream, end),
        }
    }
}

/// The number of bytes to read before the next call of `advance`.
pub fn wanted(phase: Phase) -> (count: usize)
    ensures
        count == wanted_in(phase),
        1 <= count <= 261,
{
    match phase {
        Phase::SeekingSync => 1,
        Phase::HeaderRead => 1,
        Phase::PayloadRead(len) => 6 + len as usize,
    }
}

/// Takes the bytes that the engine wanted: gives the next phase and, when
/// the bytes completed a frame that is accepted, its header and message.
pub fn advance(table: &CodecTable, phase: Phase, bytes: &[u8]) -> (r: (
    Phase,
    Option<(Header, MessageValue)>,
))
    requires
        table.well_formed(),
        bytes.len() == wanted_in(phase),
    ensures
        r.0 == after(table@, phase, bytes@).0,
        match r.1 {
            Some((header, message)) => after(table@, phase, bytes@).1 == Some((header, message@)),
            None => after(table@, phase, bytes@).1 is None,
        },
{
    match phase {
        Phase::SeekingSync => if bytes[0] == MAV_STX {
            (Phase::HeaderRead, None)
        } else {
            (Phase::SeekingSync, None)
        },
        Phase::HeaderRead => (Phase::PayloadRead(bytes[0]), None),
        Phase::PayloadRead(len) => {
            let mut content: Vec<u8> = Vec::new();
            content.push(len);
            crate::checksum::append_bytes(&mut content, bytes);
            assert(content@ =~= seq![len] + bytes@);
            (Phase::SeekingSync, check_frame(table, content.as_slice()))
        },
    }
}

/// A started frame is finished as the search finishes it: behind a sync
/// byte at `pos`, the engine waiting for the length finds what the search
/// from `pos` finds, provided the engine, seeking, agrees with the search
/// at every later position.
proof fn lemma_feed_frame(table: Seq<CodecModel>, stream: Seq<u8>, pos: int)
    requires
        0 <= pos < stream.len(),
        stream[pos] == MAV_STX,
        forall|later: int|
            pos < later ==> feed(table, Phase::SeekingSync, stream, later) == scan(
                table,
                stream,
                later,
            ),
    ensures
        feed(table, Phase::HeaderRead, stream, pos + 1) == scan(table, stream, pos),
{
    if pos + 2 <= stream.len() {
        let len = stream[pos + 1];
        assert(stream.subrange(pos + 1, pos + 2)[0] == len);
        let end = pos + 8 + len as int;
        assert(feed(table, Phase::HeaderRead, stream, pos + 1) == feed(
            table,
            Phase::PayloadRead(len),
            stream,
            pos + 2,
        ));
        if end <= stream.len() {
            let content = stream.subrange(pos + 1, end);
            assert(seq![len] + stream.subrange(pos + 2, end) =~= content);
            assert(after(table, Phase::PayloadRead(len), stream.subrange(pos + 2, end)).1
                == accept(table, content));
            match accept(table, content) {
                Some((header, message)) => {
                    assert(feed(table, Phase::PayloadRead(len), stream, pos + 2) == Some(
                        Received { header, message, next: end },
                    ));
                    assert(scan(table, stream, pos) == Some(
                        Received { header, message, next: end },
                    ));
                },
                None => {
                    assert(feed(table, Phase::PayloadRead(len), stream, pos + 2) == feed(
                        table,
                        Phase::SeekingSync,
                        stream,
                        end,
                    ));
                    assert(scan(table, stream, pos) == scan(table, stream, end));
                    assert(feed(table, Phase::SeekingSync, stream, end) == scan(
                        table,
                        stream,
                        end,
                    ));
                },
            }
        } else {
            assert(feed(table, Phase::PayloadRead(len), stream, pos + 2) is None);
            assert(scan(table, stream, pos) is None);
        }
    } else {
        assert(feed(table, Phase::HeaderRead, stream, pos + 1) is None);
        assert(scan(table, stream, pos) is None);
    }
}

/// The engine, fed a stream piece by piece, finds what the search over the
/// whole stream finds.
pub proof fn lemma_feed_is_scan(table: Seq<CodecModel>, stream: Seq<u8>, pos: int)
    requires
        0 <= pos,
    ensures
        feed(table, Phase::SeekingSync, stream, pos) == scan(table, stream, pos),
    decreases stream.len() - pos,
{
    if pos < stream.len() {
        assert(stream.subrange(pos, pos + 1)[0] == stream[pos]);
        if stream[pos] != MAV_STX {
            lemma_feed_is_scan(table, stream, pos + 1);
        } else {
            assert forall|later: int| pos < later implies feed(
                table,
                Phase::SeekingSync,
                stream,
                later,
            ) == scan(table, stream, later) by {
                if later <= stream.len() {
                    lemma_feed_is_scan(table, stream, later);
                }
            }
            lemma_feed_frame(table, stream, pos);
        }
    }
}

} // verus!
