//! The frame engine: finds, validates and decodes frames in a byte stream,
//! and builds frames for transmission.
//!
//! A frame is `[sync][payload length][sequence][system id][component id]
//! [message id][payload][checksum low][checksum high]`.

use crate::checksum::{append_bytes, checksum, lemma_crc_detects_one_byte, mcrf4xx};
use crate::schema::MessageModel;
use crate::table::{
    codecs_of, find_codec, lemma_message_round_trip, lemma_redeclared_same_table, parse_payload,
    redeclared, seed_of, serialize_payload, CodecModel, CodecTable, MessageData, MessageValue,
};
use crate::wire::{
    get_le, le_bytes, le_value, lemma_le_bytes_len, lemma_le_round_trip, lemma_le_value_injective,
    lemma_limits, put_le,
};
use vstd::prelude::*;

verus! {

/// The byte that starts every frame.
pub const MAV_STX: u8 = 0xFE;

/// The bytes of a frame besides its payload: sync, five header bytes and two
/// checksum bytes.
pub const FRAME_OVERHEAD: usize = 8;

/// What a frame's header tells besides the length and the message id.
#[derive(Debug, Copy, Clone, PartialEq, Eq)]
pub struct Header {
    pub sequence: u8,
    pub system_id: u8,
    pub component_id: u8,
}

/// A frame found in a stream: its header, its message and the position of
/// the byte that follows it.
pub ghost struct Received {
    pub header: Header,
    pub message: MessageData,
    pub next: int,
}

/// The checksummed part of a frame: the five header bytes and the payload.
pub open spec fn frame_body(header: Header, id: u8, payload: Seq<u8>) -> Seq<u8> {
    seq![payload.len() as u8, header.sequence, header.system_id, header.component_id, id] + payload
}

/// The bytes over which a frame's checksum is computed: its body and the
/// message's checksum seed.
pub open spec fn checksum_input(body: Seq<u8>, seed: u8) -> Seq<u8> {
    body + seq![seed]
}

/// A frame: sync byte, body, and the checksum, low byte first.
pub open spec fn frame_of(body: Seq<u8>, crc: u16) -> Seq<u8> {
    seq![MAV_STX] + body + le_bytes(crc as nat, 2)
}

/// The frame that carries a message value: nothing when the id is unknown,
/// a value does not fit its field, or the payload is longer than 255 bytes.
pub open spec fn encode_frame(table: Seq<CodecModel>, header: Header, message: MessageData)
    -> Option<Seq<u8>> {
    match serialize_payload(table, message) {
        Some(payload) => if payload.len() > 255 {
            None
        } else {
            let body = frame_body(header, message.id, payload);
            Some(frame_of(body, mcrf4xx(checksum_input(body, seed_of(table, message.id)))))
        },
        None => None,
    }
}

/// What a frame's content yields, given the checksum computed over it.
/// `content` is the frame without its sync byte: five header bytes, the
/// payload and the two checksum bytes. The frame is accepted when the
/// checksum it carries is the computed one, its message id is known and its
/// payload holds every field; otherwise, or when the content is too short
/// to hold header and checksum, it yields nothing.
pub open spec fn accept_with(table: Seq<CodecModel>, content: Seq<u8>, computed: u16) -> Option<
    (Header, MessageData),
> {
    let end = content.len() - 2;
    if content.len() < 7 || le_value(content.subrange(end, end + 2)) != computed as nat {
        None
    } else {
        match parse_payload(table, content[4], content.subrange(5, end)) {
            Some(message) => Some(
                (
                    Header {
                        sequence: content[1],
                        system_id: content[2],
                        component_id: content[3],
                    },
                    message,
                ),
            ),
            None => None,
        }
    }
}

/// What a frame's content yields.
pub open spec fn accept(table: Seq<CodecModel>, content: Seq<u8>) -> Option<(Header, MessageData)> {
    let body = content.take(content.len() - 2);
    accept_with(table, content, mcrf4xx(checksum_input(body, seed_of(table, content[4]))))
}

/// The first frame that the engine accepts at or after `pos`. Bytes are
/// skipped up to a sync byte; the header and the payload it announces are
/// read; a frame that is not accepted is dropped whole and the search goes
/// on behind it. Nothing when the stream ends first.
pub open spec fn scan(table: Seq<CodecModel>, stream: Seq<u8>, pos: int) -> Option<Received>
    decreases stream.len() - pos,
{
    if pos < 0 || pos >= stream.len() {
        None
    } else if stream[pos] != MAV_STX {
        scan(table, stream, pos + 1)
    } else if stream.len() - pos < 6 {
        None
    } else {
        let end = pos + 8 + stream[pos + 1] as int;
        if end > stream.len() {
            None
        } else {
            match accept(table, stream.subrange(pos + 1, end)) {
                Some((header, message)) => Some(Received { header, message, next: end }),
                None => scan(table, stream, end),
            }
        }
    }
}

/// Decides on a frame's content, given the checksum computed over its body
/// and the message's seed: the header and the message when the frame is
/// accepted.
pub fn validate(table: &CodecTable, content: &[u8], computed: u16) -> (r: Option<
    (Header, MessageValue),
>)
    requires
        table.well_formed(),
    ensures
        match r {
            Some((header, message)) => accept_with(table@, content@, computed) == Some(
                (header, message@),
            ),
            None => accept_with(table@, content@, computed) is None,
        },
{
    if content.len() < 7 {
        return None;
    }
    let end: usize = content.len() - 2;
    let received: u64 = get_le(content, end, 2);
    if received != computed as u64 {
        return None;
    }
    let payload = &content[5..end];
    match table.parse(content[4], payload) {
        Some(message) => Some(
            (
                Header { sequence: content[1], system_id: content[2], component_id: content[3] },
                message,
            ),
        ),
        None => None,
    }
}

/// The checksum of a frame's body followed by the seed of its message.
pub fn frame_checksum(body: &[u8], seed: u8) -> (crc: u16)
    ensures
        crc == mcrf4xx(checksum_input(body@, seed)),
{
    let mut input: Vec<u8> = Vec::new();
    append_bytes(&mut input, body);
    input.push(seed);
    assert(input@ =~= checksum_input(body@, seed));
    checksum(input.as_slice())
}

/// Decides on a frame's content: the header and the message when the
/// checksum matches, the id is known and the payload holds every field.
pub fn check_frame(table: &CodecTable, content: &[u8]) -> (r: Option<(Header, MessageValue)>)
    requires
        table.well_formed(),
    ensures
        match r {
            Some((header, message)) => accept(table@, content@) == Some((header, message@)),
            None => accept(table@, content@) is None,
        },
{
    if content.len() < 7 {
        return None;
    }
    let end: usize = content.len() - 2;
    let body = &content[0..end];
    assert(body@ =~= content@.take(content.len() - 2));
    let computed: u16 = frame_checksum(body, table.extra_crc(content[4]));
    validate(table, content, computed)
}

/// Reads the next message from a byte stream, starting at `start`: the
/// header, the message and the position behind its frame. Frames that fail
/// the checksum, name an unknown message or carry a short payload are
/// dropped without notice. Gives nothing when the stream ends before a frame
/// is accepted.
pub fn read(table: &CodecTable, stream: &[u8], start: usize) -> (r: Option<
    (Header, MessageValue, usize),
>)
    requires
        table.well_formed(),
    ensures
        match r {
            Some((header, message, next)) => next <= stream.len() && scan(
                table@,
                stream@,
                start as int,
            ) == Some(Received { header, message: message@, next: next as int }),
            None => scan(table@, stream@, start as int) is None,
        },
{
    let mut pos: usize = start;
    while pos < stream.len()
        invariant
            table.well_formed(),
            scan(table@, stream@, start as int) == scan(table@, stream@, pos as int),
        decreases stream.len() - pos,
    {
        if stream[pos] != MAV_STX {
            pos += 1;
        } else {
            let left: usize = stream.len() - pos;
            if left < 6 {
                return None;
            }
            let len: usize = stream[pos + 1] as usize;
            if left < FRAME_OVERHEAD + len {
                return None;
            }
            let end: usize = pos + FRAME_OVERHEAD + len;
            match check_frame(table, &stream[pos + 1..end]) {
                Some((header, message)) => {
                    return Some((header, message, end));
                },
                None => {
                    pos = end;
                },
            }
        }
    }
    None
}

/// Puts a frame together from its parts and the checksum computed over
/// them.
pub fn assemble(header: Header, id: u8, payload: &[u8], crc: u16) -> (frame: Vec<u8>)
    requires
        payload.len() <= 255,
    ensures
        frame@ == frame_of(frame_body(header, id, payload@), crc),
{
    let mut frame: Vec<u8> = Vec::new();
    frame.push(MAV_STX);
    frame.push(payload.len() as u8);
    frame.push(header.sequence);
    frame.push(header.system_id);
    frame.push(header.component_id);
    frame.push(id);
    append_bytes(&mut frame, payload);
    put_le(&mut frame, crc as u64, 2);
    assert(frame@ =~= frame_of(frame_body(header, id, payload@), crc));
    frame
}

/// Builds the frame that carries a message value. Gives nothing when the
/// message id is unknown, a value does not fit its field, or the payload is
/// longer than 255 bytes.
pub fn write(table: &CodecTable, header: Header, message: &MessageValue) -> (frame: Option<Vec<u8>>)
    requires
        table.well_formed(),
    ensures
        match frame {
            Some(bytes) => encode_frame(table@, header, message@) == Some(bytes@),
            None => encode_frame(table@, header, message@) is None,
        },
{
    match table.serialize(message) {
        Some(payload) => {
            if payload.len() > 255 {
                return None;
            }
            let mut body: Vec<u8> = Vec::new();
            body.push(payload.len() as u8);
            body.push(header.sequence);
            body.push(header.system_id);
            body.push(header.component_id);
            body.push(message.id);
            append_bytes(&mut body, payload.as_slice());
            assert(body@ =~= frame_body(header, message.id, payload@));
            let crc: u16 = frame_checksum(body.as_slice(), table.extra_crc(message.id));
            Some(assemble(header, message.id, payload.as_slice(), crc))
        },
        None => None,
    }
}

/// Bytes that hold no sync byte are skipped: the search from `pos` finds
/// what the search from behind them finds.
pub proof fn lemma_skip_garbage(table: Seq<CodecModel>, stream: Seq<u8>, pos: int, count: nat)
    requires
        0 <= pos,
        pos + count <= stream.len(),
        forall|k: int| pos <= k < pos + count ==> stream[k] != MAV_STX,
    ensures
        scan(table, stream, pos) == scan(table, stream, pos + count),
    decreases count,
{
    if count > 0 {
        lemma_skip_garbage(table, stream, pos + 1, (count - 1) as nat);
    }
}

/// A complete frame that is not accepted (its checksum does not match, its
/// message id is unknown, or its payload is short) is dropped whole: the
/// search goes on at the byte behind it.
pub proof fn lemma_rejected_frame_dropped(table: Seq<CodecModel>, stream: Seq<u8>, pos: int)
    requires
        0 <= pos,
        pos + 6 <= stream.len(),
        stream[pos] == MAV_STX,
        pos + 8 + stream[pos + 1] <= stream.len(),
        accept(table, stream.subrange(pos + 1, pos + 8 + stream[pos + 1])) is None,
    ensures
        scan(table, stream, pos) == scan(table, stream, pos + 8 + stream[pos + 1]),
{
}

/// A frame whose message id the table does not know is never accepted,
/// whatever checksum it carries.
pub proof fn lemma_unknown_id_rejected(table: Seq<CodecModel>, content: Seq<u8>)
    requires
        find_codec(table, content[4]) is None,
    ensures
        accept(table, content) is None,
{
}

/// A complete frame that names an unknown message is dropped and the search
/// goes on at the byte behind it: frames that follow are still found.
pub proof fn lemma_unknown_message_skipped(table: Seq<CodecModel>, stream: Seq<u8>, pos: int)
    requires
        0 <= pos,
        pos + 6 <= stream.len(),
        stream[pos] == MAV_STX,
        pos + 8 + stream[pos + 1] <= stream.len(),
        find_codec(table, stream[pos + 5]) is None,
    ensures
        scan(table, stream, pos) == scan(table, stream, pos + 8 + stream[pos + 1]),
{
    let content = stream.subrange(pos + 1, pos + 8 + stream[pos + 1]);
    assert(content[4] == stream[pos + 5]);
    lemma_unknown_id_rejected(table, content);
}

/// A frame that the table built is found where it stands in a stream: the
/// search from its first byte gives its header and its message, and ends
/// behind it.
pub proof fn lemma_frame_found(
    table: Seq<CodecModel>,
    header: Header,
    message: MessageData,
    stream: Seq<u8>,
    pos: int,
)
    requires
        encode_frame(table, header, message) is Some,
        0 <= pos,
        pos + encode_frame(table, header, message).unwrap().len() <= stream.len(),
        stream.subrange(pos, pos + encode_frame(table, header, message).unwrap().len())
            == encode_frame(table, header, message).unwrap(),
    ensures
        scan(table, stream, pos) == Some(
            Received {
                header,
                message,
                next: pos + encode_frame(table, header, message).unwrap().len(),
            },
        ),
{
    let frame = encode_frame(table, header, message).unwrap();
    let payload = serialize_payload(table, message).unwrap();
    let body = frame_body(header, message.id, payload);
    let seed = seed_of(table, message.id);
    let crc = mcrf4xx(checksum_input(body, seed));
    lemma_le_bytes_len(crc as nat, 2);
    lemma_limits();
    lemma_le_round_trip(crc as nat, 2);
    lemma_message_round_trip(table, message);
    assert(frame.len() == 8 + payload.len());
    assert forall|k: int| 0 <= k < frame.len() implies stream[pos + k] == frame[k] by {
        assert(stream.subrange(pos, pos + frame.len())[k] == stream[pos + k]);
    }
    assert(stream[pos] == frame[0]);
    assert(stream[pos + 1] == frame[1]);
    assert(frame[1] == payload.len() as u8);
    let end = pos + 8 + payload.len();
    let content = stream.subrange(pos + 1, end);
    let tail = body + le_bytes(crc as nat, 2);
    assert(body.len() == 5 + payload.len());
    assert(frame =~= seq![MAV_STX] + tail);
    assert(content.len() == tail.len());
    assert forall|k: int| 0 <= k < content.len() implies content[k] == tail[k] by {
        assert(stream.subrange(pos, pos + frame.len())[k + 1] == stream[pos + k + 1]);
        assert(frame[k + 1] == tail[k]);
    }
    assert(content =~= tail);
    assert(content.take(content.len() - 2) =~= body);
    assert(content[4] == message.id);
    assert(content.subrange(content.len() - 2, content.len() as int) =~= le_bytes(crc as nat, 2));
    assert(content.subrange(5, content.len() - 2) =~= payload);
}

/// Resynchronization: after any number of bytes that hold no sync byte, a
/// frame that the table built is found, with its header and its message,
/// and the search ends behind it.
pub proof fn lemma_resynchronization(
    table: Seq<CodecModel>,
    header: Header,
    message: MessageData,
    garbage: Seq<u8>,
    rest: Seq<u8>,
)
    requires
        encode_frame(table, header, message) is Some,
        forall|k: int| 0 <= k < garbage.len() ==> garbage[k] != MAV_STX,
    ensures
        scan(table, garbage + encode_frame(table, header, message).unwrap() + rest, 0) == Some(
            Received {
                header,
                message,
                next: (garbage.len() + encode_frame(table, header, message).unwrap().len()) as int,
            },
        ),
{
    let frame = encode_frame(table, header, message).unwrap();
    let stream = garbage + frame + rest;
    lemma_skip_garbage(table, stream, 0, garbage.len());
    assert(stream.subrange(garbage.len() as int, (garbage.len() + frame.len()) as int) =~= frame);
    lemma_frame_found(table, header, message, stream, garbage.len() as int);
}

/// A frame that is dropped does not disturb the one behind it: when a
/// complete frame that is not accepted (its checksum does not match, or its
/// message id is unknown, or its payload is short) is directly followed by
/// a frame that the table built, the search finds that second frame, with
/// its header and its message, and ends behind it.
pub proof fn lemma_dropped_frame_keeps_next(
    table: Seq<CodecModel>,
    dropped: Seq<u8>,
    header: Header,
    message: MessageData,
    rest: Seq<u8>,
)
    requires
        dropped.len() >= 8,
        dropped[0] == MAV_STX,
        dropped.len() == 8 + dropped[1],
        accept(table, dropped.skip(1)) is None,
        encode_frame(table, header, message) is Some,
    ensures
        scan(table, dropped + encode_frame(table, header, message).unwrap() + rest, 0) == Some(
            Received {
                header,
                message,
                next: (dropped.len() + encode_frame(table, header, message).unwrap().len()) as int,
            },
        ),
{
    let frame = encode_frame(table, header, message).unwrap();
    let stream = dropped + frame + rest;
    assert(stream[0] == dropped[0]);
    assert(stream[1] == dropped[1]);
    assert(stream.subrange(1, dropped.len() as int) =~= dropped.skip(1));
    lemma_rejected_frame_dropped(table, stream, 0);
    assert(stream.subrange(dropped.len() as int, (dropped.len() + frame.len()) as int) =~= frame);
    lemma_frame_found(table, header, message, stream, dropped.len() as int);
}

/// Corruption is detected: a frame that the table built, with exactly one
/// byte changed, is not accepted. The changed byte is any but the sync
/// byte and the length: another header byte, a payload byte or a checksum
/// byte. Where it is the message id, the new id is unknown or has the seed
/// of the old one.
pub proof fn lemma_corrupted_frame_rejected(
    table: Seq<CodecModel>,
    header: Header,
    message: MessageData,
    corrupted: Seq<u8>,
    k: int,
)
    requires
        encode_frame(table, header, message) is Some,
        corrupted.len() == encode_frame(table, header, message).unwrap().len(),
        2 <= k < corrupted.len(),
        k == 5 ==> find_codec(table, corrupted[5]) is None || seed_of(table, corrupted[5])
            == seed_of(table, message.id),
        corrupted[k] != encode_frame(table, header, message).unwrap()[k],
        forall|i: int|
            0 <= i < corrupted.len() && i != k ==> corrupted[i] == encode_frame(
                table,
                header,
                message,
            ).unwrap()[i],
    ensures
        accept(table, corrupted.skip(1)) is None,
{
    let frame = encode_frame(table, header, message).unwrap();
    let payload = serialize_payload(table, message).unwrap();
    let body = frame_body(header, message.id, payload);
    let seed = seed_of(table, message.id);
    let crc = mcrf4xx(checksum_input(body, seed));
    let sent = le_bytes(crc as nat, 2);
    lemma_le_bytes_len(crc as nat, 2);
    lemma_limits();
    lemma_le_round_trip(crc as nat, 2);
    assert(frame =~= seq![MAV_STX] + (body + sent));
    let content = corrupted.skip(1);
    let end = content.len() - 2;
    assert(end == body.len());
    let changed = content.take(end);
    let received = content.subrange(end, end + 2);
    assert(content[4] == corrupted[5]);
    assert(frame[5] == body[4]);
    if find_codec(table, content[4]) is None {
        lemma_unknown_id_rejected(table, content);
    } else if k - 1 >= end {
        assert forall|i: int| 0 <= i < end implies changed[i] == body[i] by {
            assert(changed[i] == corrupted[i + 1]);
            assert(frame[i + 1] == body[i]);
        }
        assert(changed =~= body);
        assert(received[k - 1 - end] == corrupted[k]);
        assert(frame[k] == sent[k - 1 - end]);
        if le_value(received) == crc as nat {
            lemma_le_value_injective(received, sent);
        }
    } else {
        assert forall|i: int| 0 <= i < 2 implies received[i] == sent[i] by {
            assert(received[i] == corrupted[end + i + 1]);
            assert(frame[end + i + 1] == sent[i]);
        }
        assert(received =~= sent);
        let before = checksum_input(body, seed);
        let after = checksum_input(changed, seed_of(table, content[4]));
        assert(after[k - 1] == corrupted[k]);
        assert(before[k - 1] == frame[k]);
        assert forall|i: int| 0 <= i < after.len() && i != k - 1 implies after[i] == before[i] by {
            if i < end {
                assert(after[i] == corrupted[i + 1]);
                assert(before[i] == frame[i + 1]);
            }
        }
        lemma_crc_detects_one_byte(0xFFFF, after, before, k - 1);
    }
}

/// Corruption does not disturb the next frame: when a frame that the
/// table built has one byte changed on the way (as in
/// `lemma_corrupted_frame_rejected`) and is directly followed by another
/// frame that the table built, the search drops the first and finds the
/// second, with its header and its message.
pub proof fn lemma_corruption_keeps_next(
    table: Seq<CodecModel>,
    header: Header,
    message: MessageData,
    corrupted: Seq<u8>,
    k: int,
    next_header: Header,
    next_message: MessageData,
    rest: Seq<u8>,
)
    requires
        encode_frame(table, header, message) is Some,
        corrupted.len() == encode_frame(table, header, message).unwrap().len(),
        2 <= k < corrupted.len(),
        k == 5 ==> find_codec(table, corrupted[5]) is None || seed_of(table, corrupted[5])
            == seed_of(table, message.id),
        corrupted[k] != encode_frame(table, header, message).unwrap()[k],
        forall|i: int|
            0 <= i < corrupted.len() && i != k ==> corrupted[i] == encode_frame(
                table,
                header,
                message,
            ).unwrap()[i],
        encode_frame(table, next_header, next_message) is Some,
    ensures
        scan(
            table,
            corrupted + encode_frame(table, next_header, next_message).unwrap() + rest,
            0,
        ) == Some(
            Received {
                header: next_header,
                message: next_message,
                next: (corrupted.len() + encode_frame(
                    table,
                    next_header,
                    next_message,
                ).unwrap().len()) as int,
            },
        ),
{
    let frame = encode_frame(table, header, message).unwrap();
    let payload = serialize_payload(table, message).unwrap();
    let body = frame_body(header, message.id, payload);
    let crc = mcrf4xx(checksum_input(body, seed_of(table, message.id)));
    lemma_le_bytes_len(crc as nat, 2);
    assert(frame =~= seq![MAV_STX] + (body + le_bytes(crc as nat, 2)));
    assert(frame[0] == MAV_STX);
    assert(frame[1] == body[0]);
    lemma_corrupted_frame_rejected(table, header, message, corrupted, k);
    lemma_dropped_frame_keeps_next(table, corrupted, next_header, next_message, rest);
}

/// Peers whose schemas differ only in the declaration order of fields
/// interoperate: a frame that one builds is found by the other, with the
/// header and the message that the sender gave.
pub proof fn lemma_redeclared_peers_interoperate(
    sender: Seq<MessageModel>,
    receiver: Seq<MessageModel>,
    header: Header,
    message: MessageData,
)
    requires
        redeclared(sender, receiver),
        encode_frame(codecs_of(sender), header, message) is Some,
    ensures
        scan(
            codecs_of(receiver),
            encode_frame(codecs_of(sender), header, message).unwrap(),
            0,
        ) == Some(
            Received {
                header,
                message,
                next: encode_frame(codecs_of(sender), header, message).unwrap().len() as int,
            },
        ),
{
    lemma_redeclared_same_table(sender, receiver);
    let frame = encode_frame(codecs_of(sender), header, message).unwrap();
    assert(frame.subrange(0, frame.len() as int) =~= frame);
    lemma_frame_found(codecs_of(sender), header, message, frame, 0);
}

/// Peers whose seeds for a message differ do not interoperate: a frame that
/// the sender builds for that message fails the receiver's checksum, is not
/// accepted, and a stream that holds nothing else yields nothing.
pub proof fn lemma_seed_mismatch_rejected(
    sender: Seq<CodecModel>,
    receiver: Seq<CodecModel>,
    header: Header,
    message: MessageData,
)
    requires
        encode_frame(sender, header, message) is Some,
        seed_of(receiver, message.id) != seed_of(sender, message.id),
    ensures
        accept(receiver, encode_frame(sender, header, message).unwrap().skip(1)) is None,
        scan(receiver, encode_frame(sender, header, message).unwrap(), 0) is None,
{
    let frame = encode_frame(sender, header, message).unwrap();
    let payload = serialize_payload(sender, message).unwrap();
    let body = frame_body(header, message.id, payload);
    let crc = mcrf4xx(checksum_input(body, seed_of(sender, message.id)));
    let sent = le_bytes(crc as nat, 2);
    lemma_le_bytes_len(crc as nat, 2);
    lemma_limits();
    lemma_le_round_trip(crc as nat, 2);
    assert(frame =~= seq![MAV_STX] + (body + sent));
    let content = frame.skip(1);
    assert(content =~= body + sent);
    let end = content.len() - 2;
    assert(content.take(end) =~= body);
    assert(content.subrange(end, end + 2) =~= sent);
    assert(content[4] == body[4]);
    let theirs = checksum_input(body, seed_of(receiver, message.id));
    let ours = checksum_input(body, seed_of(sender, message.id));
    lemma_crc_detects_one_byte(0xFFFF, theirs, ours, body.len() as int);
    assert(accept(receiver, content) is None);
    assert(frame[0] == MAV_STX);
    assert(frame[1] == body[0]);
    assert(frame.subrange(1, frame.len() as int) =~= content);
    lemma_rejected_frame_dropped(receiver, frame, 0);
}

} // verus!
