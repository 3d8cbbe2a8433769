//! The codec table: for each message its layout and its checksum seed.

use crate::checksum::{extra_crc, extra_crc_of, lemma_reordered_fields_same_seed};
use crate::codec::{
    decode_payload, decode_values, encode_payload, encode_values, fits_all, layout_well_formed,
    lemma_decode_payload_length, payload_len, value_views, FieldData, FieldValue,
};
use crate::model::{canonical_order, distinct_widths, field_views, sort_fields, FieldModel};
use crate::schema::{distinct_ids, MavMessage, MavProfile, MessageModel};
use crate::types::MavType;
use vstd::prelude::*;

verus! {

/// What a compiled codec is.
pub ghost struct CodecModel {
    pub id: u8,
    pub layout: Seq<MavType>,
    pub seed: u8,
}

/// The codec of one message: the types of its fields in wire order and its
/// checksum seed.
#[derive(Debug, PartialEq, Eq, Clone)]
pub struct CompiledCodec {
    pub id: u8,
    pub layout: Vec<MavType>,
    pub seed: u8,
}

impl View for CompiledCodec {
    type V = CodecModel;

    open spec fn view(&self) -> CodecModel {
        CodecModel { id: self.id, layout: self.layout@, seed: self.seed }
    }
}

/// The types of the fields, in order.
pub open spec fn layout_of(fields: Seq<FieldModel>) -> Seq<MavType> {
    Seq::new(fields.len(), |i: int| fields[i].mavtype)
}

/// The codec of a message: its fields' types in canonical order and its
/// checksum seed.
pub open spec fn codec_of(message: MessageModel) -> CodecModel {
    CodecModel {
        id: message.id,
        layout: layout_of(canonical_order(message.fields)),
        seed: extra_crc_of(message),
    }
}

/// The codecs of the messages, in order.
pub open spec fn codecs_of(messages: Seq<MessageModel>) -> Seq<CodecModel> {
    Seq::new(messages.len(), |i: int| codec_of(messages[i]))
}

/// The first codec with this id, if there is one.
pub open spec fn find_codec(table: Seq<CodecModel>, id: u8) -> Option<CodecModel>
    decreases table.len(),
{
    if table.len() == 0 {
        None
    } else if table[0].id == id {
        Some(table[0])
    } else {
        find_codec(table.drop_first(), id)
    }
}

/// The checksum seed of the message with this id; 0 when the id is unknown.
pub open spec fn seed_of(table: Seq<CodecModel>, id: u8) -> u8 {
    match find_codec(table, id) {
        Some(codec) => codec.seed,
        None => 0,
    }
}

/// Every layout of the table is well formed.
pub open spec fn table_well_formed(table: Seq<CodecModel>) -> bool {
    forall|i: int| 0 <= i < table.len() ==> layout_well_formed((#[trigger] table[i]).layout)
}

/// The table is keyed by message id: in the table of messages with distinct
/// ids, the id of each message finds the codec of that message.
pub proof fn lemma_table_finds_message(messages: Seq<MessageModel>, i: int)
    requires
        distinct_ids(messages),
        0 <= i < messages.len(),
    ensures
        find_codec(codecs_of(messages), messages[i].id) == Some(codec_of(messages[i])),
    decreases messages.len(),
{
    let table = codecs_of(messages);
    assert(table[0] == codec_of(messages[0]));
    if i > 0 {
        let rest = messages.drop_first();
        assert(messages[0].id != messages[i].id);
        assert forall|a: int, b: int| 0 <= a < b < rest.len() implies (#[trigger] rest[a]).id != (
        #[trigger] rest[b]).id by {
            assert(rest[a] == messages[a + 1]);
            assert(rest[b] == messages[b + 1]);
        }
        assert(rest[i - 1] == messages[i]);
        lemma_table_finds_message(rest, i - 1);
        assert(table.drop_first() =~= codecs_of(rest));
    }
}

/// What a message value is: the id of its message and its field values in
/// wire order.
pub ghost struct MessageData {
    pub id: u8,
    pub values: Seq<FieldData>,
}

/// A message value: the id of its message and the values of its fields, in
/// canonical order.
#[derive(Debug, PartialEq, Eq, Clone)]
pub struct MessageValue {
    pub id: u8,
    pub values: Vec<FieldValue>,
}

impl View for MessageValue {
    type V = MessageData;

    open spec fn view(&self) -> MessageData {
        MessageData { id: self.id, values: value_views(self.values@) }
    }
}

/// The message value that a payload holds: nothing when the id is unknown or
/// the payload ends before the last field.
pub open spec fn parse_payload(table: Seq<CodecModel>, id: u8, payload: Seq<u8>) -> Option<
    MessageData,
> {
    match find_codec(table, id) {
        Some(codec) => match decode_payload(codec.layout, payload) {
            Some(values) => Some(MessageData { id, values }),
            None => None,
        },
        None => None,
    }
}

/// The payload of a message value: nothing when the id is unknown or the
/// values do not fit the layout.
pub open spec fn serialize_payload(table: Seq<CodecModel>, message: MessageData) -> Option<
    Seq<u8>,
> {
    match find_codec(table, message.id) {
        Some(codec) => if fits_all(codec.layout, message.values) {
            Some(encode_payload(codec.layout, message.values))
        } else {
            None
        },
        None => None,
    }
}

/// When a payload can be parsed: exactly when the id is known and the
/// payload is at least as long as the fields of the message together.
pub proof fn lemma_parse_succeeds(table: Seq<CodecModel>, id: u8, payload: Seq<u8>)
    requires
        table_well_formed(table),
    ensures
        parse_payload(table, id, payload) is Some <==> find_codec(table, id) is Some
            && payload.len() >= payload_len(find_codec(table, id).unwrap().layout),
{
    lemma_find_codec_member(table, id);
    if find_codec(table, id) is Some {
        lemma_decode_payload_length(find_codec(table, id).unwrap().layout, payload);
    }
}

/// A codec that the table finds is one of the table's and has the id asked
/// for; when the table finds none, no codec has the id.
pub proof fn lemma_find_codec_member(table: Seq<CodecModel>, id: u8)
    ensures
        match find_codec(table, id) {
            Some(codec) => codec.id == id && table.contains(codec),
            None => forall|i: int| 0 <= i < table.len() ==> (#[trigger] table[i]).id != id,
        },
    decreases table.len(),
{
    if table.len() > 0 {
        if table[0].id == id {
            assert(table[0] == table[0]);
        } else {
            let rest = table.drop_first();
            lemma_find_codec_member(rest, id);
            match find_codec(rest, id) {
                Some(codec) => {
                    let j = choose|j: int| 0 <= j < rest.len() && rest[j] == codec;
                    assert(table[j + 1] == codec);
                },
                None => {
                    assert forall|i: int| 0 <= i < table.len() implies (#[trigger] table[i]).id
                        != id by {
                        if i > 0 {
                            assert(table[i] == rest[i - 1]);
                        }
                    }
                },
            }
        }
    }
}

/// Compiles one message: sorts its fields into canonical order and computes
/// its checksum seed.
pub fn compile_message(msg: &MavMessage) -> (codec: CompiledCodec)
    requires
        msg.well_formed(),
    ensures
        codec@ == codec_of(msg@),
        layout_well_formed(codec@.layout),
{
    let sorted = sort_fields(&msg.fields);
    let mut layout: Vec<MavType> = Vec::new();
    let mut i: usize = 0;
    while i < sorted.len()
        invariant
            i <= sorted.len(),
            layout.len() == i,
            forall|k: int| 0 <= k < i ==> layout@[k] == field_views(sorted@)[k].mavtype,
        decreases sorted.len() - i,
    {
        layout.push(sorted[i].mavtype.duplicate());
        i += 1;
    }
    proof {
        assert(layout@ =~= layout_of(canonical_order(msg@.fields)));
        assert forall|k: int| 0 <= k < layout@.len() implies (#[trigger] layout@[k]).well_formed() by {
            assert(field_views(sorted@)[k].mavtype.well_formed());
        }
    }
    CompiledCodec { id: msg.id, layout, seed: extra_crc(msg) }
}

/// The codecs of a schema, in the order of its messages.
#[derive(Debug, PartialEq, Eq, Clone)]
pub struct CodecTable {
    pub codecs: Vec<CompiledCodec>,
}

impl View for CodecTable {
    type V = Seq<CodecModel>;

    open spec fn view(&self) -> Seq<CodecModel> {
        Seq::new(self.codecs@.len(), |i: int| self.codecs@[i]@)
    }
}

impl CodecTable {
    /// Every layout is well formed.
    pub open spec fn well_formed(&self) -> bool {
        table_well_formed(self@)
    }

    /// Compiles every message of the schema.
    pub fn compile(profile: &MavProfile) -> (table: CodecTable)
        requires
            profile.types_well_formed(),
        ensures
            table@ == codecs_of(profile@.messages),
            table.well_formed(),
    {
        let mut codecs: Vec<CompiledCodec> = Vec::new();
        let mut i: usize = 0;
        while i < profile.messages.len()
            invariant
                i <= profile.messages.len(),
                codecs.len() == i,
                profile.types_well_formed(),
                forall|k: int|
                    0 <= k < i ==> (#[trigger] codecs@[k])@ == codec_of(profile.messages@[k]@)
                        && layout_well_formed(codecs@[k]@.layout),
            decreases profile.messages.len() - i,
        {
            assert(profile@.messages[i as int] == profile.messages[i as int]@);
            codecs.push(compile_message(&profile.messages[i]));
            i += 1;
        }
        let table = CodecTable { codecs };
        proof {
            assert(table@ =~= codecs_of(profile@.messages));
            assert forall|k: int| 0 <= k < table@.len() implies layout_well_formed(
                (#[trigger] table@[k]).layout,
            ) by {
                assert(layout_well_formed(table.codecs@[k]@.layout));
            }
        }
        table
    }

    /// The position of the first codec with this id.
    pub fn lookup(&self, id: u8) -> (found: Option<usize>)
        ensures
            match found {
                Some(p) => p < self.codecs.len() && find_codec(self@, id) == Some(self@[p as int]),
                None => find_codec(self@, id) is None,
            },
    {
        let mut i: usize = 0;
        assert(self@.skip(0) =~= self@);
        while i < self.codecs.len()
            invariant
                i <= self.codecs.len(),
                find_codec(self@, id) == find_codec(self@.skip(i as int), id),
            decreases self.codecs.len() - i,
        {
            let ghost here = self@.skip(i as int);
            assert(here[0] == self@[i as int]);
            assert(here.drop_first() =~= self@.skip(i + 1));
            if self.codecs[i].id == id {
                return Some(i);
            }
            i += 1;
        }
        assert(self@.skip(self.codecs.len() as int) =~= Seq::<CodecModel>::empty());
        None
    }

    /// The checksum seed of the message with this id; 0 when the id is
    /// unknown.
    pub fn extra_crc(&self, id: u8) -> (seed: u8)
        ensures
            seed == seed_of(self@, id),
    {
        match self.lookup(id) {
            Some(p) => self.codecs[p].seed,
            None => 0,
        }
    }

    /// Decodes the payload of the message with this id. Gives nothing when
    /// the id is unknown or the payload ends before the last field.
    pub fn parse(&self, id: u8, payload: &[u8]) -> (message: Option<MessageValue>)
        requires
            self.well_formed(),
        ensures
            match message {
                Some(value) => parse_payload(self@, id, payload@) == Some(value@),
                None => parse_payload(self@, id, payload@) is None,
            },
    {
        match self.lookup(id) {
            Some(p) => {
                assert(layout_well_formed(self@[p as int].layout));
                match decode_values(&self.codecs[p].layout, payload) {
                    Some(values) => Some(MessageValue { id, values }),
                    None => None,
                }
            },
            None => None,
        }
    }

    /// Encodes the payload of a message value. Gives nothing when the id is
    /// unknown or a value does not fit the type at its position.
    pub fn serialize(&self, message: &MessageValue) -> (payload: Option<Vec<u8>>)
        requires
            self.well_formed(),
        ensures
            match payload {
                Some(bytes) => serialize_payload(self@, message@) == Some(bytes@),
                None => serialize_payload(self@, message@) is None,
            },
    {
        match self.lookup(message.id) {
            Some(p) => {
                assert(layout_well_formed(self@[p as int].layout));
                encode_values(&self.codecs[p].layout, &message.values)
            },
            None => None,
        }
    }
}

/// Decoding inverts encoding: a message value that the table can encode is
/// read back from its payload.
pub proof fn lemma_message_round_trip(table: Seq<CodecModel>, message: MessageData)
    requires
        serialize_payload(table, message) is Some,
    ensures
        parse_payload(table, message.id, serialize_payload(table, message).unwrap()) == Some(
            message,
        ),
{
    let codec = find_codec(table, message.id).unwrap();
    crate::codec::lemma_round_trip(codec.layout, message.values);
}

/// The second schema is the first with the fields of its messages declared
/// in another order: message by message the ids and names agree and the
/// fields, of distinct ordering widths, are the same but for their order.
pub open spec fn redeclared(first: Seq<MessageModel>, second: Seq<MessageModel>) -> bool {
    &&& first.len() == second.len()
    &&& forall|i: int|
        0 <= i < first.len() ==> {
            &&& (#[trigger] first[i]).id == second[i].id
            &&& first[i].name == second[i].name
            &&& first[i].fields.to_multiset() == second[i].fields.to_multiset()
            &&& distinct_widths(first[i].fields)
        }
}

/// Schemas that differ only in the declaration order of fields compile to
/// the same table: the same layouts and the same checksum seeds.
pub proof fn lemma_redeclared_same_table(first: Seq<MessageModel>, second: Seq<MessageModel>)
    requires
        redeclared(first, second),
    ensures
        codecs_of(first) == codecs_of(second),
{
    assert forall|i: int| 0 <= i < first.len() implies codec_of(first[i]) == codec_of(
        second[i],
    ) by {
        assert(first[i].id == second[i].id);
        lemma_reordered_fields_same_seed(first[i], second[i]);
    }
    assert(codecs_of(first) =~= codecs_of(second));
}

} // verus!
