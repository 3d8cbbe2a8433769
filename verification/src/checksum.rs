//! The frame checksum and the per-message checksum seed.

use crate::model::{
    canonical_order, distinct_widths, field_views, fields_well_formed, lemma_canonical_idempotent,
    lemma_reordering_keeps_canonical_order, of_width, sort_fields,
    FieldModel,
};
use crate::schema::{MavMessage, MessageModel};
use crate::types::MavType;
use vstd::prelude::*;
use vstd::utf8::encode_utf8;

verus! {

/// One step of the checksum register: a shift to the right, and the
/// polynomial 0x8408 mixed in when the bit shifted out is set.
pub open spec fn crc_shift(crc: u16) -> u16 {
    if crc & 1 == 1 {
        (crc >> 1) ^ 0x8408
    } else {
        crc >> 1
    }
}

/// `count` steps of the checksum register.
pub open spec fn crc_shifts(crc: u16, count: nat) -> u16
    decreases count,
{
    if count == 0 {
        crc
    } else {
        crc_shift(crc_shifts(crc, (count - 1) as nat))
    }
}

/// The register after one more byte: the byte is mixed into the low half,
/// then the register takes eight steps.
pub open spec fn crc_update(crc: u16, byte: u8) -> u16 {
    crc_shifts(crc ^ (byte as u16), 8)
}

/// The register after the bytes, starting from `crc`.
pub open spec fn crc_of(crc: u16, data: Seq<u8>) -> u16
    decreases data.len(),
{
    if data.len() == 0 {
        crc
    } else {
        crc_update(crc_of(crc, data.drop_last()), data.last())
    }
}

/// The CRC-16/MCRF4XX checksum of a byte string: reflected polynomial
/// 0x8408, initial register 0xFFFF, no final inversion.
pub open spec fn mcrf4xx(data: Seq<u8>) -> u16 {
    crc_of(0xFFFF, data)
}

/// The register after one more byte.
pub fn crc_accumulate(crc: u16, byte: u8) -> (next: u16)
    ensures
        next == crc_update(crc, byte),
{
    let start: u16 = crc ^ (byte as u16);
    let mut next: u16 = start;
    let mut i: usize = 0;
    while i < 8
        invariant
            i <= 8,
            next == crc_shifts(start, i as nat),
        decreases 8 - i,
    {
        next = if next & 1 == 1 {
            (next >> 1) ^ 0x8408
        } else {
            next >> 1
        };
        i += 1;
    }
    next
}

/// The CRC-16/MCRF4XX checksum of the bytes.
pub fn checksum(data: &[u8]) -> (crc: u16)
    ensures
        crc == mcrf4xx(data@),
{
    let mut crc: u16 = 0xFFFF;
    let mut i: usize = 0;
    assert(data@.take(0) =~= Seq::<u8>::empty());
    while i < data.len()
        invariant
            i <= data.len(),
            crc == crc_of(0xFFFF, data@.take(i as int)),
        decreases data.len() - i,
    {
        assert(data@.take(i + 1).drop_last() =~= data@.take(i as int));
        assert(data@.take(i + 1).last() == data@[i as int]);
        crc = crc_accumulate(crc, data[i]);
        i += 1;
    }
    assert(data@.take(data.len() as int) =~= data@);
    crc
}

/// A step of the register loses nothing: different registers stay
/// different.
pub proof fn lemma_shift_injective(a: u16, b: u16)
    requires
        crc_shift(a) == crc_shift(b),
    ensures
        a == b,
{
    assert((if a & 1 == 1 {
        (a >> 1) ^ 0x8408
    } else {
        a >> 1
    }) == (if b & 1 == 1 {
        (b >> 1) ^ 0x8408
    } else {
        b >> 1
    }) ==> a == b) by (bit_vector);
}

/// Any number of steps loses nothing.
pub proof fn lemma_shifts_injective(a: u16, b: u16, count: nat)
    requires
        crc_shifts(a, count) == crc_shifts(b, count),
    ensures
        a == b,
    decreases count,
{
    if count > 0 {
        lemma_shift_injective(
            crc_shifts(a, (count - 1) as nat),
            crc_shifts(b, (count - 1) as nat),
        );
        lemma_shifts_injective(a, b, (count - 1) as nat);
    }
}

/// Taking a byte loses nothing: two registers that take bytes agree
/// afterwards only if both the registers and the bytes agreed, or both
/// differed.
pub proof fn lemma_update_injective(a: u16, x: u8, b: u16, y: u8)
    requires
        crc_update(a, x) == crc_update(b, y),
    ensures
        (a == b) == (x == y),
{
    lemma_shifts_injective(a ^ (x as u16), b ^ (y as u16), 8);
    let wide_x = x as u16;
    let wide_y = y as u16;
    assert(a ^ wide_x == b ^ wide_y ==> (a == b) == (wide_x == wide_y)) by (bit_vector);
}

/// The checksum detects every change that is confined to one byte: two
/// byte strings of one length that differ in exactly one byte have
/// different checksums, whatever the register started from.
pub proof fn lemma_crc_detects_one_byte(start: u16, a: Seq<u8>, b: Seq<u8>, k: int)
    requires
        a.len() == b.len(),
        0 <= k < a.len(),
        a[k] != b[k],
        forall|i: int| 0 <= i < a.len() && i != k ==> a[i] == b[i],
    ensures
        crc_of(start, a) != crc_of(start, b),
    decreases a.len(),
{
    let front_a = a.drop_last();
    let front_b = b.drop_last();
    if k == a.len() - 1 {
        assert(front_a =~= front_b);
    } else {
        assert(a.last() == b.last());
        assert(front_a[k] == a[k] && front_b[k] == b[k]);
        assert forall|i: int| 0 <= i < front_a.len() && i != k implies front_a[i] == front_b[i] by {
            assert(front_a[i] == a[i] && front_b[i] == b[i]);
        }
        lemma_crc_detects_one_byte(start, front_a, front_b, k);
    }
    if crc_of(start, a) == crc_of(start, b) {
        lemma_update_injective(crc_of(start, front_a), a.last(), crc_of(start, front_b), b.last());
    }
}

/// Appends `bytes` to `out`.
pub fn append_bytes(out: &mut Vec<u8>, bytes: &[u8])
    ensures
        final(out)@ == old(out)@ + bytes@,
{
    let mut i: usize = 0;
    assert(out@ =~= old(out)@ + bytes@.take(0));
    while i < bytes.len()
        invariant
            i <= bytes.len(),
            out@ == old(out)@ + bytes@.take(i as int),
        decreases bytes.len() - i,
    {
        out.push(bytes[i]);
        i += 1;
        assert(out@ =~= old(out)@ + bytes@.take(i as int));
    }
    assert(bytes@.take(bytes.len() as int) =~= bytes@);
}

/// The bytes one field contributes to the checksum seed: the primitive
/// family's name, a space, the field's name, a space and, for an array, one
/// byte that holds its element count (modulo 256).
pub open spec fn field_signature(field: FieldModel) -> Seq<u8> {
    encode_utf8(field.mavtype.primitive_name()) + seq![32u8] + encode_utf8(field.name) + seq![32u8]
        + match field.mavtype {
        MavType::Array(_, count) => seq![(count % 256) as u8],
        _ => Seq::empty(),
    }
}

/// The contributions of the fields, in the order given.
pub open spec fn fields_signature(fields: Seq<FieldModel>) -> Seq<u8>
    decreases fields.len(),
{
    if fields.len() == 0 {
        Seq::empty()
    } else {
        fields_signature(fields.drop_last()) + field_signature(fields.last())
    }
}

/// The bytes a message feeds to the checksum: its name, a space, and the
/// contributions of its fields in canonical order.
pub open spec fn message_signature(message: MessageModel) -> Seq<u8> {
    encode_utf8(message.name) + seq![32u8] + fields_signature(canonical_order(message.fields))
}

/// The low byte of a checksum combined with its high byte.
pub open spec fn fold_checksum(crc: u16) -> u8 {
    ((crc & 0xff) ^ (crc >> 8)) as u8
}

/// The checksum seed of a message.
pub open spec fn extra_crc_of(message: MessageModel) -> u8 {
    fold_checksum(mcrf4xx(message_signature(message)))
}

/// Combines the two bytes of a checksum into one.
pub fn fold_crc(crc: u16) -> (seed: u8)
    ensures
        seed == fold_checksum(crc),
{
    let mixed: u16 = (crc & 0xff) ^ (crc >> 8);
    assert(mixed <= 0xff) by (bit_vector)
        requires
            mixed == (crc & 0xff) ^ (crc >> 8),
    ;
    mixed as u8
}

/// The bytes that the message feeds to the checksum.
pub fn signature_bytes(msg: &MavMessage) -> (bytes: Vec<u8>)
    requires
        msg.well_formed(),
    ensures
        bytes@ == message_signature(msg@),
{
    let mut bytes: Vec<u8> = Vec::new();
    append_bytes(&mut bytes, msg.name.as_str().as_bytes());
    bytes.push(32u8);
    let fields = sort_fields(&msg.fields);
    let ghost head = bytes@;
    let ghost views = field_views(fields@);
    assert(head =~= encode_utf8(msg@.name) + seq![32u8]);
    let mut i: usize = 0;
    assert(views.take(0) =~= Seq::<FieldModel>::empty());
    assert(bytes@ =~= head + fields_signature(views.take(0)));
    while i < fields.len()
        invariant
            i <= fields.len(),
            views == field_views(fields@),
            bytes@ == head + fields_signature(views.take(i as int)),
        decreases fields.len() - i,
    {
        let ghost before = bytes@;
        let field = &fields[i];
        let family = field.mavtype.primitive_type();
        append_bytes(&mut bytes, family.as_str().as_bytes());
        bytes.push(32u8);
        append_bytes(&mut bytes, field.name.as_str().as_bytes());
        bytes.push(32u8);
        match &field.mavtype {
            MavType::Array(_, count) => {
                bytes.push((*count % 256) as u8);
            },
            _ => {},
        }
        proof {
            assert(views.take(i + 1).drop_last() =~= views.take(i as int));
            assert(views.take(i + 1).last() == views[i as int]);
            assert(views[i as int] == field@);
            assert(bytes@ =~= before + field_signature(field@));
            assert(bytes@ =~= head + fields_signature(views.take(i + 1)));
        }
        i += 1;
    }
    assert(views.take(fields.len() as int) =~= views);
    bytes
}

/// The one-byte checksum seed of a message: the checksum of its name and of
/// its fields' types and names in canonical order, folded to one byte.
pub fn extra_crc(msg: &MavMessage) -> (seed: u8)
    requires
        msg.well_formed(),
    ensures
        seed == extra_crc_of(msg@),
{
    let bytes = signature_bytes(msg);
    fold_crc(checksum(bytes.as_slice()))
}

/// The checksum seed depends on the fields only through their canonical
/// order: the message whose fields are declared in canonical order has the
/// seed of the message as declared.
pub proof fn lemma_seed_of_canonical(message: MessageModel)
    ensures
        extra_crc_of(MessageModel { fields: canonical_order(message.fields), ..message })
            == extra_crc_of(message),
{
    lemma_canonical_idempotent(message.fields);
}

/// Two messages with the same name whose fields have the same canonical
/// order have the same checksum seed, however the fields were declared.
pub proof fn lemma_seed_ignores_declaration_order(a: MessageModel, b: MessageModel)
    requires
        a.name == b.name,
        canonical_order(a.fields) == canonical_order(b.fields),
    ensures
        extra_crc_of(a) == extra_crc_of(b),
{
}

/// The seed does not depend on the declaration order of fields of distinct
/// ordering widths: two messages of one name whose fields are arrangements
/// of the same fields have the same checksum seed.
pub proof fn lemma_reordered_fields_same_seed(a: MessageModel, b: MessageModel)
    requires
        a.name == b.name,
        a.fields.to_multiset() == b.fields.to_multiset(),
        distinct_widths(a.fields),
    ensures
        canonical_order(a.fields) == canonical_order(b.fields),
        extra_crc_of(a) == extra_crc_of(b),
{
    lemma_reordering_keeps_canonical_order(a.fields, b.fields);
}

/// The contributions of two lists, one behind the other, are the
/// contributions of the first followed by those of the second.
pub proof fn lemma_signature_concat(a: Seq<FieldModel>, b: Seq<FieldModel>)
    ensures
        fields_signature(a + b) == fields_signature(a) + fields_signature(b),
    decreases b.len(),
{
    if b.len() == 0 {
        assert(a + b =~= a);
        assert(fields_signature(a) + fields_signature(b) =~= fields_signature(a));
    } else {
        lemma_signature_concat(a, b.drop_last());
        assert((a + b).drop_last() =~= a + b.drop_last());
        assert((a + b).last() == b.last());
        assert(fields_signature(a + b) =~= fields_signature(a) + fields_signature(b));
    }
}

/// Putting well-formed fields in canonical order keeps the number of bytes
/// that they contribute.
pub proof fn lemma_canonical_signature_len(fields: Seq<FieldModel>)
    requires
        fields_well_formed(fields),
    ensures
        fields_signature(canonical_order(fields)).len() == fields_signature(fields).len(),
    decreases fields.len(),
{
    let b8 = of_width(fields, 8);
    let b4 = of_width(fields, 4);
    let b2 = of_width(fields, 2);
    let b1 = of_width(fields, 1);
    lemma_signature_concat(b8 + b4 + b2, b1);
    lemma_signature_concat(b8 + b4, b2);
    lemma_signature_concat(b8, b4);
    if fields.len() == 0 {
        assert(canonical_order(fields) =~= fields);
    } else {
        let front = fields.drop_last();
        let last = fields.last();
        assert forall|i: int| 0 <= i < front.len() implies (#[trigger] front[i]).mavtype.well_formed() by {
            assert(front[i] == fields[i]);
        }
        lemma_canonical_signature_len(front);
        let f8 = of_width(front, 8);
        let f4 = of_width(front, 4);
        let f2 = of_width(front, 2);
        let f1 = of_width(front, 1);
        lemma_signature_concat(f8 + f4 + f2, f1);
        lemma_signature_concat(f8 + f4, f2);
        lemma_signature_concat(f8, f4);
        assert(last == fields[fields.len() - 1]);
        last.mavtype.lemma_order_width();
        assert(f8.push(last).drop_last() =~= f8);
        assert(f4.push(last).drop_last() =~= f4);
        assert(f2.push(last).drop_last() =~= f2);
        assert(f1.push(last).drop_last() =~= f1);
    }
}

/// An added field changes what the seed is taken of: when the second of two
/// messages has the fields of the first and one more, declared at any
/// place, the two feed different bytes to the checksum. Their one-byte
/// seeds are then the same only where the checksums of different byte
/// strings fold to the same byte.
pub proof fn lemma_added_field_changes_signature(
    first: MessageModel,
    second: MessageModel,
    place: int,
    added: FieldModel,
)
    requires
        fields_well_formed(first.fields),
        added.mavtype.well_formed(),
        0 <= place <= first.fields.len(),
        second.name == first.name,
        second.fields == first.fields.insert(place, added),
    ensures
        message_signature(second).len() > message_signature(first).len(),
        message_signature(first) != message_signature(second),
{
    let head = first.fields.take(place);
    let tail = first.fields.skip(place);
    assert(first.fields =~= head + tail);
    assert(second.fields =~= head + seq![added] + tail);
    assert forall|i: int| 0 <= i < second.fields.len() implies (
    #[trigger] second.fields[i]).mavtype.well_formed() by {
        if i < place {
            assert(second.fields[i] == first.fields[i]);
        } else if i > place {
            assert(second.fields[i] == first.fields[i - 1]);
        }
    }
    lemma_canonical_signature_len(first.fields);
    lemma_canonical_signature_len(second.fields);
    lemma_signature_concat(head, tail);
    lemma_signature_concat(head + seq![added], tail);
    lemma_signature_concat(head, seq![added]);
    assert(seq![added].drop_last() =~= Seq::<FieldModel>::empty());
    assert(fields_signature(seq![added]) =~= field_signature(added)) by {
        reveal_with_fuel(fields_signature, 2);
    }
    assert(field_signature(added).len() >= 2);
}

} // verus!
