//! Payload encoding and decoding: field values to wire bytes and back.
//!
//! Every scalar is carried as the unsigned number that its wire bytes spell:
//! a signed integer by its two's complement bits, a floating-point number by
//! its IEEE 754 bits.

use crate::types::MavType;
use crate::wire::{
    fits_width, get_le, le_bytes, le_value, lemma_le_bytes_len, lemma_le_round_trip,
    lemma_le_value_bound, lemma_limits, limit, put_le,
};
use vstd::prelude::*;

verus! {

/// What a field value is: one number or a sequence of numbers.
pub ghost enum FieldData {
    Scalar(u64),
    Array(Seq<u64>),
}

/// The value of one field of a message.
#[derive(Debug, PartialEq, Eq, Clone)]
pub enum FieldValue {
    Scalar(u64),
    Array(Vec<u64>),
}

impl View for FieldValue {
    type V = FieldData;

    open spec fn view(&self) -> FieldData {
        match self {
            FieldValue::Scalar(x) => FieldData::Scalar(*x),
            FieldValue::Array(xs) => FieldData::Array(xs@),
        }
    }
}

/// The views of a list of field values, in order.
pub open spec fn value_views(values: Seq<FieldValue>) -> Seq<FieldData> {
    Seq::new(values.len(), |i: int| values[i]@)
}

/// The numbers a value holds, in order.
pub open spec fn elements(value: FieldData) -> Seq<u64> {
    match value {
        FieldData::Scalar(x) => seq![x],
        FieldData::Array(xs) => xs,
    }
}

/// Every number fits in `width` bytes.
pub open spec fn all_fit(elems: Seq<u64>, width: nat) -> bool {
    forall|i: int| 0 <= i < elems.len() ==> (#[trigger] elems[i] as nat) < limit(width)
}

/// The value has the shape of the type and respects its wire width: a number
/// below 256 to the power of the width for a scalar, as many such numbers as
/// the array has elements for an array.
pub open spec fn fits(ty: MavType, value: FieldData) -> bool {
    match ty {
        MavType::Array(elem, count) => value is Array && elements(value).len() == count && all_fit(
            elements(value),
            elem.wire_len(),
        ),
        _ => value is Scalar && all_fit(elements(value), ty.wire_len()),
    }
}

/// Each value fits the type at its position.
pub open spec fn fits_all(layout: Seq<MavType>, values: Seq<FieldData>) -> bool {
    &&& layout.len() == values.len()
    &&& forall|i: int| 0 <= i < layout.len() ==> fits(#[trigger] layout[i], values[i])
}

/// Every type of the layout is well formed.
pub open spec fn layout_well_formed(layout: Seq<MavType>) -> bool {
    forall|i: int| 0 <= i < layout.len() ==> (#[trigger] layout[i]).well_formed()
}

/// The numbers, each as `width` little-endian bytes, back to back.
pub open spec fn encode_elements(elems: Seq<u64>, width: nat) -> Seq<u8>
    decreases elems.len(),
{
    if elems.len() == 0 {
        Seq::empty()
    } else {
        le_bytes(elems[0] as nat, width) + encode_elements(elems.drop_first(), width)
    }
}

/// The wire bytes of one field.
pub open spec fn encode_field(ty: MavType, value: FieldData) -> Seq<u8> {
    encode_elements(elements(value), ty.order_width())
}

/// The payload: the wire bytes of the fields in layout order, without padding.
pub open spec fn encode_payload(layout: Seq<MavType>, values: Seq<FieldData>) -> Seq<u8>
    decreases layout.len(),
{
    if layout.len() == 0 {
        Seq::empty()
    } else {
        encode_field(layout[0], values[0]) + encode_payload(
            layout.drop_first(),
            values.drop_first(),
        )
    }
}

/// Reads `count` numbers of `width` bytes each from the front of `bytes`:
/// the numbers and the bytes that follow them, or nothing when the bytes run
/// out.
pub open spec fn decode_elements(bytes: Seq<u8>, width: nat, count: nat) -> Option<
    (Seq<u64>, Seq<u8>),
>
    decreases count,
{
    if count == 0 {
        Some((Seq::empty(), bytes))
    } else if bytes.len() < width {
        None
    } else {
        match decode_elements(bytes.skip(width as int), width, (count - 1) as nat) {
            Some((rest, tail)) => Some(
                (seq![le_value(bytes.take(width as int)) as u64] + rest, tail),
            ),
            None => None,
        }
    }
}

/// Reads one field from the front of `bytes`.
pub open spec fn decode_field(ty: MavType, bytes: Seq<u8>) -> Option<(FieldData, Seq<u8>)> {
    match ty {
        MavType::Array(elem, count) => match decode_elements(bytes, elem.wire_len(), count as nat) {
            Some((xs, tail)) => Some((FieldData::Array(xs), tail)),
            None => None,
        },
        _ => match decode_elements(bytes, ty.wire_len(), 1) {
            Some((xs, tail)) => Some((FieldData::Scalar(xs[0]), tail)),
            None => None,
        },
    }
}

/// Reads the fields of the layout from the front of `bytes`, in order; bytes
/// that follow the last field are ignored. Nothing when the bytes run out.
pub open spec fn decode_payload(layout: Seq<MavType>, bytes: Seq<u8>) -> Option<Seq<FieldData>>
    decreases layout.len(),
{
    if layout.len() == 0 {
        Some(Seq::empty())
    } else {
        match decode_field(layout[0], bytes) {
            Some((value, tail)) => match decode_payload(layout.drop_first(), tail) {
                Some(rest) => Some(seq![value] + rest),
                None => None,
            },
            None => None,
        }
    }
}

/// Numbers that fit their width are read back from their bytes, whatever
/// follows them.
pub proof fn lemma_elements_round_trip(elems: Seq<u64>, width: nat, tail: Seq<u8>)
    requires
        all_fit(elems, width),
    ensures
        decode_elements(encode_elements(elems, width) + tail, width, elems.len()) == Some(
            (elems, tail),
        ),
    decreases elems.len(),
{
    if elems.len() == 0 {
        assert(encode_elements(elems, width) + tail =~= tail);
        assert(elems =~= Seq::<u64>::empty());
    } else {
        let head = le_bytes(elems[0] as nat, width);
        let rest = elems.drop_first();
        let bytes = encode_elements(elems, width) + tail;
        lemma_le_bytes_len(elems[0] as nat, width);
        lemma_le_round_trip(elems[0] as nat, width);
        assert forall|i: int| 0 <= i < rest.len() implies (#[trigger] rest[i] as nat) < limit(
            width,
        ) by {
            assert(rest[i] == elems[i + 1]);
        }
        lemma_elements_round_trip(rest, width, tail);
        assert(bytes.take(width as int) =~= head);
        assert(bytes.skip(width as int) =~= encode_elements(rest, width) + tail);
        assert(seq![elems[0]] + rest =~= elems);
    }
}

/// A value that fits its type is read back from its wire bytes, whatever
/// follows them.
pub proof fn lemma_field_round_trip(ty: MavType, value: FieldData, tail: Seq<u8>)
    requires
        fits(ty, value),
    ensures
        decode_field(ty, encode_field(ty, value) + tail) == Some((value, tail)),
{
    lemma_elements_round_trip(elements(value), ty.order_width(), tail);
    match value {
        FieldData::Scalar(x) => {
            assert(elements(value)[0] == x);
        },
        FieldData::Array(xs) => {},
    }
}

/// Decoding inverts encoding: values that fit the layout are read back from
/// their payload, whatever bytes follow it.
pub proof fn lemma_payload_round_trip(layout: Seq<MavType>, values: Seq<FieldData>, tail: Seq<u8>)
    requires
        fits_all(layout, values),
    ensures
        decode_payload(layout, encode_payload(layout, values) + tail) == Some(values),
    decreases layout.len(),
{
    if layout.len() == 0 {
        assert(values =~= Seq::<FieldData>::empty());
    } else {
        let rest_layout = layout.drop_first();
        let rest_values = values.drop_first();
        assert forall|i: int| 0 <= i < rest_layout.len() implies fits(
            #[trigger] rest_layout[i],
            rest_values[i],
        ) by {
            assert(rest_layout[i] == layout[i + 1]);
            assert(fits(layout[i + 1], values[i + 1]));
        }
        let after = encode_payload(rest_layout, rest_values) + tail;
        assert(fits(layout[0], values[0]));
        lemma_field_round_trip(layout[0], values[0], after);
        lemma_payload_round_trip(rest_layout, rest_values, tail);
        assert(encode_payload(layout, values) + tail =~= encode_field(layout[0], values[0])
            + after);
        assert(seq![values[0]] + rest_values =~= values);
    }
}

/// Decoding inverts encoding on the exact payload.
pub proof fn lemma_round_trip(layout: Seq<MavType>, values: Seq<FieldData>)
    requires
        fits_all(layout, values),
    ensures
        decode_payload(layout, encode_payload(layout, values)) == Some(values),
{
    lemma_payload_round_trip(layout, values, Seq::empty());
    assert(encode_payload(layout, values) + Seq::<u8>::empty() =~= encode_payload(layout, values));
}

/// The number of bytes that the fields of a layout occupy.
pub open spec fn payload_len(layout: Seq<MavType>) -> nat
    decreases layout.len(),
{
    if layout.len() == 0 {
        0
    } else {
        layout[0].wire_len() + payload_len(layout.drop_first())
    }
}

/// Numbers can be read exactly when the bytes hold all of them; reading
/// takes `count` times `width` bytes and gives `count` numbers.
pub proof fn lemma_decode_elements_length(bytes: Seq<u8>, width: nat, count: nat)
    requires
        width > 0,
    ensures
        decode_elements(bytes, width, count) is Some <==> bytes.len() >= width * count,
        decode_elements(bytes, width, count) is Some ==> {
            &&& decode_elements(bytes, width, count).unwrap().0.len() == count
            &&& decode_elements(bytes, width, count).unwrap().1 == bytes.skip(
                (width * count) as int,
            )
        },
    decreases count,
{
    if count == 0 {
        assert(width * count == 0) by (nonlinear_arith)
            requires
                count == 0,
        ;
        assert(bytes.skip(0) =~= bytes);
    } else {
        let rest = (count - 1) as nat;
        assert(width * count == width * rest + width) by (nonlinear_arith)
            requires
                rest == count - 1,
        ;
        assert(width * rest >= 0) by (nonlinear_arith);
        if bytes.len() >= width {
            lemma_decode_elements_length(bytes.skip(width as int), width, rest);
            if bytes.len() >= width * count {
                assert(bytes.skip(width as int).skip((width * rest) as int) =~= bytes.skip(
                    (width * count) as int,
                ));
            }
        }
    }
}

/// A field can be read exactly when the bytes hold its wire width; reading
/// takes that many bytes.
pub proof fn lemma_decode_field_length(ty: MavType, bytes: Seq<u8>)
    requires
        ty.well_formed(),
    ensures
        decode_field(ty, bytes) is Some <==> bytes.len() >= ty.wire_len(),
        decode_field(ty, bytes) is Some ==> decode_field(ty, bytes).unwrap().1 == bytes.skip(
            ty.wire_len() as int,
        ),
{
    match ty {
        MavType::Array(elem, count) => {
            elem.lemma_scalar_width();
            lemma_decode_elements_length(bytes, elem.wire_len(), count as nat);
        },
        _ => {
            ty.lemma_scalar_width();
            lemma_decode_elements_length(bytes, ty.wire_len(), 1);
            assert(ty.wire_len() * 1 == ty.wire_len()) by (nonlinear_arith);
        },
    }
}

/// When decoding succeeds: a payload can be decoded exactly when it is at
/// least as long as the fields of the layout together.
pub proof fn lemma_decode_payload_length(layout: Seq<MavType>, bytes: Seq<u8>)
    requires
        layout_well_formed(layout),
    ensures
        decode_payload(layout, bytes) is Some <==> bytes.len() >= payload_len(layout),
        decode_payload(layout, bytes) is Some ==> decode_payload(layout, bytes).unwrap().len()
            == layout.len(),
    decreases layout.len(),
{
    if layout.len() > 0 {
        let rest = layout.drop_first();
        assert(layout[0].well_formed());
        assert forall|i: int| 0 <= i < rest.len() implies (#[trigger] rest[i]).well_formed() by {
            assert(rest[i] == layout[i + 1]);
        }
        lemma_decode_field_length(layout[0], bytes);
        if bytes.len() >= layout[0].wire_len() {
            lemma_decode_payload_length(rest, bytes.skip(layout[0].wire_len() as int));
        }
    }
}

/// Numbers of `width` bytes each take `width` bytes each.
pub proof fn lemma_encode_elements_length(elems: Seq<u64>, width: nat)
    ensures
        encode_elements(elems, width).len() == width * elems.len(),
    decreases elems.len(),
{
    if elems.len() == 0 {
        assert(width * elems.len() == 0) by (nonlinear_arith)
            requires
                elems.len() == 0,
        ;
    } else {
        lemma_le_bytes_len(elems[0] as nat, width);
        lemma_encode_elements_length(elems.drop_first(), width);
        let rest = elems.drop_first().len();
        assert(width * elems.len() == width + width * rest) by (nonlinear_arith)
            requires
                elems.len() == rest + 1,
        ;
    }
}

/// The payload of values that fit a layout is as long as the fields of the
/// layout together.
pub proof fn lemma_encode_payload_length(layout: Seq<MavType>, values: Seq<FieldData>)
    requires
        fits_all(layout, values),
    ensures
        encode_payload(layout, values).len() == payload_len(layout),
    decreases layout.len(),
{
    if layout.len() > 0 {
        let rest_layout = layout.drop_first();
        let rest_values = values.drop_first();
        assert forall|i: int| 0 <= i < rest_layout.len() implies fits(
            #[trigger] rest_layout[i],
            rest_values[i],
        ) by {
            assert(rest_layout[i] == layout[i + 1]);
            assert(fits(layout[i + 1], values[i + 1]));
        }
        lemma_encode_payload_length(rest_layout, rest_values);
        assert(fits(layout[0], values[0]));
        lemma_encode_elements_length(elements(values[0]), layout[0].order_width());
        match layout[0] {
            MavType::Array(elem, count) => {},
            _ => {
                assert(layout[0].wire_len() * 1 == layout[0].wire_len()) by (nonlinear_arith);
            },
        }
    }
}

/// Appends each number as `width` little-endian bytes; stops at the first
/// number that does not fit.
fn encode_elements_into(elems: &Vec<u64>, width: usize, out: &mut Vec<u8>) -> (ok: bool)
    requires
        width == 1 || width == 2 || width == 4 || width == 8,
    ensures
        ok == all_fit(elems@, width as nat),
        ok ==> final(out)@ == old(out)@ + encode_elements(elems@, width as nat),
{
    let ghost before = out@;
    let mut i: usize = 0;
    assert(elems@.skip(0) =~= elems@);
    while i < elems.len()
        invariant
            i <= elems.len(),
            width == 1 || width == 2 || width == 4 || width == 8,
            forall|k: int| 0 <= k < i ==> (#[trigger] elems@[k] as nat) < limit(width as nat),
            out@ + encode_elements(elems@.skip(i as int), width as nat) == before
                + encode_elements(elems@, width as nat),
        decreases elems.len() - i,
    {
        if !fits_width(elems[i], width) {
            return false;
        }
        let ghost prev = out@;
        put_le(out, elems[i], width);
        proof {
            let here = elems@.skip(i as int);
            assert(here[0] == elems@[i as int]);
            assert(here.drop_first() =~= elems@.skip(i + 1));
            assert(prev + encode_elements(here, width as nat) =~= out@ + encode_elements(
                elems@.skip(i + 1),
                width as nat,
            ));
        }
        i += 1;
    }
    assert(elems@.skip(elems.len() as int) =~= Seq::<u64>::empty());
    assert(out@ + Seq::<u8>::empty() =~= out@);
    true
}

/// Appends the wire bytes of one field; reports whether the value fits the
/// type.
pub fn encode_field_into(ty: &MavType, value: &FieldValue, out: &mut Vec<u8>) -> (ok: bool)
    requires
        ty.well_formed(),
    ensures
        ok == fits(*ty, value@),
        ok ==> final(out)@ == old(out)@ + encode_field(*ty, value@),
{
    let width: usize = ty.order_len();
    match ty {
        MavType::Array(_, count) => match value {
            FieldValue::Array(xs) => {
                if xs.len() != *count {
                    return false;
                }
                encode_elements_into(xs, width, out)
            },
            FieldValue::Scalar(_) => false,
        },
        _ => match value {
            FieldValue::Scalar(x) => {
                if !fits_width(*x, width) {
                    assert(elements(value@)[0] == *x);
                    return false;
                }
                let ghost before = out@;
                put_le(out, *x, width);
                proof {
                    let elems = elements(value@);
                    assert(elems.drop_first() =~= Seq::<u64>::empty());
                    assert(encode_elements(elems, width as nat) =~= le_bytes(
                        *x as nat,
                        width as nat,
                    )) by {
                        reveal_with_fuel(encode_elements, 2);
                    }
                }
                true
            },
            FieldValue::Array(_) => false,
        },
    }
}

/// The payload of a message: the wire bytes of the values in layout order.
/// Succeeds exactly when each value fits the type at its position.
pub fn encode_values(layout: &Vec<MavType>, values: &Vec<FieldValue>) -> (payload: Option<Vec<u8>>)
    requires
        layout_well_formed(layout@),
    ensures
        payload is Some == fits_all(layout@, value_views(values@)),
        payload is Some ==> payload.unwrap()@ == encode_payload(layout@, value_views(values@)),
        payload is Some ==> payload.unwrap().len() == payload_len(layout@),
{
    if layout.len() != values.len() {
        return None;
    }
    proof {
        if fits_all(layout@, value_views(values@)) {
            lemma_encode_payload_length(layout@, value_views(values@));
        }
    }
    let ghost vals = value_views(values@);
    let mut out: Vec<u8> = Vec::new();
    let mut i: usize = 0;
    assert(layout@.skip(0) =~= layout@);
    assert(vals.skip(0) =~= vals);
    assert(out@ + encode_payload(layout@, vals) =~= encode_payload(layout@, vals));
    while i < layout.len()
        invariant
            i <= layout.len() == values.len(),
            vals == value_views(values@),
            layout_well_formed(layout@),
            forall|k: int| 0 <= k < i ==> fits(#[trigger] layout@[k], vals[k]),
            fits_all(layout@, vals) ==> encode_payload(layout@, vals).len() == payload_len(layout@),
            out@ + encode_payload(layout@.skip(i as int), vals.skip(i as int)) == encode_payload(
                layout@,
                vals,
            ),
        decreases layout.len() - i,
    {
        let ghost prev = out@;
        assert(layout@[i as int].well_formed());
        if !encode_field_into(&layout[i], &values[i], &mut out) {
            assert(!fits(layout@[i as int], vals[i as int]));
            return None;
        }
        proof {
            let here = layout@.skip(i as int);
            let here_vals = vals.skip(i as int);
            assert(here[0] == layout@[i as int]);
            assert(here_vals[0] == vals[i as int]);
            assert(here.drop_first() =~= layout@.skip(i + 1));
            assert(here_vals.drop_first() =~= vals.skip(i + 1));
            assert(prev + encode_payload(here, here_vals) =~= out@ + encode_payload(
                layout@.skip(i + 1),
                vals.skip(i + 1),
            ));
        }
        i += 1;
    }
    assert(layout@.skip(layout.len() as int) =~= Seq::<MavType>::empty());
    assert(out@ + Seq::<u8>::empty() =~= out@);
    Some(out)
}

/// Reads `count` numbers of `width` bytes each, starting at `start`: the
/// numbers and the position after them, or nothing when the bytes run out.
fn decode_elements_at(bytes: &[u8], start: usize, width: usize, count: usize) -> (r: Option<
    (Vec<u64>, usize),
>)
    requires
        start <= bytes.len(),
        width == 1 || width == 2 || width == 4 || width == 8,
    ensures
        match r {
            Some((xs, next)) => start <= next <= bytes.len() && decode_elements(
                bytes@.skip(start as int),
                width as nat,
                count as nat,
            ) == Some((xs@, bytes@.skip(next as int))),
            None => decode_elements(bytes@.skip(start as int), width as nat, count as nat) is None,
        },
{
    let ghost goal = decode_elements(bytes@.skip(start as int), width as nat, count as nat);
    let mut xs: Vec<u64> = Vec::new();
    let mut pos: usize = start;
    let mut i: usize = 0;
    proof {
        match goal {
            Some((rest, tail)) => {
                assert(xs@ + rest =~= rest);
            },
            None => {},
        }
    }
    while i < count
        invariant
            i <= count,
            start <= pos <= bytes.len(),
            width == 1 || width == 2 || width == 4 || width == 8,
            goal == decode_elements(bytes@.skip(start as int), width as nat, count as nat),
            goal == match decode_elements(
                bytes@.skip(pos as int),
                width as nat,
                (count - i) as nat,
            ) {
                Some((rest, tail)) => Some((xs@ + rest, tail)),
                None => None,
            },
        decreases count - i,
    {
        if bytes.len() - pos < width {
            assert(bytes@.skip(pos as int).len() < width);
            assert(decode_elements(bytes@.skip(pos as int), width as nat, (count - i) as nat)
                is None);
            return None;
        }
        let x: u64 = get_le(bytes, pos, width);
        let ghost prev = xs@;
        xs.push(x);
        proof {
            let here = bytes@.skip(pos as int);
            assert(here.take(width as int) =~= bytes@.subrange(pos as int, pos + width));
            assert(here.skip(width as int) =~= bytes@.skip(pos + width));
            lemma_le_value_bound(here.take(width as int));
            lemma_limits();
            match decode_elements(here.skip(width as int), width as nat, (count - i - 1) as nat) {
                Some((rest, tail)) => {
                    assert(prev + (seq![x] + rest) =~= xs@ + rest);
                },
                None => {},
            }
        }
        pos += width;
        i += 1;
    }
    assert(xs@ + Seq::<u64>::empty() =~= xs@);
    Some((xs, pos))
}

/// Reads one field starting at `start`: its value and the position after it,
/// or nothing when the bytes run out.
pub fn decode_field_at(ty: &MavType, bytes: &[u8], start: usize) -> (r: Option<(FieldValue, usize)>)
    requires
        ty.well_formed(),
        start <= bytes.len(),
    ensures
        match r {
            Some((value, next)) => start <= next <= bytes.len() && decode_field(
                *ty,
                bytes@.skip(start as int),
            ) == Some((value@, bytes@.skip(next as int))),
            None => decode_field(*ty, bytes@.skip(start as int)) is None,
        },
{
    let width: usize = ty.order_len();
    match ty {
        MavType::Array(_, count) => match decode_elements_at(bytes, start, width, *count) {
            Some((xs, next)) => Some((FieldValue::Array(xs), next)),
            None => None,
        },
        _ => match decode_elements_at(bytes, start, width, 1) {
            Some((xs, next)) => {
                proof {
                    reveal_with_fuel(decode_elements, 2);
                }
                Some((FieldValue::Scalar(xs[0]), next))
            },
            None => None,
        },
    }
}

/// Reads the values of a message from its payload, in layout order. Bytes
/// after the last field are ignored; a payload that ends early gives nothing.
pub fn decode_values(layout: &Vec<MavType>, payload: &[u8]) -> (values: Option<Vec<FieldValue>>)
    requires
        layout_well_formed(layout@),
    ensures
        match values {
            Some(list) => decode_payload(layout@, payload@) == Some(value_views(list@)),
            None => decode_payload(layout@, payload@) is None,
        },
        values is Some <==> payload.len() >= payload_len(layout@),
        values is Some ==> values.unwrap().len() == layout.len(),
{
    let ghost goal = decode_payload(layout@, payload@);
    proof {
        lemma_decode_payload_length(layout@, payload@);
    }
    let mut list: Vec<FieldValue> = Vec::new();
    let mut pos: usize = 0;
    let mut i: usize = 0;
    proof {
        assert(layout@.skip(0) =~= layout@);
        assert(payload@.skip(0) =~= payload@);
        match goal {
            Some(rest) => {
                assert(value_views(list@) + rest =~= rest);
            },
            None => {},
        }
    }
    while i < layout.len()
        invariant
            i <= layout.len(),
            pos <= payload.len(),
            layout_well_formed(layout@),
            goal == decode_payload(layout@, payload@),
            goal is Some <==> payload.len() >= payload_len(layout@),
            goal is Some ==> goal.unwrap().len() == layout.len(),
            goal == match decode_payload(layout@.skip(i as int), payload@.skip(pos as int)) {
                Some(rest) => Some(value_views(list@) + rest),
                None => None,
            },
        decreases layout.len() - i,
    {
        assert(layout@[i as int].well_formed());
        let ghost here = layout@.skip(i as int);
        assert(here[0] == layout@[i as int]);
        assert(here.drop_first() =~= layout@.skip(i + 1));
        match decode_field_at(&layout[i], payload, pos) {
            Some((value, next)) => {
                let ghost prev = value_views(list@);
                list.push(value);
                proof {
                    assert(value_views(list@) =~= prev.push(value@));
                    match decode_payload(layout@.skip(i + 1), payload@.skip(next as int)) {
                        Some(rest) => {
                            assert(prev + (seq![value@] + rest) =~= value_views(list@) + rest);
                        },
                        None => {},
                    }
                }
                pos = next;
            },
            None => {
                assert(decode_payload(here, payload@.skip(pos as int)) is None);
                return None;
            },
        }
        i += 1;
    }
    assert(layout@.skip(layout.len() as int) =~= Seq::<MavType>::empty());
    assert(value_views(list@) + Seq::<FieldData>::empty() =~= value_views(list@));
    Some(list)
}

} // verus!
