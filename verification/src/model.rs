//! The fields of a message, their mathematical view, and the canonical
//! field order.

use crate::text::same_text;
use crate::types::{descending, MavType};
use std::cmp::Ordering;
use vstd::multiset::Multiset;
use vstd::prelude::*;
use vstd::seq_lib::{lemma_multiset_commutative, to_multiset_build, to_multiset_contains};

verus! {

/// The text held by an optional string.
pub open spec fn text_view(text: Option<String>) -> Option<Seq<char>> {
    match text {
        Some(s) => Some(s@),
        None => None,
    }
}

/// The texts held by a list of strings.
pub open spec fn texts_view(texts: Seq<String>) -> Seq<Seq<char>> {
    Seq::new(texts.len(), |i: int| texts[i]@)
}

/// A copy of an optional string.
pub fn clone_text(text: &Option<String>) -> (copy: Option<String>)
    ensures
        text_view(copy) == text_view(*text),
{
    match text {
        Some(s) => Some(s.clone()),
        None => None,
    }
}

/// A copy of a list of strings.
pub fn clone_texts(texts: &Vec<String>) -> (copy: Vec<String>)
    ensures
        texts_view(copy@) == texts_view(texts@),
{
    let mut copy: Vec<String> = Vec::new();
    let mut i: usize = 0;
    while i < texts.len()
        invariant
            i <= texts.len(),
            copy.len() == i,
            forall|k: int| 0 <= k < i ==> copy[k]@ == texts[k]@,
        decreases texts.len() - i,
    {
        copy.push(texts[i].clone());
        i += 1;
    }
    assert(texts_view(copy@) =~= texts_view(texts@));
    copy
}

/// What a field is: its type and its texts.
pub ghost struct FieldModel {
    pub mavtype: MavType,
    pub name: Seq<char>,
    pub description: Option<Seq<char>>,
    pub enumtype: Option<Seq<char>>,
}

/// One typed field of a message.
#[derive(Debug, PartialEq, Clone)]
pub struct MavField {
    pub mavtype: MavType,
    pub name: String,
    pub description: Option<String>,
    pub enumtype: Option<String>,
}

impl View for MavField {
    type V = FieldModel;

    open spec fn view(&self) -> FieldModel {
        FieldModel {
            mavtype: self.mavtype,
            name: self.name@,
            description: text_view(self.description),
            enumtype: text_view(self.enumtype),
        }
    }
}

impl Default for MavField {
    fn default() -> (field: MavField)
        ensures
            field@ == (FieldModel {
                mavtype: MavType::UInt8,
                name: Seq::empty(),
                description: None,
                enumtype: None,
            }),
    {
        MavField { mavtype: MavType::UInt8, name: String::new(), description: None, enumtype: None }
    }
}

impl MavField {
    /// The name by which program text refers to this field: `mavtype` for a
    /// field named `type`, which is a reserved word, the field's own name
    /// otherwise. The wire layout and the checksum seed go by the field's
    /// own name.
    pub open spec fn identifier_name(&self) -> Seq<char> {
        if self.name@ == "type"@ {
            "mavtype"@
        } else {
            self.name@
        }
    }

    /// The name by which program text refers to this field.
    pub fn identifier(&self) -> (name: String)
        ensures
            name@ == self.identifier_name(),
    {
        if same_text(self.name.as_str(), "type") {
            "mavtype".to_owned()
        } else {
            self.name.clone()
        }
    }

    /// The scalar type of this field in the interchange schema: a field that
    /// refers to an enum is carried as `uint32`, any other by its own type.
    pub open spec fn proto_kind_name(&self) -> Seq<char> {
        if self.enumtype is Some {
            "uint32"@
        } else {
            self.mavtype.proto_name()
        }
    }

    /// Whether this field is a repeated one in the interchange schema: an
    /// array that refers to no enum.
    pub open spec fn proto_repeated(&self) -> bool {
        self.enumtype is None && self.mavtype is Array
    }

    /// The scalar type of this field in the interchange schema.
    pub fn proto_kind(&self) -> (name: String)
        requires
            self.mavtype.well_formed(),
        ensures
            name@ == self.proto_kind_name(),
    {
        if self.enumtype.is_some() {
            "uint32".to_owned()
        } else {
            self.mavtype.proto_type()
        }
    }

    /// Whether this field is a repeated one in the interchange schema.
    pub fn is_proto_repeated(&self) -> (r: bool)
        ensures
            r == self.proto_repeated(),
    {
        self.enumtype.is_none() && self.mavtype.is_array()
    }

    /// An independent copy of this field.
    pub fn duplicate(&self) -> (copy: MavField)
        ensures
            copy@ == self@,
    {
        MavField {
            mavtype: self.mavtype.duplicate(),
            name: self.name.clone(),
            description: clone_text(&self.description),
            enumtype: clone_text(&self.enumtype),
        }
    }
}

/// The views of a list of fields, in order.
pub open spec fn field_views(fields: Seq<MavField>) -> Seq<FieldModel> {
    Seq::new(fields.len(), |i: int| fields[i]@)
}

/// Every field has a well-formed type.
pub open spec fn fields_well_formed(fields: Seq<FieldModel>) -> bool {
    forall|i: int| 0 <= i < fields.len() ==> (#[trigger] fields[i]).mavtype.well_formed()
}

/// The fields whose ordering width is `width`, in their given order.
pub open spec fn of_width(fields: Seq<FieldModel>, width: nat) -> Seq<FieldModel>
    decreases fields.len(),
{
    if fields.len() == 0 {
        Seq::empty()
    } else {
        let rest = of_width(fields.drop_last(), width);
        if fields.last().mavtype.order_width() == width {
            rest.push(fields.last())
        } else {
            rest
        }
    }
}

/// The canonical field order: widest first, fields of equal ordering width in
/// their declared order.
pub open spec fn canonical_order(fields: Seq<FieldModel>) -> Seq<FieldModel> {
    of_width(fields, 8) + of_width(fields, 4) + of_width(fields, 2) + of_width(fields, 1)
}

/// The fields stand in canonical order already.
pub open spec fn is_canonical(fields: Seq<FieldModel>) -> bool {
    canonical_order(fields) == fields
}

/// Selecting by width distributes over concatenation.
pub proof fn lemma_of_width_concat(a: Seq<FieldModel>, b: Seq<FieldModel>, width: nat)
    ensures
        of_width(a + b, width) == of_width(a, width) + of_width(b, width),
    decreases b.len(),
{
    if b.len() == 0 {
        assert(a + b =~= a);
        assert(of_width(a, width) + of_width(b, width) =~= of_width(a, width));
    } else {
        lemma_of_width_concat(a, b.drop_last(), width);
        assert((a + b).drop_last() =~= a + b.drop_last());
        assert((a + b).last() == b.last());
        assert(of_width(a + b, width) =~= of_width(a, width) + of_width(b, width));
    }
}

/// Every selected field has the selected width, and the selection of a list
/// whose fields all have (or all lack) that width is the list (or empty).
pub proof fn lemma_of_width_members(fields: Seq<FieldModel>, width: nat)
    ensures
        of_width(fields, width).len() <= fields.len(),
        forall|i: int|
            0 <= i < of_width(fields, width).len() ==> (#[trigger] of_width(
                fields,
                width,
            )[i]).mavtype.order_width() == width,
        (forall|i: int| 0 <= i < fields.len() ==> (#[trigger] fields[i]).mavtype.order_width() == width)
            ==> of_width(fields, width) == fields,
        (forall|i: int| 0 <= i < fields.len() ==> (#[trigger] fields[i]).mavtype.order_width() != width)
            ==> of_width(fields, width) == Seq::<FieldModel>::empty(),
        forall|i: int|
            0 <= i < of_width(fields, width).len() ==> fields.contains(
                #[trigger] of_width(fields, width)[i],
            ),
    decreases fields.len(),
{
    if fields.len() > 0 {
        let front = fields.drop_last();
        lemma_of_width_members(front, width);
        let sel = of_width(fields, width);
        assert forall|i: int| 0 <= i < sel.len() implies fields.contains(#[trigger] sel[i]) by {
            if i < of_width(front, width).len() {
                let j = choose|j: int| 0 <= j < front.len() && front[j] == of_width(front, width)[i];
                assert(fields[j] == sel[i]);
            } else {
                assert(fields[fields.len() - 1] == sel[i]);
            }
        }
        if forall|i: int| 0 <= i < fields.len() ==> (#[trigger] fields[i]).mavtype.order_width() == width {
            assert forall|i: int| 0 <= i < front.len() implies (#[trigger] front[i]).mavtype.order_width()
                == width by {
                assert(front[i] == fields[i]);
            }
            assert(fields.last() == fields[fields.len() - 1]);
            assert(of_width(fields, width) =~= fields);
        }
        if forall|i: int| 0 <= i < fields.len() ==> (#[trigger] fields[i]).mavtype.order_width() != width {
            assert forall|i: int| 0 <= i < front.len() implies (#[trigger] front[i]).mavtype.order_width()
                != width by {
                assert(front[i] == fields[i]);
            }
            assert(fields.last() == fields[fields.len() - 1]);
        }
    }
}

/// Selecting width `inner` and then width `outer` gives the first selection
/// when the widths agree and nothing when they differ.
pub proof fn lemma_of_width_twice(fields: Seq<FieldModel>, inner: nat, outer: nat)
    ensures
        inner == outer ==> of_width(of_width(fields, inner), outer) == of_width(fields, inner),
        inner != outer ==> of_width(of_width(fields, inner), outer) == Seq::<FieldModel>::empty(),
{
    lemma_of_width_members(fields, inner);
    lemma_of_width_members(of_width(fields, inner), outer);
}

/// The canonical order is stable: the fields of one ordering width follow
/// each other in it as they were declared.
pub proof fn lemma_canonical_stable(fields: Seq<FieldModel>, width: nat)
    requires
        width == 8 || width == 4 || width == 2 || width == 1,
    ensures
        of_width(canonical_order(fields), width) == of_width(fields, width),
{
    let b8 = of_width(fields, 8);
    let b4 = of_width(fields, 4);
    let b2 = of_width(fields, 2);
    let b1 = of_width(fields, 1);
    lemma_of_width_concat(b8 + b4 + b2, b1, width);
    lemma_of_width_concat(b8 + b4, b2, width);
    lemma_of_width_concat(b8, b4, width);
    lemma_of_width_twice(fields, 8, width);
    lemma_of_width_twice(fields, 4, width);
    lemma_of_width_twice(fields, 2, width);
    lemma_of_width_twice(fields, 1, width);
    assert(of_width(canonical_order(fields), width) =~= of_width(fields, width));
}

/// Putting fields that are already in canonical order into canonical order
/// changes nothing.
pub proof fn lemma_canonical_idempotent(fields: Seq<FieldModel>)
    ensures
        canonical_order(canonical_order(fields)) == canonical_order(fields),
{
    lemma_canonical_stable(fields, 8);
    lemma_canonical_stable(fields, 4);
    lemma_canonical_stable(fields, 2);
    lemma_canonical_stable(fields, 1);
}

/// In a canonical order no field stands before a wider one.
pub proof fn lemma_canonical_descending(fields: Seq<FieldModel>, i: int, j: int)
    requires
        0 <= i <= j < canonical_order(fields).len(),
    ensures
        canonical_order(fields)[i].mavtype.order_width() >= canonical_order(
            fields,
        )[j].mavtype.order_width(),
{
    lemma_of_width_members(fields, 8);
    lemma_of_width_members(fields, 4);
    lemma_of_width_members(fields, 2);
    lemma_of_width_members(fields, 1);
}

/// A canonical order is sorted by the comparison of types: no field
/// compares greater than a field behind it.
pub proof fn lemma_canonical_sorted(fields: Seq<FieldModel>, i: int, j: int)
    requires
        0 <= i <= j < canonical_order(fields).len(),
    ensures
        descending(
            canonical_order(fields)[i].mavtype.order_width(),
            canonical_order(fields)[j].mavtype.order_width(),
        ) != Ordering::Greater,
{
    lemma_canonical_descending(fields, i, j);
}

/// The fields of the four ordering widths, as a bag.
pub open spec fn bucket_bag(fields: Seq<FieldModel>) -> Multiset<FieldModel> {
    of_width(fields, 8).to_multiset().add(of_width(fields, 4).to_multiset()).add(
        of_width(fields, 2).to_multiset(),
    ).add(of_width(fields, 1).to_multiset())
}

/// The bag of a canonical order is the bag of its four selections.
pub proof fn lemma_canonical_bag(fields: Seq<FieldModel>)
    ensures
        canonical_order(fields).to_multiset() == bucket_bag(fields),
{
    let b8 = of_width(fields, 8);
    let b4 = of_width(fields, 4);
    let b2 = of_width(fields, 2);
    let b1 = of_width(fields, 1);
    lemma_multiset_commutative(b8, b4);
    lemma_multiset_commutative(b8 + b4, b2);
    lemma_multiset_commutative(b8 + b4 + b2, b1);
}

/// The canonical order is a rearrangement: it holds each field of a
/// well-formed list as often as the declared list does.
pub proof fn lemma_canonical_permutation(fields: Seq<FieldModel>)
    requires
        fields_well_formed(fields),
    ensures
        canonical_order(fields).to_multiset() == fields.to_multiset(),
    decreases fields.len(),
{
    lemma_canonical_bag(fields);
    if fields.len() == 0 {
        assert(canonical_order(fields) =~= fields);
    } else {
        let front = fields.drop_last();
        let last = fields.last();
        assert forall|i: int| 0 <= i < front.len() implies (#[trigger] front[i]).mavtype.well_formed() by {
            assert(front[i] == fields[i]);
        }
        lemma_canonical_permutation(front);
        lemma_canonical_bag(front);
        assert(last == fields[fields.len() - 1]);
        last.mavtype.lemma_order_width();
        to_multiset_build(front, last);
        assert(front.push(last) =~= fields);
        to_multiset_build(of_width(front, 8), last);
        to_multiset_build(of_width(front, 4), last);
        to_multiset_build(of_width(front, 2), last);
        to_multiset_build(of_width(front, 1), last);
        assert(bucket_bag(fields) =~= bucket_bag(front).insert(last));
    }
}

/// No two fields have the same ordering width.
pub open spec fn distinct_widths(fields: Seq<FieldModel>) -> bool {
    forall|i: int, j: int|
        0 <= i < j < fields.len() ==> (#[trigger] fields[i]).mavtype.order_width() != (
        #[trigger] fields[j]).mavtype.order_width()
}

/// A field of the list that has the selected width is among the selected.
pub proof fn lemma_of_width_finds(fields: Seq<FieldModel>, width: nat, field: FieldModel)
    requires
        fields.contains(field),
        field.mavtype.order_width() == width,
    ensures
        of_width(fields, width).contains(field),
    decreases fields.len(),
{
    let i = choose|i: int| 0 <= i < fields.len() && fields[i] == field;
    let front = fields.drop_last();
    let selected = of_width(fields, width);
    if i == fields.len() - 1 {
        assert(selected[of_width(front, width).len() as int] == field);
    } else {
        assert(front[i] == field);
        lemma_of_width_finds(front, width, field);
        let j = choose|j: int| 0 <= j < of_width(front, width).len() && of_width(front, width)[j]
            == field;
        assert(selected[j] == field);
    }
}

/// Among fields of distinct ordering widths at most one has a given width.
pub proof fn lemma_of_width_single(fields: Seq<FieldModel>, width: nat)
    requires
        distinct_widths(fields),
    ensures
        of_width(fields, width).len() <= 1,
    decreases fields.len(),
{
    if fields.len() > 0 {
        let front = fields.drop_last();
        assert forall|i: int, j: int| 0 <= i < j < front.len() implies (
        #[trigger] front[i]).mavtype.order_width() != (#[trigger] front[j]).mavtype.order_width() by {
            assert(front[i] == fields[i] && front[j] == fields[j]);
        }
        lemma_of_width_single(front, width);
        if fields.last().mavtype.order_width() == width {
            assert forall|i: int| 0 <= i < front.len() implies (
            #[trigger] front[i]).mavtype.order_width() != width by {
                assert(front[i] == fields[i]);
                assert(fields.last() == fields[fields.len() - 1]);
            }
            lemma_of_width_members(front, width);
        }
    }
}

/// A rearrangement of fields of distinct ordering widths has distinct
/// ordering widths too.
pub proof fn lemma_rearranged_distinct(a: Seq<FieldModel>, b: Seq<FieldModel>)
    requires
        a.to_multiset() == b.to_multiset(),
        distinct_widths(a),
    ensures
        distinct_widths(b),
{
    assert(a.no_duplicates()) by {
        assert forall|i: int, j: int| 0 <= i < a.len() && 0 <= j < a.len() && i != j implies a[i]
            != a[j] by {
            if i < j {
                assert(a[i].mavtype.order_width() != a[j].mavtype.order_width());
            } else {
                assert(a[j].mavtype.order_width() != a[i].mavtype.order_width());
            }
        }
    }
    a.lemma_multiset_has_no_duplicates();
    b.lemma_multiset_has_no_duplicates_conv();
    assert forall|i: int, j: int| 0 <= i < j < b.len() implies (
    #[trigger] b[i]).mavtype.order_width() != (#[trigger] b[j]).mavtype.order_width() by {
        assert(b.contains(b[i]) && b.contains(b[j]));
        to_multiset_contains(b, b[i]);
        to_multiset_contains(b, b[j]);
        to_multiset_contains(a, b[i]);
        to_multiset_contains(a, b[j]);
        let p = choose|p: int| 0 <= p < a.len() && a[p] == b[i];
        let q = choose|q: int| 0 <= q < a.len() && a[q] == b[j];
        assert(b[i] != b[j]);
        if p < q {
            assert(a[p].mavtype.order_width() != a[q].mavtype.order_width());
        } else if q < p {
            assert(a[q].mavtype.order_width() != a[p].mavtype.order_width());
        }
    }
}

/// Two arrangements of the same fields, of distinct ordering widths, hold
/// the same fields of each width.
pub proof fn lemma_rearranged_selection(a: Seq<FieldModel>, b: Seq<FieldModel>, width: nat)
    requires
        a.to_multiset() == b.to_multiset(),
        distinct_widths(a),
    ensures
        of_width(a, width) == of_width(b, width),
{
    lemma_rearranged_distinct(a, b);
    lemma_of_width_single(a, width);
    lemma_of_width_single(b, width);
    lemma_of_width_members(a, width);
    lemma_of_width_members(b, width);
    let sa = of_width(a, width);
    let sb = of_width(b, width);
    if sa.len() == 1 {
        let x = sa[0];
        assert(a.contains(x));
        to_multiset_contains(a, x);
        to_multiset_contains(b, x);
        lemma_of_width_finds(b, width, x);
        let j = choose|j: int| 0 <= j < sb.len() && sb[j] == x;
        assert(sb[0] == x);
    } else if sb.len() == 1 {
        let y = sb[0];
        assert(b.contains(y));
        to_multiset_contains(a, y);
        to_multiset_contains(b, y);
        lemma_of_width_finds(a, width, y);
    }
    assert(sa =~= sb);
}

/// The canonical order does not depend on the declaration order of fields
/// of distinct ordering widths: two arrangements of the same fields have the
/// same canonical order.
pub proof fn lemma_reordering_keeps_canonical_order(a: Seq<FieldModel>, b: Seq<FieldModel>)
    requires
        a.to_multiset() == b.to_multiset(),
        distinct_widths(a),
    ensures
        canonical_order(a) == canonical_order(b),
{
    lemma_rearranged_selection(a, b, 8);
    lemma_rearranged_selection(a, b, 4);
    lemma_rearranged_selection(a, b, 2);
    lemma_rearranged_selection(a, b, 1);
}

/// The canonical order keeps every field of a well-formed list: it has the
/// length of the declared list.
pub proof fn lemma_canonical_len(fields: Seq<FieldModel>)
    requires
        fields_well_formed(fields),
    ensures
        canonical_order(fields).len() == fields.len(),
        fields_well_formed(canonical_order(fields)),
    decreases fields.len(),
{
    lemma_of_width_members(fields, 8);
    lemma_of_width_members(fields, 4);
    lemma_of_width_members(fields, 2);
    lemma_of_width_members(fields, 1);
    if fields.len() > 0 {
        let front = fields.drop_last();
        assert forall|i: int| 0 <= i < front.len() implies (#[trigger] front[i]).mavtype.well_formed() by {
            assert(front[i] == fields[i]);
        }
        lemma_canonical_len(front);
        assert(fields.last() == fields[fields.len() - 1]);
        fields.last().mavtype.lemma_order_width();
    }
    let sorted = canonical_order(fields);
    assert forall|i: int| 0 <= i < sorted.len() implies (#[trigger] sorted[i]).mavtype.well_formed() by {
        assert(fields.contains(sorted[i]));
    }
}

/// Appends to `out` a copy of each field of `fields` whose ordering width is
/// `width`, in order.
fn append_of_width(fields: &Vec<MavField>, width: usize, out: &mut Vec<MavField>)
    requires
        fields_well_formed(field_views(fields@)),
    ensures
        field_views(final(out)@) == field_views(old(out)@) + of_width(
            field_views(fields@),
            width as nat,
        ),
{
    let ghost views = field_views(fields@);
    let ghost before = field_views(out@);
    let mut i: usize = 0;
    assert(views.take(0) =~= Seq::<FieldModel>::empty());
    assert(field_views(out@) =~= before + of_width(views.take(0), width as nat));
    while i < fields.len()
        invariant
            i <= fields.len(),
            views == field_views(fields@),
            fields_well_formed(views),
            field_views(out@) == before + of_width(views.take(i as int), width as nat),
        decreases fields.len() - i,
    {
        let ghost prev = field_views(out@);
        assert(views[i as int].mavtype.well_formed());
        assert(views.take(i + 1).drop_last() =~= views.take(i as int));
        assert(views.take(i + 1).last() == views[i as int]);
        if fields[i].mavtype.order_len() == width {
            out.push(fields[i].duplicate());
            assert(field_views(out@) =~= prev.push(views[i as int]));
            assert(field_views(out@) =~= before + of_width(views.take(i + 1), width as nat));
        }
        i += 1;
    }
    assert(views.take(fields.len() as int) =~= views);
}

/// The fields in canonical order: widest first, fields of equal ordering
/// width in their declared order.
pub fn sort_fields(fields: &Vec<MavField>) -> (sorted: Vec<MavField>)
    requires
        fields_well_formed(field_views(fields@)),
    ensures
        field_views(sorted@) == canonical_order(field_views(fields@)),
        sorted.len() == fields.len(),
        fields_well_formed(field_views(sorted@)),
{
    let mut sorted: Vec<MavField> = Vec::new();
    assert(field_views(sorted@) =~= Seq::<FieldModel>::empty());
    append_of_width(fields, 8, &mut sorted);
    append_of_width(fields, 4, &mut sorted);
    append_of_width(fields, 2, &mut sorted);
    append_of_width(fields, 1, &mut sorted);
    proof {
        assert(field_views(sorted@) =~= canonical_order(field_views(fields@)));
        lemma_canonical_len(field_views(fields@));
    }
    sorted
}

} // verus!
