//! Enums, messages and the schema that owns them.

use crate::model::{
    clone_text, clone_texts, field_views, fields_well_formed, is_canonical, text_view, texts_view,
    FieldModel, MavField,
};
use crate::text::{camel_case, camel_case_of};
use vstd::prelude::*;

verus! {

/// What an enum entry is.
pub ghost struct EntryModel {
    pub value: i32,
    pub name: Seq<char>,
    pub description: Option<Seq<char>>,
    pub params: Option<Seq<Seq<char>>>,
}

/// One named value of an enum.
#[derive(Debug, PartialEq, Clone)]
pub struct MavEnumEntry {
    pub value: i32,
    pub name: String,
    pub description: Option<String>,
    pub params: Option<Vec<String>>,
}

/// The texts held by an optional list of strings.
pub open spec fn params_view(params: Option<Vec<String>>) -> Option<Seq<Seq<char>>> {
    match params {
        Some(list) => Some(texts_view(list@)),
        None => None,
    }
}

impl View for MavEnumEntry {
    type V = EntryModel;

    open spec fn view(&self) -> EntryModel {
        EntryModel {
            value: self.value,
            name: self.name@,
            description: text_view(self.description),
            params: params_view(self.params),
        }
    }
}

impl Default for MavEnumEntry {
    fn default() -> (entry: MavEnumEntry)
        ensures
            entry@ == (EntryModel {
                value: 0,
                name: Seq::empty(),
                description: None,
                params: None,
            }),
    {
        MavEnumEntry { value: 0, name: String::new(), description: None, params: None }
    }
}

impl MavEnumEntry {
    /// An independent copy of this entry.
    pub fn duplicate(&self) -> (copy: MavEnumEntry)
        ensures
            copy@ == self@,
    {
        let params = match &self.params {
            Some(list) => Some(clone_texts(list)),
            None => None,
        };
        MavEnumEntry {
            value: self.value,
            name: self.name.clone(),
            description: clone_text(&self.description),
            params,
        }
    }
}

/// The views of a list of entries, in order.
pub open spec fn entry_views(entries: Seq<MavEnumEntry>) -> Seq<EntryModel> {
    Seq::new(entries.len(), |i: int| entries[i]@)
}

/// What an enum is.
pub ghost struct EnumModel {
    pub name: Seq<char>,
    pub description: Option<Seq<char>>,
    pub entries: Seq<EntryModel>,
}

/// A named set of integer constants.
#[derive(Debug, PartialEq, Clone)]
pub struct MavEnum {
    pub name: String,
    pub description: Option<String>,
    pub entries: Vec<MavEnumEntry>,
}

impl View for MavEnum {
    type V = EnumModel;

    open spec fn view(&self) -> EnumModel {
        EnumModel {
            name: self.name@,
            description: text_view(self.description),
            entries: entry_views(self.entries@),
        }
    }
}

impl Default for MavEnum {
    fn default() -> (mavenum: MavEnum)
        ensures
            mavenum@ == (EnumModel { name: Seq::empty(), description: None, entries: Seq::empty() }),
    {
        let mavenum = MavEnum { name: String::new(), description: None, entries: Vec::new() };
        assert(mavenum@.entries =~= Seq::<EntryModel>::empty());
        mavenum
    }
}

/// The value given to the entry at position `i`: `i`, held at the largest
/// 32-bit value from there on.
pub open spec fn position_value(i: int) -> i32 {
    if i <= 0x7fff_ffff {
        i as i32
    } else {
        0x7fff_ffffi32
    }
}

/// The entries with the values 0, 1, 2, ... in order, all else unchanged.
pub open spec fn numbered(entries: Seq<EntryModel>) -> Seq<EntryModel> {
    Seq::new(
        entries.len(),
        |i: int|
            EntryModel {
                value: position_value(i),
                name: entries[i].name,
                description: entries[i].description,
                params: entries[i].params,
            },
    )
}

/// Some entry has a value other than zero.
pub open spec fn some_value_set(entries: Seq<EntryModel>) -> bool {
    exists|i: int| 0 <= i < entries.len() && (#[trigger] entries[i]).value != 0
}

impl MavEnum {
    /// An independent copy of this enum.
    pub fn duplicate(&self) -> (copy: MavEnum)
        ensures
            copy@ == self@,
    {
        let mut entries: Vec<MavEnumEntry> = Vec::new();
        let mut i: usize = 0;
        while i < self.entries.len()
            invariant
                i <= self.entries.len(),
                entries.len() == i,
                forall|k: int| 0 <= k < i ==> (#[trigger] entries[k])@ == self.entries[k]@,
            decreases self.entries.len() - i,
        {
            entries.push(self.entries[i].duplicate());
            i += 1;
        }
        let copy = MavEnum {
            name: self.name.clone(),
            description: clone_text(&self.description),
            entries,
        };
        assert(copy@.entries =~= self@.entries);
        copy
    }

    /// Whether any entry carries a value other than zero.
    pub fn has_enum_values(&self) -> (r: bool)
        ensures
            r == some_value_set(self@.entries),
    {
        let mut i: usize = 0;
        while i < self.entries.len()
            invariant
                i <= self.entries.len(),
                forall|k: int| 0 <= k < i ==> (#[trigger] self@.entries[k]).value == 0,
            decreases self.entries.len() - i,
        {
            if self.entries[i].value != 0 {
                assert(self@.entries[i as int].value != 0);
                return true;
            }
            i += 1;
        }
        false
    }

    /// Gives the entries the values 0, 1, 2, ... in declaration order.
    pub fn number_entries(&mut self)
        ensures
            final(self)@ == (EnumModel { entries: numbered(old(self)@.entries), ..old(self)@ }),
    {
        let mut entries: Vec<MavEnumEntry> = Vec::new();
        let mut i: usize = 0;
        while i < self.entries.len()
            invariant
                i <= self.entries.len(),
                entries.len() == i,
                forall|k: int| 0 <= k < i ==> (#[trigger] entries[k])@ == numbered(self@.entries)[k],
            decreases self.entries.len() - i,
        {
            let mut entry = self.entries[i].duplicate();
            entry.value = if i <= 0x7fff_ffff {
                i as i32
            } else {
                0x7fff_ffffi32
            };
            entries.push(entry);
            i += 1;
        }
        self.entries = entries;
        assert(self@.entries =~= numbered(old(self)@.entries));
    }
}

/// The views of a list of enums, in order.
pub open spec fn enum_views(enums: Seq<MavEnum>) -> Seq<EnumModel> {
    Seq::new(enums.len(), |i: int| enums[i]@)
}

/// What a message is.
pub ghost struct MessageModel {
    pub id: u8,
    pub name: Seq<char>,
    pub description: Option<Seq<char>>,
    pub fields: Seq<FieldModel>,
}

/// A named, numbered record of typed fields.
#[derive(Debug, PartialEq, Clone)]
pub struct MavMessage {
    pub id: u8,
    pub name: String,
    pub description: Option<String>,
    pub fields: Vec<MavField>,
}

impl View for MavMessage {
    type V = MessageModel;

    open spec fn view(&self) -> MessageModel {
        MessageModel {
            id: self.id,
            name: self.name@,
            description: text_view(self.description),
            fields: field_views(self.fields@),
        }
    }
}

impl Default for MavMessage {
    fn default() -> (message: MavMessage)
        ensures
            message@ == (MessageModel {
                id: 0,
                name: Seq::empty(),
                description: None,
                fields: Seq::empty(),
            }),
    {
        let message = MavMessage { id: 0, name: String::new(), description: None, fields: Vec::new() };
        assert(message@.fields =~= Seq::<FieldModel>::empty());
        message
    }
}

impl MavMessage {
    /// Every field has a well-formed type.
    pub open spec fn well_formed(&self) -> bool {
        fields_well_formed(self@.fields)
    }

    /// The name by which program text refers to this message: the parts of
    /// its name between underscores, each with a capital first letter and
    /// small letters after it. The checksum seed goes by the message's own
    /// name.
    pub open spec fn identifier_name(&self) -> Option<Seq<char>> {
        camel_case_of(self.name@)
    }

    /// The name by which program text refers to this message; nothing for a
    /// name with a character outside ASCII or with an empty part between
    /// underscores.
    pub fn identifier(&self) -> (name: Option<String>)
        ensures
            match name {
                Some(text) => self.identifier_name() == Some(text@),
                None => self.identifier_name() is None,
            },
    {
        camel_case(self.name.as_str())
    }

    /// Whether every field has a well-formed type.
    pub fn is_well_formed(&self) -> (r: bool)
        ensures
            r == self.well_formed(),
    {
        let mut i: usize = 0;
        while i < self.fields.len()
            invariant
                i <= self.fields.len(),
                forall|k: int| 0 <= k < i ==> (#[trigger] self@.fields[k]).mavtype.well_formed(),
            decreases self.fields.len() - i,
        {
            if !self.fields[i].mavtype.is_well_formed() {
                assert(!self@.fields[i as int].mavtype.well_formed());
                return false;
            }
            i += 1;
        }
        true
    }
}

/// The views of a list of messages, in order.
pub open spec fn message_views(messages: Seq<MavMessage>) -> Seq<MessageModel> {
    Seq::new(messages.len(), |i: int| messages[i]@)
}

/// What a schema is.
pub ghost struct ProfileModel {
    pub includes: Seq<Seq<char>>,
    pub messages: Seq<MessageModel>,
    pub enums: Seq<EnumModel>,
}

/// A protocol dialect: its enums, its messages and the schemas it refers to.
#[derive(Debug, PartialEq, Clone)]
pub struct MavProfile {
    pub includes: Vec<String>,
    pub messages: Vec<MavMessage>,
    pub enums: Vec<MavEnum>,
}

impl View for MavProfile {
    type V = ProfileModel;

    open spec fn view(&self) -> ProfileModel {
        ProfileModel {
            includes: texts_view(self.includes@),
            messages: message_views(self.messages@),
            enums: enum_views(self.enums@),
        }
    }
}

/// The position of the first message with this id, if there is one.
pub open spec fn position_of(messages: Seq<MessageModel>, id: u8) -> Option<int>
    decreases messages.len(),
{
    if messages.len() == 0 {
        None
    } else if messages[0].id == id {
        Some(0)
    } else {
        match position_of(messages.drop_first(), id) {
            Some(p) => Some(p + 1),
            None => None,
        }
    }
}

/// No two messages share an id.
pub open spec fn distinct_ids(messages: Seq<MessageModel>) -> bool {
    forall|i: int, j: int|
        0 <= i < j < messages.len() ==> (#[trigger] messages[i]).id != (#[trigger] messages[j]).id
}

/// What `position_of` finds: the first index with the id, or nothing when no
/// message has it.
pub proof fn lemma_position_of(messages: Seq<MessageModel>, id: u8)
    ensures
        match position_of(messages, id) {
            Some(p) => 0 <= p < messages.len() && messages[p].id == id && forall|k: int|
                0 <= k < p ==> (#[trigger] messages[k]).id != id,
            None => forall|k: int| 0 <= k < messages.len() ==> (#[trigger] messages[k]).id != id,
        },
    decreases messages.len(),
{
    if messages.len() > 0 && messages[0].id != id {
        let rest = messages.drop_first();
        lemma_position_of(rest, id);
        match position_of(rest, id) {
            Some(p) => {
                assert(messages[p + 1] == rest[p]);
                assert forall|k: int| 0 <= k < p + 1 implies (#[trigger] messages[k]).id != id by {
                    if k > 0 {
                        assert(messages[k] == rest[k - 1]);
                    }
                }
            },
            None => {
                assert forall|k: int| 0 <= k < messages.len() implies (#[trigger] messages[k]).id
                    != id by {
                    if k > 0 {
                        assert(messages[k] == rest[k - 1]);
                    }
                }
            },
        }
    }
}

impl MavProfile {
    /// The fields of every message have well-formed types.
    pub open spec fn types_well_formed(&self) -> bool {
        forall|i: int|
            0 <= i < self@.messages.len() ==> fields_well_formed((#[trigger] self@.messages[i]).fields)
    }

    /// No two messages share an id, and the fields of every message have
    /// well-formed types and stand in canonical order.
    pub open spec fn well_formed(&self) -> bool {
        &&& distinct_ids(self@.messages)
        &&& self.types_well_formed()
        &&& forall|i: int|
            0 <= i < self@.messages.len() ==> is_canonical((#[trigger] self@.messages[i]).fields)
    }

    /// Whether the fields of every message have well-formed types.
    pub fn has_well_formed_types(&self) -> (r: bool)
        ensures
            r == self.types_well_formed(),
    {
        let mut i: usize = 0;
        while i < self.messages.len()
            invariant
                i <= self.messages.len(),
                forall|k: int|
                    0 <= k < i ==> fields_well_formed((#[trigger] self@.messages[k]).fields),
            decreases self.messages.len() - i,
        {
            assert(self@.messages[i as int] == self.messages[i as int]@);
            if !self.messages[i].is_well_formed() {
                return false;
            }
            i += 1;
        }
        true
    }

    /// An empty schema.
    pub fn new() -> (profile: MavProfile)
        ensures
            profile@ == (ProfileModel {
                includes: Seq::empty(),
                messages: Seq::empty(),
                enums: Seq::empty(),
            }),
    {
        let profile = MavProfile { includes: Vec::new(), messages: Vec::new(), enums: Vec::new() };
        assert(profile@.includes =~= Seq::<Seq<char>>::empty());
        assert(profile@.messages =~= Seq::<MessageModel>::empty());
        assert(profile@.enums =~= Seq::<EnumModel>::empty());
        profile
    }

    /// The index of the first message that has this id.
    pub fn find_message(&self, id: u8) -> (found: Option<usize>)
        ensures
            match found {
                Some(p) => position_of(self@.messages, id) == Some(p as int) && p
                    < self.messages.len(),
                None => position_of(self@.messages, id) is None,
            },
    {
        let mut i: usize = 0;
        while i < self.messages.len()
            invariant
                i <= self.messages.len(),
                forall|k: int| 0 <= k < i ==> (#[trigger] self@.messages[k]).id != id,
            decreases self.messages.len() - i,
        {
            if self.messages[i].id == id {
                proof {
                    let messages = self@.messages;
                    lemma_position_of(messages, id);
                    assert(messages[i as int].id == id);
                    let p = position_of(messages, id).unwrap();
                    assert(messages[p].id == id);
                    assert(p == i);
                }
                return Some(i);
            }
            i += 1;
        }
        proof {
            let messages = self@.messages;
            lemma_position_of(messages, id);
            if position_of(messages, id) is Some {
                let p = position_of(messages, id).unwrap();
                assert(messages[p].id == id);
            }
        }
        None
    }
}

} // verus!
