//! The schema loader: a builder that turns the events of a schema
//! description into a schema, checking the grammar on the way.

use crate::grammar::{
    element_named, identify_element, is_valid_parent, parse_type, type_named, valid_parent,
    MavXmlElement, SchemaError,
};
use crate::model::{
    canonical_order, clone_text, clone_texts, fields_well_formed, is_canonical,
    lemma_canonical_idempotent, sort_fields, texts_view, FieldModel, MavField,
};
use crate::schema::{
    distinct_ids, lemma_position_of, numbered, position_of, EntryModel, EnumModel, MavEnum,
    MavEnumEntry, MavMessage, MavProfile, MessageModel, ProfileModel,
};
use crate::text::{
    camel_case, camel_case_of, has_whole_parts, parse_signed, parse_unsigned, same_text,
    signed_of, unsigned_of, whole_parts,
};
use crate::types::MavType;
use vstd::prelude::*;

verus! {

/// What an event of a schema description is.
pub ghost enum EventModel {
    Open(Seq<char>, Seq<(Seq<char>, Seq<char>)>),
    Text(Seq<char>),
    Close,
    Fault,
    Other,
}

/// One event of a schema description, as a markup reader reports it.
#[derive(Debug, PartialEq, Eq, Clone)]
pub enum SchemaEvent {
    /// An element opens: its name and its attributes (name, value) in order.
    Open(String, Vec<(String, String)>),
    /// Text inside the open element.
    Text(String),
    /// The open element closes.
    Close,
    /// The markup reader could not go on: the document is malformed or ends
    /// early.
    Fault,
    /// Anything else (comments, white space, the document's start and end).
    Other,
}

/// The names and values of a list of attributes, in order.
pub open spec fn attr_views(attrs: Seq<(String, String)>) -> Seq<(Seq<char>, Seq<char>)> {
    Seq::new(attrs.len(), |i: int| (attrs[i].0@, attrs[i].1@))
}

impl View for SchemaEvent {
    type V = EventModel;

    open spec fn view(&self) -> EventModel {
        match self {
            SchemaEvent::Open(name, attrs) => EventModel::Open(name@, attr_views(attrs@)),
            SchemaEvent::Text(text) => EventModel::Text(text@),
            SchemaEvent::Close => EventModel::Close,
            SchemaEvent::Fault => EventModel::Fault,
            SchemaEvent::Other => EventModel::Other,
        }
    }
}

/// The views of a list of events, in order.
pub open spec fn event_views(events: Seq<SchemaEvent>) -> Seq<EventModel> {
    Seq::new(events.len(), |i: int| events[i]@)
}

/// What the state of a loader is.
pub ghost struct LoaderModel {
    pub stack: Seq<MavXmlElement>,
    pub profile: ProfileModel,
    pub field: FieldModel,
    pub message: MessageModel,
    pub mavenum: EnumModel,
    pub entry: EntryModel,
    pub paramid: Option<usize>,
    pub valued: bool,
}

/// The state of a schema loader: the open elements, the schema built so
/// far, and the items under construction.
pub struct Loader {
    /// The kinds of the open elements, outermost first.
    pub stack: Vec<MavXmlElement>,
    /// The schema built so far.
    pub profile: MavProfile,
    /// The field under construction.
    pub field: MavField,
    /// The message under construction.
    pub message: MavMessage,
    /// The enum under construction.
    pub mavenum: MavEnum,
    /// The enum entry under construction.
    pub entry: MavEnumEntry,
    /// The index that the open parameter declared.
    pub paramid: Option<usize>,
    /// Whether an entry of the enum under construction declared a value.
    pub valued: bool,
}

impl View for Loader {
    type V = LoaderModel;

    open spec fn view(&self) -> LoaderModel {
        LoaderModel {
            stack: self.stack@,
            profile: self.profile@,
            field: self.field@,
            message: self.message@,
            mavenum: self.mavenum@,
            entry: self.entry@,
            paramid: self.paramid,
            valued: self.valued,
        }
    }
}

/// A field before any attribute is read.
pub open spec fn blank_field() -> FieldModel {
    FieldModel { mavtype: MavType::UInt8, name: Seq::empty(), description: None, enumtype: None }
}

/// A message before any attribute is read.
pub open spec fn blank_message() -> MessageModel {
    MessageModel { id: 0, name: Seq::empty(), description: None, fields: Seq::empty() }
}

/// An enum before any attribute is read.
pub open spec fn blank_enum() -> EnumModel {
    EnumModel { name: Seq::empty(), description: None, entries: Seq::empty() }
}

/// An enum entry before any attribute is read.
pub open spec fn blank_entry() -> EntryModel {
    EntryModel { value: 0, name: Seq::empty(), description: None, params: None }
}

/// The state before the first event.
pub open spec fn initial_state() -> LoaderModel {
    LoaderModel {
        stack: Seq::empty(),
        profile: ProfileModel {
            includes: Seq::empty(),
            messages: Seq::empty(),
            enums: Seq::empty(),
        },
        field: blank_field(),
        message: blank_message(),
        mavenum: blank_enum(),
        entry: blank_entry(),
        paramid: None,
        valued: false,
    }
}

/// The innermost open element.
pub open spec fn top_of(stack: Seq<MavXmlElement>) -> Option<MavXmlElement> {
    if stack.len() > 0 {
        Some(stack.last())
    } else {
        None
    }
}

/// The state in which every type is well formed, no two messages of the
/// schema share an id, and the fields of every message of the schema stand
/// in canonical order.
pub open spec fn state_well_formed(state: LoaderModel) -> bool {
    &&& state.field.mavtype.well_formed()
    &&& fields_well_formed(state.message.fields)
    &&& distinct_ids(state.profile.messages)
    &&& forall|i: int|
        0 <= i < state.profile.messages.len() ==> fields_well_formed(
            (#[trigger] state.profile.messages[i]).fields,
        )
    &&& forall|i: int|
        0 <= i < state.profile.messages.len() ==> is_canonical(
            (#[trigger] state.profile.messages[i]).fields,
        )
}

/// The state after one attribute of an element of kind `kind` is read.
/// The names of messages and of fields are kept as the schema has them,
/// since the checksum seed is taken of them; a message's name must have no
/// empty part between its underscores. The names of enums, and the
/// references of fields to them, are kept in capitalised form.
pub open spec fn set_attribute(
    state: LoaderModel,
    kind: MavXmlElement,
    name: Seq<char>,
    value: Seq<char>,
) -> Result<LoaderModel, SchemaError> {
    match kind {
        MavXmlElement::Enum => if name == "name"@ {
            match camel_case_of(value) {
                Some(text) => Ok(
                    LoaderModel { mavenum: EnumModel { name: text, ..state.mavenum }, ..state },
                ),
                None => Err(SchemaError::BadAttribute),
            }
        } else {
            Ok(state)
        },
        MavXmlElement::Entry => if name == "name"@ {
            Ok(LoaderModel { entry: EntryModel { name: value, ..state.entry }, ..state })
        } else if name == "value"@ {
            match signed_of(value) {
                Some(number) => Ok(
                    LoaderModel {
                        entry: EntryModel { value: number as i32, ..state.entry },
                        valued: true,
                        ..state
                    },
                ),
                None => Err(SchemaError::BadAttribute),
            }
        } else {
            Ok(state)
        },
        MavXmlElement::Message => if name == "name"@ {
            if whole_parts(value) {
                Ok(LoaderModel { message: MessageModel { name: value, ..state.message }, ..state })
            } else {
                Err(SchemaError::BadAttribute)
            }
        } else if name == "id"@ {
            match unsigned_of(value, 255) {
                Some(number) => Ok(
                    LoaderModel {
                        message: MessageModel { id: number as u8, ..state.message },
                        ..state
                    },
                ),
                None => Err(SchemaError::BadAttribute),
            }
        } else {
            Ok(state)
        },
        MavXmlElement::Field => if name == "name"@ {
            Ok(LoaderModel { field: FieldModel { name: value, ..state.field }, ..state })
        } else if name == "type"@ {
            match type_named(value) {
                Ok(mavtype) => Ok(
                    LoaderModel { field: FieldModel { mavtype, ..state.field }, ..state },
                ),
                Err(e) => Err(e),
            }
        } else if name == "enum"@ {
            match camel_case_of(value) {
                Some(text) => Ok(
                    LoaderModel {
                        field: FieldModel { enumtype: Some(text), ..state.field },
                        ..state
                    },
                ),
                None => Err(SchemaError::BadAttribute),
            }
        } else {
            Ok(state)
        },
        MavXmlElement::Param => {
            let params = match state.entry.params {
                Some(list) => Some(list),
                None => Some(Seq::empty()),
            };
            let listed = LoaderModel { entry: EntryModel { params, ..state.entry }, ..state };
            if name == "index"@ {
                match unsigned_of(value, usize::MAX as nat) {
                    Some(number) => Ok(
                        LoaderModel { paramid: Some(number as usize), ..listed },
                    ),
                    None => Err(SchemaError::BadAttribute),
                }
            } else {
                Ok(listed)
            }
        },
        _ => Ok(state),
    }
}

/// The state after the attributes are read, in order.
pub open spec fn set_attributes(
    state: LoaderModel,
    kind: MavXmlElement,
    attrs: Seq<(Seq<char>, Seq<char>)>,
) -> Result<LoaderModel, SchemaError>
    decreases attrs.len(),
{
    if attrs.len() == 0 {
        Ok(state)
    } else {
        match set_attribute(state, kind, attrs[0].0, attrs[0].1) {
            Ok(next) => set_attributes(next, kind, attrs.drop_first()),
            Err(e) => Err(e),
        }
    }
}

/// The state with the item that an element of kind `kind` describes made
/// blank, and the element on the stack.
pub open spec fn enter(state: LoaderModel, kind: MavXmlElement) -> LoaderModel {
    let stack = state.stack.push(kind);
    match kind {
        MavXmlElement::Message => LoaderModel { message: blank_message(), stack, ..state },
        MavXmlElement::Field => LoaderModel { field: blank_field(), stack, ..state },
        MavXmlElement::Enum => LoaderModel { mavenum: blank_enum(), valued: false, stack, ..state },
        MavXmlElement::Entry => LoaderModel { entry: blank_entry(), stack, ..state },
        MavXmlElement::Param => LoaderModel { paramid: None, stack, ..state },
        _ => LoaderModel { stack, ..state },
    }
}

/// The state after an element opens: its name must belong to the
/// vocabulary, its kind must be allowed inside the innermost open element,
/// and its attributes must be readable.
pub open spec fn open_element(
    state: LoaderModel,
    name: Seq<char>,
    attrs: Seq<(Seq<char>, Seq<char>)>,
) -> Result<LoaderModel, SchemaError> {
    match element_named(name) {
        None => Err(SchemaError::UnknownElement),
        Some(kind) => if !valid_parent(top_of(state.stack), kind) {
            Err(SchemaError::InvalidNesting)
        } else {
            set_attributes(enter(state, kind), kind, attrs)
        },
    }
}

/// The state after text is read inside the innermost open element.
pub open spec fn take_text(state: LoaderModel, text: Seq<char>) -> Result<
    LoaderModel,
    SchemaError,
> {
    if state.stack.len() < 2 {
        Err(SchemaError::InvalidNesting)
    } else {
        let top = state.stack[state.stack.len() - 1];
        let below = state.stack[state.stack.len() - 2];
        if top == MavXmlElement::Description && below == MavXmlElement::Message {
            Ok(
                LoaderModel {
                    message: MessageModel { description: Some(text), ..state.message },
                    ..state
                },
            )
        } else if top == MavXmlElement::Field && below == MavXmlElement::Message {
            Ok(LoaderModel { field: FieldModel { description: Some(text), ..state.field }, ..state })
        } else if top == MavXmlElement::Description && below == MavXmlElement::Enum {
            Ok(
                LoaderModel {
                    mavenum: EnumModel { description: Some(text), ..state.mavenum },
                    ..state
                },
            )
        } else if top == MavXmlElement::Description && below == MavXmlElement::Entry {
            Ok(LoaderModel { entry: EntryModel { description: Some(text), ..state.entry }, ..state })
        } else if top == MavXmlElement::Param && below == MavXmlElement::Entry {
            match state.entry.params {
                None => Ok(state),
                Some(list) => match state.paramid {
                    Some(index) => if 1 <= index <= list.len() + 1 {
                        Ok(
                            LoaderModel {
                                entry: EntryModel {
                                    params: Some(list.insert(index - 1, text)),
                                    ..state.entry
                                },
                                ..state
                            },
                        )
                    } else {
                        Err(SchemaError::BadAttribute)
                    },
                    None => Err(SchemaError::BadAttribute),
                },
            }
        } else if top == MavXmlElement::Include && below == MavXmlElement::Mavlink {
            Ok(
                LoaderModel {
                    profile: ProfileModel {
                        includes: state.profile.includes.push(text),
                        ..state.profile
                    },
                    ..state
                },
            )
        } else if top == MavXmlElement::Version && below == MavXmlElement::Mavlink {
            Ok(state)
        } else {
            Err(SchemaError::InvalidNesting)
        }
    }
}

/// The stack without its innermost element.
pub open spec fn popped(stack: Seq<MavXmlElement>) -> Seq<MavXmlElement> {
    if stack.len() > 0 {
        stack.drop_last()
    } else {
        stack
    }
}

/// The state after the innermost open element closes. A field joins its
/// message, an entry its enum. A message joins the schema with its fields
/// in canonical order, unless its id is taken. An enum joins the schema;
/// when none of its entries declared a value, they are numbered from 0.
pub open spec fn close_element(state: LoaderModel) -> Result<LoaderModel, SchemaError> {
    let stack = popped(state.stack);
    match top_of(state.stack) {
        Some(MavXmlElement::Field) => Ok(
            LoaderModel {
                message: MessageModel {
                    fields: state.message.fields.push(state.field),
                    ..state.message
                },
                stack,
                ..state
            },
        ),
        Some(MavXmlElement::Entry) => Ok(
            LoaderModel {
                mavenum: EnumModel {
                    entries: state.mavenum.entries.push(state.entry),
                    ..state.mavenum
                },
                stack,
                ..state
            },
        ),
        Some(MavXmlElement::Message) => if position_of(state.profile.messages, state.message.id)
            is Some {
            Err(SchemaError::DuplicateId)
        } else {
            Ok(
                LoaderModel {
                    profile: ProfileModel {
                        messages: state.profile.messages.push(
                            MessageModel {
                                fields: canonical_order(state.message.fields),
                                ..state.message
                            },
                        ),
                        ..state.profile
                    },
                    stack,
                    ..state
                },
            )
        },
        Some(MavXmlElement::Enum) => Ok(
            LoaderModel {
                profile: ProfileModel {
                    enums: state.profile.enums.push(
                        if state.valued {
                            state.mavenum
                        } else {
                            EnumModel {
                                entries: numbered(state.mavenum.entries),
                                ..state.mavenum
                            }
                        },
                    ),
                    ..state.profile
                },
                stack,
                ..state
            },
        ),
        _ => Ok(LoaderModel { stack, ..state }),
    }
}

/// The state after one event. A fault of the markup reader ends the load:
/// a document that cannot be read to its end is not properly nested.
pub open spec fn step(state: LoaderModel, event: EventModel) -> Result<LoaderModel, SchemaError> {
    match event {
        EventModel::Open(name, attrs) => open_element(state, name, attrs),
        EventModel::Text(text) => take_text(state, text),
        EventModel::Close => close_element(state),
        EventModel::Fault => Err(SchemaError::InvalidNesting),
        EventModel::Other => Ok(state),
    }
}

/// The state after the events, in order, or the first error.
pub open spec fn run(state: LoaderModel, events: Seq<EventModel>) -> Result<
    LoaderModel,
    SchemaError,
>
    decreases events.len(),
{
    if events.len() == 0 {
        Ok(state)
    } else {
        match step(state, events[0]) {
            Ok(next) => run(next, events.drop_first()),
            Err(e) => Err(e),
        }
    }
}

/// The schema that the events describe, or the first error.
pub open spec fn schema_of(events: Seq<EventModel>) -> Result<ProfileModel, SchemaError> {
    match run(initial_state(), events) {
        Ok(state) => Ok(state.profile),
        Err(e) => Err(e),
    }
}

/// The result of a step: the state it left on success, its error otherwise.
pub open spec fn outcome(r: Result<(), SchemaError>, state: LoaderModel) -> Result<
    LoaderModel,
    SchemaError,
> {
    match r {
        Ok(()) => Ok(state),
        Err(e) => Err(e),
    }
}

/// The result of a load: the view of the schema on success, the error
/// otherwise.
pub open spec fn loaded(r: Result<MavProfile, SchemaError>) -> Result<ProfileModel, SchemaError> {
    match r {
        Ok(profile) => Ok(profile@),
        Err(e) => Err(e),
    }
}

/// The events that the markup reader reports for a document: a function of
/// the document's bytes.
pub uninterp spec fn markup_events(input: Seq<u8>) -> Seq<EventModel>;

/// Runs `xml::reader::EventReader` over the bytes and hands out each event
/// it yields, in order: the start of an element with its displayed name and
/// its attributes' local names and values, character data, the end of an
/// element, an error (after which the reader yields nothing more), or
/// anything else. The contract claims only that the events are a function of
/// the bytes, named `markup_events`.
#[verifier::external_body]
fn read_events(input: &[u8]) -> (events: Vec<SchemaEvent>)
    ensures
        event_views(events@) == markup_events(input@),
{
    let mut events = Vec::new();
    for event in xml::reader::EventReader::new(input) {
        events.push(match event {
            Ok(xml::reader::XmlEvent::StartElement { name, attributes, .. }) => SchemaEvent::Open(
                name.to_string(),
                attributes.into_iter().map(|a| (a.name.local_name, a.value)).collect(),
            ),
            Ok(xml::reader::XmlEvent::Characters(text)) => SchemaEvent::Text(text),
            Ok(xml::reader::XmlEvent::EndElement { .. }) => SchemaEvent::Close,
            Ok(_) => SchemaEvent::Other,
            Err(_) => SchemaEvent::Fault,
        });
    }
    events
}

impl Loader {
    /// Every type is well formed and no two messages of the schema share an
    /// id.
    pub open spec fn well_formed(&self) -> bool {
        state_well_formed(self@)
    }

    /// A loader before the first event.
    pub fn new() -> (loader: Loader)
        ensures
            loader@ == initial_state(),
            loader.well_formed(),
    {
        let loader = Loader {
            stack: Vec::new(),
            profile: MavProfile::new(),
            field: MavField::default(),
            message: MavMessage::default(),
            mavenum: MavEnum::default(),
            entry: MavEnumEntry::default(),
            paramid: None,
            valued: false,
        };
        assert(loader@.stack =~= Seq::<MavXmlElement>::empty());
        loader
    }

    /// Reads one attribute of the open element, whose kind is `kind`.
    pub fn set_attribute(&mut self, kind: MavXmlElement, name: &str, value: &str) -> (r: Result<
        (),
        SchemaError,
    >)
        requires
            old(self).well_formed(),
        ensures
            final(self).well_formed(),
            set_attribute(old(self)@, kind, name@, value@) == outcome(r, final(self)@),
            r is Err ==> final(self)@ == old(self)@,
    {
        match kind {
            MavXmlElement::Enum => {
                if same_text(name, "name") {
                    match camel_case(value) {
                        Some(text) => {
                            self.mavenum.name = text;
                        },
                        None => {
                            return Err(SchemaError::BadAttribute);
                        },
                    }
                }
            },
            MavXmlElement::Entry => {
                if same_text(name, "name") {
                    self.entry.name = value.to_owned();
                } else if same_text(name, "value") {
                    match parse_signed(value) {
                        Some(number) => {
                            self.entry.value = number;
                            self.valued = true;
                        },
                        None => {
                            return Err(SchemaError::BadAttribute);
                        },
                    }
                }
            },
            MavXmlElement::Message => {
                if same_text(name, "name") {
                    if !has_whole_parts(value) {
                        return Err(SchemaError::BadAttribute);
                    }
                    self.message.name = value.to_owned();
                } else if same_text(name, "id") {
                    match parse_unsigned(value, 255) {
                        Some(number) => {
                            self.message.id = number as u8;
                        },
                        None => {
                            return Err(SchemaError::BadAttribute);
                        },
                    }
                }
            },
            MavXmlElement::Field => {
                if same_text(name, "name") {
                    self.field.name = value.to_owned();
                } else if same_text(name, "type") {
                    match parse_type(value) {
                        Ok(mavtype) => {
                            self.field.mavtype = mavtype;
                        },
                        Err(e) => {
                            return Err(e);
                        },
                    }
                } else if same_text(name, "enum") {
                    match camel_case(value) {
                        Some(text) => {
                            self.field.enumtype = Some(text);
                        },
                        None => {
                            return Err(SchemaError::BadAttribute);
                        },
                    }
                }
            },
            MavXmlElement::Param => {
                let index = if same_text(name, "index") {
                    match parse_unsigned(value, usize::MAX as u64) {
                        Some(number) => Some(number as usize),
                        None => {
                            return Err(SchemaError::BadAttribute);
                        },
                    }
                } else {
                    self.paramid
                };
                if self.entry.params.is_none() {
                    let list: Vec<String> = Vec::new();
                    assert(texts_view(list@) =~= Seq::<Seq<char>>::empty());
                    self.entry.params = Some(list);
                }
                self.paramid = index;
            },
            _ => {},
        }
        Ok(())
    }

    /// Handles the opening of an element.
    pub fn open(&mut self, name: &str, attrs: &Vec<(String, String)>) -> (r: Result<
        (),
        SchemaError,
    >)
        requires
            old(self).well_formed(),
        ensures
            final(self).well_formed(),
            open_element(old(self)@, name@, attr_views(attrs@)) == outcome(r, final(self)@),
    {
        let kind = match identify_element(name) {
            Some(kind) => kind,
            None => {
                return Err(SchemaError::UnknownElement);
            },
        };
        let parent = if self.stack.len() > 0 {
            Some(self.stack[self.stack.len() - 1])
        } else {
            None
        };
        if !is_valid_parent(parent, kind) {
            return Err(SchemaError::InvalidNesting);
        }
        match kind {
            MavXmlElement::Message => {
                self.message = MavMessage::default();
            },
            MavXmlElement::Field => {
                self.field = MavField::default();
            },
            MavXmlElement::Enum => {
                self.mavenum = MavEnum::default();
                self.valued = false;
            },
            MavXmlElement::Entry => {
                self.entry = MavEnumEntry::default();
            },
            MavXmlElement::Param => {
                self.paramid = None;
            },
            _ => {},
        }
        self.stack.push(kind);
        let ghost all = attr_views(attrs@);
        let ghost goal = open_element(old(self)@, name@, all);
        assert(self@ == enter(old(self)@, kind));
        assert(all.skip(0) =~= all);
        let mut i: usize = 0;
        while i < attrs.len()
            invariant
                i <= attrs.len(),
                all == attr_views(attrs@),
                self.well_formed(),
                goal == open_element(old(self)@, name@, all),
                goal == set_attributes(self@, kind, all.skip(i as int)),
            decreases attrs.len() - i,
        {
            let ghost here = all.skip(i as int);
            assert(here[0] == all[i as int]);
            assert(here.drop_first() =~= all.skip(i + 1));
            match self.set_attribute(kind, attrs[i].0.as_str(), attrs[i].1.as_str()) {
                Ok(()) => {},
                Err(e) => {
                    return Err(e);
                },
            }
            i += 1;
        }
        assert(all.skip(attrs.len() as int) =~= Seq::<(Seq<char>, Seq<char>)>::empty());
        Ok(())
    }

    /// Handles text inside the innermost open element.
    pub fn text(&mut self, text: &str) -> (r: Result<(), SchemaError>)
        requires
            old(self).well_formed(),
        ensures
            final(self).well_formed(),
            take_text(old(self)@, text@) == outcome(r, final(self)@),
    {
        let depth: usize = self.stack.len();
        if depth < 2 {
            return Err(SchemaError::InvalidNesting);
        }
        let top = self.stack[depth - 1];
        let below = self.stack[depth - 2];
        match (top, below) {
            (MavXmlElement::Description, MavXmlElement::Message) => {
                self.message.description = Some(text.to_owned());
                Ok(())
            },
            (MavXmlElement::Field, MavXmlElement::Message) => {
                self.field.description = Some(text.to_owned());
                Ok(())
            },
            (MavXmlElement::Description, MavXmlElement::Enum) => {
                self.mavenum.description = Some(text.to_owned());
                Ok(())
            },
            (MavXmlElement::Description, MavXmlElement::Entry) => {
                self.entry.description = Some(text.to_owned());
                Ok(())
            },
            (MavXmlElement::Param, MavXmlElement::Entry) => {
                let copy = match &self.entry.params {
                    None => {
                        return Ok(());
                    },
                    Some(list) => clone_texts(list),
                };
                match self.paramid {
                    Some(index) => {
                        if index < 1 || index - 1 > copy.len() {
                            return Err(SchemaError::BadAttribute);
                        }
                        let mut list = copy;
                        let ghost before = texts_view(list@);
                        list.insert(index - 1, text.to_owned());
                        assert(texts_view(list@) =~= before.insert(index - 1, text@));
                        self.entry.params = Some(list);
                        Ok(())
                    },
                    None => Err(SchemaError::BadAttribute),
                }
            },
            (MavXmlElement::Include, MavXmlElement::Mavlink) => {
                let ghost before = texts_view(self.profile.includes@);
                self.profile.includes.push(text.to_owned());
                assert(texts_view(self.profile.includes@) =~= before.push(text@));
                Ok(())
            },
            (MavXmlElement::Version, MavXmlElement::Mavlink) => Ok(()),
            _ => Err(SchemaError::InvalidNesting),
        }
    }

    /// Handles the closing of the innermost open element.
    pub fn close(&mut self) -> (r: Result<(), SchemaError>)
        requires
            old(self).well_formed(),
        ensures
            final(self).well_formed(),
            close_element(old(self)@) == outcome(r, final(self)@),
    {
        let depth: usize = self.stack.len();
        if depth == 0 {
            return Ok(());
        }
        let top = self.stack[depth - 1];
        match top {
            MavXmlElement::Field => {
                let ghost before = self@.message.fields;
                self.message.fields.push(self.field.duplicate());
                assert(self@.message.fields =~= before.push(self@.field));
            },
            MavXmlElement::Entry => {
                let ghost before = self@.mavenum.entries;
                self.mavenum.entries.push(self.entry.duplicate());
                assert(self@.mavenum.entries =~= before.push(self@.entry));
            },
            MavXmlElement::Message => {
                if self.profile.find_message(self.message.id).is_some() {
                    return Err(SchemaError::DuplicateId);
                }
                let message = MavMessage {
                    id: self.message.id,
                    name: self.message.name.clone(),
                    description: clone_text(&self.message.description),
                    fields: sort_fields(&self.message.fields),
                };
                let ghost before = self@.profile.messages;
                proof {
                    lemma_position_of(before, self.message.id);
                }
                self.profile.messages.push(message);
                proof {
                    let after = self@.profile.messages;
                    assert(after =~= before.push(message@));
                    lemma_canonical_idempotent(old(self)@.message.fields);
                    assert forall|i: int| 0 <= i < after.len() implies fields_well_formed(
                        (#[trigger] after[i]).fields,
                    ) && is_canonical(after[i].fields) by {
                        if i < before.len() {
                            assert(after[i] == before[i]);
                        }
                    }
                    assert forall|i: int, j: int| 0 <= i < j < after.len() implies (
                    #[trigger] after[i]).id != (#[trigger] after[j]).id by {
                        assert(after[i] == before[i]);
                        if j < before.len() {
                            assert(after[j] == before[j]);
                        }
                    }
                }
            },
            MavXmlElement::Enum => {
                let mut mavenum = self.mavenum.duplicate();
                if !self.valued {
                    mavenum.number_entries();
                }
                let ghost before = self@.profile.enums;
                self.profile.enums.push(mavenum);
                assert(self@.profile.enums =~= before.push(mavenum@));
            },
            _ => {},
        }
        self.stack.pop();
        assert(self@.stack =~= popped(old(self)@.stack));
        Ok(())
    }

    /// Handles one event.
    pub fn step(&mut self, event: &SchemaEvent) -> (r: Result<(), SchemaError>)
        requires
            old(self).well_formed(),
        ensures
            final(self).well_formed(),
            step(old(self)@, event@) == outcome(r, final(self)@),
    {
        match event {
            SchemaEvent::Open(name, attrs) => self.open(name.as_str(), attrs),
            SchemaEvent::Text(text) => self.text(text.as_str()),
            SchemaEvent::Close => self.close(),
            SchemaEvent::Fault => Err(SchemaError::InvalidNesting),
            SchemaEvent::Other => Ok(()),
        }
    }
}

/// Builds the schema that a sequence of events describes. The first event
/// that breaks the grammar, or holds an unreadable attribute, a nested
/// array or a message id already taken, ends the load with its error; so
/// does a fault of the markup reader, as a breach of nesting.
pub fn load_events(events: &Vec<SchemaEvent>) -> (r: Result<MavProfile, SchemaError>)
    ensures
        schema_of(event_views(events@)) == loaded(r),
        r is Ok ==> r.unwrap().well_formed(),
{
    let mut loader = Loader::new();
    let ghost all = event_views(events@);
    assert(all.skip(0) =~= all);
    let mut i: usize = 0;
    while i < events.len()
        invariant
            i <= events.len(),
            all == event_views(events@),
            loader.well_formed(),
            run(initial_state(), all) == run(loader@, all.skip(i as int)),
        decreases events.len() - i,
    {
        let ghost here = all.skip(i as int);
        assert(here[0] == all[i as int]);
        assert(here.drop_first() =~= all.skip(i + 1));
        match loader.step(&events[i]) {
            Ok(()) => {},
            Err(e) => {
                return Err(e);
            },
        }
        i += 1;
    }
    assert(all.skip(events.len() as int) =~= Seq::<EventModel>::empty());
    Ok(loader.profile)
}

/// Loads the schema that a document describes: reads the document's events
/// and builds the schema from them.
pub fn parse_profile(input: &[u8]) -> (r: Result<MavProfile, SchemaError>)
    ensures
        schema_of(markup_events(input@)) == loaded(r),
        r is Ok ==> r.unwrap().well_formed(),
{
    let events = read_events(input);
    load_events(&events)
}

} // verus!
