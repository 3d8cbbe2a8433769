//! The vocabulary of a schema description: element kinds, their nesting,
//! type names, and the errors of loading.

use crate::text::{chars_of, parse_unsigned, same_text, unsigned_of};
use crate::types::MavType;
use vstd::prelude::*;

verus! {

/// Why a schema description was refused.
#[derive(Debug, PartialEq, Eq, Clone, Copy)]
pub enum SchemaError {
    /// An element whose name is not part of the vocabulary.
    UnknownElement,
    /// An element, or text, where the grammar allows none; also a document
    /// that the markup reader cannot read to its end.
    InvalidNesting,
    /// An attribute whose value cannot be read.
    BadAttribute,
    /// An array whose element type is an array.
    NestedArray,
    /// A message id that an earlier message has.
    DuplicateId,
}

/// The kinds of element in a schema description.
#[derive(Debug, PartialEq, Eq, Clone, Copy)]
pub enum MavXmlElement {
    Version,
    Mavlink,
    Include,
    Enums,
    Enum,
    Entry,
    Description,
    Param,
    Messages,
    Message,
    Field,
}

/// The element kind with this name.
pub open spec fn element_named(s: Seq<char>) -> Option<MavXmlElement> {
    if s == "version"@ {
        Some(MavXmlElement::Version)
    } else if s == "mavlink"@ {
        Some(MavXmlElement::Mavlink)
    } else if s == "include"@ {
        Some(MavXmlElement::Include)
    } else if s == "enums"@ {
        Some(MavXmlElement::Enums)
    } else if s == "enum"@ {
        Some(MavXmlElement::Enum)
    } else if s == "entry"@ {
        Some(MavXmlElement::Entry)
    } else if s == "description"@ {
        Some(MavXmlElement::Description)
    } else if s == "param"@ {
        Some(MavXmlElement::Param)
    } else if s == "messages"@ {
        Some(MavXmlElement::Messages)
    } else if s == "message"@ {
        Some(MavXmlElement::Message)
    } else if s == "field"@ {
        Some(MavXmlElement::Field)
    } else {
        None
    }
}

/// Whether an element of kind `child` may open directly inside `parent`
/// (`None`: at the top of the description).
pub open spec fn valid_parent(parent: Option<MavXmlElement>, child: MavXmlElement) -> bool {
    match child {
        MavXmlElement::Mavlink => parent is None,
        MavXmlElement::Version | MavXmlElement::Include | MavXmlElement::Enums
        | MavXmlElement::Messages => parent == Some(MavXmlElement::Mavlink),
        MavXmlElement::Enum => parent == Some(MavXmlElement::Enums),
        MavXmlElement::Entry => parent == Some(MavXmlElement::Enum),
        MavXmlElement::Description => parent == Some(MavXmlElement::Entry) || parent == Some(
            MavXmlElement::Message,
        ) || parent == Some(MavXmlElement::Enum),
        MavXmlElement::Param => parent == Some(MavXmlElement::Entry),
        MavXmlElement::Message => parent == Some(MavXmlElement::Messages),
        MavXmlElement::Field => parent == Some(MavXmlElement::Message),
    }
}

/// The element kind that a name stands for.
pub fn identify_element(s: &str) -> (kind: Option<MavXmlElement>)
    ensures
        kind == element_named(s@),
{
    if same_text(s, "version") {
        Some(MavXmlElement::Version)
    } else if same_text(s, "mavlink") {
        Some(MavXmlElement::Mavlink)
    } else if same_text(s, "include") {
        Some(MavXmlElement::Include)
    } else if same_text(s, "enums") {
        Some(MavXmlElement::Enums)
    } else if same_text(s, "enum") {
        Some(MavXmlElement::Enum)
    } else if same_text(s, "entry") {
        Some(MavXmlElement::Entry)
    } else if same_text(s, "description") {
        Some(MavXmlElement::Description)
    } else if same_text(s, "param") {
        Some(MavXmlElement::Param)
    } else if same_text(s, "messages") {
        Some(MavXmlElement::Messages)
    } else if same_text(s, "message") {
        Some(MavXmlElement::Message)
    } else if same_text(s, "field") {
        Some(MavXmlElement::Field)
    } else {
        None
    }
}

/// Whether an element of kind `s` may open directly inside `p`.
pub fn is_valid_parent(p: Option<MavXmlElement>, s: MavXmlElement) -> (r: bool)
    ensures
        r == valid_parent(p, s),
{
    match s {
        MavXmlElement::Mavlink => p.is_none(),
        MavXmlElement::Version | MavXmlElement::Include | MavXmlElement::Enums
        | MavXmlElement::Messages => match p {
            Some(MavXmlElement::Mavlink) => true,
            _ => false,
        },
        MavXmlElement::Enum => match p {
            Some(MavXmlElement::Enums) => true,
            _ => false,
        },
        MavXmlElement::Entry => match p {
            Some(MavXmlElement::Enum) => true,
            _ => false,
        },
        MavXmlElement::Description => match p {
            Some(MavXmlElement::Entry) | Some(MavXmlElement::Message) | Some(
                MavXmlElement::Enum,
            ) => true,
            _ => false,
        },
        MavXmlElement::Param => match p {
            Some(MavXmlElement::Entry) => true,
            _ => false,
        },
        MavXmlElement::Message => match p {
            Some(MavXmlElement::Messages) => true,
            _ => false,
        },
        MavXmlElement::Field => match p {
            Some(MavXmlElement::Message) => true,
            _ => false,
        },
    }
}

/// The scalar type with this name.
pub open spec fn scalar_named(s: Seq<char>) -> Option<MavType> {
    if s == "uint8_t_mavlink_version"@ {
        Some(MavType::UInt8MavlinkVersion)
    } else if s == "uint8_t"@ {
        Some(MavType::UInt8)
    } else if s == "uint16_t"@ {
        Some(MavType::UInt16)
    } else if s == "uint32_t"@ {
        Some(MavType::UInt32)
    } else if s == "uint64_t"@ {
        Some(MavType::UInt64)
    } else if s == "int8_t"@ {
        Some(MavType::Int8)
    } else if s == "int16_t"@ {
        Some(MavType::Int16)
    } else if s == "int32_t"@ {
        Some(MavType::Int32)
    } else if s == "int64_t"@ {
        Some(MavType::Int64)
    } else if s == "char"@ {
        Some(MavType::Char)
    } else if s == "float"@ {
        Some(MavType::Float)
    } else if s == "double"@ || s == "Double"@ {
        Some(MavType::Double)
    } else {
        None
    }
}

/// The position of the last `[`, or -1 when there is none.
pub open spec fn last_open(s: Seq<char>) -> int
    decreases s.len(),
{
    if s.len() == 0 {
        -1
    } else if s.last() == '[' {
        s.len() - 1
    } else {
        last_open(s.drop_last())
    }
}

/// The type that a type attribute names: a scalar name, or `base[count]`
/// with a scalar base and a decimal count. A base that is itself an array
/// is a nested array; anything else is a bad attribute.
pub open spec fn type_named(s: Seq<char>) -> Result<MavType, SchemaError> {
    match scalar_named(s) {
        Some(scalar) => Ok(scalar),
        None => {
            let open = last_open(s);
            if s.len() == 0 || s.last() != ']' || open < 0 {
                Err(SchemaError::BadAttribute)
            } else {
                match unsigned_of(s.subrange(open + 1, s.len() - 1), usize::MAX as nat) {
                    None => Err(SchemaError::BadAttribute),
                    Some(count) => match scalar_named(s.take(open)) {
                        Some(elem) => Ok(MavType::Array(Box::new(elem), count as usize)),
                        None => if open > 0 && s[open - 1] == ']' {
                            Err(SchemaError::NestedArray)
                        } else {
                            Err(SchemaError::BadAttribute)
                        },
                    },
                }
            }
        },
    }
}

/// The scalar type that a name stands for.
pub fn parse_scalar(s: &str) -> (r: Option<MavType>)
    ensures
        r == scalar_named(s@),
        r is Some ==> !(r.unwrap() is Array),
{
    if same_text(s, "uint8_t_mavlink_version") {
        Some(MavType::UInt8MavlinkVersion)
    } else if same_text(s, "uint8_t") {
        Some(MavType::UInt8)
    } else if same_text(s, "uint16_t") {
        Some(MavType::UInt16)
    } else if same_text(s, "uint32_t") {
        Some(MavType::UInt32)
    } else if same_text(s, "uint64_t") {
        Some(MavType::UInt64)
    } else if same_text(s, "int8_t") {
        Some(MavType::Int8)
    } else if same_text(s, "int16_t") {
        Some(MavType::Int16)
    } else if same_text(s, "int32_t") {
        Some(MavType::Int32)
    } else if same_text(s, "int64_t") {
        Some(MavType::Int64)
    } else if same_text(s, "char") {
        Some(MavType::Char)
    } else if same_text(s, "float") {
        Some(MavType::Float)
    } else if same_text(s, "double") || same_text(s, "Double") {
        Some(MavType::Double)
    } else {
        None
    }
}

/// The position of the last `[`, if there is one.
fn find_last_open(chars: &Vec<char>) -> (r: Option<usize>)
    ensures
        match r {
            Some(p) => p < chars.len() && last_open(chars@) == p && chars@[p as int] == '[',
            None => last_open(chars@) == -1,
        },
{
    let mut k: usize = chars.len();
    assert(chars@.take(k as int) =~= chars@);
    while k > 0
        invariant
            k <= chars.len(),
            last_open(chars@) == last_open(chars@.take(k as int)),
        decreases k,
    {
        let ghost here = chars@.take(k as int);
        assert(here.last() == chars@[k - 1]);
        assert(here.drop_last() =~= chars@.take(k - 1));
        if chars[k - 1] == '[' {
            return Some(k - 1);
        }
        k -= 1;
    }
    None
}

/// Reads a type attribute.
pub fn parse_type(s: &str) -> (r: Result<MavType, SchemaError>)
    ensures
        r == type_named(s@),
        r is Ok ==> r.unwrap().well_formed(),
{
    match parse_scalar(s) {
        Some(scalar) => Ok(scalar),
        None => {
            let chars = chars_of(s);
            let n: usize = chars.len();
            if n == 0 || chars[n - 1] != ']' {
                return Err(SchemaError::BadAttribute);
            }
            match find_last_open(&chars) {
                None => Err(SchemaError::BadAttribute),
                Some(open) => {
                    match parse_unsigned(s.substring_char(open + 1, n - 1), usize::MAX as u64) {
                        None => Err(SchemaError::BadAttribute),
                        Some(count) => {
                            let base = s.substring_char(0, open);
                            assert(base@ =~= s@.take(open as int));
                            match parse_scalar(base) {
                                Some(elem) => Ok(MavType::Array(Box::new(elem), count as usize)),
                                None => if open > 0 && chars[open - 1] == ']' {
                                    Err(SchemaError::NestedArray)
                                } else {
                                    Err(SchemaError::BadAttribute)
                                },
                            }
                        },
                    }
                },
            }
        },
    }
}

/// Reading inverts naming: the name of a scalar's primitive family is read
/// back as that scalar. (The protocol-version marker shares the family name
/// of the plain 8-bit unsigned type, as which its family name is read.)
pub proof fn lemma_family_name_read_back(ty: MavType)
    requires
        !(ty is Array),
        !(ty is UInt8MavlinkVersion),
    ensures
        scalar_named(ty.primitive_name()) == Some(ty),
        type_named(ty.primitive_name()) == Ok::<MavType, SchemaError>(ty),
{
    reveal_strlit("uint8_t_mavlink_version");
    reveal_strlit("uint8_t");
    reveal_strlit("uint16_t");
    reveal_strlit("uint32_t");
    reveal_strlit("uint64_t");
    reveal_strlit("int8_t");
    reveal_strlit("int16_t");
    reveal_strlit("int32_t");
    reveal_strlit("int64_t");
    reveal_strlit("char");
    reveal_strlit("float");
    reveal_strlit("double");
    reveal_strlit("Double");
    let name = ty.primitive_name();
    assert("uint8_t"@[0] == 'u' && "uint8_t"@[4] == '8');
    assert("uint16_t"@[0] == 'u' && "uint16_t"@[4] == '1');
    assert("uint32_t"@[0] == 'u' && "uint32_t"@[4] == '3');
    assert("uint64_t"@[0] == 'u' && "uint64_t"@[4] == '6');
    assert("int8_t"@[0] == 'i' && "int8_t"@[3] == '8');
    assert("int16_t"@[0] == 'i' && "int16_t"@[3] == '1');
    assert("int32_t"@[0] == 'i' && "int32_t"@[3] == '3');
    assert("int64_t"@[0] == 'i' && "int64_t"@[3] == '6');
    assert("char"@[0] == 'c');
    assert("float"@[0] == 'f');
    assert("double"@[0] == 'd');
    assert("Double"@[0] == 'D');
}

} // verus!
