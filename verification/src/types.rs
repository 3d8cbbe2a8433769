//! The wire type system: width, ordering and names of each field type.

use crate::text::{decimal_digits, decimal_text};
use std::cmp::Ordering;
use vstd::prelude::*;

verus! {

/// The declared type of a message field.
#[derive(Debug, PartialEq, Eq)]
pub enum MavType {
    UInt8MavlinkVersion,
    UInt8,
    UInt16,
    UInt32,
    UInt64,
    Int8,
    Int16,
    Int32,
    Int64,
    Char,
    Float,
    Double,
    Array(Box<MavType>, usize),
}

/// The ordering of two widths when the wider one sorts first.
pub open spec fn descending(left: nat, right: nat) -> Ordering {
    if left > right {
        Ordering::Less
    } else if left == right {
        Ordering::Equal
    } else {
        Ordering::Greater
    }
}

impl Clone for MavType {
    fn clone(&self) -> (copy: MavType)
        ensures
            copy == *self,
    {
        self.duplicate()
    }
}

impl MavType {
    /// An array type whose element is not itself an array, or any scalar type.
    pub open spec fn well_formed(&self) -> bool {
        match self {
            MavType::Array(elem, _) => !(**elem is Array),
            _ => true,
        }
    }

    /// Number of bytes a value of this type occupies on the wire.
    pub open spec fn wire_len(&self) -> nat
        decreases self,
    {
        match self {
            MavType::UInt8MavlinkVersion | MavType::UInt8 | MavType::Int8 | MavType::Char => 1,
            MavType::UInt16 | MavType::Int16 => 2,
            MavType::UInt32 | MavType::Int32 | MavType::Float => 4,
            MavType::UInt64 | MavType::Int64 | MavType::Double => 8,
            MavType::Array(elem, count) => elem.wire_len() * (*count as nat),
        }
    }

    /// The width that decides a field's place in the canonical order: the
    /// width of one element for an array, the wire width otherwise.
    pub open spec fn order_width(&self) -> nat {
        match self {
            MavType::Array(elem, _) => elem.wire_len(),
            _ => self.wire_len(),
        }
    }

    /// The canonical name of the primitive family, as fed to the checksum.
    pub open spec fn primitive_name(&self) -> Seq<char>
        decreases self,
    {
        match self {
            MavType::UInt8MavlinkVersion | MavType::UInt8 => "uint8_t"@,
            MavType::Int8 => "int8_t"@,
            MavType::Char => "char"@,
            MavType::UInt16 => "uint16_t"@,
            MavType::Int16 => "int16_t"@,
            MavType::UInt32 => "uint32_t"@,
            MavType::Int32 => "int32_t"@,
            MavType::Float => "float"@,
            MavType::UInt64 => "uint64_t"@,
            MavType::Int64 => "int64_t"@,
            MavType::Double => "double"@,
            MavType::Array(elem, _) => elem.primitive_name(),
        }
    }

    /// The name of the interchange-schema scalar that carries this type.
    pub open spec fn proto_name(&self) -> Seq<char>
        decreases self,
    {
        match self {
            MavType::UInt8MavlinkVersion | MavType::Char | MavType::UInt8 | MavType::UInt16
            | MavType::UInt32 => "uint32"@,
            MavType::Int8 | MavType::Int16 | MavType::Int32 => "int32"@,
            MavType::Float => "float"@,
            MavType::UInt64 => "uint64"@,
            MavType::Int64 => "int64"@,
            MavType::Double => "double"@,
            MavType::Array(elem, _) => elem.proto_name(),
        }
    }

    /// The name of the host type of a value of this type: the type of
    /// exactly the wire width, in which the value is held, written and read;
    /// for an array a vector of the element's, with the count in a comment.
    pub open spec fn exact_name(&self) -> Seq<char>
        decreases self,
    {
        match self {
            MavType::UInt8 | MavType::UInt8MavlinkVersion | MavType::Char => "u8"@,
            MavType::Int8 => "i8"@,
            MavType::UInt16 => "u16"@,
            MavType::Int16 => "i16"@,
            MavType::UInt32 => "u32"@,
            MavType::Int32 => "i32"@,
            MavType::Float => "f32"@,
            MavType::UInt64 => "u64"@,
            MavType::Int64 => "i64"@,
            MavType::Double => "f64"@,
            MavType::Array(elem, count) => "Vec<"@ + elem.exact_name() + "> /* "@
                + decimal_digits(*count as nat) + " */"@,
        }
    }

    /// A scalar's width is one of 1, 2, 4, 8.
    pub proof fn lemma_scalar_width(&self)
        requires
            !(self is Array),
        ensures
            self.wire_len() == 1 || self.wire_len() == 2 || self.wire_len() == 4
                || self.wire_len() == 8,
    {
    }

    /// The ordering width of a well-formed type is one of 1, 2, 4, 8.
    pub proof fn lemma_order_width(&self)
        requires
            self.well_formed(),
        ensures
            self.order_width() == 1 || self.order_width() == 2 || self.order_width() == 4
                || self.order_width() == 8,
    {
        match self {
            MavType::Array(elem, _) => {
                elem.lemma_scalar_width();
            },
            _ => {},
        }
    }

    /// An independent copy of this type.
    pub fn duplicate(&self) -> (copy: MavType)
        ensures
            copy == *self,
        decreases self,
    {
        match self {
            MavType::UInt8MavlinkVersion => MavType::UInt8MavlinkVersion,
            MavType::UInt8 => MavType::UInt8,
            MavType::UInt16 => MavType::UInt16,
            MavType::UInt32 => MavType::UInt32,
            MavType::UInt64 => MavType::UInt64,
            MavType::Int8 => MavType::Int8,
            MavType::Int16 => MavType::Int16,
            MavType::Int32 => MavType::Int32,
            MavType::Int64 => MavType::Int64,
            MavType::Char => MavType::Char,
            MavType::Float => MavType::Float,
            MavType::Double => MavType::Double,
            MavType::Array(elem, count) => MavType::Array(Box::new(elem.duplicate()), *count),
        }
    }

    /// Whether this type is well formed: a scalar, or an array of scalars.
    pub fn is_well_formed(&self) -> (r: bool)
        ensures
            r == self.well_formed(),
    {
        match self {
            MavType::Array(elem, _) => !elem.is_array(),
            _ => true,
        }
    }

    /// Whether this is an array type.
    pub fn is_array(&self) -> (r: bool)
        ensures
            r == (self is Array),
    {
        match self {
            MavType::Array(_, _) => true,
            _ => false,
        }
    }

    /// Size in bytes of a value of this type on the wire.
    pub fn len(&self) -> (n: usize)
        requires
            self.well_formed(),
            self.wire_len() <= usize::MAX,
        ensures
            n == self.wire_len(),
    {
        match self {
            MavType::UInt8MavlinkVersion | MavType::UInt8 | MavType::Int8 | MavType::Char => 1,
            MavType::UInt16 | MavType::Int16 => 2,
            MavType::UInt32 | MavType::Int32 | MavType::Float => 4,
            MavType::UInt64 | MavType::Int64 | MavType::Double => 8,
            MavType::Array(elem, count) => {
                let width: usize = elem.order_len();
                width * *count
            },
        }
    }

    /// The width used for ordering fields: 1, 2, 4 or 8.
    pub fn order_len(&self) -> (n: usize)
        requires
            self.well_formed(),
        ensures
            n == self.order_width(),
            n == 1 || n == 2 || n == 4 || n == 8,
    {
        match self {
            MavType::UInt8MavlinkVersion | MavType::UInt8 | MavType::Int8 | MavType::Char => 1,
            MavType::UInt16 | MavType::Int16 => 2,
            MavType::UInt32 | MavType::Int32 | MavType::Float => 4,
            MavType::UInt64 | MavType::Int64 | MavType::Double => 8,
            MavType::Array(elem, _) => match **elem {
                MavType::UInt8MavlinkVersion | MavType::UInt8 | MavType::Int8 | MavType::Char => 1,
                MavType::UInt16 | MavType::Int16 => 2,
                MavType::UInt32 | MavType::Int32 | MavType::Float => 4,
                MavType::UInt64 | MavType::Int64 | MavType::Double => 8,
                MavType::Array(_, _) => 1,
            },
        }
    }

    /// The primitive family's name, used for the checksum seed.
    pub fn primitive_type(&self) -> (name: String)
        ensures
            name@ == self.primitive_name(),
        decreases self,
    {
        match self {
            MavType::UInt8MavlinkVersion | MavType::UInt8 => "uint8_t".to_owned(),
            MavType::Int8 => "int8_t".to_owned(),
            MavType::Char => "char".to_owned(),
            MavType::UInt16 => "uint16_t".to_owned(),
            MavType::Int16 => "int16_t".to_owned(),
            MavType::UInt32 => "uint32_t".to_owned(),
            MavType::Int32 => "int32_t".to_owned(),
            MavType::Float => "float".to_owned(),
            MavType::UInt64 => "uint64_t".to_owned(),
            MavType::Int64 => "int64_t".to_owned(),
            MavType::Double => "double".to_owned(),
            MavType::Array(elem, _) => elem.primitive_type(),
        }
    }

    /// The interchange-schema scalar type that carries this type; for an
    /// array, that of its element.
    pub fn proto_type(&self) -> (name: String)
        requires
            self.well_formed(),
        ensures
            name@ == self.proto_name(),
        decreases self,
    {
        match self {
            MavType::Array(elem, _) => elem.proto_type(),
            MavType::UInt8MavlinkVersion | MavType::Char | MavType::UInt8 | MavType::UInt16
            | MavType::UInt32 => "uint32".to_owned(),
            MavType::Int8 | MavType::Int16 | MavType::Int32 => "int32".to_owned(),
            MavType::Float => "float".to_owned(),
            MavType::UInt64 => "uint64".to_owned(),
            MavType::Int64 => "int64".to_owned(),
            MavType::Double => "double".to_owned(),
        }
    }

    /// The host type that holds a value of this type: the exact-width type,
    /// the one in which the value is written and read.
    pub fn rust_type(&self) -> (name: String)
        ensures
            name@ == self.exact_name(),
    {
        self.rust_serde_type()
    }

    /// The exact-width type in which a value of this type is written and
    /// read.
    pub fn rust_serde_type(&self) -> (name: String)
        ensures
            name@ == self.exact_name(),
        decreases self,
    {
        match self {
            MavType::UInt8 | MavType::UInt8MavlinkVersion | MavType::Char => "u8".to_owned(),
            MavType::Int8 => "i8".to_owned(),
            MavType::UInt16 => "u16".to_owned(),
            MavType::Int16 => "i16".to_owned(),
            MavType::UInt32 => "u32".to_owned(),
            MavType::Int32 => "i32".to_owned(),
            MavType::Float => "f32".to_owned(),
            MavType::UInt64 => "u64".to_owned(),
            MavType::Int64 => "i64".to_owned(),
            MavType::Double => "f64".to_owned(),
            MavType::Array(elem, count) => {
                let mut name = "Vec<".to_owned();
                name.append(elem.rust_serde_type().as_str());
                name.append("> /* ");
                name.append(decimal_text(*count).as_str());
                name.append(" */");
                name
            },
        }
    }

    /// Orders two types for the canonical field order: the wider sorts first,
    /// equal widths compare equal.
    pub fn compare(&self, other: &Self) -> (r: Ordering)
        requires
            self.well_formed(),
            other.well_formed(),
        ensures
            r == descending(self.order_width(), other.order_width()),
    {
        let left: usize = self.order_len();
        let right: usize = other.order_len();
        if left > right {
            Ordering::Less
        } else if left == right {
            Ordering::Equal
        } else {
            Ordering::Greater
        }
    }
}

} // verus!
