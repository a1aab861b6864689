//! Column definitions: the seven value kinds of the format and the
//! named, typed fields that make up a table's schema.

use crate::util::{bytes_eq, spec_is_ident};
use vstd::prelude::*;

verus! {

/// The seven kinds of value the format can hold.
#[derive(Clone, Copy, Debug, PartialEq, Eq, Structural)]
pub enum FieldType {
    Bool,
    Bytes,
    Date,
    DateTime,
    Int,
    Real,
    Str,
}

/// The canonical type name of a kind, as header bytes.
pub open spec fn spec_typename_bytes(k: FieldType) -> Seq<u8> {
    match k {
        FieldType::Bool => seq![98u8, 111u8, 111u8, 108u8],
        FieldType::Bytes => seq![98u8, 121u8, 116u8, 101u8, 115u8],
        FieldType::Date => seq![100u8, 97u8, 116u8, 101u8],
        FieldType::DateTime => seq![100u8, 97u8, 116u8, 101u8, 116u8, 105u8, 109u8, 101u8],
        FieldType::Int => seq![105u8, 110u8, 116u8],
        FieldType::Real => seq![114u8, 101u8, 97u8, 108u8],
        FieldType::Str => seq![115u8, 116u8, 114u8],
    }
}

/// The kind whose canonical name a byte string is, if any.
pub open spec fn spec_kind_of_name(s: Seq<u8>) -> Option<FieldType> {
    if s == spec_typename_bytes(FieldType::Bool) {
        Some(FieldType::Bool)
    } else if s == spec_typename_bytes(FieldType::Bytes) {
        Some(FieldType::Bytes)
    } else if s == spec_typename_bytes(FieldType::Date) {
        Some(FieldType::Date)
    } else if s == spec_typename_bytes(FieldType::DateTime) {
        Some(FieldType::DateTime)
    } else if s == spec_typename_bytes(FieldType::Int) {
        Some(FieldType::Int)
    } else if s == spec_typename_bytes(FieldType::Real) {
        Some(FieldType::Real)
    } else if s == spec_typename_bytes(FieldType::Str) {
        Some(FieldType::Str)
    } else {
        None
    }
}

impl FieldType {
    /// The canonical type name used in headers: one of `bool`, `bytes`,
    /// `date`, `datetime`, `int`, `real`, `str`.
    pub fn name_bytes(&self) -> (r: Vec<u8>)
        ensures
            r@ == spec_typename_bytes(*self),
    {
        let r: Vec<u8> = match self {
            FieldType::Bool => vec![98, 111, 111, 108],
            FieldType::Bytes => vec![98, 121, 116, 101, 115],
            FieldType::Date => vec![100, 97, 116, 101],
            FieldType::DateTime => vec![100, 97, 116, 101, 116, 105, 109, 101],
            FieldType::Int => vec![105, 110, 116],
            FieldType::Real => vec![114, 101, 97, 108],
            FieldType::Str => vec![115, 116, 114],
        };
        proof {
            assert(r@ =~= spec_typename_bytes(*self));
        }
        r
    }

    /// The kind whose canonical name is `s`, if there is one.
    pub fn from_name(s: &[u8]) -> (r: Option<FieldType>)
        ensures
            r == spec_kind_of_name(s@),
            match r {
                Some(k) => s@ == spec_typename_bytes(k),
                None => forall|k: FieldType| s@ != spec_typename_bytes(k),
            },
    {
        if bytes_eq(s, FieldType::Bool.name_bytes().as_slice()) {
            Some(FieldType::Bool)
        } else if bytes_eq(s, FieldType::Bytes.name_bytes().as_slice()) {
            Some(FieldType::Bytes)
        } else if bytes_eq(s, FieldType::Date.name_bytes().as_slice()) {
            Some(FieldType::Date)
        } else if bytes_eq(s, FieldType::DateTime.name_bytes().as_slice()) {
            Some(FieldType::DateTime)
        } else if bytes_eq(s, FieldType::Int.name_bytes().as_slice()) {
            Some(FieldType::Int)
        } else if bytes_eq(s, FieldType::Real.name_bytes().as_slice()) {
            Some(FieldType::Real)
        } else if bytes_eq(s, FieldType::Str.name_bytes().as_slice()) {
            Some(FieldType::Str)
        } else {
            None
        }
    }
}

/// One column of a table: a name and a declared kind.
#[derive(Clone, Debug)]
pub struct Field {
    pub name: Vec<u8>,
    pub kind: FieldType,
}

impl Field {
    /// The column's name.
    pub open spec fn spec_name(&self) -> Seq<u8> {
        self.name@
    }

    /// The column's declared kind.
    pub open spec fn spec_kind(&self) -> FieldType {
        self.kind
    }

    /// True when the name is a well-formed identifier.
    pub open spec fn wf(&self) -> bool {
        spec_is_ident(self.name@)
    }

    /// Builds a column from a name and a kind.
    pub fn new(name: Vec<u8>, kind: FieldType) -> (r: Field)
        ensures
            r == (Field { name, kind }),
            r.spec_name() == name@,
            r.spec_kind() == kind,
    {
        Field { name, kind }
    }

    /// The column's name.
    pub fn name(&self) -> (r: &Vec<u8>)
        ensures
            r@ == self.spec_name(),
    {
        &self.name
    }

    /// The column's declared kind.
    pub fn kind(&self) -> (r: FieldType)
        ensures
            r == self.spec_kind(),
    {
        self.kind
    }
}

} // verus!
