//! The schema: which dotted keys a configuration must hold, and the scalar type of each.

use crate::error::{Failure, SysctlError};
use crate::scalar::{
    equals_str, is_bool, is_bool_text, is_float, is_float_text, is_int, is_int_text,
};
use crate::text::chars_of;
use vstd::prelude::*;

verus! {

/// The scalar types that a schema can ask of a leaf.
#[derive(Clone, Copy, Debug, PartialEq, Eq, Structural)]
pub enum SysctlConfigType {
    Int,
    Float,
    String,
    Bool,
}

/// One declaration of a schema, as a mathematical value.
pub struct SchemaEntry {
    pub key: Seq<char>,
    pub typ: SysctlConfigType,
}

/// One declaration of a schema: a dotted key and the type of its leaf.
#[derive(Debug)]
pub struct SysctlConfigSchema {
    key: String,
    typ: SysctlConfigType,
}

/// The name that a schema gives the type `typ`.
pub open spec fn name_of_type(typ: SysctlConfigType) -> Seq<char> {
    match typ {
        SysctlConfigType::Int => "int"@,
        SysctlConfigType::Float => "float"@,
        SysctlConfigType::String => "string"@,
        SysctlConfigType::Bool => "bool"@,
    }
}

/// The type that a schema calls `name`, if it is one of the four names.
pub open spec fn type_named(name: Seq<char>) -> Option<SysctlConfigType> {
    if name == "int"@ {
        Some(SysctlConfigType::Int)
    } else if name == "float"@ {
        Some(SysctlConfigType::Float)
    } else if name == "string"@ {
        Some(SysctlConfigType::String)
    } else if name == "bool"@ {
        Some(SysctlConfigType::Bool)
    } else {
        None
    }
}

/// Whether the leaf `value` spells a value of the type `typ`. Every leaf is a string.
pub open spec fn conforms(value: Seq<char>, typ: SysctlConfigType) -> bool {
    match typ {
        SysctlConfigType::Int => is_int_text(value),
        SysctlConfigType::Float => is_float_text(value),
        SysctlConfigType::String => true,
        SysctlConfigType::Bool => is_bool_text(value),
    }
}

/// Each type is the one that its own name names.
pub proof fn lemma_type_named_its_name(typ: SysctlConfigType)
    ensures
        type_named(name_of_type(typ)) == Some(typ),
{
    reveal_strlit("int");
    reveal_strlit("float");
    reveal_strlit("string");
    reveal_strlit("bool");
    assert("int"@.len() == 3 && "float"@.len() == 5 && "string"@.len() == 6 && "bool"@.len() == 4);
}

impl SysctlConfigType {
    /// The type that the schema name `s` stands for. The names are `int`, `float`, `string`
    /// and `bool`, in lower case; any other name is refused.
    pub fn from_string(s: &str) -> (r: Result<Self, SysctlError>)
        ensures
            match type_named(s@) {
                Some(typ) => r == Ok::<Self, SysctlError>(typ),
                None => r is Err && r->Err_0@ == Failure::UnknownType(s@),
            },
    {
        let chars = chars_of(s);
        if equals_str(chars.as_slice(), "int") {
            Ok(SysctlConfigType::Int)
        } else if equals_str(chars.as_slice(), "float") {
            Ok(SysctlConfigType::Float)
        } else if equals_str(chars.as_slice(), "string") {
            Ok(SysctlConfigType::String)
        } else if equals_str(chars.as_slice(), "bool") {
            Ok(SysctlConfigType::Bool)
        } else {
            Err(SysctlError::UnknownType(s.to_owned()))
        }
    }

    /// Tells whether the leaf `value` spells a value of this type.
    pub fn accepts(&self, value: &str) -> (ok: bool)
        ensures
            ok == conforms(value@, *self),
    {
        match self {
            SysctlConfigType::Int => is_int(chars_of(value).as_slice()),
            SysctlConfigType::Float => is_float(chars_of(value).as_slice()),
            SysctlConfigType::String => true,
            SysctlConfigType::Bool => is_bool(chars_of(value).as_slice()),
        }
    }

    /// The name of the type, as a schema writes it.
    pub fn name(&self) -> (name: &'static str)
        ensures
            name@ == name_of_type(*self),
    {
        match self {
            SysctlConfigType::Int => "int",
            SysctlConfigType::Float => "float",
            SysctlConfigType::String => "string",
            SysctlConfigType::Bool => "bool",
        }
    }
}

impl View for SysctlConfigSchema {
    type V = SchemaEntry;

    /// The declared key and type.
    closed spec fn view(&self) -> SchemaEntry {
        SchemaEntry { key: self.key@, typ: self.typ }
    }
}

impl SysctlConfigSchema {
    /// The declaration of `key` with the type that `typ` names.
    pub fn new(key: String, typ: String) -> (r: Result<Self, SysctlError>)
        ensures
            match type_named(typ@) {
                Some(named) => r is Ok && r->Ok_0@ == (SchemaEntry { key: key@, typ: named }),
                None => r is Err && r->Err_0@ == Failure::UnknownType(typ@),
            },
    {
        match SysctlConfigType::from_string(typ.as_str()) {
            Ok(typ) => Ok(SysctlConfigSchema { key, typ }),
            Err(e) => Err(e),
        }
    }

    /// The dotted key that is declared.
    pub fn key(&self) -> (key: &String)
        ensures
            key@ == self@.key,
    {
        &self.key
    }

    /// The type that is declared for the key.
    pub fn typ(&self) -> (typ: SysctlConfigType)
        ensures
            typ == self@.typ,
    {
        self.typ
    }
}

/// The models of the declarations of `schema`, in order.
pub open spec fn schema_view(schema: Seq<SysctlConfigSchema>) -> Seq<SchemaEntry> {
    Seq::new(schema.len(), |i: int| schema[i]@)
}

} // verus!
