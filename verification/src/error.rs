//! What can go wrong while a configuration or a schema is read or validated.

use crate::schema::{name_of_type, SysctlConfigType};
use crate::text::views;
use vstd::prelude::*;
use vstd::string::StringExecFns;

verus! {

/// A failure, as a mathematical value.
pub enum Failure {
    /// A line without its delimiter, or with an empty key, an empty value or white space in
    /// its key.
    MalformedLine(Seq<char>),
    /// A key that asks a leaf to be a subtree or a subtree to be a leaf.
    ConflictingPath(Seq<char>),
    /// A type name that is none of the four.
    UnknownType(Seq<char>),
    /// Leaves of the configuration that the schema does not declare.
    SurplusKeys(Set<Seq<char>>),
    /// A declared key at which the configuration holds nothing.
    MissingKey(Seq<char>),
    /// A declared key at which the configuration holds a subtree (no `value`), or a leaf
    /// that does not spell a value of the declared type.
    TypeMismatch { key: Seq<char>, value: Option<Seq<char>>, expected: SysctlConfigType },
}

/// A failure to read or to validate.
#[derive(Debug, PartialEq, Eq)]
pub enum SysctlError {
    /// The line that could not be read.
    MalformedLine(String),
    /// The dotted key that runs through a leaf or names a subtree.
    ConflictingPath(String),
    /// The type name that is none of the four.
    UnknownType(String),
    /// The dotted keys of the leaves that the schema does not declare, each once.
    SurplusKeys(Vec<String>),
    /// The declared key at which the configuration holds nothing.
    MissingKey(String),
    /// The declared key, the leaf found there (none where a subtree stands there), and the
    /// declared type.
    TypeMismatch { key: String, value: Option<String>, expected: SysctlConfigType },
}

/// The view of an optional string.
pub open spec fn option_view(s: Option<String>) -> Option<Seq<char>> {
    match s {
        Some(s) => Some(s@),
        None => None,
    }
}

impl View for SysctlError {
    type V = Failure;

    /// The failure as a mathematical value: strings by their characters, the surplus keys
    /// as a set.
    open spec fn view(&self) -> Failure {
        match *self {
            SysctlError::MalformedLine(line) => Failure::MalformedLine(line@),
            SysctlError::ConflictingPath(key) => Failure::ConflictingPath(key@),
            SysctlError::UnknownType(name) => Failure::UnknownType(name@),
            SysctlError::SurplusKeys(keys) => Failure::SurplusKeys(views(keys@).to_set()),
            SysctlError::MissingKey(key) => Failure::MissingKey(key@),
            SysctlError::TypeMismatch { key, value, expected } => Failure::TypeMismatch {
                key: key@,
                value: option_view(value),
                expected,
            },
        }
    }
}

/// The strings of `keys`, separated by a comma and a space.
pub open spec fn listed(keys: Seq<Seq<char>>) -> Seq<char>
    decreases keys.len(),
{
    if keys.len() == 0 {
        Seq::empty()
    } else if keys.len() == 1 {
        keys[0]
    } else {
        listed(keys.drop_last()) + ", "@ + keys.last()
    }
}

/// The text that describes the failure `e`.
pub open spec fn message_text(e: SysctlError) -> Seq<char> {
    match e {
        SysctlError::MalformedLine(line) => "invalid line: "@ + line@,
        SysctlError::ConflictingPath(key) => "conflicting path: key="@ + key@,
        SysctlError::UnknownType(name) => "unknown type: "@ + name@,
        SysctlError::SurplusKeys(keys) => "surplus keys: "@ + listed(views(keys@)),
        SysctlError::MissingKey(key) => "key not found: key="@ + key@,
        SysctlError::TypeMismatch { key, value: Some(value), expected } => "invalid value: key="@
            + key@ + ", value="@ + value@ + ", type="@ + name_of_type(expected),
        SysctlError::TypeMismatch { key, value: None, expected } => "invalid value: key="@ + key@
            + ", type="@ + name_of_type(expected),
    }
}

impl SysctlError {
    /// A text that describes the failure.
    pub fn message(&self) -> (text: String)
        ensures
            text@ == message_text(*self),
    {
        match self {
            SysctlError::MalformedLine(line) => String::from_str("invalid line: ").concat(
                line.as_str(),
            ),
            SysctlError::ConflictingPath(key) => String::from_str("conflicting path: key=").concat(
                key.as_str(),
            ),
            SysctlError::UnknownType(name) => String::from_str("unknown type: ").concat(
                name.as_str(),
            ),
            SysctlError::SurplusKeys(keys) => {
                let mut text = String::from_str("surplus keys: ");
                let mut i: usize = 0;
                while i < keys.len()
                    invariant
                        i <= keys.len(),
                        text@ == "surplus keys: "@ + listed(views(keys@).take(i as int)),
                    decreases keys.len() - i,
                {
                    assert(views(keys@).take(i + 1).drop_last() == views(keys@).take(i as int));
                    if i > 0 {
                        text.append(", ");
                    }
                    text.append(keys[i].as_str());
                    i += 1;
                }
                assert(views(keys@).take(i as int) == views(keys@));
                text
            },
            SysctlError::MissingKey(key) => String::from_str("key not found: key=").concat(
                key.as_str(),
            ),
            SysctlError::TypeMismatch { key, value: Some(value), expected } => String::from_str(
                "invalid value: key=",
            ).concat(key.as_str()).concat(", value=").concat(value.as_str()).concat(
                ", type=",
            ).concat(expected.name()),
            SysctlError::TypeMismatch { key, value: None, expected } => String::from_str(
                "invalid value: key=",
            ).concat(key.as_str()).concat(", type=").concat(expected.name()),
        }
    }
}

} // verus!
