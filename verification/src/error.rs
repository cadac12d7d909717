//! What can go wrong while a window's geometry is read from text.

use crate::field::{label_of, Field};
use crate::number::{kind_text, NumberErrorKind};
use vstd::prelude::*;
use vstd::string::StringExecFns;

verus! {

/// A required field that no line of the text gives.
#[derive(Clone, Copy, Debug, PartialEq, Eq, Structural)]
pub struct FieldError {
    /// The field that is missing.
    pub field: Field,
}

/// Why a window's geometry could not be read.
#[derive(Clone, Copy, Debug, PartialEq, Eq, Structural)]
pub enum ParseError {
    /// A line gives `field`, but what follows the label is not an `i64`.
    NumberFormat { field: Field, kind: NumberErrorKind },
    /// No line gives the field.
    MissingField(FieldError),
}

/// What is said of a missing `field`.
pub open spec fn missing_text(field: Field) -> Seq<char> {
    "lack of `"@ + label_of(field) + "' field"@
}

/// The message of an error, as it is shown to the user.
pub open spec fn error_text(error: ParseError) -> Seq<char> {
    match error {
        ParseError::NumberFormat { field, kind } => "invalid `"@ + label_of(field) + "' field: "@
            + kind_text(kind),
        ParseError::MissingField(e) => "FieldError: "@ + missing_text(e.field),
    }
}

impl FieldError {
    /// The error for a missing `field`.
    pub fn new(field: Field) -> (e: Self)
        ensures
            e == (FieldError { field }),
    {
        FieldError { field }
    }

    /// A short description: which field the text lacks.
    pub fn description(&self) -> (s: &'static str)
        ensures
            s@ == missing_text(self.field),
    {
        proof {
            reveal_strlit("lack of `");
            reveal_strlit("' field");
        }
        match self.field {
            Field::X => {
                proof {
                    reveal_strlit("Absolute upper-left X:");
                    reveal_strlit("lack of `Absolute upper-left X:' field");
                }
                let s = "lack of `Absolute upper-left X:' field";
                assert(s@ =~= missing_text(Field::X));
                s
            },
            Field::Y => {
                proof {
                    reveal_strlit("Absolute upper-left Y:");
                    reveal_strlit("lack of `Absolute upper-left Y:' field");
                }
                let s = "lack of `Absolute upper-left Y:' field";
                assert(s@ =~= missing_text(Field::Y));
                s
            },
            Field::Width => {
                proof {
                    reveal_strlit("Width:");
                    reveal_strlit("lack of `Width:' field");
                }
                let s = "lack of `Width:' field";
                assert(s@ =~= missing_text(Field::Width));
                s
            },
            Field::Height => {
                proof {
                    reveal_strlit("Height:");
                    reveal_strlit("lack of `Height:' field");
                }
                let s = "lack of `Height:' field";
                assert(s@ =~= missing_text(Field::Height));
                s
            },
        }
    }

    /// The message of this error: its kind, then its description.
    pub fn to_string(&self) -> (s: String)
        ensures
            s@ == error_text(ParseError::MissingField(*self)),
    {
        let mut s = String::from_str("FieldError: ");
        s.append(self.description());
        s
    }
}

impl ParseError {
    /// The field that the error is about.
    pub fn field(&self) -> (f: Field)
        ensures
            f == match *self {
                ParseError::NumberFormat { field, kind } => field,
                ParseError::MissingField(e) => e.field,
            },
    {
        match self {
            ParseError::NumberFormat { field, kind } => *field,
            ParseError::MissingField(e) => e.field,
        }
    }

    /// The message of this error.
    pub fn to_string(&self) -> (s: String)
        ensures
            s@ == error_text(*self),
    {
        match self {
            ParseError::NumberFormat { field, kind } => {
                let mut s = String::from_str("invalid `");
                s.append(field.label());
                s.append("' field: ");
                s.append(kind.description());
                s
            },
            ParseError::MissingField(e) => e.to_string(),
        }
    }
}

} // verus!
