//! Errors of the two analysis stages.

use vstd::prelude::*;
use vstd::string::*;
use crate::key::{Key, KeyModel};
use crate::text::TextRange;

verus! {

/// An error found while turning text into the syntax tree.
#[derive(Debug, PartialEq, Eq)]
pub struct SyntaxError {
    pub range: TextRange,
    pub message: String,
}

/// What a syntax error is, as plain values.
pub struct SyntaxErrorModel {
    pub range: TextRange,
    pub message: Seq<char>,
}

impl View for SyntaxError {
    type V = SyntaxErrorModel;

    open spec fn view(&self) -> SyntaxErrorModel {
        SyntaxErrorModel { range: self.range, message: self.message@ }
    }
}

impl Clone for SyntaxError {
    fn clone(&self) -> (r: SyntaxError)
        ensures
            r == *self,
    {
        SyntaxError { range: self.range, message: self.message.clone() }
    }
}

/// The models of a run of syntax errors.
pub open spec fn syntax_error_models(s: Seq<SyntaxError>) -> Seq<SyntaxErrorModel> {
    Seq::new(s.len(), |i: int| s[i]@)
}

/// A violation of the rules for tables and keys, found while building the
/// document model.
#[derive(Debug)]
pub enum Error {
    /// The same key is declared twice in one table.
    DuplicateKey { first: Key, second: Key },
    /// `key` needs `target` to be a table, and it is something else.
    ExpectedTable { target: Key, key: Key },
    /// An array and an array of tables are declared under one key.
    ExpectedTableArray { target: Key, key: Key },
    /// `key` reaches into the inline table, or the value, that `target` holds.
    InlineTable { target: Key, key: Key },
    /// A free-form error at one place.
    Spanned { range: TextRange, message: String },
    /// A free-form error without a place.
    Generic(String),
}

/// What an error is, as plain values.
pub enum ErrorModel {
    DuplicateKey { first: KeyModel, second: KeyModel },
    ExpectedTable { target: KeyModel, key: KeyModel },
    ExpectedTableArray { target: KeyModel, key: KeyModel },
    InlineTable { target: KeyModel, key: KeyModel },
    Spanned { range: TextRange, message: Seq<char> },
    Generic(Seq<char>),
}

impl ErrorModel {
    /// The keys that the error names are well formed.
    pub open spec fn wf(self) -> bool {
        match self {
            ErrorModel::DuplicateKey { first, second } => first.wf() && second.wf(),
            ErrorModel::ExpectedTable { target, key } => target.wf() && key.wf(),
            ErrorModel::ExpectedTableArray { target, key } => target.wf() && key.wf(),
            ErrorModel::InlineTable { target, key } => target.wf() && key.wf(),
            ErrorModel::Spanned { .. } => true,
            ErrorModel::Generic(_) => true,
        }
    }

    /// Both ends of every place that the error names are offsets of a text
    /// of `len` bytes.
    pub open spec fn within(self, len: int) -> bool {
        match self {
            ErrorModel::DuplicateKey { first, second } => first.text_range().fits(len)
                && second.text_range().fits(len),
            ErrorModel::ExpectedTable { target, key } => target.text_range().fits(len)
                && key.text_range().fits(len),
            ErrorModel::ExpectedTableArray { target, key } => target.text_range().fits(len)
                && key.text_range().fits(len),
            ErrorModel::InlineTable { target, key } => target.text_range().fits(len)
                && key.text_range().fits(len),
            ErrorModel::Spanned { range, .. } => range.fits(len),
            ErrorModel::Generic(_) => true,
        }
    }

    /// Whether the error carries a place in the source.
    pub open spec fn located(self) -> bool {
        !(self is Generic)
    }
}

impl View for Error {
    type V = ErrorModel;

    open spec fn view(&self) -> ErrorModel {
        match self {
            Error::DuplicateKey { first, second } => ErrorModel::DuplicateKey {
                first: first@,
                second: second@,
            },
            Error::ExpectedTable { target, key } => ErrorModel::ExpectedTable {
                target: target@,
                key: key@,
            },
            Error::ExpectedTableArray { target, key } => ErrorModel::ExpectedTableArray {
                target: target@,
                key: key@,
            },
            Error::InlineTable { target, key } => ErrorModel::InlineTable {
                target: target@,
                key: key@,
            },
            Error::Spanned { range, message } => ErrorModel::Spanned {
                range: *range,
                message: message@,
            },
            Error::Generic(message) => ErrorModel::Generic(message@),
        }
    }
}

impl Clone for Error {
    fn clone(&self) -> (r: Error)
        ensures
            r@ == self@,
    {
        match self {
            Error::DuplicateKey { first, second } => Error::DuplicateKey {
                first: first.clone(),
                second: second.clone(),
            },
            Error::ExpectedTable { target, key } => Error::ExpectedTable {
                target: target.clone(),
                key: key.clone(),
            },
            Error::ExpectedTableArray { target, key } => Error::ExpectedTableArray {
                target: target.clone(),
                key: key.clone(),
            },
            Error::InlineTable { target, key } => Error::InlineTable {
                target: target.clone(),
                key: key.clone(),
            },
            Error::Spanned { range, message } => Error::Spanned {
                range: *range,
                message: message.clone(),
            },
            Error::Generic(message) => Error::Generic(message.clone()),
        }
    }
}

/// The models of a run of errors.
pub open spec fn error_models(s: Seq<Error>) -> Seq<ErrorModel> {
    Seq::new(s.len(), |i: int| s[i]@)
}

/// Appending an error appends its model.
pub proof fn lemma_error_models_push(s: Seq<Error>, e: Error)
    ensures
        error_models(s.push(e)) == error_models(s).push(e@),
{
    assert(error_models(s.push(e)) =~= error_models(s).push(e@));
}

} // verus!
