//! Why a name could not be turned into records.

use crate::text::{contains, decimal_chars, decimal_text, occurs, to_chars};
use vstd::prelude::*;
use vstd::string::*;

verus! {

/// The stage at which a name failed.
#[derive(Debug, Clone, Copy, PartialEq, Eq, Structural)]
pub enum ErrorKind {
    MissingCode,
    MissingDescription,
    MissingDimensions,
    MissingMaterial,
    UnknownColor,
    UnknownMaterial,
}

/// A failure as contracts see it: its kind and the offending text.
pub struct Failure {
    pub kind: ErrorKind,
    pub fragment: Seq<char>,
}

/// A failure, with the text that caused it.
#[derive(Debug, Clone)]
pub enum ParseStickerError {
    MissingCode(String),
    MissingDescription(String),
    MissingDimensions(String),
    MissingMaterial(String),
    UnknownColor(String),
    UnknownMaterial(String),
}

impl View for ParseStickerError {
    type V = Failure;

    open spec fn view(&self) -> Failure {
        match self {
            ParseStickerError::MissingCode(s) => Failure {
                kind: ErrorKind::MissingCode,
                fragment: s@,
            },
            ParseStickerError::MissingDescription(s) => Failure {
                kind: ErrorKind::MissingDescription,
                fragment: s@,
            },
            ParseStickerError::MissingDimensions(s) => Failure {
                kind: ErrorKind::MissingDimensions,
                fragment: s@,
            },
            ParseStickerError::MissingMaterial(s) => Failure {
                kind: ErrorKind::MissingMaterial,
                fragment: s@,
            },
            ParseStickerError::UnknownColor(s) => Failure {
                kind: ErrorKind::UnknownColor,
                fragment: s@,
            },
            ParseStickerError::UnknownMaterial(s) => Failure {
                kind: ErrorKind::UnknownMaterial,
                fragment: s@,
            },
        }
    }
}

/// The failure of the given kind on the given text.
pub open spec fn failure(kind: ErrorKind, fragment: Seq<char>) -> Failure {
    Failure { kind, fragment }
}

impl ParseStickerError {
    /// The failure of the given kind on the given text.
    pub fn new(kind: ErrorKind, fragment: String) -> (e: ParseStickerError)
        ensures
            e@ == failure(kind, fragment@),
    {
        match kind {
            ErrorKind::MissingCode => ParseStickerError::MissingCode(fragment),
            ErrorKind::MissingDescription => ParseStickerError::MissingDescription(fragment),
            ErrorKind::MissingDimensions => ParseStickerError::MissingDimensions(fragment),
            ErrorKind::MissingMaterial => ParseStickerError::MissingMaterial(fragment),
            ErrorKind::UnknownColor => ParseStickerError::UnknownColor(fragment),
            ErrorKind::UnknownMaterial => ParseStickerError::UnknownMaterial(fragment),
        }
    }

    /// The stage at which the name failed.
    pub fn kind(&self) -> (k: ErrorKind)
        ensures
            k == self@.kind,
    {
        match self {
            ParseStickerError::MissingCode(_) => ErrorKind::MissingCode,
            ParseStickerError::MissingDescription(_) => ErrorKind::MissingDescription,
            ParseStickerError::MissingDimensions(_) => ErrorKind::MissingDimensions,
            ParseStickerError::MissingMaterial(_) => ErrorKind::MissingMaterial,
            ParseStickerError::UnknownColor(_) => ErrorKind::UnknownColor,
            ParseStickerError::UnknownMaterial(_) => ErrorKind::UnknownMaterial,
        }
    }

    /// The text that caused the failure.
    pub fn get_description(&self) -> (s: String)
        ensures
            s@ == self@.fragment,
    {
        match self {
            ParseStickerError::MissingCode(s) => s.clone(),
            ParseStickerError::MissingDescription(s) => s.clone(),
            ParseStickerError::MissingDimensions(s) => s.clone(),
            ParseStickerError::MissingMaterial(s) => s.clone(),
            ParseStickerError::UnknownColor(s) => s.clone(),
            ParseStickerError::UnknownMaterial(s) => s.clone(),
        }
    }

    /// An equal failure.
    pub fn duplicate(&self) -> (e: ParseStickerError)
        ensures
            e@ == self@,
    {
        ParseStickerError::new(self.kind(), self.get_description())
    }

    /// The failure in one line: the name of its kind, ` in: ` and the text.
    pub fn detail(&self) -> (s: String)
        ensures
            s@ == kind_label(self@.kind) + " in: "@ + self@.fragment,
    {
        self.summary().concat(" in: ").concat(self.get_description().as_str())
    }

    /// Whether the text of the failure holds the digits of `code`.
    pub fn mentions_code(&self, code: u64) -> (b: bool)
        ensures
            b == occurs(self@.fragment, decimal_text(code as nat)),
    {
        let text = self.get_description();
        contains(&to_chars(text.as_str()), &decimal_chars(code))
    }

    /// A short name of the failure's kind.
    pub fn summary(&self) -> (s: String)
        ensures
            s@ == kind_label(self@.kind),
    {
        match self {
            ParseStickerError::MissingCode(_) => "Missing sticker code".to_owned(),
            ParseStickerError::MissingDescription(_) => "Missing description".to_owned(),
            ParseStickerError::MissingDimensions(_) => "Missing dimensions".to_owned(),
            ParseStickerError::MissingMaterial(_) => "Missing material".to_owned(),
            ParseStickerError::UnknownColor(_) => "Unknown color".to_owned(),
            ParseStickerError::UnknownMaterial(_) => "Unknown material".to_owned(),
        }
    }
}

/// The short name of a kind of failure.
pub open spec fn kind_label(kind: ErrorKind) -> Seq<char> {
    match kind {
        ErrorKind::MissingCode => "Missing sticker code"@,
        ErrorKind::MissingDescription => "Missing description"@,
        ErrorKind::MissingDimensions => "Missing dimensions"@,
        ErrorKind::MissingMaterial => "Missing material"@,
        ErrorKind::UnknownColor => "Unknown color"@,
        ErrorKind::UnknownMaterial => "Unknown material"@,
    }
}

} // verus!
