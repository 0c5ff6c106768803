//! The four memory categories and their textual form.

use vstd::prelude::*;

use crate::bindings::{lowercase, to_lowercase};
use crate::text::{
    ascii_lower_text, chars_eq, chars_of, is_ascii_text, string_of, trim, trim_chars,
};

verus! {

/// Memory type categories.
#[derive(Debug, Clone, Copy, PartialEq, Eq, Structural)]
pub enum MemoryType {
    User,
    Feedback,
    Project,
    Reference,
}

/// The lowercase word that names a memory type.
pub open spec fn kind_word(t: MemoryType) -> Seq<char> {
    match t {
        MemoryType::User => "user"@,
        MemoryType::Feedback => "feedback"@,
        MemoryType::Project => "project"@,
        MemoryType::Reference => "reference"@,
    }
}

/// The type that a normalized (trimmed, lowercased) word names, or the error
/// message for a word that names none.
pub open spec fn classify(word: Seq<char>) -> Result<MemoryType, Seq<char>> {
    if word == "user"@ {
        Ok(MemoryType::User)
    } else if word == "feedback"@ {
        Ok(MemoryType::Feedback)
    } else if word == "project"@ {
        Ok(MemoryType::Project)
    } else if word == "reference"@ {
        Ok(MemoryType::Reference)
    } else {
        Err("unknown memory type: "@ + word)
    }
}

/// The lowercase of a text, as `str::to_lowercase` gives it: ASCII lowercase
/// for an all-ASCII text, the Unicode mapping (named `lowercase`) otherwise.
pub open spec fn lower_text(s: Seq<char>) -> Seq<char> {
    if is_ascii_text(s) {
        ascii_lower_text(s)
    } else {
        lowercase(s)
    }
}

/// What `MemoryType::from_str` gives for `s`: the input is trimmed, then
/// lowercased, then classified.
pub open spec fn parse_type(s: Seq<char>) -> Result<MemoryType, Seq<char>> {
    classify(lower_text(trim(s)))
}

/// The view of a parse result: the error as its characters.
pub open spec fn type_result_view(r: Result<MemoryType, String>) -> Result<MemoryType, Seq<char>> {
    match r {
        Ok(t) => Ok(t),
        Err(e) => Err(e@),
    }
}

impl MemoryType {
    /// The lowercase name of the type (`user`, `feedback`, `project`, `reference`).
    pub fn to_string(&self) -> (r: String)
        ensures
            r@ == kind_word(*self),
    {
        match self {
            MemoryType::User => "user".to_owned(),
            MemoryType::Feedback => "feedback".to_owned(),
            MemoryType::Project => "project".to_owned(),
            MemoryType::Reference => "reference".to_owned(),
        }
    }

    /// Classifies a word that is already trimmed and lowercased: exactly the
    /// four type names are accepted, anything else is an
    /// `unknown memory type: <word>` error.
    pub fn from_normalized(word: &str) -> (r: Result<MemoryType, String>)
        ensures
            type_result_view(r) == classify(word@),
    {
        let w = chars_of(word);
        if chars_eq(&w, &chars_of("user")) {
            Ok(MemoryType::User)
        } else if chars_eq(&w, &chars_of("feedback")) {
            Ok(MemoryType::Feedback)
        } else if chars_eq(&w, &chars_of("project")) {
            Ok(MemoryType::Project)
        } else if chars_eq(&w, &chars_of("reference")) {
            Ok(MemoryType::Reference)
        } else {
            let mut msg = "unknown memory type: ".to_owned();
            msg.append(word);
            Err(msg)
        }
    }

    /// Parses a memory type, ignoring surrounding whitespace and letter case.
    pub fn from_str(s: &str) -> (r: Result<MemoryType, String>)
        ensures
            type_result_view(r) == parse_type(s@),
    {
        let trimmed = string_of(&trim_chars(&chars_of(s)));
        let lowered = to_lowercase(trimmed.as_str());
        MemoryType::from_normalized(lowered.as_str())
    }
}

impl std::str::FromStr for MemoryType {
    type Err = String;

    /// Parses a memory type as `MemoryType::from_str` does.
    fn from_str(s: &str) -> (r: Result<MemoryType, String>)
        ensures
            type_result_view(r) == parse_type(s@),
    {
        MemoryType::from_str(s)
    }
}

} // verus!
