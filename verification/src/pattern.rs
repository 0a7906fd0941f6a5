//! Patterns that names are matched against.
use crate::path::bytes_copy;
use regex::Regex;
use vstd::prelude::*;

verus! {

/// Declares `regex::Regex`.
#[verifier::external_type_specification]
#[verifier::external_body]
pub struct ExRegex(Regex);

/// A regular expression. Its view is its text.
pub struct Pattern {
    regex: Regex,
    text: Ghost<Seq<char>>,
}

impl View for Pattern {
    type V = Seq<char>;

    closed spec fn view(&self) -> Seq<char> {
        self.text@
    }
}

/// `String::from_utf8`: the text that the bytes encode, if they encode one.
#[verifier::external_body]
pub(crate) fn string_from_utf8(bytes: Vec<u8>) -> (r: Option<String>)
    ensures
        match r {
            Some(s) => vstd::utf8::valid_utf8(bytes@) && s@ == vstd::utf8::decode_utf8(bytes@),
            None => !vstd::utf8::valid_utf8(bytes@),
        },
{
    String::from_utf8(bytes).ok()
}

/// Whether `Regex::new` takes the text for a regular expression.
pub uninterp spec fn regex_compiles(text: Seq<char>) -> bool;

/// Whether `Regex::is_match` finds a match of the regular expression in the name.
pub uninterp spec fn regex_matches(text: Seq<char>, name: Seq<char>) -> bool;

/// Whether the regular expression matches somewhere in the text that the name encodes. A name
/// that encodes none is not matched.
pub open spec fn name_matches(text: Seq<char>, name: Seq<u8>) -> bool {
    vstd::utf8::valid_utf8(name) && regex_matches(text, vstd::utf8::decode_utf8(name))
}

impl Pattern {
    /// `Regex::new`: the regular expression with the text, if it is one. Which texts are
    /// regular expressions is left to that function.
    #[verifier::external_body]
    fn compile(text: &str) -> (r: Option<Pattern>)
        ensures
            match r {
                Some(p) => regex_compiles(text@) && p@ == text@,
                None => !regex_compiles(text@),
            },
    {
        Regex::new(text).ok().map(|regex| Pattern { regex, text: Ghost(text@) })
    }

    /// The pattern with the text, if it is a regular expression.
    pub fn new(text: &str) -> (r: Option<Pattern>)
        ensures
            match r {
                Some(p) => regex_compiles(text@) && p@ == text@,
                None => !regex_compiles(text@),
            },
    {
        Pattern::compile(text)
    }

    /// `Regex::is_match`: whether the regular expression matches somewhere in the name.
    #[verifier::external_body]
    pub(crate) fn is_match(&self, name: &str) -> (r: bool)
        ensures
            r == regex_matches(self@, name@),
    {
        self.regex.is_match(name)
    }

    /// Whether the regular expression matches somewhere in the text that the name encodes.
    pub fn matches_name(&self, name: &Vec<u8>) -> (r: bool)
        ensures
            r == name_matches(self@, name@),
    {
        match string_from_utf8(bytes_copy(name)) {
            Some(text) => self.is_match(text.as_str()),
            None => false,
        }
    }
}

} // verus!
