//! The syntax of a name: a key of this shape is written without brackets.
//!
//! The syntax is held as a regular expression, and the `regex` crate tests
//! a text against it.

use vstd::prelude::*;
use regex::Regex;

verus! {

/// An ASCII letter or an underscore.
pub open spec fn is_name_start(c: char) -> bool {
    ('a' <= c && c <= 'z') || ('A' <= c && c <= 'Z') || c == '_'
}

/// An ASCII letter, an ASCII digit or an underscore.
pub open spec fn is_name_part(c: char) -> bool {
    is_name_start(c) || ('0' <= c && c <= '9')
}

/// Whether `text` is a name: a letter or an underscore, then any number of
/// letters, digits and underscores.
pub open spec fn is_name(text: Seq<char>) -> bool {
    &&& text.len() > 0
    &&& is_name_start(text[0])
    &&& forall|i: int| 1 <= i < text.len() ==> is_name_part(#[trigger] text[i])
}

/// The regular expression that stands for [`is_name`].
pub open spec fn name_pattern() -> Seq<char> {
    "^[a-zA-Z_][a-zA-Z0-9_]*$"@
}

/// A compiled regular expression of the `regex` crate.
#[verifier::external_type_specification]
#[verifier::external_body]
pub struct ExRegex(Regex);

/// Whether `re` matches somewhere in `text`: what
/// `regex::Regex::is_match` gives.
pub uninterp spec fn regex_matches(re: Regex, text: Seq<char>) -> bool;

/// The regular expression that `pattern` describes, compiled with the
/// settings that the crate starts from; `None` where it describes none.
///
/// Calls `regex::Regex::new`. Not proved: that the crate takes
/// [`name_pattern`], and that what it compiles from it matches a text
/// exactly where the text is a name. With the settings that `new` starts
/// from, `^` and `$` in that pattern stand for the two ends of the text,
/// each class for the ASCII characters that it lists, and `*` for any
/// number of them.
#[verifier::external_body]
fn regex_new(pattern: &str) -> (compiled: Option<Regex>)
    ensures
        pattern@ == name_pattern() ==> compiled is Some,
        pattern@ == name_pattern() ==> (compiled matches Some(re) ==> forall|text: Seq<char>|
            #[trigger] regex_matches(re, text) == is_name(text)),
{
    match Regex::new(pattern) {
        Ok(re) => Some(re),
        Err(_) => None,
    }
}

/// Whether `re` matches somewhere in `text`.
///
/// Calls `regex::Regex::is_match`. Not proved: that the answer depends on
/// the regular expression and the text alone.
#[verifier::external_body]
fn regex_is_match(re: &Regex, text: &str) -> (found: bool)
    ensures
        found == regex_matches(*re, text@),
{
    re.is_match(text)
}

/// The test for names, ready for use.
pub struct NameTest {
    re: Regex,
}

impl NameTest {
    /// The regular expression matches exactly the names.
    #[verifier::type_invariant]
    spec fn matches_names(self) -> bool {
        forall|text: Seq<char>| #[trigger] regex_matches(self.re, text) == is_name(text)
    }

    /// Compiles the test from [`name_pattern`]: it accepts exactly the
    /// names.
    pub fn new() -> (test: NameTest)
        ensures
            forall|text: Seq<char>| #[trigger] test.accepts(text) == is_name(text),
    {
        match regex_new("^[a-zA-Z_][a-zA-Z0-9_]*$") {
            Some(re) => NameTest { re },
            None => unreached(),
        }
    }

    /// Whether the regular expression of the test matches in `text`.
    pub closed spec fn accepts(self, text: Seq<char>) -> bool {
        regex_matches(self.re, text)
    }

    /// Whether `text` is a name.
    pub fn is_name(&self, text: &str) -> (name: bool)
        ensures
            name == is_name(text@),
            name == self.accepts(text@),
    {
        proof {
            use_type_invariant(self);
        }
        regex_is_match(&self.re, text)
    }
}

/// Whether `text` is a name.
pub fn is_name_text(text: &str) -> (name: bool)
    ensures
        name == is_name(text@),
{
    NameTest::new().is_name(text)
}

} // verus!
