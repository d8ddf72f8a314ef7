//! Conventional Commit components.

use vstd::prelude::*;

verus! {

/// The type of separator between the footer token and value.
#[derive(Debug, Clone, Copy, Eq, PartialEq, Hash, Structural)]
#[non_exhaustive]
pub enum FooterSeparator {
    /// ": "
    ColonSpace,

    /// " #"
    SpacePound,
}

/// The text of a footer separator.
pub open spec fn spec_sep_text(k: FooterSeparator) -> Seq<char> {
    match k {
        FooterSeparator::ColonSpace => ": "@,
        FooterSeparator::SpacePound => " #"@,
    }
}

impl FooterSeparator {
    /// Access the `str` representation of the separator.
    pub fn as_str(self) -> (r: &'static str)
        ensures
            r@ == spec_sep_text(self),
    {
        match self {
            FooterSeparator::ColonSpace => ": ",
            FooterSeparator::SpacePound => " #",
        }
    }
}

/// A single footer.
///
/// A footer is similar to a Git trailer, with the exception of not
/// requiring whitespace before newlines. Its model is the triple of its
/// token, separator and value.
#[derive(Debug, Clone, PartialEq, Eq, Hash)]
pub struct Footer {
    token: String,
    sep: FooterSeparator,
    value: String,
}

impl View for Footer {
    type V = (Seq<char>, FooterSeparator, Seq<char>);

    closed spec fn view(&self) -> (Seq<char>, FooterSeparator, Seq<char>) {
        (self.token@, self.sep, self.value@)
    }
}

impl Footer {
    /// Piece together a footer.
    pub fn new(token: String, sep: FooterSeparator, value: String) -> (r: Self)
        ensures
            r@ == (token@, sep, value@),
    {
        Self { token, sep, value }
    }

    /// The token of the footer.
    pub fn token(&self) -> (r: &str)
        ensures
            r@ == self@.0,
    {
        self.token.as_str()
    }

    /// The separator between the footer token and its value.
    pub fn separator(&self) -> (r: FooterSeparator)
        ensures
            r == self@.1,
    {
        self.sep
    }

    /// The value of the footer.
    pub fn value(&self) -> (r: &str)
        ensures
            r@ == self@.2,
    {
        self.value.as_str()
    }
}

/// The "simple footer" variant, for convenient access to the string
/// representations of a footer's components. Its model is the triple of
/// the three strings.
#[derive(Debug, Clone, PartialEq, Eq, Hash)]
pub struct SimpleFooter {
    token: String,
    separator: String,
    value: String,
}

impl View for SimpleFooter {
    type V = (Seq<char>, Seq<char>, Seq<char>);

    closed spec fn view(&self) -> (Seq<char>, Seq<char>, Seq<char>) {
        (self.token@, self.separator@, self.value@)
    }
}

impl SimpleFooter {
    /// Piece together a simple footer from its string parts.
    pub fn new(token: String, separator: String, value: String) -> (r: Self)
        ensures
            r@ == (token@, separator@, value@),
    {
        Self { token, separator, value }
    }

    /// The token of the footer.
    pub fn token(&self) -> (r: &str)
        ensures
            r@ == self@.0,
    {
        self.token.as_str()
    }

    /// The separator between the footer token and its value.
    pub fn separator(&self) -> (r: &str)
        ensures
            r@ == self@.1,
    {
        self.separator.as_str()
    }

    /// The value of the footer.
    pub fn value(&self) -> (r: &str)
        ensures
            r@ == self@.2,
    {
        self.value.as_str()
    }
}

} // verus!
