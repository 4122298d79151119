//! Lexemes: the pieces a markup fragment is cut into before a tree is built.

use vstd::prelude::*;

verus! {

/// What a token is, with its text as a sequence of characters.
pub ghost enum Lexeme {
    /// A run of text between tags.
    Text(Seq<char>),
    /// The name of a tag that may take content: `<name>` or `<name ...>`.
    OpenTag(Seq<char>),
    /// The name written in a closing tag: `</name>`.
    CloseTag(Seq<char>),
    /// The name of a tag that takes no content: `<name/>` or `<name ... />`.
    SelfCloseTag(Seq<char>),
    /// The name of an attribute.
    AttributeKey(Seq<char>),
    /// A quoted attribute value, without its quotes.
    AttributeValue(Seq<char>),
}

impl Lexeme {
    /// The characters read into the lexeme so far.
    pub open spec fn text(self) -> Seq<char> {
        match self {
            Lexeme::Text(s)
            | Lexeme::OpenTag(s)
            | Lexeme::CloseTag(s)
            | Lexeme::SelfCloseTag(s)
            | Lexeme::AttributeKey(s)
            | Lexeme::AttributeValue(s) => s,
        }
    }

    /// The same kind of lexeme, one character longer.
    pub open spec fn grown(self, c: char) -> Lexeme {
        match self {
            Lexeme::Text(s) => Lexeme::Text(s.push(c)),
            Lexeme::OpenTag(s) => Lexeme::OpenTag(s.push(c)),
            Lexeme::CloseTag(s) => Lexeme::CloseTag(s.push(c)),
            Lexeme::SelfCloseTag(s) => Lexeme::SelfCloseTag(s.push(c)),
            Lexeme::AttributeKey(s) => Lexeme::AttributeKey(s.push(c)),
            Lexeme::AttributeValue(s) => Lexeme::AttributeValue(s.push(c)),
        }
    }

    /// An opening tag turned into a self-closing one of the same name; any
    /// other lexeme as it is.
    pub open spec fn self_closed(self) -> Lexeme {
        match self {
            Lexeme::OpenTag(s) => Lexeme::SelfCloseTag(s),
            other => other,
        }
    }
}

/// A token of the markup, owning its text.
#[derive(PartialEq, Debug)]
pub enum Tokens {
    /// A run of text between tags.
    Text(String),
    /// The name of a tag that may take content.
    OpenTag(String),
    /// The name written in a closing tag.
    CloseTag(String),
    /// The name of a tag that takes no content.
    SelfCloseTag(String),
    /// The name of an attribute.
    AttributeKey(String),
    /// The value of the attribute named just before.
    AttributeValue(String),
}

impl DeepView for Tokens {
    type V = Lexeme;

    open spec fn deep_view(&self) -> Lexeme {
        match *self {
            Tokens::Text(s) => Lexeme::Text(s@),
            Tokens::OpenTag(s) => Lexeme::OpenTag(s@),
            Tokens::CloseTag(s) => Lexeme::CloseTag(s@),
            Tokens::SelfCloseTag(s) => Lexeme::SelfCloseTag(s@),
            Tokens::AttributeKey(s) => Lexeme::AttributeKey(s@),
            Tokens::AttributeValue(s) => Lexeme::AttributeValue(s@),
        }
    }
}

impl View for Tokens {
    type V = Lexeme;

    open spec fn view(&self) -> Lexeme {
        self.deep_view()
    }
}

/// Calls `String::push` of the standard library. Taken on trust, not
/// verified: afterwards the string holds the characters it held before,
/// followed by `c`.
#[verifier::external_body]
fn push_char(s: &mut String, c: char)
    ensures
        final(s)@ == old(s)@.push(c),
{
    s.push(c)
}

impl Tokens {
    /// Appends one character to the token's text.
    pub fn add(&mut self, c: char)
        ensures
            final(self)@ == old(self)@.grown(c),
    {
        match self {
            Tokens::Text(s) => push_char(s, c),
            Tokens::OpenTag(s) => push_char(s, c),
            Tokens::CloseTag(s) => push_char(s, c),
            Tokens::SelfCloseTag(s) => push_char(s, c),
            Tokens::AttributeKey(s) => push_char(s, c),
            Tokens::AttributeValue(s) => push_char(s, c),
        }
    }

    /// Turns an opening tag into a self-closing tag of the same name. Any
    /// other token is left as it is.
    pub fn convert_to_self_close_tag(&mut self)
        ensures
            final(self)@ == old(self)@.self_closed(),
    {
        if let Tokens::OpenTag(tag) = &*self {
            *self = Tokens::SelfCloseTag(tag.clone());
        }
    }
}

} // verus!
