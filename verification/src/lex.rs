//! Cutting a fragment into tokens.
//!
//! The lexer reads the fragment from left to right, one character at a time,
//! and looks at most one character ahead. What a character means depends on
//! the lexeme that is being read when it arrives:
//!
//! | being read       | character        | effect                                         |
//! |------------------|------------------|------------------------------------------------|
//! | anything         | `<` at the end   | ignored                                        |
//! | anything         | `</`             | lexeme cut short; a closing tag name begins    |
//! | anything         | `<`, another     | lexeme cut short; an opening tag name begins   |
//! | opening tag name | `>`              | `OpenTag`; text begins                         |
//! | opening tag name | `/>`             | `SelfCloseTag`; text begins                    |
//! | opening tag name | white space      | `OpenTag`; its attribute list begins           |
//! | closing tag name | `>`              | `CloseTag`; text begins                        |
//! | attribute name   | `>`              | name dropped; text begins                      |
//! | attribute name   | `/>`             | name dropped; the tag becomes a `SelfCloseTag` |
//! | attribute name   | `=` or `"`       | skipped before the name; after it, a value     |
//! |                  |                  | for the name begins                            |
//! | attribute name   | white space      | skipped before the name, part of it after      |
//! | attribute value  | `=` or `"`       | skipped before the value; after it,            |
//! |                  |                  | `AttributeKey` and `AttributeValue`; the next  |
//! |                  |                  | attribute name begins                          |
//! | anything         | any other        | joins the lexeme being read                    |
//!
//! So text keeps every character but `<`, and a value keeps `>`, `/` and
//! white space.
//!
//! A run of text that is cut short is emitted if it is not empty. A tag name
//! that is cut short is dropped. An attribute list that is cut short leaves
//! its tag behind as a `SelfCloseTag`: a tag that was never closed with `>`
//! takes no content. At the end of the input the lexeme being read is cut
//! short as by a `<`, but for a closing tag name, which is emitted.
//!
//! An attribute name is emitted only together with its value. A name that
//! gets no value leaves no token, so no element of a parsed fragment has an
//! attribute without a value. An empty value is no value: after `k=""` the
//! value of `k` is still to come.

use crate::token::{Lexeme, Tokens};
use vstd::prelude::*;

verus! {

/// White space: the characters that have the Unicode property `White_Space`.
pub open spec fn is_space(c: char) -> bool {
    let code = c as u32;
    ||| 0x09 <= code <= 0x0D
    ||| code == 0x20
    ||| code == 0x85
    ||| code == 0xA0
    ||| code == 0x1680
    ||| 0x2000 <= code <= 0x200A
    ||| code == 0x2028
    ||| code == 0x2029
    ||| code == 0x202F
    ||| code == 0x205F
    ||| code == 0x3000
}

/// `=` and `"`, which stand before and after an attribute value.
pub open spec fn is_value_mark(c: char) -> bool {
    c == '=' || c == '"'
}

/// Where the last `OpenTag` stands among `out`, or -1 if there is none.
pub open spec fn last_open_tag(out: Seq<Lexeme>) -> int
    decreases out.len(),
{
    if out.len() == 0 {
        -1
    } else if out.last() is OpenTag {
        out.len() - 1
    } else {
        last_open_tag(out.drop_last())
    }
}

/// `out` with its last `OpenTag`, if it has one, turned into a `SelfCloseTag`.
pub open spec fn open_tag_closed(out: Seq<Lexeme>) -> Seq<Lexeme> {
    let at = last_open_tag(out);
    if 0 <= at < out.len() {
        out.update(at, out[at].self_closed())
    } else {
        out
    }
}

/// The lexer between two characters.
pub ghost struct LexState {
    /// The tokens emitted so far.
    pub out: Seq<Lexeme>,
    /// The lexeme being read. Its kind says how the next character is taken.
    pub current: Lexeme,
    /// While an attribute value is being read: the name it belongs to.
    pub key: Seq<char>,
}

impl LexState {
    /// Before the first character: nothing emitted, reading text.
    pub open spec fn start() -> LexState {
        LexState { out: Seq::empty(), current: Lexeme::Text(Seq::empty()), key: Seq::empty() }
    }

    /// `c` joins the lexeme being read.
    pub open spec fn grow(self, c: char) -> LexState {
        LexState { current: self.current.grown(c), ..self }
    }

    /// The lexeme being read is emitted as `lexeme`, and `then` is read next.
    pub open spec fn emit(self, lexeme: Lexeme, then: Lexeme) -> LexState {
        LexState { out: self.out.push(lexeme), current: then, ..self }
    }

    /// The tokens once the lexeme being read is cut short by a `<`.
    pub open spec fn cut(self) -> Seq<Lexeme> {
        match self.current {
            Lexeme::Text(text) => if text.len() > 0 {
                self.out.push(Lexeme::Text(text))
            } else {
                self.out
            },
            Lexeme::AttributeKey(_) | Lexeme::AttributeValue(_) => open_tag_closed(self.out),
            _ => self.out,
        }
    }

    /// The tokens once the input has ended. A closing tag that lacks only its
    /// `>` still counts; anything else is cut short.
    pub open spec fn finish(self) -> Seq<Lexeme> {
        match self.current {
            Lexeme::CloseTag(name) => self.out.push(Lexeme::CloseTag(name)),
            _ => self.cut(),
        }
    }

    /// Takes the character `c`, with `next` the character after it, if any.
    /// Gives the state afterwards, and whether `next` was taken too.
    pub open spec fn step(self, c: char, next: Option<char>) -> (LexState, bool) {
        let text = Lexeme::Text(Seq::empty());
        if c == '<' {
            match next {
                None => (self, false),
                Some(n) => if n == '/' {
                    (LexState { out: self.cut(), current: Lexeme::CloseTag(Seq::empty()), ..self }, true)
                } else {
                    (LexState { out: self.cut(), current: Lexeme::OpenTag(Seq::empty()), ..self }, false)
                },
            }
        } else {
            match self.current {
                Lexeme::OpenTag(name) => if c == '>' {
                    (self.emit(Lexeme::OpenTag(name), text), false)
                } else if c == '/' && next == Some('>') {
                    (self.emit(Lexeme::SelfCloseTag(name), text), true)
                } else if is_space(c) {
                    (self.emit(Lexeme::OpenTag(name), Lexeme::AttributeKey(Seq::empty())), false)
                } else {
                    (self.grow(c), false)
                },
                Lexeme::CloseTag(name) => if c == '>' {
                    (self.emit(Lexeme::CloseTag(name), text), false)
                } else {
                    (self.grow(c), false)
                },
                Lexeme::AttributeKey(name) => if c == '>' {
                    (LexState { current: text, ..self }, false)
                } else if c == '/' && next == Some('>') {
                    (LexState { out: open_tag_closed(self.out), current: text, ..self }, true)
                } else if is_value_mark(c) {
                    if name.len() > 0 {
                        (
                            LexState {
                                current: Lexeme::AttributeValue(Seq::empty()),
                                key: name,
                                ..self
                            },
                            false,
                        )
                    } else {
                        (self, false)
                    }
                } else if is_space(c) && name.len() == 0 {
                    (self, false)
                } else {
                    (self.grow(c), false)
                },
                Lexeme::AttributeValue(value) => if is_value_mark(c) {
                    if value.len() > 0 {
                        (
                            LexState {
                                out: self.out.push(Lexeme::AttributeKey(self.key)).push(
                                    Lexeme::AttributeValue(value),
                                ),
                                current: Lexeme::AttributeKey(Seq::empty()),
                                key: Seq::empty(),
                            },
                            false,
                        )
                    } else {
                        (self, false)
                    }
                } else {
                    (self.grow(c), false)
                },
                Lexeme::Text(_) | Lexeme::SelfCloseTag(_) => (self.grow(c), false),
            }
        }
    }
}

/// The character after position `pos` of `input`, if there is one.
pub open spec fn lookahead(input: Seq<char>, pos: int) -> Option<char> {
    if pos + 1 < input.len() {
        Some(input[pos + 1])
    } else {
        None
    }
}

/// The tokens of `input`, for a lexer that stands in `state` before the
/// character at `pos`.
pub open spec fn lex_from(input: Seq<char>, pos: int, state: LexState) -> Seq<Lexeme>
    decreases input.len() - pos,
{
    if pos >= input.len() {
        state.finish()
    } else {
        let (after, two) = state.step(input[pos], lookahead(input, pos));
        lex_from(
            input,
            if two {
                pos + 2
            } else {
                pos + 1
            },
            after,
        )
    }
}

/// The tokens of a fragment.
pub open spec fn tokens_of(input: Seq<char>) -> Seq<Lexeme> {
    lex_from(input, 0, LexState::start())
}

/// The lexer at work.
struct Lexer {
    out: Vec<Tokens>,
    current: Tokens,
    key: String,
}

impl View for Lexer {
    type V = LexState;

    closed spec fn view(&self) -> LexState {
        LexState { out: self.out.deep_view(), current: self.current@, key: self.key@ }
    }
}

fn space(c: char) -> (yes: bool)
    ensures
        yes == is_space(c),
{
    let code = c as u32;
    (0x09 <= code && code <= 0x0D) || code == 0x20 || code == 0x85 || code == 0xA0 || code
        == 0x1680 || (0x2000 <= code && code <= 0x200A) || code == 0x2028 || code == 0x2029
        || code == 0x202F || code == 0x205F || code == 0x3000
}

fn value_mark(c: char) -> (yes: bool)
    ensures
        yes == is_value_mark(c),
{
    c == '=' || c == '"'
}

/// The characters of a string, in order.
fn chars_of(text: &String) -> (chars: Vec<char>)
    ensures
        chars@ == text@,
{
    let mut chars: Vec<char> = Vec::new();
    for c in it: text.as_str().chars()
        invariant
            chars@ == it.seq().take(it.index() as int),
    {
        chars.push(c);
    }
    chars
}

/// Turns the last `OpenTag` among `out` into a `SelfCloseTag`.
fn close_open_tag(out: &mut Vec<Tokens>)
    ensures
        final(out).deep_view() == open_tag_closed(old(out).deep_view()),
{
    let ghost before = out.deep_view();
    let mut i = out.len();
    assert(before.take(i as int) =~= before);
    while i > 0
        invariant
            i <= out.len(),
            before == old(out).deep_view(),
            out.deep_view() == before,
            last_open_tag(before) == last_open_tag(before.take(i as int)),
        decreases i,
    {
        i -= 1;
        proof {
            assert(before.take(i + 1).drop_last() =~= before.take(i as int));
            assert(before.take(i + 1).last() == before[i as int]);
            assert(before[i as int] == out@[i as int]@);
        }
        if let Tokens::OpenTag(_) = out[i] {
            assert(before[i as int] is OpenTag);
            assert(last_open_tag(before.take(i + 1)) == i);
            out[i].convert_to_self_close_tag();
            assert(out.deep_view() =~= before.update(i as int, before[i as int].self_closed()));
            return ;
        }
    }
}

impl Lexer {
    fn new() -> (lexer: Lexer)
        ensures
            lexer@ == LexState::start(),
    {
        let lexer = Lexer { out: Vec::new(), current: Tokens::Text(String::new()), key: String::new() };
        assert(lexer.out.deep_view() =~= Seq::empty());
        lexer
    }

    /// Emits the token being read and goes on to read `then`.
    fn emit(&mut self, then: Tokens)
        ensures
            final(self)@ == old(self)@.emit(old(self)@.current, then@),
    {
        let mut done = then;
        core::mem::swap(&mut self.current, &mut done);
        let ghost emitted = done@;
        self.out.push(done);
        assert(self.out.deep_view() =~= old(self).out.deep_view().push(emitted));
    }

    /// Cuts short the token being read and goes on to read `then`.
    fn cut(&mut self, then: Tokens)
        ensures
            final(self)@ == (LexState { out: old(self)@.cut(), current: then@, key: old(self)@.key }),
    {
        match &self.current {
            Tokens::Text(text) => {
                if text.as_str().is_empty() {
                    self.current = then;
                } else {
                    self.emit(then);
                }
            },
            Tokens::AttributeKey(_) | Tokens::AttributeValue(_) => {
                close_open_tag(&mut self.out);
                self.current = then;
            },
            _ => {
                self.current = then;
            },
        }
    }

    /// Takes one character; says whether the one after it was taken too.
    fn step(&mut self, c: char, next: Option<char>) -> (two: bool)
        ensures
            (final(self)@, two) == old(self)@.step(c, next),
    {
        if c == '<' {
            match next {
                None => false,
                Some(n) => {
                    if n == '/' {
                        self.cut(Tokens::CloseTag(String::new()));
                        true
                    } else {
                        self.cut(Tokens::OpenTag(String::new()));
                        false
                    }
                },
            }
        } else {
            let slash = c == '/' && next == Some('>');
            match &self.current {
                Tokens::OpenTag(_) => {
                    if c == '>' {
                        self.emit(Tokens::Text(String::new()));
                        false
                    } else if slash {
                        self.current.convert_to_self_close_tag();
                        self.emit(Tokens::Text(String::new()));
                        true
                    } else if space(c) {
                        self.emit(Tokens::AttributeKey(String::new()));
                        false
                    } else {
                        self.current.add(c);
                        false
                    }
                },
                Tokens::CloseTag(_) => {
                    if c == '>' {
                        self.emit(Tokens::Text(String::new()));
                    } else {
                        self.current.add(c);
                    }
                    false
                },
                Tokens::AttributeKey(name) => {
                    let unnamed = name.as_str().is_empty();
                    if c == '>' {
                        self.current = Tokens::Text(String::new());
                        false
                    } else if slash {
                        close_open_tag(&mut self.out);
                        self.current = Tokens::Text(String::new());
                        true
                    } else if value_mark(c) {
                        if !unnamed {
                            let mut named = Tokens::AttributeValue(String::new());
                            core::mem::swap(&mut self.current, &mut named);
                            if let Tokens::AttributeKey(name) = named {
                                self.key = name;
                            }
                        }
                        false
                    } else if space(c) && unnamed {
                        false
                    } else {
                        self.current.add(c);
                        false
                    }
                },
                Tokens::AttributeValue(value) => {
                    let unwritten = value.as_str().is_empty();
                    if value_mark(c) {
                        if !unwritten {
                            let mut key = String::new();
                            core::mem::swap(&mut self.key, &mut key);
                            let ghost name = Lexeme::AttributeKey(key@);
                            let ghost before = self.out.deep_view();
                            self.out.push(Tokens::AttributeKey(key));
                            assert(self.out.deep_view() =~= before.push(name));
                            self.emit(Tokens::AttributeKey(String::new()));
                        }
                    } else {
                        self.current.add(c);
                    }
                    false
                },
                _ => {
                    self.current.add(c);
                    false
                },
            }
        }
    }

    /// Ends the input.
    fn finish(self) -> (tokens: Vec<Tokens>)
        ensures
            tokens.deep_view() == self@.finish(),
    {
        let mut lexer = self;
        match &lexer.current {
            Tokens::CloseTag(_) => {
                lexer.emit(Tokens::Text(String::new()));
            },
            _ => {
                lexer.cut(Tokens::Text(String::new()));
            },
        }
        lexer.out
    }
}

/// Cuts a fragment into its tokens.
pub fn lexer(html: String) -> (tokens: Vec<Tokens>)
    ensures
        tokens.deep_view() == tokens_of(html@),
{
    let chars = chars_of(&html);
    let mut state = Lexer::new();
    let mut idx: usize = 0;
    while idx < chars.len()
        invariant
            chars@ == html@,
            idx <= chars.len(),
            lex_from(html@, idx as int, state@) == tokens_of(html@),
        decreases chars.len() - idx,
    {
        let next = if idx + 1 < chars.len() {
            Some(chars[idx + 1])
        } else {
            None
        };
        let two = state.step(chars[idx], next);
        idx = if two {
            idx + 2
        } else {
            idx + 1
        };
    }
    state.finish()
}

} // verus!
