//! The symbol classifier: maps each character of the source buffer to a
//! closed set of semantic tags. Every other stage dispatches on these tags
//! rather than on raw characters.

use vstd::prelude::*;
use vstd::string::StrSliceExecFns;

verus! {

/// Semantic tag for one character position of the source buffer.
///
/// `EndInput` is a sentinel appended once after the last real character,
/// so that lookahead one past the end never needs a bounds case.
#[derive(Clone, Copy, Debug, PartialEq, Eq, Structural)]
pub enum Symbol {
    LeftBracket,
    RightBracket,
    LeftParenthesis,
    RightParenthesis,
    Asterisk,
    Underscore,
    Hyphen,
    Plus,
    Newline,
    NumberSign,
    Code,
    Escape,
    Ampersand,
    LessThan,
    GreaterThan,
    EqualsSign,
    Quote,
    Apostrophe,
    Alphanumeric,
    Tab,
    Other,
    Space,
    EndInput,
}

/// Names the outcome of std's Unicode alphanumeric test on one
/// character; the result depends on the character alone.
pub uninterp spec fn unicode_alphanumeric(c: char) -> bool;

/// Relies on `char::is_alphanumeric` from std: whether the character is
/// alphanumeric under Unicode (a letter or a number); the result depends
/// on the character alone.
#[verifier::external_body]
fn char_is_alphanumeric(c: char) -> (result: bool)
    ensures
        result == unicode_alphanumeric(c),
{
    c.is_alphanumeric()
}

/// The classification of one character: pure and total.
pub open spec fn classify(c: char) -> Symbol {
    if c == '[' {
        Symbol::LeftBracket
    } else if c == ']' {
        Symbol::RightBracket
    } else if c == '(' {
        Symbol::LeftParenthesis
    } else if c == ')' {
        Symbol::RightParenthesis
    } else if c == '*' {
        Symbol::Asterisk
    } else if c == '_' {
        Symbol::Underscore
    } else if c == '-' {
        Symbol::Hyphen
    } else if c == '+' {
        Symbol::Plus
    } else if c == '\r' || c == '\n' {
        Symbol::Newline
    } else if c == '\t' {
        Symbol::Tab
    } else if c == '#' {
        Symbol::NumberSign
    } else if c == '<' {
        Symbol::LessThan
    } else if c == '>' {
        Symbol::GreaterThan
    } else if c == '`' {
        Symbol::Code
    } else if c == '=' {
        Symbol::EqualsSign
    } else if c == '\\' {
        Symbol::Escape
    } else if c == ' ' {
        Symbol::Space
    } else if c == '&' {
        Symbol::Ampersand
    } else if c == '"' {
        Symbol::Quote
    } else if c == '\'' {
        Symbol::Apostrophe
    } else if unicode_alphanumeric(c) {
        Symbol::Alphanumeric
    } else {
        Symbol::Other
    }
}

/// Whitespace-class symbols: space, tab and newline.
pub open spec fn blank_sym(s: Symbol) -> bool {
    s == Symbol::Space || s == Symbol::Tab || s == Symbol::Newline
}

/// Symbols whose characters would be unsafe to emit as literal HTML
/// without escaping. Detection only; escaping itself is out of scope.
pub open spec fn entity_sym(s: Symbol) -> bool {
    s == Symbol::Ampersand || s == Symbol::LeftBracket || s == Symbol::RightBracket || s
        == Symbol::LessThan || s == Symbol::GreaterThan
}

/// The symbol array of a whole buffer: one tag per character, then the
/// end-of-input sentinel.
pub open spec fn symbols_of(t: Seq<char>) -> Seq<Symbol> {
    Seq::new(t.len() + 1, |i: int| if i < t.len() { classify(t[i]) } else { Symbol::EndInput })
}

impl Symbol {
    /// Classify a single character.
    pub fn from_char(input: char) -> (result: Symbol)
        ensures
            result == classify(input),
    {
        match input {
            '[' => Symbol::LeftBracket,
            ']' => Symbol::RightBracket,
            '(' => Symbol::LeftParenthesis,
            ')' => Symbol::RightParenthesis,
            '*' => Symbol::Asterisk,
            '_' => Symbol::Underscore,
            '-' => Symbol::Hyphen,
            '+' => Symbol::Plus,
            '\r' | '\n' => Symbol::Newline,
            '\t' => Symbol::Tab,
            '#' => Symbol::NumberSign,
            '<' => Symbol::LessThan,
            '>' => Symbol::GreaterThan,
            '`' => Symbol::Code,
            '=' => Symbol::EqualsSign,
            '\\' => Symbol::Escape,
            ' ' => Symbol::Space,
            '&' => Symbol::Ampersand,
            '"' => Symbol::Quote,
            '\'' => Symbol::Apostrophe,
            _ => {
                if char_is_alphanumeric(input) {
                    Symbol::Alphanumeric
                } else {
                    Symbol::Other
                }
            },
        }
    }

    /// Classify a whole buffer, appending the end-of-input sentinel.
    pub fn from_str(string: &str) -> (result: Vec<Symbol>)
        ensures
            result@ == symbols_of(string@),
    {
        let len = string.unicode_len();
        let mut symbols: Vec<Symbol> = Vec::new();
        let mut i: usize = 0;
        while i < len
            invariant
                0 <= i <= len,
                len == string@.len(),
                symbols@.len() == i,
                forall|j: int| 0 <= j < i ==> symbols@[j] == classify(string@[j]),
            decreases len - i,
        {
            symbols.push(Symbol::from_char(string.get_char(i)));
            i = i + 1;
        }
        symbols.push(Symbol::EndInput);
        proof {
            assert(symbols@ =~= symbols_of(string@));
        }
        symbols
    }

    /// Whether this symbol's character would need HTML escaping.
    pub fn is_char_entity(&self) -> (result: bool)
        ensures
            result == entity_sym(*self),
    {
        match self {
            Symbol::Ampersand => true,
            Symbol::LeftBracket => true,
            Symbol::RightBracket => true,
            Symbol::LessThan => true,
            Symbol::GreaterThan => true,
            _ => false,
        }
    }

    /// Whether this symbol is whitespace-class.
    pub fn is_blank(&self) -> (result: bool)
        ensures
            result == blank_sym(*self),
    {
        match self {
            Symbol::Space => true,
            Symbol::Tab => true,
            Symbol::Newline => true,
            _ => false,
        }
    }
}

} // verus!
