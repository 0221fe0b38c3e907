//! The classes into which the scanner sorts the characters of a document.

use vstd::prelude::*;

verus! {

/// The class of a single character. Only `LeftCroc`, `RightCroc`, `Char` and
/// `WhiteSpace` move the scanner; the others are told apart but change nothing.
#[derive(Clone, Copy, Debug, PartialEq, Eq, Structural)]
pub enum Token {
    WhiteSpace,
    LeftCroc,
    RightCroc,
    Equalsign,
    Slash,
    Tick,
    NewLine,
    Char,
}

/// Whitespace within a line: the tab, the space, and the spaces and
/// separators beyond ASCII.
pub open spec fn is_whitespace(c: char) -> bool {
    ||| c == '\t'
    ||| c == ' '
    ||| c == '\u{00A0}'
    ||| c == '\u{1680}'
    ||| '\u{2000}' <= c <= '\u{200A}'
    ||| c == '\u{2028}'
    ||| c == '\u{2029}'
    ||| c == '\u{202F}'
    ||| c == '\u{205F}'
    ||| c == '\u{3000}'
}

/// A control character other than the tab: the line feed, the carriage
/// return and the rest of U+0000 to U+001F, and U+007F to U+009F.
pub open spec fn is_control(c: char) -> bool {
    c != '\t' && (c <= '\u{001F}' || '\u{007F}' <= c <= '\u{009F}')
}

/// The class of `c`. It depends on the character alone, not on where it stands.
pub open spec fn classify(c: char) -> Token {
    if is_whitespace(c) {
        Token::WhiteSpace
    } else if is_control(c) {
        Token::NewLine
    } else if c == '<' {
        Token::LeftCroc
    } else if c == '>' {
        Token::RightCroc
    } else if c == '=' {
        Token::Equalsign
    } else if c == '/' {
        Token::Slash
    } else if c == '"' {
        Token::Tick
    } else {
        Token::Char
    }
}

impl Token {
    pub fn from(c: char) -> (token: Token)
        ensures
            token == classify(c),
    {
        match c {
            '\t' | ' ' | '\u{00A0}' | '\u{1680}' | '\u{2000}'..='\u{200A}' | '\u{2028}'
            | '\u{2029}' | '\u{202F}' | '\u{205F}' | '\u{3000}' => Token::WhiteSpace,
            '\u{0000}'..='\u{001F}' | '\u{007F}'..='\u{009F}' => Token::NewLine,
            '<' => Token::LeftCroc,
            '>' => Token::RightCroc,
            '=' => Token::Equalsign,
            '/' => Token::Slash,
            '"' => Token::Tick,
            _ => Token::Char,
        }
    }
}

} // verus!
