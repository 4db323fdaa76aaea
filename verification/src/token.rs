//! The tokens of the source language.

use vstd::prelude::*;
use vstd::string::*;
use crate::position::Pos;
use crate::text::{i64_to_string, signed_decimal};

verus! {

/// A token.
#[derive(Clone, Debug, PartialEq)]
pub enum Tok {
    Ampersand,
    Array,
    Break,
    CloseCurly,
    CloseParen,
    CloseSquare,
    Colon,
    ColonEqual,
    Comma,
    Do,
    Dot,
    Else,
    End,
    Equal,
    For,
    Function,
    Greater,
    GreaterOrEqual,
    Ident(String),
    If,
    In,
    Int(i64),
    Lesser,
    LesserOrEqual,
    Let,
    Minus,
    Nil,
    NotEqual,
    Of,
    OpenCurly,
    OpenParen,
    OpenSquare,
    Pipe,
    Plus,
    Semicolon,
    Slash,
    Star,
    Str(String),
    Then,
    To,
    Type,
    Var,
    While,
}

/// A token with the place in the source it came from.
#[derive(Debug)]
pub struct Token {
    pub pos: Pos,
    pub token: Tok,
}

/// A text as the standard library prints it for debugging: between double
/// quotes, with the characters that cannot stand there escaped.
pub uninterp spec fn debug_text(text: Seq<char>) -> Seq<char>;

/// The `Debug` rendering of a `str` by the standard library. Verus takes on
/// trust that it depends on the characters of the text alone.
#[verifier::external_body]
pub(crate) fn debug_string(text: &str) -> (shown: String)
    ensures
        shown@ == debug_text(text@),
{
    format!("{:?}", text)
}

/// The fixed text of a token that is a keyword or a piece of punctuation.
pub open spec fn fixed_text(token: Tok) -> Seq<char> {
    match token {
        Tok::Ampersand => "&"@,
        Tok::Array => "array"@,
        Tok::Break => "break"@,
        Tok::CloseCurly => "}"@,
        Tok::CloseParen => ")"@,
        Tok::CloseSquare => "]"@,
        Tok::Colon => ":"@,
        Tok::ColonEqual => ":="@,
        Tok::Comma => ","@,
        Tok::Do => "do"@,
        Tok::Dot => "."@,
        Tok::Else => "else"@,
        Tok::Equal => "="@,
        Tok::End => "end"@,
        Tok::For => "for"@,
        Tok::Function => "function"@,
        Tok::Greater => ">"@,
        Tok::GreaterOrEqual => ">="@,
        Tok::If => "if"@,
        Tok::In => "in"@,
        Tok::Lesser => "<"@,
        Tok::LesserOrEqual => "<="@,
        Tok::Let => "let"@,
        Tok::Minus => "-"@,
        Tok::Nil => "nil"@,
        Tok::NotEqual => "<>"@,
        Tok::Of => "of"@,
        Tok::OpenCurly => "{"@,
        Tok::OpenParen => "("@,
        Tok::OpenSquare => "["@,
        Tok::Pipe => "|"@,
        Tok::Plus => "+"@,
        Tok::Semicolon => ";"@,
        Tok::Slash => "/"@,
        Tok::Star => "*"@,
        Tok::Then => "then"@,
        Tok::To => "to"@,
        Tok::Type => "type"@,
        Tok::Var => "var"@,
        Tok::While => "while"@,
        _ => Seq::empty(),
    }
}

impl Tok {
    /// The text of a token: an identifier as it stands, a number in
    /// decimal, a string as it is printed for debugging, and anything else
    /// by its fixed text.
    pub open spec fn text(self) -> Seq<char> {
        match self {
            Tok::Ident(ident) => ident@,
            Tok::Int(num) => signed_decimal(num as int),
            Tok::Str(string) => debug_text(string@),
            _ => fixed_text(self),
        }
    }

    /// Renders the token.
    pub fn to_string(&self) -> (text: String)
        ensures
            text@ == self.text(),
    {
        let fixed = match self {
            Tok::Ampersand => "&",
            Tok::Array => "array",
            Tok::Break => "break",
            Tok::CloseCurly => "}",
            Tok::CloseParen => ")",
            Tok::CloseSquare => "]",
            Tok::Colon => ":",
            Tok::ColonEqual => ":=",
            Tok::Comma => ",",
            Tok::Do => "do",
            Tok::Dot => ".",
            Tok::Else => "else",
            Tok::Equal => "=",
            Tok::End => "end",
            Tok::For => "for",
            Tok::Function => "function",
            Tok::Greater => ">",
            Tok::GreaterOrEqual => ">=",
            Tok::Ident(ident) => {
                return ident.clone();
            },
            Tok::If => "if",
            Tok::In => "in",
            Tok::Int(num) => {
                return i64_to_string(*num);
            },
            Tok::Lesser => "<",
            Tok::LesserOrEqual => "<=",
            Tok::Let => "let",
            Tok::Minus => "-",
            Tok::Nil => "nil",
            Tok::NotEqual => "<>",
            Tok::Of => "of",
            Tok::OpenCurly => "{",
            Tok::OpenParen => "(",
            Tok::OpenSquare => "[",
            Tok::Pipe => "|",
            Tok::Plus => "+",
            Tok::Semicolon => ";",
            Tok::Slash => "/",
            Tok::Star => "*",
            Tok::Str(string) => {
                return debug_string(string.as_str());
            },
            Tok::Then => "then",
            Tok::To => "to",
            Tok::Type => "type",
            Tok::Var => "var",
            Tok::While => "while",
        };
        String::from_str(fixed)
    }
}

} // verus!
