//! Positions in the source text.

use vstd::prelude::*;
use vstd::string::*;
use crate::symbol::Symbol;
use crate::text::{decimal, u64_to_string};

verus! {

/// A span of the source: the file, the line and column at which it starts,
/// the offset of its first byte, and its length in bytes.
#[derive(Clone, Copy, Debug, PartialEq, Eq)]
pub struct Pos {
    pub byte: u64,
    pub column: u32,
    pub file: Symbol,
    pub length: usize,
    pub line: u32,
}

impl Pos {
    /// The span with the given parts.
    pub fn new(line: u32, column: u32, byte: u64, file: Symbol, length: usize) -> (pos: Self)
        ensures
            pos == (Pos { byte, column, file, length, line }),
    {
        Pos { byte, column, file, length, line }
    }

    /// The span that stands for no place in any source.
    pub open spec fn nowhere() -> Pos {
        Pos { byte: u64::MAX, column: u32::MAX, file: 0, length: 0, line: u32::MAX }
    }

    /// A span that stands for no place in any source.
    pub fn dummy() -> (pos: Self)
        ensures
            pos == Pos::nowhere(),
    {
        Self::new(u32::MAX, u32::MAX, u64::MAX, 0, 0)
    }

    /// The span from the start of `self` to the end of `pos`, which does
    /// not begin before `self`.
    pub fn grow(&self, pos: Pos) -> (grown: Self)
        requires
            self.byte <= pos.byte,
            pos.byte - self.byte + pos.length <= usize::MAX,
        ensures
            grown == (Pos { length: (pos.byte - self.byte + pos.length) as usize, ..*self }),
    {
        Pos {
            byte: self.byte,
            column: self.column,
            file: self.file,
            length: (pos.byte - self.byte) as usize + pos.length,
            line: self.line,
        }
    }

    /// The text of a position: line and column, each followed by a colon.
    pub open spec fn text(self) -> Seq<char> {
        decimal(self.line as nat) + seq![':'] + decimal(self.column as nat) + seq![':']
    }

    /// Renders the position as line and column.
    pub fn to_string(&self) -> (text: String)
        ensures
            text@ == self.text(),
    {
        proof {
            reveal_strlit(":");
        }
        let mut text = u64_to_string(self.line as u64);
        text.append(":");
        let column = u64_to_string(self.column as u64);
        text.append(column.as_str());
        text.append(":");
        assert(text@ =~= self.text());
        text
    }
}

/// Something with the place in the source it came from.
#[derive(Clone, Debug, PartialEq)]
pub struct WithPos<T> {
    pub node: T,
    pub pos: Pos,
}

impl<T> WithPos<T> {
    /// `node` at `pos`.
    pub fn new(node: T, pos: Pos) -> (with_pos: Self)
        ensures
            with_pos.node == node,
            with_pos.pos == pos,
    {
        WithPos { node, pos }
    }

    /// `node` at no place of any source.
    pub fn dummy(node: T) -> (with_pos: Self)
        ensures
            with_pos.node == node,
            with_pos.pos == Pos::nowhere(),
    {
        WithPos { node, pos: Pos::dummy() }
    }
}

} // verus!
