//! String literals as the assembler reads them.

use vstd::prelude::*;
use vstd::string::*;
use crate::temp::Label;
use crate::text::{decimal, u64_to_string};

verus! {

/// What stands for one character inside a quoted literal: a line feed or a
/// tabulator closes the quotes, gives its code as a number and opens the
/// quotes again; any other character stands for itself.
pub open spec fn nasm_piece(c: char) -> Seq<char> {
    if c == '\n' || c == '\t' {
        "', "@ + decimal(c as nat) + ", '"@
    } else {
        seq![c]
    }
}

/// What stands for the characters of a text inside a quoted literal.
pub open spec fn nasm_pieces(text: Seq<char>) -> Seq<char>
    decreases text.len(),
{
    if text.len() == 0 {
        Seq::empty()
    } else {
        nasm_pieces(text.drop_last()) + nasm_piece(text.last())
    }
}

/// The literal of a text: its pieces between single quotes.
pub open spec fn nasm_text(text: Seq<char>) -> Seq<char> {
    "'"@ + nasm_pieces(text) + "'"@
}

/// The literal that stands for a string in the data section.
pub fn to_nasm(string: &str) -> (result: String)
    ensures
        result@ == nasm_text(string@),
{
    let mut result = String::from_str("'");
    let length = string.unicode_len();
    let mut index: usize = 0;
    assert(result@ =~= "'"@ + nasm_pieces(string@.subrange(0, 0)));
    while index < length
        invariant
            index <= length,
            length == string@.len(),
            result@ == "'"@ + nasm_pieces(string@.subrange(0, index as int)),
        decreases length - index,
    {
        let c = string.get_char(index);
        proof {
            let longer = string@.subrange(0, index + 1);
            assert(longer.drop_last() =~= string@.subrange(0, index as int));
            assert(longer.last() == c);
        }
        if c == '\n' || c == '\t' {
            result.append("', ");
            let code = u64_to_string(c as u64);
            result.append(code.as_str());
            result.append(", '");
        } else {
            let piece = string.substring_char(index, index + 1);
            assert(piece@ =~= seq![c]);
            result.append(piece);
        }
        assert(result@ =~= "'"@ + nasm_pieces(string@.subrange(0, index + 1)));
        index = index + 1;
    }
    assert(string@.subrange(0, index as int) =~= string@);
    result.append("'");
    result
}

/// The line of the data section that defines a string: the label, the
/// literal, and a zero that ends it.
pub open spec fn data_text(label: Seq<char>, text: Seq<char>) -> Seq<char> {
    "    "@ + label + ": db "@ + nasm_text(text) + ", 0"@
}

/// The line of the data section that defines the string `string` under
/// `label`.
pub fn data_line(label: &Label, string: &str) -> (line: String)
    ensures
        line@ == data_text(label.text(), string@),
{
    let mut line = String::from_str("    ");
    let name = label.to_string();
    line.append(name.as_str());
    line.append(": db ");
    let literal = to_nasm(string);
    line.append(literal.as_str());
    line.append(", 0");
    line
}

/// The line that declares a function of the runtime library.
pub fn extern_line(name: &str) -> (line: String)
    ensures
        line@ == "extern "@ + name@,
{
    let mut line = String::from_str("extern ");
    line.append(name);
    line
}

} // verus!
