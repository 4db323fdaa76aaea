//! The types of the source language.

use vstd::prelude::*;
use vstd::string::*;
use crate::symbol::{Strings, Symbol, SymbolWithPos};
use crate::temp::Gensym;

verus! {

/// The identity of a record or array type: two such types are the same
/// only if they come from the same declaration.
#[derive(Clone, Copy, Debug, PartialEq, Eq, Structural)]
pub struct Unique(pub u64);

impl Unique {
    /// Takes the next identity from the supply.
    pub fn new(gensym: &mut Gensym) -> (unique: Unique)
        requires
            old(gensym).uniques < u64::MAX,
        ensures
            unique.0 == old(gensym).uniques,
            *final(gensym) == (Gensym { uniques: (old(gensym).uniques + 1) as u64, ..*old(gensym) }),
    {
        let value = gensym.uniques;
        gensym.uniques = gensym.uniques + 1;
        Unique(value)
    }
}

/// A type.
#[derive(Debug, PartialEq)]
pub enum Type {
    Int,
    String,
    Record(Symbol, Vec<(Symbol, Type)>, Unique),
    Array(Box<Type>, Unique),
    Nil,
    Unit,
    Name(SymbolWithPos, Option<Box<Type>>),
    Error,
}

/// How a type is shown to the user, given the names of the symbols.
pub open spec fn type_text(typ: Type, names: Seq<Seq<char>>) -> Seq<char>
    decreases typ,
{
    match typ {
        Type::Array(element, _) => "["@ + type_text(*element, names) + "]"@,
        Type::Int => "int"@,
        Type::Name(_, Some(named)) => type_text(*named, names),
        Type::Name(_, None) => "unresolved type"@,
        Type::Nil => "nil"@,
        Type::Record(name, _, _) => "struct "@ + names[name as int],
        Type::String => "string"@,
        Type::Unit => "()"@,
        Type::Error => "type error"@,
    }
}

/// Whether the names of all record types that show in a type are known.
pub open spec fn type_named(typ: Type, names: Seq<Seq<char>>) -> bool
    decreases typ,
{
    match typ {
        Type::Array(element, _) => type_named(*element, names),
        Type::Name(_, Some(named)) => type_named(*named, names),
        Type::Record(name, _, _) => 0 <= name < names.len(),
        _ => true,
    }
}

impl Type {
    /// Shows the type to the user.
    pub fn show(&self, strings: &Strings) -> (text: String)
        requires
            type_named(*self, strings@),
        ensures
            text@ == type_text(*self, strings@),
        decreases self,
    {
        match self {
            Type::Array(element, _) => {
                let mut text = String::from_str("[");
                let inner = element.show(strings);
                text.append(inner.as_str());
                text.append("]");
                text
            },
            Type::Int => String::from_str("int"),
            Type::Name(_, named) => {
                match named {
                    Some(named) => named.show(strings),
                    None => String::from_str("unresolved type"),
                }
            },
            Type::Nil => String::from_str("nil"),
            Type::Record(name, _, _) => {
                assert(strings.strings.len() == strings@.len());
                let mut text = String::from_str("struct ");
                text.append(strings.strings[*name as usize].as_str());
                text
            },
            Type::String => String::from_str("string"),
            Type::Unit => String::from_str("()"),
            Type::Error => String::from_str("type error"),
        }
    }
}

} // verus!
