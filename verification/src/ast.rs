//! The syntax tree of the source language.

use vstd::prelude::*;
use crate::position::{Pos, WithPos};
use crate::symbol::{Symbol, SymbolWithPos};

verus! {

/// A declaration.
#[derive(Debug)]
pub enum Declaration {
    Function(Vec<FuncDeclarationWithPos>),
    Type(Vec<TypeDecWithPos>),
    VariableDeclaration { escape: bool, init: ExprWithPos, name: Symbol, typ: Option<SymbolWithPos> },
}

pub type DeclarationWithPos = WithPos<Declaration>;

/// An expression.
#[derive(Debug)]
pub enum Expr {
    Array { init: Box<ExprWithPos>, size: Box<ExprWithPos>, typ: SymbolWithPos },
    Assign { expr: Box<ExprWithPos>, var: VarWithPos },
    Break,
    Call { args: Vec<ExprWithPos>, function: Symbol },
    If { else_: Option<Box<ExprWithPos>>, test: Box<ExprWithPos>, then_: Box<ExprWithPos> },
    Int { value: i64 },
    Let { body: Box<ExprWithPos>, declarations: Vec<DeclarationWithPos> },
    Nil,
    Oper { left: Box<ExprWithPos>, oper: OperationWithPos, right: Box<ExprWithPos> },
    Record { fields: Vec<RecordFieldWithPos>, typ: SymbolWithPos },
    Sequence(Vec<ExprWithPos>),
    Str { value: String },
    Variable(VarWithPos),
    While { body: Box<ExprWithPos>, test: Box<ExprWithPos> },
}

pub type ExprWithPos = WithPos<Expr>;

/// A parameter of a function or a field of a record type.
#[derive(Debug)]
pub struct Field {
    pub escape: bool,
    pub name: Symbol,
    pub typ: SymbolWithPos,
}

pub type FieldWithPos = WithPos<Field>;

/// The declaration of a function.
#[derive(Debug)]
pub struct FuncDeclaration {
    pub body: ExprWithPos,
    pub name: Symbol,
    pub params: Vec<FieldWithPos>,
    pub result: Option<SymbolWithPos>,
}

pub type FuncDeclarationWithPos = WithPos<FuncDeclaration>;

/// A binary operator.
#[derive(Clone, Copy, Debug, PartialEq, Eq, Structural)]
pub enum Operator {
    And,
    Divide,
    Equal,
    Ge,
    Gt,
    Le,
    Lt,
    Minus,
    Neq,
    Or,
    Plus,
    Times,
}

pub type OperationWithPos = WithPos<Operator>;

/// A field of a record expression with its value.
#[derive(Debug)]
pub struct RecordField {
    pub expr: ExprWithPos,
    pub ident: Symbol,
}

pub type RecordFieldWithPos = WithPos<RecordField>;

/// The right side of a type declaration.
#[derive(Debug)]
pub enum Ty {
    Array { ident: SymbolWithPos },
    Name { ident: SymbolWithPos },
    Record { fields: Vec<FieldWithPos> },
}

/// The declaration of a type.
#[derive(Debug)]
pub struct TypeDec {
    pub name: SymbolWithPos,
    pub ty: TyWithPos,
}

pub type TypeDecWithPos = WithPos<TypeDec>;

pub type TyWithPos = WithPos<Ty>;

/// A variable, a field of one, or an element of one.
#[derive(Debug)]
pub enum Var {
    Field { ident: SymbolWithPos, this: Box<VarWithPos> },
    Simple { ident: SymbolWithPos },
    Subscript { expr: Box<ExprWithPos>, this: Box<VarWithPos> },
}

pub type VarWithPos = WithPos<Var>;

/// The expression that reads the variable `symbol`, at no place of any
/// source.
pub fn dummy_var_expr(symbol: Symbol) -> (expr: ExprWithPos)
    ensures
        expr.pos == Pos::nowhere(),
        expr.node is Variable,
        expr.node->Variable_0.pos == Pos::nowhere(),
        expr.node->Variable_0.node is Simple,
        expr.node->Variable_0.node->Simple_ident.node == symbol,
        expr.node->Variable_0.node->Simple_ident.pos == Pos::nowhere(),
{
    WithPos::dummy(Expr::Variable(WithPos::dummy(Var::Simple { ident: WithPos::dummy(symbol) })))
}

} // verus!
