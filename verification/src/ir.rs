//! The tree-shaped intermediate representation: expressions, which yield a
//! value, and statements, which have an effect.

use vstd::prelude::*;
use crate::temp::{Label, LabelView, Temp};

verus! {

/// The arithmetic and bitwise operators.
#[derive(Clone, Copy, Debug, PartialEq, Eq, Structural)]
pub enum BinOp {
    Plus,
    Minus,
    Mul,
    Div,
    And,
    Or,
    ShiftLeft,
    ShiftRight,
    ArithmeticShiftRight,
    Xor,
}

/// The comparisons, signed and unsigned.
#[derive(Clone, Copy, Debug, PartialEq, Eq, Structural)]
pub enum RelationalOp {
    Equal,
    NotEqual,
    LesserThan,
    GreaterThan,
    LesserOrEqual,
    GreaterOrEqual,
    UnsignedLesserThan,
    UnsignedLesserOrEqual,
    UnsignedGreaterThan,
    UnsignedGreaterOrEqual,
}

/// An expression.
#[derive(Debug, PartialEq)]
pub enum Exp {
    Const(i64),
    /// What stands where the analysis of the source found an error.
    Error,
    Name(Label),
    Temp(Temp),
    BinOp { op: BinOp, left: Box<Exp>, right: Box<Exp> },
    Mem(Box<Exp>),
    Call(Box<Exp>, Vec<Exp>),
    ExpSequence(Box<Statement>, Box<Exp>),
}

/// A statement.
#[derive(Debug, PartialEq)]
pub enum Statement {
    Move(Exp, Exp),
    Exp(Exp),
    Jump(Exp, Vec<Label>),
    CondJump { op: RelationalOp, left: Exp, right: Exp, true_label: Label, false_label: Label },
    Sequence(Box<Statement>, Box<Statement>),
    Label(Label),
}

/// An expression as a mathematical value.
pub enum ExpView {
    Const(i64),
    Error,
    Name(LabelView),
    Temp(Temp),
    BinOp { op: BinOp, left: Box<ExpView>, right: Box<ExpView> },
    Mem(Box<ExpView>),
    Call(Box<ExpView>, Seq<ExpView>),
    ExpSequence(Box<StatementView>, Box<ExpView>),
}

/// A statement as a mathematical value.
pub enum StatementView {
    Move(ExpView, ExpView),
    Exp(ExpView),
    Jump(ExpView, Seq<LabelView>),
    CondJump {
        op: RelationalOp,
        left: ExpView,
        right: ExpView,
        true_label: LabelView,
        false_label: LabelView,
    },
    Sequence(Box<StatementView>, Box<StatementView>),
    Label(LabelView),
}

/// The views of a list of labels.
pub open spec fn label_views(labels: Seq<Label>) -> Seq<LabelView> {
    Seq::new(labels.len(), |i: int| labels[i]@)
}

/// The mathematical value of an expression.
pub open spec fn exp_view(exp: Exp) -> ExpView
    decreases exp,
{
    match exp {
        Exp::Const(value) => ExpView::Const(value),
        Exp::Error => ExpView::Error,
        Exp::Name(label) => ExpView::Name(label@),
        Exp::Temp(temp) => ExpView::Temp(temp),
        Exp::BinOp { op, left, right } => ExpView::BinOp {
            op,
            left: Box::new(exp_view(*left)),
            right: Box::new(exp_view(*right)),
        },
        Exp::Mem(address) => ExpView::Mem(Box::new(exp_view(*address))),
        Exp::Call(function, arguments) => ExpView::Call(
            Box::new(exp_view(*function)),
            Seq::new(
                arguments@.len(),
                |i: int|
                    if 0 <= i < arguments@.len() {
                        exp_view(arguments@[i])
                    } else {
                        ExpView::Error
                    },
            ),
        ),
        Exp::ExpSequence(statement, value) => ExpView::ExpSequence(
            Box::new(statement_view(*statement)),
            Box::new(exp_view(*value)),
        ),
    }
}

/// The mathematical value of a statement.
pub open spec fn statement_view(statement: Statement) -> StatementView
    decreases statement,
{
    match statement {
        Statement::Move(destination, source) => StatementView::Move(
            exp_view(destination),
            exp_view(source),
        ),
        Statement::Exp(value) => StatementView::Exp(exp_view(value)),
        Statement::Jump(target, labels) => StatementView::Jump(
            exp_view(target),
            label_views(labels@),
        ),
        Statement::CondJump { op, left, right, true_label, false_label } => {
            StatementView::CondJump {
                op,
                left: exp_view(left),
                right: exp_view(right),
                true_label: true_label@,
                false_label: false_label@,
            }
        },
        Statement::Sequence(first, second) => StatementView::Sequence(
            Box::new(statement_view(*first)),
            Box::new(statement_view(*second)),
        ),
        Statement::Label(label) => StatementView::Label(label@),
    }
}

impl View for Exp {
    type V = ExpView;

    open spec fn view(&self) -> ExpView {
        exp_view(*self)
    }
}

impl View for Statement {
    type V = StatementView;

    open spec fn view(&self) -> StatementView {
        statement_view(*self)
    }
}

/// The views of a list of expressions.
pub open spec fn exp_views(exps: Seq<Exp>) -> Seq<ExpView> {
    Seq::new(exps.len(), |i: int| exps[i]@)
}

/// The views of a list of statements.
pub open spec fn statement_views(statements: Seq<Statement>) -> Seq<StatementView> {
    Seq::new(statements.len(), |i: int| statements[i]@)
}

/// A copy of a list of labels.
pub fn copy_labels(labels: &Vec<Label>) -> (copy: Vec<Label>)
    ensures
        copy@ == labels@,
{
    let mut copy: Vec<Label> = Vec::new();
    let mut index: usize = 0;
    while index < labels.len()
        invariant
            index <= labels@.len(),
            copy@ == labels@.subrange(0, index as int),
        decreases labels@.len() - index,
    {
        copy.push(labels[index].copy());
        assert(copy@ =~= labels@.subrange(0, index + 1));
        index = index + 1;
    }
    assert(copy@ =~= labels@);
    copy
}

impl Exp {
    /// A copy of the expression.
    pub fn copy(&self) -> (copy: Exp)
        ensures
            copy@ == self@,
        decreases self,
    {
        match self {
            Exp::Const(value) => Exp::Const(*value),
            Exp::Error => Exp::Error,
            Exp::Name(label) => Exp::Name(label.copy()),
            Exp::Temp(temp) => Exp::Temp(*temp),
            Exp::BinOp { op, left, right } => Exp::BinOp {
                op: *op,
                left: Box::new(left.copy()),
                right: Box::new(right.copy()),
            },
            Exp::Mem(address) => Exp::Mem(Box::new(address.copy())),
            Exp::Call(function, arguments) => {
                let mut copies: Vec<Exp> = Vec::new();
                let mut index: usize = 0;
                while index < arguments.len()
                    invariant
                        index <= arguments@.len(),
                        copies@.len() == index,
                        forall|i: int| 0 <= i < index ==> (#[trigger] copies@[i])@ == arguments@[i]@,
                        self is Call,
                        self->Call_1 == *arguments,
                    decreases arguments@.len() - index,
                {
                    proof {
                        vstd::std_specs::vec::axiom_vec_index_decreases(*arguments, index as int);
                    }
                    copies.push(arguments[index].copy());
                    index = index + 1;
                }
                let copy = Exp::Call(Box::new(function.copy()), copies);
                assert(copy@->Call_1 =~= self@->Call_1);
                copy
            },
            Exp::ExpSequence(statement, value) => Exp::ExpSequence(
                Box::new(statement.copy()),
                Box::new(value.copy()),
            ),
        }
    }
}

impl Statement {
    /// A copy of the statement.
    pub fn copy(&self) -> (copy: Statement)
        ensures
            copy@ == self@,
        decreases self,
    {
        match self {
            Statement::Move(destination, source) => Statement::Move(
                destination.copy(),
                source.copy(),
            ),
            Statement::Exp(value) => Statement::Exp(value.copy()),
            Statement::Jump(target, labels) => Statement::Jump(target.copy(), copy_labels(labels)),
            Statement::CondJump { op, left, right, true_label, false_label } => {
                Statement::CondJump {
                    op: *op,
                    left: left.copy(),
                    right: right.copy(),
                    true_label: true_label.copy(),
                    false_label: false_label.copy(),
                }
            },
            Statement::Sequence(first, second) => Statement::Sequence(
                Box::new(first.copy()),
                Box::new(second.copy()),
            ),
            Statement::Label(label) => Statement::Label(label.copy()),
        }
    }
}

} // verus!
