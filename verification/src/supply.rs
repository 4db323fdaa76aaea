//! How much of the supply of temporaries a statement may take: a weight
//! that no step of the way from a statement to its instructions exceeds.

use vstd::prelude::*;
use crate::canon::{
    arity, canon_dest, canon_exp, canon_operand, canon_operands, canon_stm, lemma_canon_operands,
    operand_at, saved_all,
};
use crate::codegen::{arguments_of, munch_args, munch_exp, munch_stm, plus_const};
use crate::ir::{exp_view, statement_view, Exp, ExpView, Statement, StatementView};

verus! {

/// The weight of an expression: one for a leaf, and for anything else more
/// than the weights of its parts together; a call weighs, beside its
/// function and its arguments, as much as the places at which they stand
/// count together.
pub open spec fn exp_weight(exp: ExpView) -> nat
    decreases exp, arity(exp) + 2,
{
    match exp {
        ExpView::BinOp { left, right, .. } => exp_weight(*left) + exp_weight(*right) + 2,
        ExpView::Mem(address) => exp_weight(*address) + 1,
        ExpView::Call(_, _) => operands_weight(exp, arity(exp) + 1) + 1,
        ExpView::ExpSequence(statement, value) => stm_weight(*statement) + exp_weight(*value),
        _ => 1,
    }
}

/// The weight of the first `upto` operands of a call, the function first:
/// the weight of each and the place at which it stands.
pub open spec fn operands_weight(call: ExpView, upto: nat) -> nat
    decreases call, upto,
{
    if upto == 0 || upto > arity(call) + 1 || !(call is Call) {
        0
    } else {
        operands_weight(call, (upto - 1) as nat) + exp_weight(operand_at(call, upto - 1)) + upto
    }
}

/// The weight of a statement: one for a label, and for anything else more
/// than the weights of its parts together.
pub open spec fn stm_weight(statement: StatementView) -> nat
    decreases statement, 0nat,
{
    match statement {
        StatementView::Move(destination, source) => exp_weight(destination) + exp_weight(source) + 2,
        StatementView::Exp(value) => exp_weight(value) + 1,
        StatementView::Jump(target, _) => exp_weight(target) + 1,
        StatementView::CondJump { left, right, .. } => exp_weight(left) + exp_weight(right) + 2,
        StatementView::Sequence(first, second) => stm_weight(*first) + stm_weight(*second),
        StatementView::Label(_) => 1,
    }
}

/// Every expression weighs something.
pub proof fn lemma_exp_weight(exp: ExpView)
    ensures
        exp_weight(exp) >= 1,
    decreases exp,
{
    match exp {
        ExpView::ExpSequence(statement, value) => {
            lemma_exp_weight(*value);
        },
        _ => {},
    }
}

/// The base of a sum with a constant weighs less than the sum.
pub proof fn lemma_plus_const_weight(exp: ExpView)
    requires
        plus_const(exp) is Some,
    ensures
        exp_weight(plus_const(exp).unwrap().base) + 3 <= exp_weight(exp),
{
    reveal_with_fuel(exp_weight, 2);
}

/// Saving expressions takes at most one temporary and one statement for
/// each.
pub proof fn lemma_saved_all_weight(exps: Seq<ExpView>, stms: Seq<StatementView>, temps: int)
    ensures
        saved_all(exps, stms, temps).temps <= temps + exps.len(),
        saved_all(exps, stms, temps).stms.len() <= exps.len(),
    decreases exps.len(),
{
    if exps.len() > 0 {
        lemma_saved_all_weight(exps.drop_last(), stms, temps);
    }
}

/// Making an expression canonical takes fewer temporaries and gives fewer
/// statements than it weighs.
pub proof fn lemma_canon_exp_weight(exp: ExpView, temps: int)
    ensures
        canon_exp(exp, temps).temps + 1 <= temps + exp_weight(exp),
        canon_exp(exp, temps).stms.len() + 1 <= exp_weight(exp),
    decreases exp, arity(exp) + 2,
{
    match exp {
        ExpView::BinOp { op, left, right } => {
            lemma_canon_operand_weight(*left, temps);
            lemma_canon_operand_weight(*right, canon_operand(*left, temps).temps);
        },
        ExpView::Mem(address) => {
            lemma_canon_operand_weight(*address, temps);
        },
        ExpView::Call(function, arguments) => {
            lemma_canon_operands_weight(exp, arguments.len() + 1, temps);
        },
        ExpView::ExpSequence(statement, value) => {
            lemma_canon_stm_weight(*statement, temps);
            lemma_canon_exp_weight(*value, canon_stm(*statement, temps).temps);
        },
        _ => {},
    }
}

/// Making a part of an expression canonical takes no more temporaries and
/// gives no more statements than it weighs.
pub proof fn lemma_canon_operand_weight(exp: ExpView, temps: int)
    ensures
        canon_operand(exp, temps).temps <= temps + exp_weight(exp),
        canon_operand(exp, temps).stms.len() <= exp_weight(exp),
    decreases exp, arity(exp) + 3,
{
    lemma_canon_exp_weight(exp, temps);
}

/// Making the operands of a call canonical takes no more temporaries and
/// gives no more statements than they weigh.
pub proof fn lemma_canon_operands_weight(call: ExpView, upto: nat, temps: int)
    ensures
        canon_operands(call, upto, temps).temps <= temps + operands_weight(call, upto),
        canon_operands(call, upto, temps).stms.len() <= operands_weight(call, upto),
    decreases call, upto,
{
    if upto == 0 || upto > arity(call) + 1 || !(call is Call) {
    } else {
        lemma_canon_operands_weight(call, (upto - 1) as nat, temps);
        lemma_canon_operands(call, (upto - 1) as nat, temps);
        let before = canon_operands(call, (upto - 1) as nat, temps);
        lemma_canon_operand_weight(operand_at(call, upto - 1), before.temps);
        let next = canon_operand(operand_at(call, upto - 1), before.temps);
        lemma_saved_all_weight(before.exps, next.stms, next.temps);
    }
}

/// Making a destination canonical takes no more temporaries and gives no
/// more statements than it weighs.
pub proof fn lemma_canon_dest_weight(exp: ExpView, temps: int)
    ensures
        canon_dest(exp, temps).temps <= temps + exp_weight(exp),
        canon_dest(exp, temps).stms.len() <= exp_weight(exp),
    decreases exp, arity(exp) + 4,
{
    match exp {
        ExpView::ExpSequence(statement, value) => {
            lemma_canon_stm_weight(*statement, temps);
            lemma_canon_dest_weight(*value, canon_stm(*statement, temps).temps);
        },
        ExpView::Mem(address) => {
            lemma_canon_operand_weight(*address, temps);
        },
        _ => {
            lemma_canon_operand_weight(exp, temps);
        },
    }
}

/// Making a statement canonical takes no more temporaries and gives no
/// more statements than it weighs.
pub proof fn lemma_canon_stm_weight(statement: StatementView, temps: int)
    ensures
        canon_stm(statement, temps).temps <= temps + stm_weight(statement),
        canon_stm(statement, temps).stms.len() <= stm_weight(statement),
    decreases statement, 0nat,
{
    match statement {
        StatementView::Move(destination, source) => {
            lemma_canon_dest_weight(destination, temps);
            let place = canon_dest(destination, temps);
            lemma_canon_exp_weight(source, place.temps);
            lemma_canon_operand_weight(source, place.temps);
        },
        StatementView::Exp(value) => {
            lemma_canon_exp_weight(value, temps);
        },
        StatementView::Jump(target, labels) => {
            lemma_canon_operand_weight(target, temps);
        },
        StatementView::CondJump { op, left, right, true_label, false_label } => {
            lemma_canon_operand_weight(left, temps);
            lemma_canon_operand_weight(right, canon_operand(left, temps).temps);
        },
        StatementView::Sequence(first, second) => {
            lemma_canon_stm_weight(*first, temps);
            lemma_canon_stm_weight(*second, canon_stm(*first, temps).temps);
        },
        StatementView::Label(label) => {},
    }
}

/// Selecting the instructions of an expression takes no more temporaries
/// than it weighs.
pub proof fn lemma_munch_exp_weight(exp: ExpView, temps: int)
    ensures
        munch_exp(exp, temps).temps <= temps + exp_weight(exp),
    decreases exp, arguments_of(exp).len() + 1,
{
    match exp {
        ExpView::BinOp { op, left, right } => {
            lemma_munch_exp_weight(*left, temps);
            lemma_munch_exp_weight(*right, munch_exp(*left, temps).temps);
        },
        ExpView::Mem(address) => {
            if plus_const(*address) is Some {
                lemma_plus_const_weight(*address);
                lemma_munch_exp_weight(plus_const(*address).unwrap().base, temps);
            } else {
                lemma_munch_exp_weight(*address, temps);
            }
        },
        ExpView::Call(function, arguments) => {
            lemma_munch_args_weight(exp, arguments.len(), temps);
            lemma_munch_exp_weight(*function, munch_args(exp, arguments.len(), temps).temps);
        },
        ExpView::ExpSequence(statement, value) => {
            lemma_munch_stm_weight(*statement, temps);
            lemma_munch_exp_weight(*value, munch_stm(*statement, temps).temps);
        },
        _ => {},
    }
}

/// Selecting the instructions of the arguments of a call leaves, of what
/// the operands weigh, at least the weight of the function.
pub proof fn lemma_munch_args_weight(call: ExpView, upto: nat, temps: int)
    requires
        call is Call,
        upto <= arity(call),
    ensures
        munch_args(call, upto, temps).temps + exp_weight(*call->Call_0) <= temps + operands_weight(
            call,
            upto + 1,
        ),
    decreases call, upto,
{
    if upto == 0 {
        assert(operands_weight(call, 1) == operands_weight(call, 0) + exp_weight(
            operand_at(call, 0),
        ) + 1);
    } else {
        lemma_munch_args_weight(call, (upto - 1) as nat, temps);
        lemma_munch_exp_weight(
            arguments_of(call)[upto - 1],
            munch_args(call, (upto - 1) as nat, temps).temps,
        );
        assert(operand_at(call, upto as int) == arguments_of(call)[upto - 1]);
    }
}

/// Selecting the instructions of a statement takes no more temporaries
/// than it weighs.
pub proof fn lemma_munch_stm_weight(statement: StatementView, temps: int)
    ensures
        munch_stm(statement, temps).temps <= temps + stm_weight(statement),
    decreases statement, 0nat,
{
    match statement {
        StatementView::Move(destination, source) => {
            match destination {
                ExpView::Temp(temp) => {
                    if source is Mem && plus_const(*source->Mem_0) is Some {
                        lemma_plus_const_weight(*source->Mem_0);
                        lemma_munch_exp_weight(plus_const(*source->Mem_0).unwrap().base, temps);
                        assert(exp_weight(source) == exp_weight(*source->Mem_0) + 1);
                    } else {
                        lemma_munch_exp_weight(source, temps);
                    }
                },
                ExpView::Mem(address) => {
                    if plus_const(*address) is Some {
                        let base = plus_const(*address).unwrap().base;
                        lemma_plus_const_weight(*address);
                        lemma_munch_exp_weight(base, temps);
                        lemma_munch_exp_weight(source, munch_exp(base, temps).temps);
                        assert(exp_weight(destination) == exp_weight(*address) + 1);
                    } else {
                        lemma_munch_exp_weight(*address, temps);
                        lemma_munch_exp_weight(source, munch_exp(*address, temps).temps);
                        assert(exp_weight(destination) == exp_weight(*address) + 1);
                    }
                },
                _ => {
                    lemma_munch_exp_weight(source, temps);
                },
            }
            lemma_exp_weight(destination);
        },
        StatementView::Exp(value) => {
            lemma_munch_exp_weight(value, temps);
        },
        StatementView::Jump(target, labels) => {
            lemma_munch_exp_weight(target, temps);
        },
        StatementView::CondJump { op, left, right, true_label, false_label } => {
            lemma_munch_exp_weight(left, temps);
            lemma_munch_exp_weight(right, munch_exp(left, temps).temps);
        },
        StatementView::Sequence(first, second) => {
            lemma_munch_stm_weight(*first, temps);
            lemma_munch_stm_weight(*second, munch_stm(*first, temps).temps);
        },
        StatementView::Label(label) => {},
    }
}

/// A weight as a machine can hold it: itself, or the greatest number that
/// fits if it is greater.
pub open spec fn capped(weight: nat) -> u64 {
    if weight >= u64::MAX {
        u64::MAX
    } else {
        weight as u64
    }
}

/// The sum of two numbers, or the greatest number that fits if the sum is
/// greater.
pub fn add_capped(first: u64, second: u64) -> (sum: u64)
    ensures
        sum == capped((first + second) as nat),
{
    if first > u64::MAX - second {
        u64::MAX
    } else {
        first + second
    }
}

/// The weight of an expression, as far as a machine can hold it.
pub fn weight_of_exp(exp: &Exp) -> (weight: u64)
    ensures
        weight == capped(exp_weight(exp@)),
    decreases exp,
{
    proof {
        reveal_with_fuel(exp_view, 2);
    }
    match exp {
        Exp::BinOp { left, right, .. } => {
            let first = weight_of_exp(left);
            let second = weight_of_exp(right);
            add_capped(add_capped(first, second), 2)
        },
        Exp::Mem(address) => add_capped(weight_of_exp(address), 1),
        Exp::Call(function, arguments) => {
            let mut total = add_capped(weight_of_exp(function), 1);
            let mut index: usize = 0;
            assert(operands_weight(exp@, 1) == operands_weight(exp@, 0) + exp_weight(
                operand_at(exp@, 0),
            ) + 1);
            while index < arguments.len()
                invariant
                    index <= arguments@.len(),
                    exp is Call,
                    exp->Call_1 == *arguments,
                    arity(exp@) == arguments@.len(),
                    total == capped(operands_weight(exp@, (index + 1) as nat)),
                decreases arguments@.len() - index,
            {
                proof {
                    vstd::std_specs::vec::axiom_vec_index_decreases(*arguments, index as int);
                    assert(operand_at(exp@, index + 1) == arguments@[index as int]@);
                }
                let next = weight_of_exp(&arguments[index]);
                let place = add_capped(index as u64, 2);
                total = add_capped(add_capped(total, next), place);
                index = index + 1;
            }
            add_capped(total, 1)
        },
        Exp::ExpSequence(statement, value) => {
            let first = weight_of_statement(statement);
            let second = weight_of_exp(value);
            add_capped(first, second)
        },
        _ => 1,
    }
}

/// The weight of a statement, as far as a machine can hold it.
pub fn weight_of_statement(statement: &Statement) -> (weight: u64)
    ensures
        weight == capped(stm_weight(statement@)),
    decreases statement,
{
    proof {
        reveal_with_fuel(statement_view, 2);
    }
    match statement {
        Statement::Move(destination, source) => {
            let first = weight_of_exp(destination);
            let second = weight_of_exp(source);
            add_capped(add_capped(first, second), 2)
        },
        Statement::Exp(value) => add_capped(weight_of_exp(value), 1),
        Statement::Jump(target, _) => add_capped(weight_of_exp(target), 1),
        Statement::CondJump { left, right, .. } => {
            let first = weight_of_exp(left);
            let second = weight_of_exp(right);
            add_capped(add_capped(first, second), 2)
        },
        Statement::Sequence(first, second) => {
            let first = weight_of_statement(first);
            let second = weight_of_statement(second);
            add_capped(first, second)
        },
        Statement::Label(_) => 1,
    }
}

} // verus!
