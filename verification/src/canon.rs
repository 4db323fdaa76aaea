//! Canonical form: the body of a function as a list of statements without
//! nested sequences, in which no expression holds a statement and every
//! call stands alone; then as basic blocks; then as traces in which every
//! conditional jump is followed by its false label.

use vstd::prelude::*;
use crate::codegen::fresh;
use crate::ir::{
    copy_labels, exp_view, exp_views, label_views, statement_view, statement_views, BinOp, Exp, ExpView,
    RelationalOp, Statement, StatementView,
};
use crate::temp::{Gensym, Label, LabelView, Temp};

verus! {

/// An expression with the statements that have to run before it.
pub struct Parts {
    pub stms: Seq<StatementView>,
    pub exp: ExpView,
    pub temps: int,
}

/// Expressions with the statements that have to run before them.
pub struct ListParts {
    pub stms: Seq<StatementView>,
    pub exps: Seq<ExpView>,
    pub temps: int,
}

/// Statements, with the last temporary taken from the supply.
pub struct Flat {
    pub stms: Seq<StatementView>,
    pub temps: int,
}

/// Whether the statement moves a value into the temporary `temp`.
pub open spec fn writes(statement: StatementView, temp: Temp) -> bool {
    statement is Move && statement->Move_0 == ExpView::Temp(temp)
}

/// Whether one of the statements moves a value into `temp`.
pub open spec fn defines(stms: Seq<StatementView>, temp: Temp) -> bool {
    exists|i: int| 0 <= i < stms.len() && writes(#[trigger] stms[i], temp)
}

/// Whether running the statements before the expression is computed,
/// instead of after, leaves its value as it was: there are no statements,
/// or the expression is a constant, a name, or a temporary that none of the
/// statements moves a value into.
pub open spec fn commutes(stms: Seq<StatementView>, exp: ExpView) -> bool {
    stms.len() == 0 || exp is Const || exp is Name || (exp is Temp && !defines(stms, exp->Temp_0))
}

/// The expression as it can stand before the statements: itself if it
/// commutes with them, else a fresh temporary that it is moved into.
pub open spec fn saved(exp: ExpView, stms: Seq<StatementView>, temps: int) -> Parts {
    if commutes(stms, exp) {
        Parts { stms: Seq::empty(), exp, temps }
    } else {
        Parts {
            stms: seq![StatementView::Move(ExpView::Temp(fresh(temps)), exp)],
            exp: ExpView::Temp(fresh(temps)),
            temps: temps + 1,
        }
    }
}

/// The expressions as they can stand before the statements.
pub open spec fn saved_all(exps: Seq<ExpView>, stms: Seq<StatementView>, temps: int) -> ListParts
    decreases exps.len(),
{
    if exps.len() == 0 {
        ListParts { stms: Seq::empty(), exps: Seq::empty(), temps }
    } else {
        let before = saved_all(exps.drop_last(), stms, temps);
        let last = saved(exps.last(), stms, before.temps);
        ListParts {
            stms: before.stms + last.stms,
            exps: before.exps.push(last.exp),
            temps: last.temps,
        }
    }
}

/// The number of arguments of a call; zero for any other expression.
pub open spec fn arity(exp: ExpView) -> nat {
    match exp {
        ExpView::Call(_, arguments) => arguments.len(),
        _ => 0,
    }
}

/// The function of a call, then its arguments.
pub open spec fn operand_at(call: ExpView, index: int) -> ExpView {
    if index == 0 {
        *call->Call_0
    } else {
        call->Call_1[index - 1]
    }
}

/// The canonical form of an expression: the statements that it held, in
/// the order in which they ran, and what is left of the expression. A call
/// may be all that is left; none is left inside.
pub open spec fn canon_exp(exp: ExpView, temps: int) -> Parts
    decreases exp, arity(exp) + 2,
{
    match exp {
        ExpView::BinOp { op, left, right } => {
            let first = canon_operand(*left, temps);
            let second = canon_operand(*right, first.temps);
            let kept = saved(first.exp, second.stms, second.temps);
            Parts {
                stms: first.stms + kept.stms + second.stms,
                exp: ExpView::BinOp { op, left: Box::new(kept.exp), right: Box::new(second.exp) },
                temps: kept.temps,
            }
        },
        ExpView::Mem(address) => {
            let inner = canon_operand(*address, temps);
            Parts { stms: inner.stms, exp: ExpView::Mem(Box::new(inner.exp)), temps: inner.temps }
        },
        ExpView::Call(function, arguments) => {
            let operands = canon_operands(exp, arguments.len() + 1, temps);
            Parts {
                stms: operands.stms,
                exp: ExpView::Call(
                    Box::new(operands.exps[0]),
                    operands.exps.subrange(1, operands.exps.len() as int),
                ),
                temps: operands.temps,
            }
        },
        ExpView::ExpSequence(statement, value) => {
            let first = canon_stm(*statement, temps);
            let second = canon_exp(*value, first.temps);
            Parts { stms: first.stms + second.stms, exp: second.exp, temps: second.temps }
        },
        _ => Parts { stms: Seq::empty(), exp, temps },
    }
}

/// The canonical form of an expression that is a part of another: if a
/// call is left of it, the result of the call is moved into a fresh
/// temporary, which stands for it.
pub open spec fn canon_operand(exp: ExpView, temps: int) -> Parts
    decreases exp, arity(exp) + 3,
{
    let whole = canon_exp(exp, temps);
    if whole.exp is Call {
        Parts {
            stms: whole.stms.push(StatementView::Move(ExpView::Temp(fresh(whole.temps)), whole.exp)),
            exp: ExpView::Temp(fresh(whole.temps)),
            temps: whole.temps + 1,
        }
    } else {
        whole
    }
}

/// The canonical form of the first `upto` operands of a call: each operand
/// is made canonical in turn, and the operands before it that do not
/// commute with its statements are saved first.
pub open spec fn canon_operands(call: ExpView, upto: nat, temps: int) -> ListParts
    decreases call, upto,
{
    if upto == 0 || upto > arity(call) + 1 || !(call is Call) {
        ListParts { stms: Seq::empty(), exps: Seq::empty(), temps }
    } else {
        let before = canon_operands(call, (upto - 1) as nat, temps);
        let next = canon_operand(operand_at(call, upto - 1), before.temps);
        let kept = saved_all(before.exps, next.stms, next.temps);
        ListParts {
            stms: before.stms + kept.stms + next.stms,
            exps: kept.exps.push(next.exp),
            temps: kept.temps,
        }
    }
}

/// The canonical form of the destination of a move.
pub open spec fn canon_dest(exp: ExpView, temps: int) -> Parts
    decreases exp, arity(exp) + 4,
{
    match exp {
        ExpView::ExpSequence(statement, value) => {
            let first = canon_stm(*statement, temps);
            let second = canon_dest(*value, first.temps);
            Parts { stms: first.stms + second.stms, exp: second.exp, temps: second.temps }
        },
        ExpView::Mem(address) => {
            let inner = canon_operand(*address, temps);
            Parts { stms: inner.stms, exp: ExpView::Mem(Box::new(inner.exp)), temps: inner.temps }
        },
        _ => canon_operand(exp, temps),
    }
}

/// The canonical form of a statement: a list of statements without
/// sequences.
pub open spec fn canon_stm(statement: StatementView, temps: int) -> Flat
    decreases statement, 0nat,
{
    match statement {
        StatementView::Move(destination, source) => {
            let place = canon_dest(destination, temps);
            let value = if place.exp is Temp {
                canon_exp(source, place.temps)
            } else {
                canon_operand(source, place.temps)
            };
            if place.exp is Mem {
                let kept = saved(*place.exp->Mem_0, value.stms, value.temps);
                Flat {
                    stms: (place.stms + kept.stms + value.stms).push(
                        StatementView::Move(ExpView::Mem(Box::new(kept.exp)), value.exp),
                    ),
                    temps: kept.temps,
                }
            } else {
                Flat {
                    stms: (place.stms + value.stms).push(StatementView::Move(place.exp, value.exp)),
                    temps: value.temps,
                }
            }
        },
        StatementView::Exp(value) => {
            let value = canon_exp(value, temps);
            if value.exp is Const {
                Flat { stms: value.stms, temps: value.temps }
            } else {
                Flat { stms: value.stms.push(StatementView::Exp(value.exp)), temps: value.temps }
            }
        },
        StatementView::Jump(target, labels) => {
            let target = canon_operand(target, temps);
            Flat {
                stms: target.stms.push(StatementView::Jump(target.exp, labels)),
                temps: target.temps,
            }
        },
        StatementView::CondJump { op, left, right, true_label, false_label } => {
            let first = canon_operand(left, temps);
            let second = canon_operand(right, first.temps);
            let kept = saved(first.exp, second.stms, second.temps);
            Flat {
                stms: (first.stms + kept.stms + second.stms).push(
                    StatementView::CondJump {
                        op,
                        left: kept.exp,
                        right: second.exp,
                        true_label,
                        false_label,
                    },
                ),
                temps: kept.temps,
            }
        },
        StatementView::Sequence(first, second) => {
            let first = canon_stm(*first, temps);
            let second = canon_stm(*second, first.temps);
            Flat { stms: first.stms + second.stms, temps: second.temps }
        },
        StatementView::Label(label) => Flat { stms: seq![statement], temps },
    }
}

/// Whether the expression holds no call and no statement.
pub open spec fn call_free(exp: ExpView) -> bool
    decreases exp,
{
    match exp {
        ExpView::BinOp { op, left, right } => call_free(*left) && call_free(*right),
        ExpView::Mem(address) => call_free(*address),
        ExpView::Call(_, _) => false,
        ExpView::ExpSequence(_, _) => false,
        _ => true,
    }
}

/// Whether the expression is a call whose function and arguments hold no
/// call and no statement.
pub open spec fn flat_call(exp: ExpView) -> bool {
    &&& exp is Call
    &&& call_free(*exp->Call_0)
    &&& forall|i: int| 0 <= i < exp->Call_1.len() ==> call_free(#[trigger] exp->Call_1[i])
}

/// Whether the statement is canonical: it is no sequence, its expressions
/// hold no statement, and a call stands only as all of an expression
/// statement or as all that is moved into a temporary.
pub open spec fn canonical(statement: StatementView) -> bool {
    match statement {
        StatementView::Move(destination, source) => call_free(destination) && (call_free(source) || (
        destination is Temp && flat_call(source))),
        StatementView::Exp(value) => call_free(value) || flat_call(value),
        StatementView::Jump(target, _) => call_free(target),
        StatementView::CondJump { left, right, .. } => call_free(left) && call_free(right),
        StatementView::Sequence(_, _) => false,
        StatementView::Label(_) => true,
    }
}

/// Whether every statement of the list is canonical.
pub open spec fn all_canonical(stms: Seq<StatementView>) -> bool {
    forall|i: int| 0 <= i < stms.len() ==> canonical(#[trigger] stms[i])
}

/// Whether every expression of the list holds no call and no statement.
pub open spec fn all_call_free(exps: Seq<ExpView>) -> bool {
    forall|i: int| 0 <= i < exps.len() ==> call_free(#[trigger] exps[i])
}

/// Saving an expression that holds no call gives a canonical move, and an
/// expression that holds no call.
pub proof fn lemma_saved(exp: ExpView, stms: Seq<StatementView>, temps: int)
    requires
        call_free(exp),
    ensures
        all_canonical(saved(exp, stms, temps).stms),
        call_free(saved(exp, stms, temps).exp),
        saved(exp, stms, temps).temps >= temps,
{
}

/// Saving expressions that hold no call gives canonical moves, and
/// expressions that hold no call.
pub proof fn lemma_saved_all(exps: Seq<ExpView>, stms: Seq<StatementView>, temps: int)
    requires
        all_call_free(exps),
    ensures
        all_canonical(saved_all(exps, stms, temps).stms),
        all_call_free(saved_all(exps, stms, temps).exps),
        saved_all(exps, stms, temps).exps.len() == exps.len(),
        saved_all(exps, stms, temps).temps >= temps,
    decreases exps.len(),
{
    if exps.len() > 0 {
        assert(all_call_free(exps.drop_last())) by {
            assert forall|i: int| 0 <= i < exps.drop_last().len() implies call_free(
                #[trigger] exps.drop_last()[i],
            ) by {
                assert(exps.drop_last()[i] == exps[i]);
            }
        }
        lemma_saved_all(exps.drop_last(), stms, temps);
        let before = saved_all(exps.drop_last(), stms, temps);
        assert(call_free(exps[exps.len() - 1]));
        lemma_saved(exps.last(), stms, before.temps);
    }
}

/// The canonical form of an expression is canonical: its statements are,
/// and what is left of it holds no statement, and no call unless it is one.
pub proof fn lemma_canon_exp(exp: ExpView, temps: int)
    ensures
        all_canonical(canon_exp(exp, temps).stms),
        call_free(canon_exp(exp, temps).exp) || flat_call(canon_exp(exp, temps).exp),
        canon_exp(exp, temps).temps >= temps,
    decreases exp, arity(exp) + 2,
{
    match exp {
        ExpView::BinOp { op, left, right } => {
            lemma_canon_operand(*left, temps);
            let first = canon_operand(*left, temps);
            lemma_canon_operand(*right, first.temps);
            let second = canon_operand(*right, first.temps);
            lemma_saved(first.exp, second.stms, second.temps);
        },
        ExpView::Mem(address) => {
            lemma_canon_operand(*address, temps);
        },
        ExpView::Call(function, arguments) => {
            lemma_canon_operands(exp, arguments.len() + 1, temps);
            let operands = canon_operands(exp, arguments.len() + 1, temps);
            let result = canon_exp(exp, temps).exp;
            assert(call_free(operands.exps[0]));
            assert forall|i: int| 0 <= i < result->Call_1.len() implies call_free(
                #[trigger] result->Call_1[i],
            ) by {
                assert(result->Call_1[i] == operands.exps[i + 1]);
            }
            assert(flat_call(result));
        },
        ExpView::ExpSequence(statement, value) => {
            lemma_canon_stm(*statement, temps);
            lemma_canon_exp(*value, canon_stm(*statement, temps).temps);
        },
        _ => {},
    }
}

/// The canonical form of a part of an expression is canonical and holds no
/// call.
pub proof fn lemma_canon_operand(exp: ExpView, temps: int)
    ensures
        all_canonical(canon_operand(exp, temps).stms),
        call_free(canon_operand(exp, temps).exp),
        canon_operand(exp, temps).temps >= temps,
    decreases exp, arity(exp) + 3,
{
    lemma_canon_exp(exp, temps);
}

/// The canonical form of the operands of a call is canonical and holds no
/// call.
pub proof fn lemma_canon_operands(call: ExpView, upto: nat, temps: int)
    ensures
        all_canonical(canon_operands(call, upto, temps).stms),
        all_call_free(canon_operands(call, upto, temps).exps),
        call is Call && upto <= arity(call) + 1 ==> canon_operands(call, upto, temps).exps.len()
            == upto,
        canon_operands(call, upto, temps).temps >= temps,
    decreases call, upto,
{
    if upto == 0 || upto > arity(call) + 1 || !(call is Call) {
    } else {
        lemma_canon_operands(call, (upto - 1) as nat, temps);
        let before = canon_operands(call, (upto - 1) as nat, temps);
        lemma_canon_operand(operand_at(call, upto - 1), before.temps);
        let next = canon_operand(operand_at(call, upto - 1), before.temps);
        lemma_saved_all(before.exps, next.stms, next.temps);
    }
}

/// The canonical form of a destination is canonical and holds no call.
pub proof fn lemma_canon_dest(exp: ExpView, temps: int)
    ensures
        all_canonical(canon_dest(exp, temps).stms),
        call_free(canon_dest(exp, temps).exp),
        canon_dest(exp, temps).temps >= temps,
    decreases exp, arity(exp) + 4,
{
    match exp {
        ExpView::ExpSequence(statement, value) => {
            lemma_canon_stm(*statement, temps);
            lemma_canon_dest(*value, canon_stm(*statement, temps).temps);
        },
        ExpView::Mem(address) => {
            lemma_canon_operand(*address, temps);
        },
        _ => {
            lemma_canon_operand(exp, temps);
        },
    }
}

/// The canonical form of a statement is canonical: no statement of the
/// list is a sequence, no expression in it holds a statement, and every
/// call in it is all of an expression statement or all that is moved into
/// a temporary.
pub proof fn lemma_canon_stm(statement: StatementView, temps: int)
    ensures
        all_canonical(canon_stm(statement, temps).stms),
        canon_stm(statement, temps).temps >= temps,
    decreases statement, 0nat,
{
    match statement {
        StatementView::Move(destination, source) => {
            lemma_canon_dest(destination, temps);
            let place = canon_dest(destination, temps);
            if place.exp is Temp {
                lemma_canon_exp(source, place.temps);
            } else {
                lemma_canon_operand(source, place.temps);
            }
            let value = if place.exp is Temp {
                canon_exp(source, place.temps)
            } else {
                canon_operand(source, place.temps)
            };
            if place.exp is Mem {
                lemma_saved(*place.exp->Mem_0, value.stms, value.temps);
            }
        },
        StatementView::Exp(value) => {
            lemma_canon_exp(value, temps);
        },
        StatementView::Jump(target, labels) => {
            lemma_canon_operand(target, temps);
        },
        StatementView::CondJump { op, left, right, true_label, false_label } => {
            lemma_canon_operand(left, temps);
            let first = canon_operand(left, temps);
            lemma_canon_operand(right, first.temps);
            let second = canon_operand(right, first.temps);
            lemma_saved(first.exp, second.stms, second.temps);
        },
        StatementView::Sequence(first, second) => {
            lemma_canon_stm(*first, temps);
            lemma_canon_stm(*second, canon_stm(*first, temps).temps);
        },
        StatementView::Label(label) => {},
    }
}

/// The views of two lists, one after the other, are the views of the
/// lists put together.
pub proof fn lemma_views_append(first: Seq<Statement>, second: Seq<Statement>)
    ensures
        statement_views(first + second) == statement_views(first) + statement_views(second),
{
    assert(statement_views(first + second) =~= statement_views(first) + statement_views(second));
}

/// Puts the statements of `more` after those of `stms`.
fn append(stms: &mut Vec<Statement>, more: Vec<Statement>)
    ensures
        statement_views(final(stms)@) == statement_views(old(stms)@) + statement_views(more@),
{
    let mut more = more;
    proof {
        lemma_views_append(stms@, more@);
    }
    stms.append(&mut more);
}

/// Puts one statement after those of `stms`.
fn push(stms: &mut Vec<Statement>, statement: Statement)
    ensures
        statement_views(final(stms)@) == statement_views(old(stms)@).push(statement@),
{
    stms.push(statement);
    assert(statement_views(stms@) =~= statement_views(old(stms)@).push(statement@));
}

/// Whether one of the statements moves a value into `temp`.
fn defines_temp(stms: &Vec<Statement>, temp: Temp) -> (result: bool)
    ensures
        result == defines(statement_views(stms@), temp),
{
    let ghost views = statement_views(stms@);
    let mut index: usize = 0;
    while index < stms.len()
        invariant
            index <= stms@.len(),
            views == statement_views(stms@),
            forall|i: int| 0 <= i < index ==> !writes(#[trigger] views[i], temp),
        decreases stms@.len() - index,
    {
        proof {
            reveal_with_fuel(statement_view, 2);
            reveal_with_fuel(exp_view, 2);
        }
        let found = match &stms[index] {
            Statement::Move(destination, _) => match destination {
                Exp::Temp(other) => other.num == temp.num,
                _ => false,
            },
            _ => false,
        };
        if found {
            assert(writes(views[index as int], temp));
            return true;
        }
        index = index + 1;
    }
    false
}

/// Whether running the statements before the expression is computed leaves
/// its value as it was.
fn commutes_with(stms: &Vec<Statement>, exp: &Exp) -> (result: bool)
    ensures
        result == commutes(statement_views(stms@), exp@),
{
    proof {
        reveal_with_fuel(exp_view, 2);
    }
    if stms.len() == 0 {
        return true;
    }
    match exp {
        Exp::Const(_) => true,
        Exp::Name(_) => true,
        Exp::Temp(temp) => !defines_temp(stms, *temp),
        _ => false,
    }
}

/// The expression as it can stand before the statements.
fn save(exp: Exp, stms: &Vec<Statement>, gensym: &mut Gensym) -> (result: (Vec<Statement>, Exp))
    requires
        saved(exp@, statement_views(stms@), old(gensym).temps as int).temps <= u32::MAX,
    ensures
        statement_views(result.0@) == saved(
            exp@,
            statement_views(stms@),
            old(gensym).temps as int,
        ).stms,
        result.1@ == saved(exp@, statement_views(stms@), old(gensym).temps as int).exp,
        *final(gensym) == (Gensym {
            temps: saved(exp@, statement_views(stms@), old(gensym).temps as int).temps as u32,
            ..*old(gensym)
        }),
{
    proof {
        reveal_with_fuel(exp_view, 2);
        reveal_with_fuel(statement_view, 2);
    }
    if commutes_with(stms, &exp) {
        let moves: Vec<Statement> = Vec::new();
        assert(statement_views(moves@) =~= Seq::<StatementView>::empty());
        (moves, exp)
    } else {
        let temp = Temp::new(gensym);
        let mut moves: Vec<Statement> = Vec::new();
        let statement = Statement::Move(Exp::Temp(temp), exp);
        moves.push(statement);
        assert(statement_views(moves@) =~= seq![
            StatementView::Move(ExpView::Temp(temp), exp@),
        ]);
        (moves, Exp::Temp(temp))
    }
}

/// Saving takes temporaries from the supply and gives none back.
pub proof fn lemma_saved_all_grows(exps: Seq<ExpView>, stms: Seq<StatementView>, temps: int)
    ensures
        saved_all(exps, stms, temps).temps >= temps,
        saved_all(exps, stms, temps).exps.len() == exps.len(),
    decreases exps.len(),
{
    if exps.len() > 0 {
        lemma_saved_all_grows(exps.drop_last(), stms, temps);
    }
}

/// The expressions as they can stand before the statements.
fn save_all(exps: &Vec<Exp>, stms: &Vec<Statement>, gensym: &mut Gensym) -> (result: (
    Vec<Statement>,
    Vec<Exp>,
))
    requires
        saved_all(exp_views(exps@), statement_views(stms@), old(gensym).temps as int).temps
            <= u32::MAX,
    ensures
        statement_views(result.0@) == saved_all(
            exp_views(exps@),
            statement_views(stms@),
            old(gensym).temps as int,
        ).stms,
        exp_views(result.1@) == saved_all(
            exp_views(exps@),
            statement_views(stms@),
            old(gensym).temps as int,
        ).exps,
        *final(gensym) == (Gensym {
            temps: saved_all(
                exp_views(exps@),
                statement_views(stms@),
                old(gensym).temps as int,
            ).temps as u32,
            ..*old(gensym)
        }),
{
    let ghost views = exp_views(exps@);
    let ghost others = statement_views(stms@);
    let ghost start = gensym.temps as int;
    let mut moves: Vec<Statement> = Vec::new();
    let mut kept: Vec<Exp> = Vec::new();
    let mut index: usize = 0;
    assert(statement_views(moves@) =~= Seq::<StatementView>::empty());
    assert(exp_views(kept@) =~= Seq::<ExpView>::empty());
    while index < exps.len()
        invariant
            index <= exps@.len(),
            views == exp_views(exps@),
            others == statement_views(stms@),
            0 <= start,
            saved_all(views, others, start).temps <= u32::MAX,
            statement_views(moves@) == saved_all(views.subrange(0, index as int), others, start).stms,
            exp_views(kept@) == saved_all(views.subrange(0, index as int), others, start).exps,
            *gensym == (Gensym {
                temps: saved_all(views.subrange(0, index as int), others, start).temps as u32,
                ..*old(gensym)
            }),
            start <= saved_all(views.subrange(0, index as int), others, start).temps <= u32::MAX,
        decreases exps@.len() - index,
    {
        proof {
            let longer = views.subrange(0, index + 1);
            assert(longer.drop_last() =~= views.subrange(0, index as int));
            assert(longer.last() == exps@[index as int]@);
            lemma_saved_all_chain(views, others, start, index + 1);
            lemma_saved_all_grows(longer, others, start);
        }
        let (more, exp) = save(exps[index].copy(), stms, gensym);
        let ghost before = exp_views(kept@);
        append(&mut moves, more);
        kept.push(exp);
        assert(exp_views(kept@) =~= before.push(exp@));
        index = index + 1;
    }
    assert(views.subrange(0, index as int) =~= views);
    (moves, kept)
}

/// Saving the first expressions of a list takes no more temporaries than
/// saving all of them.
pub proof fn lemma_saved_all_chain(
    exps: Seq<ExpView>,
    stms: Seq<StatementView>,
    temps: int,
    upto: int,
)
    requires
        0 <= upto <= exps.len(),
    ensures
        saved_all(exps.subrange(0, upto), stms, temps).temps <= saved_all(exps, stms, temps).temps,
    decreases exps.len() - upto,
{
    if upto < exps.len() {
        lemma_saved_all_chain(exps, stms, temps, upto + 1);
        let longer = exps.subrange(0, upto + 1);
        assert(longer.drop_last() =~= exps.subrange(0, upto));
    } else {
        assert(exps.subrange(0, upto) =~= exps);
    }
}

/// Puts an expression into canonical form: gives the statements that it
/// held and what is left of it.
pub fn do_exp(exp: &Exp, gensym: &mut Gensym) -> (result: (Vec<Statement>, Exp))
    requires
        canon_exp(exp@, old(gensym).temps as int).temps <= u32::MAX,
    ensures
        statement_views(result.0@) == canon_exp(exp@, old(gensym).temps as int).stms,
        result.1@ == canon_exp(exp@, old(gensym).temps as int).exp,
        *final(gensym) == (Gensym {
            temps: canon_exp(exp@, old(gensym).temps as int).temps as u32,
            ..*old(gensym)
        }),
    decreases exp, arity(exp@) + 2,
{
    let ghost start = gensym.temps as int;
    proof {
        reveal_with_fuel(exp_view, 2);
    }
    match exp {
        Exp::BinOp { op, left, right } => {
            proof {
                lemma_canon_operand(left@, start);
                lemma_canon_operand(right@, canon_operand(left@, start).temps);
                let first = canon_operand(left@, start);
                let second = canon_operand(right@, first.temps);
                lemma_canon_operand(left@, start);
                assert(saved(first.exp, second.stms, second.temps).temps >= second.temps);
            }
            let (mut stms, first) = do_operand(left, gensym);
            let (more, second) = do_operand(right, gensym);
            let (moves, kept) = save(first, &more, gensym);
            append(&mut stms, moves);
            append(&mut stms, more);
            (stms, Exp::BinOp { op: *op, left: Box::new(kept), right: Box::new(second) })
        },
        Exp::Mem(address) => {
            let (stms, inner) = do_operand(address, gensym);
            (stms, Exp::Mem(Box::new(inner)))
        },
        Exp::Call(function, arguments) => {
            let (stms, operands) = do_operands(exp, arguments.len(), gensym);
            proof {
                lemma_canon_operands(exp@, arguments@.len() + 1, start);
            }
            let mut operands = operands;
            let ghost all = exp_views(operands@);
            let first = operands.remove(0);
            let call = Exp::Call(Box::new(first), operands);
            assert(call@->Call_1 =~= all.subrange(1, all.len() as int));
            (stms, call)
        },
        Exp::ExpSequence(statement, value) => {
            proof {
                lemma_canon_stm(statement@, start);
                lemma_canon_exp(value@, canon_stm(statement@, start).temps);
            }
            let mut stms = do_stm(statement, gensym);
            let (more, value) = do_exp(value, gensym);
            append(&mut stms, more);
            (stms, value)
        },
        _ => {
            let stms: Vec<Statement> = Vec::new();
            assert(statement_views(stms@) =~= Seq::<StatementView>::empty());
            (stms, exp.copy())
        },
    }
}

/// Puts an expression that is a part of another into canonical form.
pub fn do_operand(exp: &Exp, gensym: &mut Gensym) -> (result: (Vec<Statement>, Exp))
    requires
        canon_operand(exp@, old(gensym).temps as int).temps <= u32::MAX,
    ensures
        statement_views(result.0@) == canon_operand(exp@, old(gensym).temps as int).stms,
        result.1@ == canon_operand(exp@, old(gensym).temps as int).exp,
        *final(gensym) == (Gensym {
            temps: canon_operand(exp@, old(gensym).temps as int).temps as u32,
            ..*old(gensym)
        }),
    decreases exp, arity(exp@) + 3,
{
    let ghost start = gensym.temps as int;
    proof {
        lemma_canon_exp(exp@, start);
    }
    let (mut stms, whole) = do_exp(exp, gensym);
    let is_call = match &whole {
        Exp::Call(_, _) => true,
        _ => false,
    };
    proof {
        reveal_with_fuel(exp_view, 2);
        reveal_with_fuel(statement_view, 2);
    }
    if is_call {
        let temp = Temp::new(gensym);
        push(&mut stms, Statement::Move(Exp::Temp(temp), whole));
        (stms, Exp::Temp(temp))
    } else {
        (stms, whole)
    }
}

/// The function of a call, then its arguments.
fn operand_of(call: &Exp, index: usize) -> (operand: &Exp)
    requires
        call is Call,
        index <= arity(call@),
    ensures
        operand@ == operand_at(call@, index as int),
        decreases_to!(call => operand),
{
    proof {
        reveal_with_fuel(exp_view, 2);
    }
    match call {
        Exp::Call(function, arguments) => {
            if index == 0 {
                &**function
            } else {
                proof {
                    vstd::std_specs::vec::axiom_vec_index_decreases(*arguments, index - 1);
                }
                &arguments[index - 1]
            }
        },
        _ => call,
    }
}

/// Puts the operands of a call up to the one at `last` into canonical
/// form.
pub fn do_operands(call: &Exp, last: usize, gensym: &mut Gensym) -> (result: (Vec<Statement>, Vec<Exp>))
    requires
        call is Call,
        last <= arity(call@),
        canon_operands(call@, (last + 1) as nat, old(gensym).temps as int).temps <= u32::MAX,
    ensures
        statement_views(result.0@) == canon_operands(
            call@,
            (last + 1) as nat,
            old(gensym).temps as int,
        ).stms,
        exp_views(result.1@) == canon_operands(
            call@,
            (last + 1) as nat,
            old(gensym).temps as int,
        ).exps,
        *final(gensym) == (Gensym {
            temps: canon_operands(call@, (last + 1) as nat, old(gensym).temps as int).temps as u32,
            ..*old(gensym)
        }),
    decreases call, last,
{
    let ghost start = gensym.temps as int;
    proof {
        lemma_canon_operands(call@, last as nat, start);
        let before = canon_operands(call@, last as nat, start);
        lemma_canon_operand(operand_at(call@, last as int), before.temps);
        let next = canon_operand(operand_at(call@, last as int), before.temps);
        lemma_saved_all_grows(before.exps, next.stms, next.temps);
    }
    let (mut stms, exps) = if last == 0 {
        let stms: Vec<Statement> = Vec::new();
        let exps: Vec<Exp> = Vec::new();
        assert(statement_views(stms@) =~= Seq::<StatementView>::empty());
        assert(exp_views(exps@) =~= Seq::<ExpView>::empty());
        (stms, exps)
    } else {
        do_operands(call, last - 1, gensym)
    };
    let operand = operand_of(call, last);
    let (more, next) = do_operand(operand, gensym);
    let (moves, kept) = save_all(&exps, &more, gensym);
    append(&mut stms, moves);
    append(&mut stms, more);
    let mut kept = kept;
    let ghost before = exp_views(kept@);
    kept.push(next);
    assert(exp_views(kept@) =~= before.push(next@));
    (stms, kept)
}

/// Puts the destination of a move into canonical form.
pub fn do_dest(exp: &Exp, gensym: &mut Gensym) -> (result: (Vec<Statement>, Exp))
    requires
        canon_dest(exp@, old(gensym).temps as int).temps <= u32::MAX,
    ensures
        statement_views(result.0@) == canon_dest(exp@, old(gensym).temps as int).stms,
        result.1@ == canon_dest(exp@, old(gensym).temps as int).exp,
        *final(gensym) == (Gensym {
            temps: canon_dest(exp@, old(gensym).temps as int).temps as u32,
            ..*old(gensym)
        }),
    decreases exp, arity(exp@) + 4,
{
    let ghost start = gensym.temps as int;
    proof {
        reveal_with_fuel(exp_view, 2);
    }
    match exp {
        Exp::ExpSequence(statement, value) => {
            proof {
                lemma_canon_stm(statement@, start);
                lemma_canon_dest(value@, canon_stm(statement@, start).temps);
            }
            let mut stms = do_stm(statement, gensym);
            let (more, place) = do_dest(value, gensym);
            append(&mut stms, more);
            (stms, place)
        },
        Exp::Mem(address) => {
            let (stms, inner) = do_operand(address, gensym);
            (stms, Exp::Mem(Box::new(inner)))
        },
        _ => do_operand(exp, gensym),
    }
}

/// Puts a move into canonical form.
fn do_move(statement: &Statement, gensym: &mut Gensym) -> (stms: Vec<Statement>)
    requires
        statement is Move,
        canon_stm(statement@, old(gensym).temps as int).temps <= u32::MAX,
    ensures
        statement_views(stms@) == canon_stm(statement@, old(gensym).temps as int).stms,
        *final(gensym) == (Gensym {
            temps: canon_stm(statement@, old(gensym).temps as int).temps as u32,
            ..*old(gensym)
        }),
    decreases statement, 0nat,
{
    let ghost start = gensym.temps as int;
    proof {
        reveal_with_fuel(exp_view, 2);
        reveal_with_fuel(statement_view, 2);
    }
    match statement {
        Statement::Move(destination, source) => {
            proof {
                lemma_canon_dest(destination@, start);
                let place = canon_dest(destination@, start);
                lemma_canon_exp(source@, place.temps);
                lemma_canon_operand(source@, place.temps);
            }
            let (mut stms, place) = do_dest(destination, gensym);
            let to_temp = match &place {
                Exp::Temp(_) => true,
                _ => false,
            };
            let (more, value) = if to_temp {
                do_exp(source, gensym)
            } else {
                do_operand(source, gensym)
            };
            match place {
                Exp::Mem(address) => {
                    let (moves, kept) = save(*address, &more, gensym);
                    append(&mut stms, moves);
                    append(&mut stms, more);
                    push(&mut stms, Statement::Move(Exp::Mem(Box::new(kept)), value));
                    stms
                },
                place => {
                    append(&mut stms, more);
                    push(&mut stms, Statement::Move(place, value));
                    stms
                },
            }
        },
        _ => Vec::new(),
    }
}

/// Puts a statement into canonical form: gives the list of statements that
/// it stands for.
pub fn do_stm(statement: &Statement, gensym: &mut Gensym) -> (stms: Vec<Statement>)
    requires
        canon_stm(statement@, old(gensym).temps as int).temps <= u32::MAX,
    ensures
        statement_views(stms@) == canon_stm(statement@, old(gensym).temps as int).stms,
        *final(gensym) == (Gensym {
            temps: canon_stm(statement@, old(gensym).temps as int).temps as u32,
            ..*old(gensym)
        }),
    decreases statement, 1nat,
{
    let ghost start = gensym.temps as int;
    proof {
        reveal_with_fuel(exp_view, 2);
        reveal_with_fuel(statement_view, 2);
    }
    match statement {
        Statement::Move(_, _) => do_move(statement, gensym),
        Statement::Exp(value) => {
            let (mut stms, value) = do_exp(value, gensym);
            let constant = match &value {
                Exp::Const(_) => true,
                _ => false,
            };
            if !constant {
                push(&mut stms, Statement::Exp(value));
            }
            stms
        },
        Statement::Jump(target, labels) => {
            let (mut stms, target) = do_operand(target, gensym);
            push(&mut stms, Statement::Jump(target, copy_labels(labels)));
            stms
        },
        Statement::CondJump { op, left, right, true_label, false_label } => {
            proof {
                lemma_canon_operand(left@, start);
                let first = canon_operand(left@, start);
                lemma_canon_operand(right@, first.temps);
            }
            let (mut stms, first) = do_operand(left, gensym);
            let (more, second) = do_operand(right, gensym);
            let (moves, kept) = save(first, &more, gensym);
            append(&mut stms, moves);
            append(&mut stms, more);
            push(
                &mut stms,
                Statement::CondJump {
                    op: *op,
                    left: kept,
                    right: second,
                    true_label: true_label.copy(),
                    false_label: false_label.copy(),
                },
            );
            stms
        },
        Statement::Sequence(first, second) => {
            proof {
                lemma_canon_stm(first@, start);
                lemma_canon_stm(second@, canon_stm(first@, start).temps);
            }
            let mut stms = do_stm(first, gensym);
            let more = do_stm(second, gensym);
            append(&mut stms, more);
            stms
        },
        Statement::Label(label) => {
            let mut stms: Vec<Statement> = Vec::new();
            stms.push(Statement::Label(label.copy()));
            assert(statement_views(stms@) =~= seq![statement@]);
            stms
        },
    }
}

/// The body of a function as a list of canonical statements: no statement
/// of the list is a sequence, no expression in it holds a statement, and
/// every call in it is all of an expression statement or all that is moved
/// into a temporary.
pub fn linearize(statement: Statement, gensym: &mut Gensym) -> (stms: Vec<Statement>)
    requires
        canon_stm(statement@, old(gensym).temps as int).temps <= u32::MAX,
    ensures
        statement_views(stms@) == canon_stm(statement@, old(gensym).temps as int).stms,
        all_canonical(statement_views(stms@)),
        *final(gensym) == (Gensym {
            temps: canon_stm(statement@, old(gensym).temps as int).temps as u32,
            ..*old(gensym)
        }),
{
    proof {
        lemma_canon_stm(statement@, gensym.temps as int);
    }
    do_stm(&statement, gensym)
}

/// The numbered label that the supply hands out after `labels`.
pub open spec fn fresh_label(labels: int) -> LabelView {
    LabelView::Num((labels + 1) as u32)
}

/// The jump to a label.
pub open spec fn jump_to(label: LabelView) -> StatementView {
    StatementView::Jump(ExpView::Name(label), seq![label])
}

/// Whether the statement is a jump, conditional or not.
pub open spec fn is_branch(statement: StatementView) -> bool {
    statement is Jump || statement is CondJump
}

/// The blocks that are complete, the block that is being filled, and the
/// last label taken from the supply.
pub struct BlockState {
    pub blocks: Seq<Seq<StatementView>>,
    pub open: Option<Seq<StatementView>>,
    pub labels: int,
}

/// The block that is being filled, opened with a fresh label if there is
/// none.
pub open spec fn opened(state: BlockState) -> BlockState {
    if state.open is Some {
        state
    } else {
        BlockState {
            blocks: state.blocks,
            open: Some(seq![StatementView::Label(fresh_label(state.labels))]),
            labels: state.labels + 1,
        }
    }
}

/// The blocks after one more statement: a label closes the block that is
/// being filled with a jump to it and opens the next; a jump closes the
/// block; any other statement is added to the block.
pub open spec fn add_statement(state: BlockState, statement: StatementView) -> BlockState {
    if statement is Label {
        BlockState {
            blocks: match state.open {
                Some(block) => state.blocks.push(block.push(jump_to(statement->Label_0))),
                None => state.blocks,
            },
            open: Some(seq![statement]),
            labels: state.labels,
        }
    } else if is_branch(statement) {
        let ready = opened(state);
        BlockState {
            blocks: ready.blocks.push(ready.open->0.push(statement)),
            open: None,
            labels: ready.labels,
        }
    } else {
        let ready = opened(state);
        BlockState {
            blocks: ready.blocks,
            open: Some(ready.open->0.push(statement)),
            labels: ready.labels,
        }
    }
}

/// The blocks of a list of statements, the last of which may be unfinished.
pub open spec fn split(stms: Seq<StatementView>, labels: int) -> BlockState
    decreases stms.len(),
{
    if stms.len() == 0 {
        BlockState { blocks: Seq::empty(), open: None, labels }
    } else {
        add_statement(split(stms.drop_last(), labels), stms.last())
    }
}

/// The basic blocks of a list of statements, when the label at which the
/// list is left is `done`: the last block, if it is unfinished, jumps
/// there.
pub open spec fn blocks_of(stms: Seq<StatementView>, done: LabelView, labels: int) -> Seq<
    Seq<StatementView>,
> {
    let state = split(stms, labels);
    match state.open {
        Some(block) => state.blocks.push(block.push(jump_to(done))),
        None => state.blocks,
    }
}

/// Whether the statements begin a basic block: a label, then statements
/// that are neither labels nor jumps.
pub open spec fn block_begins(block: Seq<StatementView>) -> bool {
    &&& block.len() >= 1
    &&& block[0] is Label
    &&& forall|i: int| 1 <= i < block.len() ==> !(#[trigger] block[i] is Label) && !is_branch(block[i])
}

/// Whether the statements are a basic block: a label, then statements that
/// are neither labels nor jumps, then one jump.
pub open spec fn is_block(block: Seq<StatementView>) -> bool {
    &&& block.len() >= 2
    &&& block_begins(block.drop_last())
    &&& is_branch(block.last())
}

/// Whether every one of the lists is a basic block.
pub open spec fn all_blocks(blocks: Seq<Seq<StatementView>>) -> bool {
    forall|i: int| 0 <= i < blocks.len() ==> is_block(#[trigger] blocks[i])
}

/// Whether every statement of every block is canonical.
pub open spec fn blocks_canonical(blocks: Seq<Seq<StatementView>>) -> bool {
    forall|i: int| 0 <= i < blocks.len() ==> all_canonical(#[trigger] blocks[i])
}

/// Splitting gives basic blocks, the unfinished one begins one, and they
/// are canonical if the statements were.
pub proof fn lemma_split(stms: Seq<StatementView>, labels: int)
    ensures
        all_blocks(split(stms, labels).blocks),
        split(stms, labels).open matches Some(block) ==> block_begins(block),
        labels <= split(stms, labels).labels <= labels + stms.len(),
        all_canonical(stms) ==> blocks_canonical(split(stms, labels).blocks) && (split(
            stms,
            labels,
        ).open matches Some(block) ==> all_canonical(block)),
    decreases stms.len(),
{
    if stms.len() > 0 {
        let shorter = stms.drop_last();
        lemma_split(shorter, labels);
        let before = split(shorter, labels);
        let statement = stms.last();
        let after = add_statement(before, statement);
        if all_canonical(stms) {
            assert(all_canonical(shorter)) by {
                assert forall|i: int| 0 <= i < shorter.len() implies canonical(
                    #[trigger] shorter[i],
                ) by {
                    assert(shorter[i] == stms[i]);
                }
            }
            assert(canonical(stms[stms.len() - 1]));
        }
        if statement is Label {
            if before.open is Some {
                let block = before.open->0.push(jump_to(statement->Label_0));
                assert(block.drop_last() =~= before.open->0);
                assert(is_block(block));
                assert forall|i: int| 0 <= i < after.blocks.len() implies is_block(
                    #[trigger] after.blocks[i],
                ) by {
                    if i < before.blocks.len() {
                        assert(after.blocks[i] == before.blocks[i]);
                    }
                }
                if all_canonical(stms) {
                    assert(all_canonical(block));
                    assert forall|i: int| 0 <= i < after.blocks.len() implies all_canonical(
                        #[trigger] after.blocks[i],
                    ) by {
                        if i < before.blocks.len() {
                            assert(after.blocks[i] == before.blocks[i]);
                        }
                    }
                }
            }
        } else {
            let ready = opened(before);
            assert(block_begins(ready.open->0));
            let block = ready.open->0.push(statement);
            assert(block.drop_last() =~= ready.open->0);
            if is_branch(statement) {
                assert(is_block(block));
                assert forall|i: int| 0 <= i < after.blocks.len() implies is_block(
                    #[trigger] after.blocks[i],
                ) by {
                    if i < before.blocks.len() {
                        assert(after.blocks[i] == before.blocks[i]);
                    }
                }
            } else {
                assert(block_begins(block));
            }
            if all_canonical(stms) {
                assert(all_canonical(ready.open->0));
                assert(all_canonical(block));
                assert forall|i: int| 0 <= i < after.blocks.len() implies all_canonical(
                    #[trigger] after.blocks[i],
                ) by {
                    if i < before.blocks.len() {
                        assert(after.blocks[i] == before.blocks[i]);
                    }
                }
            }
        }
    }
}

/// The blocks of a list of statements are basic blocks, and canonical if
/// the statements were.
pub proof fn lemma_blocks_of(stms: Seq<StatementView>, done: LabelView, labels: int)
    ensures
        all_blocks(blocks_of(stms, done, labels)),
        all_canonical(stms) ==> blocks_canonical(blocks_of(stms, done, labels)),
{
    lemma_split(stms, labels);
    let state = split(stms, labels);
    let blocks = blocks_of(stms, done, labels);
    if state.open is Some {
        let block = state.open->0.push(jump_to(done));
        assert(block.drop_last() =~= state.open->0);
        assert(is_block(block));
        assert forall|i: int| 0 <= i < blocks.len() implies is_block(#[trigger] blocks[i]) by {
            if i < state.blocks.len() {
                assert(blocks[i] == state.blocks[i]);
            }
        }
        if all_canonical(stms) {
            assert(all_canonical(block));
            assert forall|i: int| 0 <= i < blocks.len() implies all_canonical(
                #[trigger] blocks[i],
            ) by {
                if i < state.blocks.len() {
                    assert(blocks[i] == state.blocks[i]);
                }
            }
        }
    }
}

/// The views of the statements of each block.
pub open spec fn block_views(blocks: Seq<Vec<Statement>>) -> Seq<Seq<StatementView>> {
    Seq::new(blocks.len(), |i: int| statement_views(blocks[i]@))
}

/// The jump to a label.
fn make_jump(label: &Label) -> (jump: Statement)
    ensures
        jump@ == jump_to(label@),
{
    proof {
        reveal_with_fuel(exp_view, 2);
        reveal_with_fuel(statement_view, 2);
    }
    let labels = vec![label.copy()];
    assert(label_views(labels@) =~= seq![label@]);
    Statement::Jump(Exp::Name(label.copy()), labels)
}

/// Whether the statement is a label.
fn is_label(statement: &Statement) -> (result: bool)
    ensures
        result == (statement@ is Label),
{
    proof {
        reveal_with_fuel(statement_view, 2);
    }
    match statement {
        Statement::Label(_) => true,
        _ => false,
    }
}

/// Whether the statement is a jump, conditional or not.
fn is_jump(statement: &Statement) -> (result: bool)
    ensures
        result == is_branch(statement@),
{
    proof {
        reveal_with_fuel(statement_view, 2);
    }
    match statement {
        Statement::Jump(_, _) => true,
        Statement::CondJump { .. } => true,
        _ => false,
    }
}

/// Splits a list of statements into basic blocks: each begins with a
/// label, ends with a jump and holds neither in between. A block that has
/// no label gets a fresh one; a block that runs into a label jumps to it;
/// the last block jumps to the fresh label that is handed back with the
/// blocks, at which the function will be left.
pub fn basic_blocks(statements: Vec<Statement>, gensym: &mut Gensym) -> (result: (
    Vec<Vec<Statement>>,
    Label,
))
    requires
        old(gensym).labels + statements@.len() + 1 <= u32::MAX,
    ensures
        result.1@ == fresh_label(old(gensym).labels as int),
        block_views(result.0@) == blocks_of(
            statement_views(statements@),
            result.1@,
            old(gensym).labels + 1,
        ),
        all_blocks(block_views(result.0@)),
        all_canonical(statement_views(statements@)) ==> blocks_canonical(block_views(result.0@)),
        *final(gensym) == (Gensym {
            labels: split(statement_views(statements@), old(gensym).labels + 1).labels as u32,
            ..*old(gensym)
        }),
{
    let ghost views = statement_views(statements@);
    let ghost start = gensym.labels + 1;
    let done = Label::new(gensym);
    let mut blocks: Vec<Vec<Statement>> = Vec::new();
    let mut open: Option<Vec<Statement>> = None;
    let mut index: usize = 0;
    assert(block_views(blocks@) =~= Seq::<Seq<StatementView>>::empty());
    while index < statements.len()
        invariant
            index <= statements@.len(),
            views == statement_views(statements@),
            start == old(gensym).labels + 1,
            start + statements@.len() <= u32::MAX,
            block_views(blocks@) == split(views.subrange(0, index as int), start).blocks,
            match open {
                Some(block) => split(views.subrange(0, index as int), start).open == Some(
                    statement_views(block@),
                ),
                None => split(views.subrange(0, index as int), start).open is None,
            },
            *gensym == (Gensym {
                labels: split(views.subrange(0, index as int), start).labels as u32,
                ..*old(gensym)
            }),
            start <= split(views.subrange(0, index as int), start).labels <= start + index,
        decreases statements@.len() - index,
    {
        proof {
            let longer = views.subrange(0, index + 1);
            assert(longer.drop_last() =~= views.subrange(0, index as int));
            assert(longer.last() == statements@[index as int]@);
            lemma_split(longer, start);
            reveal_with_fuel(statement_view, 2);
        }
        let statement = &statements[index];
        let ghost before = block_views(blocks@);
        if is_label(statement) {
            match open {
                Some(block) => {
                    let mut block = block;
                    match statement {
                        Statement::Label(label) => {
                            push(&mut block, make_jump(label));
                        },
                        _ => {},
                    }
                    blocks.push(block);
                    assert(block_views(blocks@) =~= before.push(statement_views(block@)));
                },
                None => {},
            }
            let mut block: Vec<Statement> = Vec::new();
            push(&mut block, statement.copy());
            assert(statement_views(block@) =~= seq![statement@]);
            open = Some(block);
        } else {
            let mut block = match open {
                Some(block) => block,
                None => {
                    let mut block: Vec<Statement> = Vec::new();
                    push(&mut block, Statement::Label(Label::new(gensym)));
                    assert(statement_views(block@) =~= seq![
                        StatementView::Label(fresh_label(gensym.labels - 1)),
                    ]);
                    block
                },
            };
            push(&mut block, statement.copy());
            if is_jump(statement) {
                blocks.push(block);
                assert(block_views(blocks@) =~= before.push(statement_views(block@)));
                open = None;
            } else {
                open = Some(block);
            }
        }
        index = index + 1;
    }
    assert(views.subrange(0, index as int) =~= views);
    let ghost before = block_views(blocks@);
    match open {
        Some(block) => {
            let mut block = block;
            push(&mut block, make_jump(&done));
            blocks.push(block);
            assert(block_views(blocks@) =~= before.push(statement_views(block@)));
        },
        None => {},
    }
    proof {
        lemma_blocks_of(views, done@, start);
    }
    (blocks, done)
}

/// The label with which a block begins.
pub open spec fn label_of(block: Seq<StatementView>) -> LabelView {
    block[0]->Label_0
}

/// The position of the first block from `from` on that begins with
/// `label`.
pub open spec fn find_first(blocks: Seq<Seq<StatementView>>, label: LabelView, from: int) -> Option<
    int,
>
    decreases blocks.len() - from,
{
    if from < 0 || from >= blocks.len() {
        None
    } else if label_of(blocks[from]) == label {
        Some(from)
    } else {
        find_first(blocks, label, from + 1)
    }
}

/// The block that a trace can go on with at `label`: the first block that
/// begins with it, unless the label is marked.
pub open spec fn target(blocks: Seq<Seq<StatementView>>, marked: Set<LabelView>, label: LabelView) -> Option<
    int,
> {
    if marked.contains(label) {
        None
    } else {
        find_first(blocks, label, 0)
    }
}

/// How many blocks begin with a label that is not marked.
pub open spec fn unmarked_count(blocks: Seq<Seq<StatementView>>, marked: Set<LabelView>) -> nat
    decreases blocks.len(),
{
    if blocks.len() == 0 {
        0
    } else {
        unmarked_count(blocks.drop_last(), marked) + if marked.contains(label_of(blocks.last())) {
            0nat
        } else {
            1nat
        }
    }
}

/// Marking a label leaves no more blocks unmarked, and fewer if a block
/// that begins with it was unmarked.
pub proof fn lemma_mark(blocks: Seq<Seq<StatementView>>, marked: Set<LabelView>, label: LabelView)
    ensures
        unmarked_count(blocks, marked.insert(label)) <= unmarked_count(blocks, marked),
        !marked.contains(label) && (exists|i: int|
            0 <= i < blocks.len() && label_of(#[trigger] blocks[i]) == label) ==> unmarked_count(
            blocks,
            marked.insert(label),
        ) < unmarked_count(blocks, marked),
    decreases blocks.len(),
{
    if blocks.len() > 0 {
        let shorter = blocks.drop_last();
        lemma_mark(shorter, marked, label);
        if !marked.contains(label) && (exists|i: int|
            0 <= i < blocks.len() && label_of(#[trigger] blocks[i]) == label) {
            let i = choose|i: int| 0 <= i < blocks.len() && label_of(#[trigger] blocks[i]) == label;
            if i < shorter.len() {
                assert(label_of(shorter[i]) == label);
            }
        }
    }
}

/// What is found begins with the label that was looked for.
pub proof fn lemma_find_first(blocks: Seq<Seq<StatementView>>, label: LabelView, from: int)
    requires
        0 <= from,
    ensures
        find_first(blocks, label, from) matches Some(index) ==> from <= index < blocks.len()
            && label_of(blocks[index]) == label,
    decreases blocks.len() - from,
{
    if from < blocks.len() && label_of(blocks[from]) != label {
        lemma_find_first(blocks, label, from + 1);
    }
}

/// The comparison that holds exactly when `op` does not.
pub open spec fn negated(op: RelationalOp) -> RelationalOp {
    match op {
        RelationalOp::Equal => RelationalOp::NotEqual,
        RelationalOp::NotEqual => RelationalOp::Equal,
        RelationalOp::LesserThan => RelationalOp::GreaterOrEqual,
        RelationalOp::GreaterThan => RelationalOp::LesserOrEqual,
        RelationalOp::LesserOrEqual => RelationalOp::GreaterThan,
        RelationalOp::GreaterOrEqual => RelationalOp::LesserThan,
        RelationalOp::UnsignedLesserThan => RelationalOp::UnsignedGreaterOrEqual,
        RelationalOp::UnsignedLesserOrEqual => RelationalOp::UnsignedGreaterThan,
        RelationalOp::UnsignedGreaterThan => RelationalOp::UnsignedLesserOrEqual,
        RelationalOp::UnsignedGreaterOrEqual => RelationalOp::UnsignedLesserThan,
    }
}

/// A trace: its statements, the labels that are marked after it, and the
/// last label taken from the supply.
pub struct Traced {
    pub code: Seq<StatementView>,
    pub marked: Set<LabelView>,
    pub labels: int,
}

/// The conditional jump with the comparison negated and the labels
/// exchanged.
pub open spec fn swapped(jump: StatementView) -> StatementView {
    StatementView::CondJump {
        op: negated(jump->CondJump_op),
        left: jump->CondJump_left,
        right: jump->CondJump_right,
        true_label: jump->CondJump_false_label,
        false_label: jump->CondJump_true_label,
    }
}

/// The conditional jump with another false label.
pub open spec fn redirected(jump: StatementView, label: LabelView) -> StatementView {
    StatementView::CondJump {
        op: jump->CondJump_op,
        left: jump->CondJump_left,
        right: jump->CondJump_right,
        true_label: jump->CondJump_true_label,
        false_label: label,
    }
}

/// The trace that begins with the block at `current`, whose label is not
/// marked. The block is marked. After a jump to a label whose block is
/// unmarked, the jump is dropped and the trace goes on with that block.
/// After a conditional jump it goes on with the block of the false label,
/// if that is unmarked; else with the block of the true label, if that is
/// unmarked, after the condition is negated and the labels are exchanged;
/// else the false label becomes a fresh one, which follows with a jump to
/// the old one, and the trace ends.
pub open spec fn trace(
    blocks: Seq<Seq<StatementView>>,
    marked: Set<LabelView>,
    current: int,
    labels: int,
) -> Traced
    decreases unmarked_count(blocks, marked),
    when 0 <= current < blocks.len() && !marked.contains(label_of(blocks[current]))
{
    let block = blocks[current];
    let now = marked.insert(label_of(block));
    let most = block.drop_last();
    let last = block.last();
    if last is Jump && last->Jump_0 is Name && target(blocks, now, last->Jump_0->Name_0) is Some {
        proof {
            lemma_mark(blocks, marked, label_of(block));
            lemma_find_first(blocks, last->Jump_0->Name_0, 0);
        }
        let rest = trace(blocks, now, target(blocks, now, last->Jump_0->Name_0)->0, labels);
        Traced { code: most + rest.code, marked: rest.marked, labels: rest.labels }
    } else if last is CondJump && target(blocks, now, last->CondJump_false_label) is Some {
        proof {
            lemma_mark(blocks, marked, label_of(block));
            lemma_find_first(blocks, last->CondJump_false_label, 0);
        }
        let rest = trace(blocks, now, target(blocks, now, last->CondJump_false_label)->0, labels);
        Traced { code: block + rest.code, marked: rest.marked, labels: rest.labels }
    } else if last is CondJump && target(blocks, now, last->CondJump_true_label) is Some {
        proof {
            lemma_mark(blocks, marked, label_of(block));
            lemma_find_first(blocks, last->CondJump_true_label, 0);
        }
        let rest = trace(blocks, now, target(blocks, now, last->CondJump_true_label)->0, labels);
        Traced {
            code: most.push(swapped(last)) + rest.code,
            marked: rest.marked,
            labels: rest.labels,
        }
    } else if last is CondJump {
        Traced {
            code: most + seq![
                redirected(last, fresh_label(labels)),
                StatementView::Label(fresh_label(labels)),
                jump_to(last->CondJump_false_label),
            ],
            marked: now,
            labels: labels + 1,
        }
    } else {
        Traced { code: block, marked: now, labels }
    }
}

/// The traces of the blocks from `index` on that are not marked, one after
/// the other.
pub open spec fn schedule(
    blocks: Seq<Seq<StatementView>>,
    marked: Set<LabelView>,
    index: int,
    labels: int,
) -> Traced
    decreases blocks.len() - index,
{
    if index < 0 || index >= blocks.len() {
        Traced { code: Seq::empty(), marked, labels }
    } else if marked.contains(label_of(blocks[index])) {
        schedule(blocks, marked, index + 1, labels)
    } else {
        let first = trace(blocks, marked, index, labels);
        let rest = schedule(blocks, first.marked, index + 1, first.labels);
        Traced { code: first.code + rest.code, marked: rest.marked, labels: rest.labels }
    }
}

/// The statements of the blocks as traces, with the label `done` at their
/// end.
pub open spec fn scheduled(blocks: Seq<Seq<StatementView>>, done: LabelView, labels: int) -> Seq<
    StatementView,
> {
    schedule(blocks, Set::empty(), 0, labels).code.push(StatementView::Label(done))
}

/// Whether every conditional jump of the list is followed by its false
/// label.
pub open spec fn falls_through(code: Seq<StatementView>) -> bool {
    forall|i: int|
        0 <= i < code.len() && (#[trigger] code[i]) is CondJump ==> i + 1 < code.len() && code[i
            + 1] == StatementView::Label(code[i]->CondJump_false_label)
}

/// Two lists in which every conditional jump is followed by its false
/// label give, one after the other, such a list.
pub proof fn lemma_falls_through_append(first: Seq<StatementView>, second: Seq<StatementView>)
    requires
        falls_through(first),
        falls_through(second),
    ensures
        falls_through(first + second),
{
    let code = first + second;
    assert forall|i: int| 0 <= i < code.len() && (#[trigger] code[i]) is CondJump implies i + 1
        < code.len() && code[i + 1] == StatementView::Label(code[i]->CondJump_false_label) by {
        if i < first.len() {
            assert(code[i] == first[i]);
            assert(code[i + 1] == first[i + 1]);
        } else {
            assert(code[i] == second[i - first.len()]);
            assert(code[i + 1] == second[i - first.len() + 1]);
        }
    }
}

/// Statements without a conditional jump, before a list in which every
/// conditional jump is followed by its false label, give such a list.
pub proof fn lemma_falls_through_after(first: Seq<StatementView>, second: Seq<StatementView>)
    requires
        forall|i: int| 0 <= i < first.len() ==> !(#[trigger] first[i] is CondJump),
        falls_through(second),
    ensures
        falls_through(first + second),
{
    lemma_falls_through_append(first, second);
}

/// A trace begins with the label of its first block; in it every
/// conditional jump is followed by its false label; it takes at most one
/// label from the supply; and it is canonical if the blocks are.
pub proof fn lemma_trace(
    blocks: Seq<Seq<StatementView>>,
    marked: Set<LabelView>,
    current: int,
    labels: int,
)
    requires
        all_blocks(blocks),
        0 <= current < blocks.len(),
        !marked.contains(label_of(blocks[current])),
    ensures
        falls_through(trace(blocks, marked, current, labels).code),
        trace(blocks, marked, current, labels).code.len() > 0,
        trace(blocks, marked, current, labels).code[0] == StatementView::Label(
            label_of(blocks[current]),
        ),
        labels <= trace(blocks, marked, current, labels).labels <= labels + 1,
        blocks_canonical(blocks) ==> all_canonical(trace(blocks, marked, current, labels).code),
    decreases unmarked_count(blocks, marked),
{
    let block = blocks[current];
    let now = marked.insert(label_of(block));
    let most = block.drop_last();
    let last = block.last();
    let result = trace(blocks, marked, current, labels);
    assert(is_block(block));
    assert(block =~= most.push(last));
    assert(most[0] == StatementView::Label(label_of(block)));
    assert forall|i: int| 0 <= i < most.len() implies !(#[trigger] most[i] is CondJump) by {
        if i >= 1 {
            assert(!is_branch(most[i]));
        }
    }
    lemma_mark(blocks, marked, label_of(block));
    if blocks_canonical(blocks) {
        assert(all_canonical(block));
        assert forall|i: int| 0 <= i < most.len() implies canonical(#[trigger] most[i]) by {
            assert(most[i] == block[i]);
        }
        assert(canonical(block[block.len() - 1]));
    }
    if last is Jump && last->Jump_0 is Name && target(blocks, now, last->Jump_0->Name_0) is Some {
        let next = target(blocks, now, last->Jump_0->Name_0)->0;
        lemma_find_first(blocks, last->Jump_0->Name_0, 0);
        lemma_trace(blocks, now, next, labels);
        let rest = trace(blocks, now, next, labels);
        lemma_falls_through_after(most, rest.code);
        assert(result.code[0] == most[0]);
    } else if last is CondJump && target(blocks, now, last->CondJump_false_label) is Some {
        let next = target(blocks, now, last->CondJump_false_label)->0;
        lemma_find_first(blocks, last->CondJump_false_label, 0);
        lemma_trace(blocks, now, next, labels);
        let rest = trace(blocks, now, next, labels);
        assert(is_block(blocks[next]));
        assert(blocks[next][0] is Label);
        let code = block + rest.code;
        assert forall|i: int| 0 <= i < code.len() && (#[trigger] code[i]) is CondJump implies i
            + 1 < code.len() && code[i + 1] == StatementView::Label(
            code[i]->CondJump_false_label,
        ) by {
            if i < most.len() {
                assert(code[i] == most[i]);
            } else if i == most.len() {
                assert(code[i] == last);
                assert(code[i + 1] == rest.code[0]);
            } else {
                assert(code[i] == rest.code[i - block.len()]);
                assert(code[i + 1] == rest.code[i - block.len() + 1]);
            }
        }
        assert(result.code[0] == block[0]);
    } else if last is CondJump && target(blocks, now, last->CondJump_true_label) is Some {
        let next = target(blocks, now, last->CondJump_true_label)->0;
        lemma_find_first(blocks, last->CondJump_true_label, 0);
        lemma_trace(blocks, now, next, labels);
        let rest = trace(blocks, now, next, labels);
        assert(is_block(blocks[next]));
        assert(blocks[next][0] is Label);
        let head = most.push(swapped(last));
        let code = head + rest.code;
        assert forall|i: int| 0 <= i < code.len() && (#[trigger] code[i]) is CondJump implies i
            + 1 < code.len() && code[i + 1] == StatementView::Label(
            code[i]->CondJump_false_label,
        ) by {
            if i < most.len() {
                assert(code[i] == most[i]);
            } else if i == most.len() {
                assert(code[i] == swapped(last));
                assert(code[i + 1] == rest.code[0]);
            } else {
                assert(code[i] == rest.code[i - head.len()]);
                assert(code[i + 1] == rest.code[i - head.len() + 1]);
            }
        }
        assert(result.code[0] == most[0]);
        if blocks_canonical(blocks) {
            assert(canonical(swapped(last)));
            assert forall|i: int| 0 <= i < code.len() implies canonical(#[trigger] code[i]) by {
                if i < most.len() {
                    assert(code[i] == most[i]);
                } else if i == most.len() {
                } else {
                    assert(code[i] == rest.code[i - head.len()]);
                }
            }
        }
    } else if last is CondJump {
        let tail = seq![
            redirected(last, fresh_label(labels)),
            StatementView::Label(fresh_label(labels)),
            jump_to(last->CondJump_false_label),
        ];
        let code = most + tail;
        assert forall|i: int| 0 <= i < code.len() && (#[trigger] code[i]) is CondJump implies i
            + 1 < code.len() && code[i + 1] == StatementView::Label(
            code[i]->CondJump_false_label,
        ) by {
            if i < most.len() {
                assert(code[i] == most[i]);
            } else {
                assert(code[i] == tail[i - most.len()]);
                assert(i == most.len());
                assert(code[i + 1] == tail[1]);
            }
        }
        assert(result.code[0] == most[0]);
        if blocks_canonical(blocks) {
            assert(canonical(redirected(last, fresh_label(labels))));
            assert forall|i: int| 0 <= i < code.len() implies canonical(#[trigger] code[i]) by {
                if i < most.len() {
                    assert(code[i] == most[i]);
                } else {
                    assert(code[i] == tail[i - most.len()]);
                }
            }
        }
    } else {
        assert forall|i: int|
            0 <= i < block.len() && (#[trigger] block[i]) is CondJump implies false by {
            if i < most.len() {
                assert(block[i] == most[i]);
            }
        }
    }
}

/// In the traces of the blocks every conditional jump is followed by its
/// false label; they take at most one label for each block; and they are
/// canonical if the blocks are.
pub proof fn lemma_schedule(
    blocks: Seq<Seq<StatementView>>,
    marked: Set<LabelView>,
    index: int,
    labels: int,
)
    requires
        all_blocks(blocks),
        0 <= index,
    ensures
        falls_through(schedule(blocks, marked, index, labels).code),
        labels <= schedule(blocks, marked, index, labels).labels,
        index <= blocks.len() ==> schedule(blocks, marked, index, labels).labels <= labels
            + blocks.len() - index,
        blocks_canonical(blocks) ==> all_canonical(schedule(blocks, marked, index, labels).code),
    decreases blocks.len() - index,
{
    if index < blocks.len() {
        if marked.contains(label_of(blocks[index])) {
            lemma_schedule(blocks, marked, index + 1, labels);
        } else {
            lemma_trace(blocks, marked, index, labels);
            let first = trace(blocks, marked, index, labels);
            lemma_schedule(blocks, first.marked, index + 1, first.labels);
            let rest = schedule(blocks, first.marked, index + 1, first.labels);
            lemma_falls_through_append(first.code, rest.code);
        }
    }
}

/// The scheduled statements are canonical if the blocks are, and every
/// conditional jump in them is followed by its false label.
pub proof fn lemma_scheduled(blocks: Seq<Seq<StatementView>>, done: LabelView, labels: int)
    requires
        all_blocks(blocks),
    ensures
        falls_through(scheduled(blocks, done, labels)),
        blocks_canonical(blocks) ==> all_canonical(scheduled(blocks, done, labels)),
{
    lemma_schedule(blocks, Set::empty(), 0, labels);
    let traces = schedule(blocks, Set::empty(), 0, labels).code;
    let last = seq![StatementView::Label(done)];
    assert(scheduled(blocks, done, labels) =~= traces + last);
    lemma_falls_through_append(traces, last);
}

/// The set of the labels of a list.
pub open spec fn label_set(labels: Seq<Label>) -> Set<LabelView> {
    label_views(labels).to_set()
}

/// Whether `label` is among `marked`.
fn is_marked(marked: &Vec<Label>, label: &Label) -> (result: bool)
    ensures
        result == label_set(marked@).contains(label@),
{
    let ghost views = label_views(marked@);
    let mut index: usize = 0;
    while index < marked.len()
        invariant
            index <= marked@.len(),
            views == label_views(marked@),
            forall|i: int| 0 <= i < index ==> #[trigger] views[i] != label@,
        decreases marked@.len() - index,
    {
        if marked[index].same(label) {
            assert(views[index as int] == label@);
            return true;
        }
        index = index + 1;
    }
    false
}

/// Marks `label`.
fn mark(marked: &mut Vec<Label>, label: Label)
    ensures
        label_set(final(marked)@) == label_set(old(marked)@).insert(label@),
{
    proof {
        crate::ordset::lemma_push_to_set(label_views(marked@), label@);
    }
    marked.push(label);
    assert(label_views(marked@) =~= label_views(old(marked)@).push(label@));
}

/// The label with which a block begins.
fn block_label(block: &Vec<Statement>) -> (label: Label)
    requires
        is_block(statement_views(block@)),
    ensures
        label@ == label_of(statement_views(block@)),
{
    proof {
        reveal_with_fuel(statement_view, 2);
        assert(statement_views(block@).drop_last()[0] == block@[0]@);
    }
    match &block[0] {
        Statement::Label(label) => label.copy(),
        _ => Label::Num(0),
    }
}

/// The block that a trace can go on with at `label`.
fn available(blocks: &Vec<Vec<Statement>>, marked: &Vec<Label>, label: &Label) -> (found: Option<
    usize,
>)
    requires
        all_blocks(block_views(blocks@)),
    ensures
        match found {
            Some(index) => target(block_views(blocks@), label_set(marked@), label@) == Some(
                index as int,
            ) && index < blocks@.len(),
            None => target(block_views(blocks@), label_set(marked@), label@) is None,
        },
{
    if is_marked(marked, label) {
        return None;
    }
    let ghost views = block_views(blocks@);
    let mut index: usize = 0;
    while index < blocks.len()
        invariant
            index <= blocks@.len(),
            views == block_views(blocks@),
            all_blocks(views),
            !label_set(marked@).contains(label@),
            find_first(views, label@, 0) == find_first(views, label@, index as int),
        decreases blocks@.len() - index,
    {
        assert(is_block(views[index as int]));
        let here = block_label(&blocks[index]);
        if here.same(label) {
            assert(label_of(views[index as int]) == label@);
            assert(find_first(views, label@, index as int) == Some(index as int));
            return Some(index);
        }
        index = index + 1;
    }
    None
}

/// Puts copies of the first `count` statements of `block` after `out`.
fn copy_into(out: &mut Vec<Statement>, block: &Vec<Statement>, count: usize)
    requires
        count <= block@.len(),
    ensures
        statement_views(final(out)@) == statement_views(old(out)@) + statement_views(
            block@,
        ).subrange(0, count as int),
{
    let ghost start = statement_views(out@);
    let ghost views = statement_views(block@);
    let mut index: usize = 0;
    assert(statement_views(out@) =~= start + views.subrange(0, 0));
    while index < count
        invariant
            index <= count <= block@.len(),
            views == statement_views(block@),
            statement_views(out@) == start + views.subrange(0, index as int),
        decreases count - index,
    {
        push(out, block[index].copy());
        assert(statement_views(out@) =~= start + views.subrange(0, index + 1));
        index = index + 1;
    }
}

/// The comparison that holds exactly when `op` does not.
pub fn negate(op: RelationalOp) -> (result: RelationalOp)
    ensures
        result == negated(op),
{
    match op {
        RelationalOp::Equal => RelationalOp::NotEqual,
        RelationalOp::NotEqual => RelationalOp::Equal,
        RelationalOp::LesserThan => RelationalOp::GreaterOrEqual,
        RelationalOp::GreaterThan => RelationalOp::LesserOrEqual,
        RelationalOp::LesserOrEqual => RelationalOp::GreaterThan,
        RelationalOp::GreaterOrEqual => RelationalOp::LesserThan,
        RelationalOp::UnsignedLesserThan => RelationalOp::UnsignedGreaterOrEqual,
        RelationalOp::UnsignedLesserOrEqual => RelationalOp::UnsignedGreaterThan,
        RelationalOp::UnsignedGreaterThan => RelationalOp::UnsignedLesserOrEqual,
        RelationalOp::UnsignedGreaterOrEqual => RelationalOp::UnsignedLesserThan,
    }
}

/// Where a trace goes after a block.
enum Next {
    /// It follows the jump to this block, which is dropped.
    Follow(usize),
    /// It falls through the conditional jump to this block.
    Fall(usize),
    /// It falls through the negated conditional jump to this block.
    Swap(usize),
    /// It ends after a conditional jump, which gets a fresh false label.
    Redirect,
    /// It ends.
    Stop,
}

/// Where the trace goes after the block at `current`, which is marked.
fn next_of(blocks: &Vec<Vec<Statement>>, marked: &Vec<Label>, current: usize) -> (next: Next)
    requires
        all_blocks(block_views(blocks@)),
        current < blocks@.len(),
    ensures
        ({
            let views = block_views(blocks@);
            let now = label_set(marked@);
            let last = views[current as int].last();
            match next {
                Next::Follow(index) => last is Jump && last->Jump_0 is Name && target(
                    views,
                    now,
                    last->Jump_0->Name_0,
                ) == Some(index as int) && index < blocks@.len(),
                Next::Fall(index) => !(last is Jump && last->Jump_0 is Name && target(
                    views,
                    now,
                    last->Jump_0->Name_0,
                ) is Some) && last is CondJump && target(views, now, last->CondJump_false_label)
                    == Some(index as int) && index < blocks@.len(),
                Next::Swap(index) => last is CondJump && target(
                    views,
                    now,
                    last->CondJump_false_label,
                ) is None && target(views, now, last->CondJump_true_label) == Some(index as int)
                    && index < blocks@.len(),
                Next::Redirect => last is CondJump && target(
                    views,
                    now,
                    last->CondJump_false_label,
                ) is None && target(views, now, last->CondJump_true_label) is None,
                Next::Stop => !(last is CondJump) && !(last is Jump && last->Jump_0 is Name
                    && target(views, now, last->Jump_0->Name_0) is Some),
            }
        }),
{
    let block = &blocks[current];
    assert(is_block(block_views(blocks@)[current as int]));
    proof {
        reveal_with_fuel(statement_view, 2);
        reveal_with_fuel(exp_view, 2);
    }
    match &block[block.len() - 1] {
        Statement::Jump(target, _) => {
            match target {
                Exp::Name(label) => {
                    match available(blocks, marked, label) {
                        Some(index) => Next::Follow(index),
                        None => Next::Stop,
                    }
                },
                _ => Next::Stop,
            }
        },
        Statement::CondJump { true_label, false_label, .. } => {
            match available(blocks, marked, false_label) {
                Some(index) => Next::Fall(index),
                None => {
                    match available(blocks, marked, true_label) {
                        Some(index) => Next::Swap(index),
                        None => Next::Redirect,
                    }
                },
            }
        },
        _ => Next::Stop,
    }
}

/// The conditional jump with the comparison negated and the labels
/// exchanged.
fn swap_jump(jump: &Statement) -> (result: Statement)
    requires
        jump is CondJump,
    ensures
        result@ == swapped(jump@),
{
    proof {
        reveal_with_fuel(statement_view, 2);
    }
    match jump {
        Statement::CondJump { op, left, right, true_label, false_label } => Statement::CondJump {
            op: negate(*op),
            left: left.copy(),
            right: right.copy(),
            true_label: false_label.copy(),
            false_label: true_label.copy(),
        },
        _ => jump.copy(),
    }
}

/// The conditional jump with another false label, and the jump to the old
/// one.
fn redirect_jump(jump: &Statement, label: &Label) -> (result: (Statement, Statement))
    requires
        jump is CondJump,
    ensures
        result.0@ == redirected(jump@, label@),
        result.1@ == jump_to(jump@->CondJump_false_label),
{
    proof {
        reveal_with_fuel(statement_view, 2);
    }
    match jump {
        Statement::CondJump { op, left, right, true_label, false_label } => (
            Statement::CondJump {
                op: *op,
                left: left.copy(),
                right: right.copy(),
                true_label: true_label.copy(),
                false_label: label.copy(),
            },
            make_jump(false_label),
        ),
        _ => (jump.copy(), jump.copy()),
    }
}

/// Puts the trace that begins with the block at `start` after `out` and
/// marks its blocks.
fn trace_from(
    blocks: &Vec<Vec<Statement>>,
    marked: &mut Vec<Label>,
    start: usize,
    out: &mut Vec<Statement>,
    gensym: &mut Gensym,
)
    requires
        all_blocks(block_views(blocks@)),
        start < blocks@.len(),
        !label_set(old(marked)@).contains(label_of(block_views(blocks@)[start as int])),
        old(gensym).labels < u32::MAX,
    ensures
        statement_views(final(out)@) == statement_views(old(out)@) + trace(
            block_views(blocks@),
            label_set(old(marked)@),
            start as int,
            old(gensym).labels as int,
        ).code,
        label_set(final(marked)@) == trace(
            block_views(blocks@),
            label_set(old(marked)@),
            start as int,
            old(gensym).labels as int,
        ).marked,
        *final(gensym) == (Gensym {
            labels: trace(
                block_views(blocks@),
                label_set(old(marked)@),
                start as int,
                old(gensym).labels as int,
            ).labels as u32,
            ..*old(gensym)
        }),
{
    let ghost views = block_views(blocks@);
    let ghost first = statement_views(out@);
    let ghost labels = gensym.labels as int;
    let ghost total = trace(views, label_set(marked@), start as int, labels);
    let mut current = start;
    let mut done = false;
    while !done
        invariant
            views == block_views(blocks@),
            all_blocks(views),
            first == statement_views(old(out)@),
            labels == old(gensym).labels,
            labels < u32::MAX,
            gensym.temps == old(gensym).temps,
            gensym.uniques == old(gensym).uniques,
            !done ==> current < blocks@.len() && !label_set(marked@).contains(
                label_of(views[current as int]),
            ) && gensym.labels == labels && statement_views(out@) + trace(
                views,
                label_set(marked@),
                current as int,
                labels,
            ).code == first + total.code && trace(
                views,
                label_set(marked@),
                current as int,
                labels,
            ).marked == total.marked && trace(
                views,
                label_set(marked@),
                current as int,
                labels,
            ).labels == total.labels,
            done ==> statement_views(out@) == first + total.code && label_set(marked@)
                == total.marked && gensym.labels == total.labels,
        decreases
                if done {
                    0
                } else {
                    1 + unmarked_count(views, label_set(marked@))
                },
    {
        let ghost before = label_set(marked@);
        let ghost written = statement_views(out@);
        let ghost here = trace(views, before, current as int, labels);
        let block = &blocks[current];
        let ghost block_view = views[current as int];
        assert(is_block(block_view));
        assert(block_view == statement_views(block@));
        mark(marked, block_label(block));
        let size = block.len();
        proof {
            lemma_mark(views, before, label_of(block_view));
            assert(block_view.subrange(0, size - 1) =~= block_view.drop_last());
            assert(block_view.subrange(0, size as int) =~= block_view);
            assert(block_view.last() == block@[size - 1]@);
        }
        match next_of(blocks, marked, current) {
            Next::Follow(index) => {
                copy_into(out, block, size - 1);
                proof {
                    lemma_find_first(views, block_view.last()->Jump_0->Name_0, 0);
                    let rest = trace(views, label_set(marked@), index as int, labels);
                    assert(statement_views(out@) + rest.code =~= written + here.code);
                }
                current = index;
            },
            Next::Fall(index) => {
                copy_into(out, block, size);
                proof {
                    lemma_find_first(views, block_view.last()->CondJump_false_label, 0);
                    let rest = trace(views, label_set(marked@), index as int, labels);
                    assert(statement_views(out@) + rest.code =~= written + here.code);
                }
                current = index;
            },
            Next::Swap(index) => {
                copy_into(out, block, size - 1);
                push(out, swap_jump(&block[size - 1]));
                proof {
                    lemma_find_first(views, block_view.last()->CondJump_true_label, 0);
                    let rest = trace(views, label_set(marked@), index as int, labels);
                    assert(statement_views(out@) + rest.code =~= written + here.code);
                }
                current = index;
            },
            Next::Redirect => {
                copy_into(out, block, size - 1);
                let label = Label::new(gensym);
                let (jump, back) = redirect_jump(&block[size - 1], &label);
                push(out, jump);
                push(out, Statement::Label(label));
                push(out, back);
                proof {
                    reveal_with_fuel(statement_view, 2);
                    assert(statement_views(out@) =~= written + here.code);
                }
                done = true;
            },
            Next::Stop => {
                copy_into(out, block, size);
                proof {
                    assert(statement_views(out@) =~= written + here.code);
                }
                done = true;
            },
        }
    }
}

/// Orders the blocks into traces, so that every conditional jump is
/// followed by its false label and a jump to the block that follows it is
/// dropped, and ends the list with the label `done_label`.
pub fn trace_schedule(blocks: Vec<Vec<Statement>>, done_label: Label, gensym: &mut Gensym) -> (stms:
    Vec<Statement>)
    requires
        all_blocks(block_views(blocks@)),
        old(gensym).labels + blocks@.len() <= u32::MAX,
    ensures
        statement_views(stms@) == scheduled(
            block_views(blocks@),
            done_label@,
            old(gensym).labels as int,
        ),
        falls_through(statement_views(stms@)),
        blocks_canonical(block_views(blocks@)) ==> all_canonical(statement_views(stms@)),
        *final(gensym) == (Gensym {
            labels: schedule(
                block_views(blocks@),
                Set::empty(),
                0,
                old(gensym).labels as int,
            ).labels as u32,
            ..*old(gensym)
        }),
{
    let ghost views = block_views(blocks@);
    let ghost labels = gensym.labels as int;
    let ghost total = schedule(views, Set::empty(), 0, labels);
    let mut marked: Vec<Label> = Vec::new();
    let mut out: Vec<Statement> = Vec::new();
    let mut index: usize = 0;
    assert(label_set(marked@) =~= Set::<LabelView>::empty());
    assert(statement_views(out@) =~= Seq::<StatementView>::empty());
    assert(statement_views(out@) + total.code =~= total.code);
    while index < blocks.len()
        invariant
            index <= blocks@.len(),
            views == block_views(blocks@),
            all_blocks(views),
            labels == old(gensym).labels,
            labels + blocks@.len() <= u32::MAX,
            gensym.temps == old(gensym).temps,
            gensym.uniques == old(gensym).uniques,
            labels <= gensym.labels <= labels + index,
            statement_views(out@) + schedule(
                views,
                label_set(marked@),
                index as int,
                gensym.labels as int,
            ).code == total.code,
            schedule(views, label_set(marked@), index as int, gensym.labels as int).labels
                == total.labels,
        decreases blocks@.len() - index,
    {
        assert(is_block(views[index as int]));
        let label = block_label(&blocks[index]);
        let ghost written = statement_views(out@);
        let ghost before = label_set(marked@);
        let ghost counter = gensym.labels as int;
        if !is_marked(&marked, &label) {
            proof {
                lemma_trace(views, before, index as int, counter);
            }
            trace_from(&blocks, &mut marked, index, &mut out, gensym);
            proof {
                let first = trace(views, before, index as int, counter);
                let rest = schedule(views, first.marked, index + 1, first.labels);
                assert(statement_views(out@) + rest.code =~= written + (first.code + rest.code));
            }
        }
        index = index + 1;
    }
    proof {
        assert(statement_views(out@) =~= total.code);
        lemma_scheduled(views, done_label@, labels);
        lemma_schedule(views, Set::empty(), 0, labels);
        reveal_with_fuel(statement_view, 2);
    }
    push(&mut out, Statement::Label(done_label));
    out
}

/// Splitting gives no more blocks than there are statements, and one
/// block more at most when the unfinished one is counted.
pub proof fn lemma_split_count(stms: Seq<StatementView>, labels: int)
    ensures
        split(stms, labels).blocks.len() + if split(stms, labels).open is Some {
            1int
        } else {
            0int
        } <= stms.len(),
    decreases stms.len(),
{
    if stms.len() > 0 {
        lemma_split_count(stms.drop_last(), labels);
    }
}

/// The body of a function in canonical form: a list of statements in
/// which no statement is a sequence, no expression holds a statement,
/// every call is all of an expression statement or all that is moved into
/// a temporary, and every conditional jump is followed by its false label.
pub fn canonicalize(statement: Statement, gensym: &mut Gensym) -> (stms: Vec<Statement>)
    requires
        canon_stm(statement@, old(gensym).temps as int).temps <= u32::MAX,
        old(gensym).labels + 2 * canon_stm(statement@, old(gensym).temps as int).stms.len() + 1
            <= u32::MAX,
    ensures
        all_canonical(statement_views(stms@)),
        falls_through(statement_views(stms@)),
        statement_views(stms@) == scheduled(
            blocks_of(
                canon_stm(statement@, old(gensym).temps as int).stms,
                fresh_label(old(gensym).labels as int),
                old(gensym).labels + 1,
            ),
            fresh_label(old(gensym).labels as int),
            split(
                canon_stm(statement@, old(gensym).temps as int).stms,
                old(gensym).labels + 1,
            ).labels,
        ),
        final(gensym).temps == canon_stm(statement@, old(gensym).temps as int).temps,
        final(gensym).labels == schedule(
            blocks_of(
                canon_stm(statement@, old(gensym).temps as int).stms,
                fresh_label(old(gensym).labels as int),
                old(gensym).labels + 1,
            ),
            Set::empty(),
            0,
            split(
                canon_stm(statement@, old(gensym).temps as int).stms,
                old(gensym).labels + 1,
            ).labels,
        ).labels as u32,
        final(gensym).uniques == old(gensym).uniques,
{
    let ghost flat = canon_stm(statement@, gensym.temps as int).stms;
    let ghost labels = gensym.labels as int;
    proof {
        lemma_canon_stm(statement@, gensym.temps as int);
    }
    let linear = linearize(statement, gensym);
    proof {
        lemma_split(flat, labels + 1);
        lemma_split_count(flat, labels + 1);
        assert(statement_views(linear@).len() == linear@.len());
    }
    let (blocks, done) = basic_blocks(linear, gensym);
    proof {
        assert(block_views(blocks@).len() == blocks@.len());
        assert(blocks_of(flat, done@, labels + 1).len() <= flat.len());
    }
    trace_schedule(blocks, done, gensym)
}

} // verus!
