use tiger::canon::{basic_blocks, canonicalize, linearize, negate, trace_schedule};
use tiger::ir::{BinOp, Exp, RelationalOp, Statement};
use tiger::temp::{Gensym, Label, Temp};

fn t(num: u32) -> Temp {
    Temp { num }
}

fn temp(num: u32) -> Exp {
    Exp::Temp(t(num))
}

fn binop(op: BinOp, left: Exp, right: Exp) -> Exp {
    Exp::BinOp { op, left: Box::new(left), right: Box::new(right) }
}

fn eseq(statement: Statement, value: Exp) -> Exp {
    Exp::ExpSequence(Box::new(statement), Box::new(value))
}

fn seq(first: Statement, second: Statement) -> Statement {
    Statement::Sequence(Box::new(first), Box::new(second))
}

fn call(name: &str, arguments: Vec<Exp>) -> Exp {
    Exp::Call(Box::new(Exp::Name(Label::with_name(name))), arguments)
}

fn jump(label: Label) -> Statement {
    Statement::Jump(Exp::Name(label.copy()), vec![label])
}

fn cjump(op: RelationalOp, yes: Label, no: Label) -> Statement {
    Statement::CondJump { op, left: temp(30), right: temp(31), true_label: yes, false_label: no }
}

fn has_call_or_statement(exp: &Exp) -> bool {
    match exp {
        Exp::BinOp { left, right, .. } => has_call_or_statement(left) || has_call_or_statement(right),
        Exp::Mem(address) => has_call_or_statement(address),
        Exp::Call(_, _) => true,
        Exp::ExpSequence(_, _) => true,
        _ => false,
    }
}

fn is_flat_call(exp: &Exp) -> bool {
    match exp {
        Exp::Call(function, arguments) => {
            !has_call_or_statement(function) && arguments.iter().all(|argument| !has_call_or_statement(argument))
        }
        _ => false,
    }
}

fn is_canonical(statement: &Statement) -> bool {
    match statement {
        Statement::Move(destination, source) => {
            !has_call_or_statement(destination)
                && (!has_call_or_statement(source)
                    || (matches!(destination, Exp::Temp(_)) && is_flat_call(source)))
        }
        Statement::Exp(value) => !has_call_or_statement(value) || is_flat_call(value),
        Statement::Jump(target, _) => !has_call_or_statement(target),
        Statement::CondJump { left, right, .. } => {
            !has_call_or_statement(left) && !has_call_or_statement(right)
        }
        Statement::Sequence(_, _) => false,
        Statement::Label(_) => true,
    }
}

#[test]
fn sequences_become_a_list() {
    let mut gensym = Gensym::new();
    let body = seq(
        Statement::Label(Label::Num(1)),
        seq(Statement::Move(temp(30), Exp::Const(1)), Statement::Label(Label::Num(2))),
    );
    assert_eq!(
        linearize(body, &mut gensym),
        vec![
            Statement::Label(Label::Num(1)),
            Statement::Move(temp(30), Exp::Const(1)),
            Statement::Label(Label::Num(2)),
        ]
    );
    assert_eq!(gensym.temps, 16);
}

#[test]
fn statements_inside_expressions_are_hoisted() {
    let mut gensym = Gensym::new();
    let value = binop(BinOp::Plus, eseq(Statement::Move(temp(31), Exp::Const(1)), temp(31)), Exp::Const(2));
    assert_eq!(
        linearize(Statement::Move(temp(30), value), &mut gensym),
        vec![
            Statement::Move(temp(31), Exp::Const(1)),
            Statement::Move(temp(30), binop(BinOp::Plus, temp(31), Exp::Const(2))),
        ]
    );
    assert_eq!(gensym.temps, 16);
}

#[test]
fn an_operand_that_a_later_statement_changes_is_saved_first() {
    let mut gensym = Gensym::new();
    let value = binop(BinOp::Plus, temp(30), eseq(Statement::Move(temp(30), Exp::Const(5)), Exp::Const(1)));
    assert_eq!(
        linearize(Statement::Move(temp(40), value), &mut gensym),
        vec![
            Statement::Move(temp(17), temp(30)),
            Statement::Move(temp(30), Exp::Const(5)),
            Statement::Move(temp(40), binop(BinOp::Plus, temp(17), Exp::Const(1))),
        ]
    );
    assert_eq!(gensym.temps, 17);
}

#[test]
fn an_operand_that_commutes_stays_where_it_is() {
    let mut gensym = Gensym::new();
    let value = binop(BinOp::Plus, temp(30), eseq(Statement::Move(temp(31), Exp::Const(5)), temp(31)));
    assert_eq!(
        linearize(Statement::Move(temp(40), value), &mut gensym),
        vec![
            Statement::Move(temp(31), Exp::Const(5)),
            Statement::Move(temp(40), binop(BinOp::Plus, temp(30), temp(31))),
        ]
    );
    let loaded = binop(
        BinOp::Plus,
        Exp::Mem(Box::new(temp(30))),
        eseq(Statement::Move(temp(31), Exp::Const(5)), temp(31)),
    );
    assert_eq!(
        linearize(Statement::Move(temp(40), loaded), &mut gensym),
        vec![
            Statement::Move(temp(17), Exp::Mem(Box::new(temp(30)))),
            Statement::Move(temp(31), Exp::Const(5)),
            Statement::Move(temp(40), binop(BinOp::Plus, temp(17), temp(31))),
        ]
    );
}

#[test]
fn calls_inside_expressions_are_moved_into_temporaries() {
    let mut gensym = Gensym::new();
    let value = binop(BinOp::Plus, call("f", vec![Exp::Const(1)]), Exp::Const(2));
    assert_eq!(
        linearize(Statement::Move(temp(30), value), &mut gensym),
        vec![
            Statement::Move(temp(17), call("f", vec![Exp::Const(1)])),
            Statement::Move(temp(30), binop(BinOp::Plus, temp(17), Exp::Const(2))),
        ]
    );
}

#[test]
fn calls_at_the_top_stay_where_they_are() {
    let mut gensym = Gensym::new();
    assert_eq!(
        linearize(Statement::Move(temp(30), call("f", vec![temp(31)])), &mut gensym),
        vec![Statement::Move(temp(30), call("f", vec![temp(31)]))]
    );
    assert_eq!(
        linearize(Statement::Exp(call("g", vec![])), &mut gensym),
        vec![Statement::Exp(call("g", vec![]))]
    );
    assert_eq!(gensym.temps, 16);
}

#[test]
fn calls_as_arguments_are_made_before_the_call() {
    let mut gensym = Gensym::new();
    let nested = call("f", vec![call("g", vec![]), call("h", vec![])]);
    assert_eq!(
        linearize(Statement::Exp(nested), &mut gensym),
        vec![
            Statement::Move(temp(17), call("g", vec![])),
            Statement::Move(temp(18), call("h", vec![])),
            Statement::Exp(call("f", vec![temp(17), temp(18)])),
        ]
    );
}

#[test]
fn a_store_of_a_call_goes_through_a_temporary() {
    let mut gensym = Gensym::new();
    let store = Statement::Move(Exp::Mem(Box::new(temp(30))), call("f", vec![]));
    assert_eq!(
        linearize(store, &mut gensym),
        vec![
            Statement::Move(temp(17), call("f", vec![])),
            Statement::Move(Exp::Mem(Box::new(temp(30))), temp(17)),
        ]
    );
}

#[test]
fn statements_that_only_compute_a_constant_are_dropped() {
    let mut gensym = Gensym::new();
    let body = seq(Statement::Exp(Exp::Const(0)), Statement::Label(Label::Num(1)));
    assert_eq!(linearize(body, &mut gensym), vec![Statement::Label(Label::Num(1))]);
}

#[test]
fn blocks_begin_with_a_label_and_end_with_a_jump() {
    let mut gensym = Gensym::new();
    let statements = vec![
        Statement::Move(temp(30), Exp::Const(1)),
        Statement::Label(Label::with_name("a")),
        Statement::Move(temp(31), Exp::Const(2)),
        cjump(RelationalOp::Equal, Label::with_name("a"), Label::with_name("b")),
        Statement::Move(temp(32), Exp::Const(3)),
    ];
    let (blocks, done) = basic_blocks(statements, &mut gensym);
    assert_eq!(done, Label::Num(1));
    assert_eq!(
        blocks,
        vec![
            vec![
                Statement::Label(Label::Num(2)),
                Statement::Move(temp(30), Exp::Const(1)),
                jump(Label::with_name("a")),
            ],
            vec![
                Statement::Label(Label::with_name("a")),
                Statement::Move(temp(31), Exp::Const(2)),
                cjump(RelationalOp::Equal, Label::with_name("a"), Label::with_name("b")),
            ],
            vec![
                Statement::Label(Label::Num(3)),
                Statement::Move(temp(32), Exp::Const(3)),
                jump(Label::Num(1)),
            ],
        ]
    );
    assert_eq!(gensym.labels, 3);
}

#[test]
fn no_statements_give_no_blocks() {
    let mut gensym = Gensym::new();
    let (blocks, done) = basic_blocks(vec![], &mut gensym);
    assert!(blocks.is_empty());
    assert_eq!(done, Label::Num(1));
    assert_eq!(trace_schedule(blocks, done, &mut gensym), vec![Statement::Label(Label::Num(1))]);
}

#[test]
fn a_jump_to_the_block_that_follows_is_dropped() {
    let mut gensym = Gensym::new();
    let a = Label::with_name("a");
    let b = Label::with_name("b");
    let blocks = vec![
        vec![Statement::Label(a.copy()), jump(b.copy())],
        vec![Statement::Label(b.copy()), jump(Label::with_name("done"))],
    ];
    assert_eq!(
        trace_schedule(blocks, Label::with_name("done"), &mut gensym),
        vec![
            Statement::Label(a),
            Statement::Label(b),
            jump(Label::with_name("done")),
            Statement::Label(Label::with_name("done")),
        ]
    );
}

#[test]
fn a_conditional_jump_falls_through_to_its_false_label() {
    let mut gensym = Gensym::new();
    let a = Label::with_name("a");
    let yes = Label::with_name("yes");
    let no = Label::with_name("no");
    let done = Label::with_name("done");
    let blocks = vec![
        vec![Statement::Label(a.copy()), cjump(RelationalOp::LesserThan, yes.copy(), no.copy())],
        vec![Statement::Label(yes.copy()), jump(done.copy())],
        vec![Statement::Label(no.copy()), jump(done.copy())],
    ];
    assert_eq!(
        trace_schedule(blocks, done.copy(), &mut gensym),
        vec![
            Statement::Label(a),
            cjump(RelationalOp::LesserThan, yes.copy(), no.copy()),
            Statement::Label(no),
            jump(done.copy()),
            Statement::Label(yes),
            jump(done.copy()),
            Statement::Label(done),
        ]
    );
    assert_eq!(gensym.labels, 0);
}

#[test]
fn a_conditional_jump_is_negated_when_only_its_true_label_can_follow() {
    let mut gensym = Gensym::new();
    let a = Label::with_name("a");
    let yes = Label::with_name("yes");
    let done = Label::with_name("done");
    let blocks = vec![
        vec![Statement::Label(a.copy()), cjump(RelationalOp::LesserThan, yes.copy(), a.copy())],
        vec![Statement::Label(yes.copy()), jump(done.copy())],
    ];
    assert_eq!(
        trace_schedule(blocks, done.copy(), &mut gensym),
        vec![
            Statement::Label(a.copy()),
            cjump(RelationalOp::GreaterOrEqual, a, yes.copy()),
            Statement::Label(yes),
            jump(done.copy()),
            Statement::Label(done),
        ]
    );
}

#[test]
fn a_conditional_jump_gets_a_fresh_false_label_when_nothing_can_follow() {
    let mut gensym = Gensym::new();
    let a = Label::with_name("a");
    let done = Label::with_name("done");
    let blocks = vec![vec![
        Statement::Label(a.copy()),
        cjump(RelationalOp::Equal, a.copy(), done.copy()),
    ]];
    assert_eq!(
        trace_schedule(blocks, done.copy(), &mut gensym),
        vec![
            Statement::Label(a.copy()),
            cjump(RelationalOp::Equal, a, Label::Num(1)),
            Statement::Label(Label::Num(1)),
            jump(done.copy()),
            Statement::Label(done),
        ]
    );
    assert_eq!(gensym.labels, 1);
}

#[test]
fn comparisons_negate_in_pairs() {
    let all = vec![
        RelationalOp::Equal,
        RelationalOp::NotEqual,
        RelationalOp::LesserThan,
        RelationalOp::GreaterThan,
        RelationalOp::LesserOrEqual,
        RelationalOp::GreaterOrEqual,
        RelationalOp::UnsignedLesserThan,
        RelationalOp::UnsignedLesserOrEqual,
        RelationalOp::UnsignedGreaterThan,
        RelationalOp::UnsignedGreaterOrEqual,
    ];
    for op in all {
        assert_ne!(negate(op), op);
        assert_eq!(negate(negate(op)), op);
    }
    assert_eq!(negate(RelationalOp::LesserThan), RelationalOp::GreaterOrEqual);
    assert_eq!(negate(RelationalOp::UnsignedGreaterThan), RelationalOp::UnsignedLesserOrEqual);
}

#[test]
fn the_canonical_form_keeps_its_laws() {
    let mut gensym = Gensym::new();
    let yes = Label::with_name("yes");
    let no = Label::with_name("no");
    let join = Label::with_name("join");
    let condition = Statement::CondJump {
        op: RelationalOp::LesserThan,
        left: binop(BinOp::Plus, call("f", vec![call("g", vec![temp(30)])]), temp(30)),
        right: eseq(Statement::Move(temp(30), Exp::Const(1)), temp(30)),
        true_label: yes.copy(),
        false_label: no.copy(),
    };
    let body = seq(
        condition,
        seq(
            seq(Statement::Label(yes), Statement::Move(Exp::Mem(Box::new(temp(31))), call("h", vec![]))),
            seq(
                seq(jump(join.copy()), Statement::Label(no)),
                seq(
                    Statement::Exp(eseq(Statement::Exp(call("k", vec![])), Exp::Const(0))),
                    Statement::Label(join),
                ),
            ),
        ),
    );
    let statements = canonicalize(body, &mut gensym);
    assert!(!statements.is_empty());
    for statement in &statements {
        assert!(is_canonical(statement), "{:?}", statement);
    }
    for index in 0..statements.len() {
        if let Statement::CondJump { false_label, .. } = &statements[index] {
            assert_eq!(statements[index + 1], Statement::Label(false_label.copy()));
        }
    }
    assert!(matches!(statements[statements.len() - 1], Statement::Label(Label::Num(1))));
}
