use tiger::assem::Instruction;
use tiger::codegen::Gen;
use tiger::frame::x86_64::{reg, R10, R11, R8, R9, RAX, RBP, RCX, RDI, RDX, RSI, RSP};
use tiger::ir::{BinOp, Exp, RelationalOp, Statement};
use tiger::temp::{Gensym, Label, Temp};

fn t(num: u32) -> Temp {
    Temp { num }
}

fn op(assembly: &str, destination: Vec<Temp>, source: Vec<Temp>) -> Instruction {
    Instruction::Operation { assembly: assembly.to_string(), destination, source, jump: None }
}

fn mov(destination: Temp, source: Temp) -> Instruction {
    Instruction::Move {
        assembly: "mov 'd0, 's0".to_string(),
        destination: vec![destination],
        source: vec![source],
    }
}

fn binop(op: BinOp, left: Exp, right: Exp) -> Exp {
    Exp::BinOp { op, left: Box::new(left), right: Box::new(right) }
}

#[test]
fn a_constant_is_moved_into_a_fresh_temporary() {
    let mut gensym = Gensym::new();
    let mut gen = Gen::new();
    let temp = gen.munch_expression(&Exp::Const(-5), &mut gensym);
    assert_eq!(temp, t(17));
    assert_eq!(gen.get_result(), vec![op("mov 'd0, -5", vec![t(17)], vec![])]);
}

#[test]
fn a_temporary_needs_no_instruction() {
    let mut gensym = Gensym::new();
    let mut gen = Gen::new();
    assert_eq!(gen.munch_expression(&Exp::Temp(t(40)), &mut gensym), t(40));
    assert!(gen.get_result().is_empty());
    assert_eq!(gensym.temps, 16);
}

#[test]
fn a_name_is_moved_into_a_fresh_temporary() {
    let mut gensym = Gensym::new();
    let mut gen = Gen::new();
    let temp = gen.munch_expression(&Exp::Name(Label::Num(3)), &mut gensym);
    assert_eq!(temp, t(17));
    assert_eq!(gen.get_result(), vec![op("mov 'd0, l3", vec![t(17)], vec![])]);
}

#[test]
fn a_sum_with_a_constant_is_one_address_computation() {
    let mut gensym = Gensym::new();
    let mut gen = Gen::new();
    let temp = gen.munch_expression(&binop(BinOp::Plus, Exp::Temp(t(30)), Exp::Const(8)), &mut gensym);
    assert_eq!(temp, t(17));
    assert_eq!(gen.get_result(), vec![op("lea 'd0, ['s0 + 8]", vec![t(17)], vec![t(30)])]);
}

#[test]
fn an_operator_copies_its_left_operand_and_works_on_the_copy() {
    let mut gensym = Gensym::new();
    let mut gen = Gen::new();
    let temp = gen.munch_expression(&binop(BinOp::Minus, Exp::Temp(t(30)), Exp::Temp(t(31))), &mut gensym);
    assert_eq!(temp, t(17));
    assert_eq!(
        gen.get_result(),
        vec![mov(t(17), t(30)), op("sub 'd0, 's1", vec![t(17)], vec![t(17), t(31)])]
    );
}

#[test]
fn a_division_goes_through_rax_and_rdx() {
    let mut gensym = Gensym::new();
    let mut gen = Gen::new();
    let temp = gen.munch_expression(&binop(BinOp::Div, Exp::Temp(t(30)), Exp::Temp(t(31))), &mut gensym);
    assert_eq!(temp, t(17));
    assert_eq!(
        gen.get_result(),
        vec![
            mov(reg(RAX), t(30)),
            op("cqo", vec![reg(RDX)], vec![reg(RAX)]),
            op("idiv 's0", vec![reg(RAX), reg(RDX)], vec![t(31), reg(RAX), reg(RDX)]),
            mov(t(17), reg(RAX)),
        ]
    );
}

#[test]
fn a_shift_takes_its_count_in_rcx() {
    let mut gensym = Gensym::new();
    let mut gen = Gen::new();
    let temp = gen.munch_expression(
        &binop(BinOp::ArithmeticShiftRight, Exp::Temp(t(30)), Exp::Temp(t(31))),
        &mut gensym,
    );
    assert_eq!(temp, t(17));
    assert_eq!(
        gen.get_result(),
        vec![
            mov(t(17), t(30)),
            mov(reg(RCX), t(31)),
            op("sar 'd0, cl", vec![t(17)], vec![t(17), reg(RCX)]),
        ]
    );
}

#[test]
fn a_load_from_a_frame_slot_is_one_instruction() {
    let mut gensym = Gensym::new();
    let mut gen = Gen::new();
    let slot = Exp::Mem(Box::new(binop(BinOp::Plus, Exp::Temp(reg(RBP)), Exp::Const(-16))));
    let temp = gen.munch_expression(&slot, &mut gensym);
    assert_eq!(temp, t(17));
    assert_eq!(gen.get_result(), vec![op("mov 'd0, ['s0 + -16]", vec![t(17)], vec![reg(RBP)])]);
}

#[test]
fn a_load_from_any_address_computes_the_address_first() {
    let mut gensym = Gensym::new();
    let mut gen = Gen::new();
    let temp = gen.munch_expression(&Exp::Mem(Box::new(Exp::Const(64))), &mut gensym);
    assert_eq!(temp, t(18));
    assert_eq!(
        gen.get_result(),
        vec![op("mov 'd0, 64", vec![t(17)], vec![]), op("mov 'd0, ['s0]", vec![t(18)], vec![t(17)])]
    );
}

#[test]
fn moves_into_temporaries_and_memory() {
    let mut gensym = Gensym::new();
    let mut gen = Gen::new();
    gen.munch_statement(&Statement::Move(Exp::Temp(t(30)), Exp::Temp(t(31))), &mut gensym);
    let slot = Exp::Mem(Box::new(binop(BinOp::Plus, Exp::Temp(reg(RBP)), Exp::Const(-8))));
    gen.munch_statement(&Statement::Move(Exp::Temp(t(30)), slot.copy()), &mut gensym);
    gen.munch_statement(&Statement::Move(slot, Exp::Temp(t(31))), &mut gensym);
    gen.munch_statement(
        &Statement::Move(Exp::Mem(Box::new(Exp::Temp(t(32)))), Exp::Temp(t(31))),
        &mut gensym,
    );
    assert_eq!(gensym.temps, 16);
    assert_eq!(
        gen.get_result(),
        vec![
            mov(t(30), t(31)),
            op("mov 'd0, ['s0 + -8]", vec![t(30)], vec![reg(RBP)]),
            op("mov ['s0 + -8], 's1", vec![], vec![reg(RBP), t(31)]),
            op("mov ['s0], 's1", vec![], vec![t(32), t(31)]),
        ]
    );
}

#[test]
fn jumps_name_their_targets() {
    let mut gensym = Gensym::new();
    let mut gen = Gen::new();
    gen.munch_statement(
        &Statement::Jump(Exp::Name(Label::Num(4)), vec![Label::Num(4)]),
        &mut gensym,
    );
    gen.munch_statement(
        &Statement::CondJump {
            op: RelationalOp::LesserThan,
            left: Exp::Temp(t(30)),
            right: Exp::Temp(t(31)),
            true_label: Label::Num(1),
            false_label: Label::Num(2),
        },
        &mut gensym,
    );
    gen.munch_statement(&Statement::Label(Label::with_name("done")), &mut gensym);
    assert_eq!(
        gen.get_result(),
        vec![
            Instruction::Operation {
                assembly: "jmp l4".to_string(),
                destination: vec![],
                source: vec![],
                jump: Some(vec![Label::Num(4)]),
            },
            op("cmp 's0, 's1", vec![], vec![t(30), t(31)]),
            Instruction::Operation {
                assembly: "jl l1".to_string(),
                destination: vec![],
                source: vec![],
                jump: Some(vec![Label::Num(1), Label::Num(2)]),
            },
            Instruction::Label { assembly: "done:".to_string(), label: Label::with_name("done") },
        ]
    );
}

#[test]
fn every_comparison_has_its_jump() {
    let cases = vec![
        (RelationalOp::Equal, "je l1"),
        (RelationalOp::NotEqual, "jne l1"),
        (RelationalOp::LesserThan, "jl l1"),
        (RelationalOp::GreaterThan, "jg l1"),
        (RelationalOp::LesserOrEqual, "jle l1"),
        (RelationalOp::GreaterOrEqual, "jge l1"),
        (RelationalOp::UnsignedLesserThan, "jb l1"),
        (RelationalOp::UnsignedLesserOrEqual, "jbe l1"),
        (RelationalOp::UnsignedGreaterThan, "ja l1"),
        (RelationalOp::UnsignedGreaterOrEqual, "jae l1"),
    ];
    for (op, text) in cases {
        let mut gensym = Gensym::new();
        let mut gen = Gen::new();
        gen.munch_statement(
            &Statement::CondJump {
                op,
                left: Exp::Temp(t(30)),
                right: Exp::Temp(t(31)),
                true_label: Label::Num(1),
                false_label: Label::Num(2),
            },
            &mut gensym,
        );
        match &gen.get_result()[1] {
            Instruction::Operation { assembly, .. } => assert_eq!(assembly, text),
            other => panic!("{:?}", other),
        }
    }
}

#[test]
fn a_call_passes_six_arguments_in_registers_and_the_rest_on_the_stack() {
    let mut gensym = Gensym::new();
    let mut gen = Gen::new();
    let arguments: Vec<Exp> = (0..7).map(|index| Exp::Temp(t(30 + index))).collect();
    let call = Exp::Call(Box::new(Exp::Name(Label::with_name("f"))), arguments);
    let result = gen.munch_expression(&call, &mut gensym);
    assert_eq!(result, reg(RAX));
    assert_eq!(gensym.temps, 16);
    let registers = vec![reg(RDI), reg(RSI), reg(RDX), reg(RCX), reg(R8), reg(R9)];
    let mut expected = vec![
        op("sub rsp, 8", vec![reg(RSP)], vec![reg(RSP)]),
        op("push 's0", vec![reg(RSP)], vec![t(36), reg(RSP)]),
    ];
    for index in 0..6 {
        expected.push(mov(registers[index], t(30 + index as u32)));
    }
    expected.push(op(
        "call f",
        vec![reg(R10), reg(R11), reg(RDI), reg(RSI), reg(RDX), reg(RCX), reg(R8), reg(R9), reg(RAX)],
        registers.clone(),
    ));
    expected.push(op("add rsp, 16", vec![reg(RSP)], vec![reg(RSP)]));
    assert_eq!(gen.get_result(), expected);
}

#[test]
fn a_call_with_eight_arguments_pushes_the_last_first() {
    let mut gensym = Gensym::new();
    let mut gen = Gen::new();
    let arguments: Vec<Exp> = (0..8).map(|index| Exp::Temp(t(30 + index))).collect();
    let call = Exp::Call(Box::new(Exp::Name(Label::with_name("f"))), arguments);
    gen.munch_statement(&Statement::Exp(call), &mut gensym);
    let code = gen.get_result();
    assert_eq!(code.len(), 2 + 6 + 1 + 1);
    assert_eq!(code[0], op("push 's0", vec![reg(RSP)], vec![t(37), reg(RSP)]));
    assert_eq!(code[1], op("push 's0", vec![reg(RSP)], vec![t(36), reg(RSP)]));
    assert_eq!(code[9], op("add rsp, 16", vec![reg(RSP)], vec![reg(RSP)]));
}

#[test]
fn a_call_without_arguments_reads_no_register() {
    let mut gensym = Gensym::new();
    let mut gen = Gen::new();
    let call = Exp::Call(Box::new(Exp::Name(Label::with_name("flush"))), vec![]);
    gen.munch_statement(&Statement::Move(Exp::Temp(t(30)), call), &mut gensym);
    assert_eq!(
        gen.get_result(),
        vec![
            op(
                "call flush",
                vec![reg(R10), reg(R11), reg(RDI), reg(RSI), reg(RDX), reg(RCX), reg(R8), reg(R9), reg(RAX)],
                vec![],
            ),
            mov(t(30), reg(RAX)),
        ]
    );
}

#[test]
fn the_selector_keeps_what_it_was_given() {
    let mut gen = Gen::new();
    let first = op("nop", vec![], vec![]);
    let second = Instruction::Label { assembly: "a:".to_string(), label: Label::with_name("a") };
    gen.emit(first.copy());
    gen.emit(second.copy());
    assert_eq!(gen.get_result(), vec![first, second]);
}
