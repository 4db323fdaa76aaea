use tiger::assem::Instruction;
use tiger::frame::x86_64::{reg, Access, X86_64, R10, R11, R8, R9, RAX, RBP, RBX, RCX, RDI, RDX, RSI, RSP};
use tiger::frame::Frame;
use tiger::ir::{BinOp, Exp, Statement};
use tiger::temp::{Gensym, Label, Temp};

fn flatten(statement: &Statement, out: &mut Vec<Statement>) {
    match statement {
        Statement::Sequence(first, second) => {
            flatten(first, out);
            flatten(second, out);
        }
        other => out.push(other.copy()),
    }
}

fn frame_slot(offset: i64) -> Exp {
    Exp::Mem(Box::new(Exp::BinOp {
        op: BinOp::Plus,
        left: Box::new(Exp::Temp(reg(RBP))),
        right: Box::new(Exp::Const(offset)),
    }))
}

#[test]
fn registers_have_their_numbers_and_names() {
    assert_eq!(reg(RBP), Temp { num: 1 });
    assert_eq!(reg(RSP), Temp { num: 2 });
    assert_eq!(X86_64::fp(), reg(RBP));
    assert_eq!(X86_64::return_value(), reg(RAX));
    assert_eq!(X86_64::rsp(), reg(RSP));
    assert_eq!(X86_64::rax(), reg(RAX));
    assert_eq!(X86_64::rdx(), reg(RDX));
    assert_eq!(X86_64::word_size(), 8);
    assert_eq!(X86_64::special_name(reg(RBX)), Some("rbx"));
    assert_eq!(X86_64::special_name(reg(R8)), Some("r8"));
    assert_eq!(X86_64::special_name(Temp { num: 16 }), Some("r15"));
    assert_eq!(X86_64::special_name(Temp { num: 17 }), None);
    assert_eq!(X86_64::special_name(Temp { num: 0 }), None);
}

#[test]
fn register_sets_follow_the_calling_convention() {
    assert_eq!(
        X86_64::arg_registers(),
        vec![reg(RDI), reg(RSI), reg(RDX), reg(RCX), reg(R8), reg(R9)]
    );
    let callee: Vec<u32> = X86_64::callee_saved_registers().iter().map(|temp| temp.num).collect();
    assert_eq!(callee, vec![4, 1, 13, 14, 15, 16]);
    assert_eq!(X86_64::caller_saved_registers(), vec![reg(R10), reg(R11)]);
    assert_eq!(X86_64::special_registers(), vec![reg(RAX), reg(RSP)]);
    assert_eq!(
        X86_64::calldefs(),
        vec![reg(R10), reg(R11), reg(RDI), reg(RSI), reg(RDX), reg(RCX), reg(R8), reg(R9), reg(RAX)]
    );
}

#[test]
fn the_machine_has_sixteen_registers_of_which_fourteen_are_handed_out() {
    let registers = X86_64::registers();
    assert_eq!(registers.len(), 16);
    let mut numbers: Vec<u32> = registers.iter().map(|temp| temp.num).collect();
    numbers.sort();
    assert_eq!(numbers, (1..=16).collect::<Vec<u32>>());
    assert_eq!(X86_64::register_count(), 14);
    let map = X86_64::temp_map();
    assert_eq!(map.len(), 16);
    for (temp, name) in map {
        assert_eq!(X86_64::special_name(temp), Some(name));
    }
}

#[test]
fn escaping_formals_live_in_the_frame_and_the_others_in_temporaries() {
    let mut gensym = Gensym::new();
    let frame = X86_64::new(Label::with_name("f"), vec![true, false, true, false], &mut gensym);
    assert_eq!(
        frame.formals,
        vec![
            Access::InFrame(-8),
            Access::InReg(Temp { num: 17 }),
            Access::InFrame(-16),
            Access::InReg(Temp { num: 18 }),
        ]
    );
    assert_eq!(frame.pointer, -16);
    assert_eq!(frame.name(), Label::with_name("f"));
    assert_eq!(frame.formals(), &frame.formals);
    assert_eq!(gensym.temps, 18);
}

#[test]
fn locals_are_allocated_below_the_formals() {
    let mut gensym = Gensym::new();
    let mut frame = X86_64::new(Label::with_name("f"), vec![true], &mut gensym);
    assert_eq!(frame.alloc_local(true, &mut gensym), Access::InFrame(-16));
    assert_eq!(frame.alloc_local(false, &mut gensym), Access::InReg(Temp { num: 17 }));
    assert_eq!(frame.alloc_local(true, &mut gensym), Access::InFrame(-24));
    assert_eq!(frame.pointer, -24);
    assert!(frame.has_room(1000));
    assert!(!frame.has_room(usize::MAX));
}

#[test]
fn an_access_becomes_a_load_or_a_temporary() {
    let mut gensym = Gensym::new();
    let frame = X86_64::new(Label::with_name("f"), vec![], &mut gensym);
    assert_eq!(frame.exp(Access::InFrame(-8), Exp::Temp(reg(RBP))), frame_slot(-8));
    assert_eq!(
        frame.exp(Access::InReg(Temp { num: 20 }), Exp::Temp(reg(RBP))),
        Exp::Temp(Temp { num: 20 })
    );
    assert_eq!(
        X86_64::external_call("print", vec![Exp::Const(1)]),
        Exp::Call(Box::new(Exp::Name(Label::with_name("print"))), vec![Exp::Const(1)])
    );
}

#[test]
fn the_body_is_wrapped_in_saves_moves_of_formals_and_restores() {
    let mut gensym = Gensym::new();
    let formals = vec![false, true, false, false, false, false, false, true];
    let mut frame = X86_64::new(Label::with_name("f"), formals, &mut gensym);
    assert_eq!(gensym.temps, 22);
    let body = Statement::Label(Label::with_name("body"));
    let wrapped = frame.proc_entry_exit1(body, &mut gensym);
    assert_eq!(gensym.temps, 28);
    let mut flat = vec![];
    flatten(&wrapped, &mut flat);
    assert_eq!(flat.len(), 6 + 8 + 1 + 1 + 6);
    let callee = X86_64::callee_saved_registers();
    for index in 0..6 {
        let saved = Temp { num: 23 + index as u32 };
        assert_eq!(flat[index], Statement::Move(Exp::Temp(saved), Exp::Temp(callee[index])));
        assert_eq!(flat[16 + index], Statement::Move(Exp::Temp(callee[index]), Exp::Temp(saved)));
    }
    assert_eq!(flat[6], Statement::Move(Exp::Temp(Temp { num: 17 }), Exp::Temp(reg(RDI))));
    assert_eq!(flat[7], Statement::Move(frame_slot(-8), Exp::Temp(reg(RSI))));
    assert_eq!(flat[11], Statement::Move(Exp::Temp(Temp { num: 21 }), Exp::Temp(reg(R9))));
    let first_on_stack = Exp::Mem(Box::new(Exp::BinOp {
        op: BinOp::Plus,
        left: Box::new(Exp::Temp(reg(RBP))),
        right: Box::new(Exp::Const(16)),
    }));
    assert_eq!(flat[12], Statement::Move(Exp::Temp(Temp { num: 22 }), first_on_stack));
    let second_on_stack = Exp::Mem(Box::new(Exp::BinOp {
        op: BinOp::Plus,
        left: Box::new(Exp::Temp(reg(RBP))),
        right: Box::new(Exp::Const(24)),
    }));
    assert_eq!(flat[13], Statement::Move(frame_slot(-16), second_on_stack));
    assert_eq!(flat[14], Statement::Label(Label::with_name("body")));
    assert_eq!(flat[15], Statement::Exp(Exp::Const(0)));
}

#[test]
fn the_frame_and_stack_pointers_are_kept_alive() {
    let mut gensym = Gensym::new();
    let frame = X86_64::new(Label::with_name("f"), vec![], &mut gensym);
    let instructions = vec![
        Instruction::Label { assembly: "f:".to_string(), label: Label::with_name("f") },
        Instruction::Operation {
            assembly: "mov 'd0, 1".to_string(),
            destination: vec![Temp { num: 17 }],
            source: vec![],
            jump: None,
        },
    ];
    let marked = frame.proc_entry_exit2(instructions);
    assert_eq!(marked.len(), 3);
    assert_eq!(
        marked[1],
        Instruction::Operation {
            assembly: "mov 'd0, 1".to_string(),
            destination: vec![Temp { num: 17 }, reg(RBP), reg(RSP)],
            source: vec![],
            jump: None,
        }
    );
    let mut read = X86_64::callee_saved_registers();
    read.extend(vec![reg(RAX), reg(RSP), reg(RBP), reg(RSP)]);
    assert_eq!(
        marked[2],
        Instruction::Operation {
            assembly: String::new(),
            destination: vec![],
            source: read,
            jump: Some(vec![]),
        }
    );
}

#[test]
fn only_labels_leave_the_sink_to_open_and_close() {
    let mut gensym = Gensym::new();
    let frame = X86_64::new(Label::with_name("f"), vec![], &mut gensym);
    let marked = frame.proc_entry_exit2(vec![Instruction::Label {
        assembly: "f:".to_string(),
        label: Label::with_name("f"),
    }]);
    assert_eq!(marked.len(), 2);
    match &marked[1] {
        Instruction::Operation { destination, source, .. } => {
            assert_eq!(destination, &vec![reg(RBP), reg(RSP)]);
            assert_eq!(source.len(), 10);
        }
        other => panic!("{:?}", other),
    }
}

#[test]
fn the_prologue_reserves_a_multiple_of_sixteen() {
    let mut gensym = Gensym::new();
    let mut frame = X86_64::new(Label::with_name("main"), vec![], &mut gensym);
    let empty = frame.proc_entry_exit3(vec![]);
    assert_eq!(empty.prolog, "main:\n    push rbp\n    mov rbp, rsp\n    sub rsp, 0");
    assert_eq!(empty.epilog, "leave\n    ret");
    assert!(empty.body.is_empty());
    frame.alloc_local(true, &mut gensym);
    assert_eq!(
        frame.proc_entry_exit3(vec![]).prolog,
        "main:\n    push rbp\n    mov rbp, rsp\n    sub rsp, 16"
    );
    frame.alloc_local(true, &mut gensym);
    assert_eq!(
        frame.proc_entry_exit3(vec![]).prolog,
        "main:\n    push rbp\n    mov rbp, rsp\n    sub rsp, 16"
    );
    frame.alloc_local(true, &mut gensym);
    assert_eq!(
        frame.proc_entry_exit3(vec![]).prolog,
        "main:\n    push rbp\n    mov rbp, rsp\n    sub rsp, 32"
    );
}

#[test]
fn instructions_print_with_the_names_of_their_operands() {
    let instruction = Instruction::Operation {
        assembly: "add 'd0, 's1".to_string(),
        destination: vec![Temp { num: 17 }],
        source: vec![Temp { num: 17 }, reg(RAX)],
        jump: None,
    };
    assert_eq!(instruction.to_string::<X86_64>(), "add t17, rax");
    let copy = Instruction::Move {
        assembly: "mov 'd0, 's0".to_string(),
        destination: vec![reg(RBP)],
        source: vec![reg(RSP)],
    };
    assert_eq!(copy.to_string::<X86_64>(), "mov rbp, rsp");
    let label = Instruction::Label { assembly: "l1:".to_string(), label: Label::Num(1) };
    assert_eq!(label.to_string::<X86_64>(), "l1:");
    let store = Instruction::Operation {
        assembly: "mov ['s0 + -8], 's1".to_string(),
        destination: vec![],
        source: vec![reg(RBP), reg(R10)],
        jump: None,
    };
    assert_eq!(store.to_string::<X86_64>(), "mov [rbp + -8], r10");
    assert_eq!(store.copy(), store);
    let twice = Instruction::Operation {
        assembly: "lea 'd0, ['s0 + 's0]".to_string(),
        destination: vec![reg(R11)],
        source: vec![reg(RCX)],
        jump: None,
    };
    assert_eq!(twice.to_string::<X86_64>(), "lea r11, [rcx + rcx]");
}
