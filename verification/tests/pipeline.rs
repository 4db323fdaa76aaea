use tiger::assem::Instruction;
use tiger::compile::{canonical_body, compile_function, place, select, select_body, strategy_of, Strategy};
use tiger::color::color;
use tiger::flow::{instructions_to_graph, jumps_are_defined};
use tiger::liveness::interference_graph;
use tiger::frame::x86_64::X86_64;
use tiger::frame::Frame;
use tiger::ir::{BinOp, Exp, RelationalOp, Statement};
use tiger::nasm::{data_line, extern_line};
use tiger::simplest_reg_alloc::spills_of;
use tiger::supply::{add_capped, weight_of_exp, weight_of_statement};
use tiger::temp::{Gensym, Label, Temp};

fn temp(num: u32) -> Exp {
    Exp::Temp(Temp { num })
}

fn plus(left: Exp, right: Exp) -> Exp {
    Exp::BinOp { op: BinOp::Plus, left: Box::new(left), right: Box::new(right) }
}

fn call(name: &str, arguments: Vec<Exp>) -> Exp {
    Exp::Call(Box::new(Exp::Name(Label::with_name(name))), arguments)
}

fn body() -> Statement {
    // t100 := 1 + 2; printi(t100)
    Statement::Sequence(
        Box::new(Statement::Move(temp(100), plus(Exp::Const(1), Exp::Const(2)))),
        Box::new(Statement::Exp(call("printi", vec![temp(100)]))),
    )
}

fn branching() -> Statement {
    // if t100 < 3 goto yes else no; yes: printi(1); no:
    let yes = Label::with_name("yes");
    let no = Label::with_name("no");
    Statement::Sequence(
        Box::new(Statement::CondJump {
            op: RelationalOp::LesserThan,
            left: temp(100),
            right: Exp::Const(3),
            true_label: yes.copy(),
            false_label: no.copy(),
        }),
        Box::new(Statement::Sequence(
            Box::new(Statement::Label(yes)),
            Box::new(Statement::Sequence(
                Box::new(Statement::Exp(call("printi", vec![Exp::Const(1)]))),
                Box::new(Statement::Label(no)),
            )),
        )),
    )
}

fn frame(gensym: &mut Gensym) -> X86_64 {
    X86_64::new(Label::with_name("main"), vec![], gensym)
}

fn supply() -> Gensym {
    Gensym { temps: 200, labels: 0, uniques: 0 }
}

fn operands(instruction: &Instruction) -> Vec<Temp> {
    match instruction {
        Instruction::Label { .. } => vec![],
        Instruction::Move { destination, source, .. }
        | Instruction::Operation { destination, source, .. } => {
            destination.iter().chain(source.iter()).cloned().collect()
        }
    }
}

fn machine_only(instructions: &Vec<Instruction>) -> bool {
    instructions.iter().all(|instruction| {
        operands(instruction).iter().all(|temp| X86_64::special_name(*temp).is_some())
    })
}

#[test]
fn a_flag_chooses_the_strategy() {
    assert_eq!(strategy_of("-simplealloc"), Some(Strategy::Simple));
    assert_eq!(strategy_of("-coloralloc"), Some(Strategy::Color));
    assert_eq!(strategy_of("-h"), None);
    assert_eq!(strategy_of("queens.tig"), None);
    assert_eq!(strategy_of(""), None);
}

#[test]
fn sums_stop_at_the_greatest_number() {
    assert_eq!(add_capped(2, 3), 5);
    assert_eq!(add_capped(u64::MAX, 0), u64::MAX);
    assert_eq!(add_capped(u64::MAX - 1, 1), u64::MAX);
    assert_eq!(add_capped(u64::MAX - 1, 2), u64::MAX);
    assert_eq!(add_capped(u64::MAX, u64::MAX), u64::MAX);
}

#[test]
fn leaves_weigh_one_and_the_rest_more_than_its_parts() {
    assert_eq!(weight_of_exp(&Exp::Const(7)), 1);
    assert_eq!(weight_of_exp(&temp(100)), 1);
    assert_eq!(weight_of_exp(&Exp::Name(Label::with_name("f"))), 1);
    assert_eq!(weight_of_exp(&plus(Exp::Const(1), Exp::Const(2))), 4);
    assert_eq!(weight_of_exp(&Exp::Mem(Box::new(temp(1)))), 2);
    // The function at the first place, the argument at the second.
    assert_eq!(weight_of_exp(&call("f", vec![temp(100)])), 1 + 1 + 1 + 2 + 1);
    assert_eq!(weight_of_exp(&call("f", vec![])), 3);
    assert_eq!(
        weight_of_exp(&Exp::ExpSequence(
            Box::new(Statement::Label(Label::with_name("a"))),
            Box::new(Exp::Const(0))
        )),
        2
    );
}

#[test]
fn statements_weigh_their_expressions_and_themselves() {
    assert_eq!(weight_of_statement(&Statement::Label(Label::with_name("a"))), 1);
    assert_eq!(weight_of_statement(&Statement::Exp(Exp::Const(0))), 2);
    assert_eq!(weight_of_statement(&Statement::Move(temp(1), temp(2))), 4);
    assert_eq!(
        weight_of_statement(&Statement::Jump(Exp::Name(Label::with_name("a")), vec![])),
        2
    );
    assert_eq!(weight_of_statement(&body()), (1 + 4 + 2) + (6 + 1));
    assert_eq!(weight_of_statement(&branching()), (1 + 1 + 2) + 1 + (6 + 1) + 1);
}

#[test]
fn jumps_to_labels_that_are_there_are_defined() {
    let here = Label::with_name("here");
    let label = Instruction::Label { assembly: "here:".to_string(), label: here.copy() };
    let jump = |target: &Label| Instruction::Operation {
        assembly: "jmp here".to_string(),
        destination: vec![],
        source: vec![],
        jump: Some(vec![target.copy()]),
    };
    assert!(jumps_are_defined(&vec![]));
    assert!(jumps_are_defined(&vec![jump(&here), label.clone()]));
    assert!(jumps_are_defined(&vec![label.clone(), jump(&here)]));
    assert!(!jumps_are_defined(&vec![jump(&here)]));
    assert!(!jumps_are_defined(&vec![label, jump(&Label::with_name("there"))]));
}

#[test]
fn the_body_in_canonical_form_takes_from_both_supplies() {
    let mut gensym = supply();
    let mut frame = frame(&mut gensym);
    let statements = canonical_body(body(), &mut frame, &mut gensym).expect("canonical form");
    assert!(gensym.temps >= 206);
    assert!(gensym.labels >= 1);
    assert!(matches!(statements[0], Statement::Label(_)));
    assert!(statements.iter().all(|statement| !matches!(statement, Statement::Sequence(_, _))));
}

#[test]
fn without_temporaries_nothing_is_compiled() {
    for temps in [u32::MAX, u32::MAX - 5, u32::MAX - 6, u32::MAX - 40] {
        let mut gensym = Gensym { temps, labels: 0, uniques: 0 };
        let mut frame = X86_64 { formals: vec![], name: Label::with_name("main"), pointer: 0 };
        assert!(canonical_body(body(), &mut frame, &mut gensym).is_none());
        let mut gensym = Gensym { temps, labels: 0, uniques: 0 };
        assert!(compile_function(body(), &mut frame, Strategy::Color, &mut gensym).is_none());
        assert_eq!(frame.pointer, 0);
    }
}

#[test]
fn without_labels_nothing_is_compiled() {
    let mut gensym = Gensym { temps: 200, labels: u32::MAX - 10, uniques: 0 };
    let mut frame = X86_64 { formals: vec![], name: Label::with_name("main"), pointer: 0 };
    assert!(select_body(body(), &mut frame, &mut gensym).is_none());
}

#[test]
fn selection_stops_when_the_supply_may_run_out() {
    let statements = vec![Statement::Move(temp(100), Exp::Const(1))];
    let mut gensym = Gensym { temps: u32::MAX - 3, labels: 0, uniques: 0 };
    assert!(select(&statements, &mut gensym).is_none());
    let mut gensym = Gensym { temps: u32::MAX - 4, labels: 0, uniques: 0 };
    let code = select(&statements, &mut gensym).expect("selection");
    assert_eq!(code.len(), 2);
    assert_eq!(gensym.temps, u32::MAX - 3);
    let mut gensym = supply();
    assert_eq!(select(&vec![], &mut gensym), Some(vec![]));
    assert_eq!(gensym.temps, 200);
}

#[test]
fn the_selected_body_ends_with_what_keeps_the_registers_alive() {
    let mut gensym = supply();
    let mut frame = frame(&mut gensym);
    let instructions = select_body(body(), &mut frame, &mut gensym).expect("selection");
    match instructions.last() {
        Some(Instruction::Operation { assembly, source, jump, .. }) => {
            assert_eq!(assembly, "");
            assert_eq!(source.len(), 10);
            assert_eq!(jump, &Some(vec![]));
        }
        other => panic!("no sink: {:?}", other),
    }
    assert_eq!(frame.pointer, 0);
}

#[test]
fn colouring_compiles_to_machine_registers() {
    for statement in [body(), branching()] {
        let mut gensym = supply();
        let mut frame = frame(&mut gensym);
        let subroutine =
            compile_function(statement, &mut frame, Strategy::Color, &mut gensym).expect("code");
        assert!(machine_only(&subroutine.body));
        assert_eq!(subroutine.prolog, "main:\n    push rbp\n    mov rbp, rsp\n    sub rsp, 0");
        assert_eq!(subroutine.epilog, "leave\n    ret");
        assert_eq!(frame.pointer, 0);
        let text: Vec<String> =
            subroutine.body.iter().map(|instruction| instruction.to_string::<X86_64>()).collect();
        assert!(text.iter().any(|line| line == "call printi"));
    }
}

#[test]
fn the_simple_strategy_compiles_to_machine_registers_and_slots() {
    let mut gensym = supply();
    let mut frame = frame(&mut gensym);
    let selected = select_body(body(), &mut frame, &mut gensym).expect("selection");
    let slots = spills_of(&selected).len() as i64;
    assert!(slots > 0);
    let mut gensym = supply();
    let mut frame = X86_64 { formals: vec![], name: Label::with_name("main"), pointer: 0 };
    let subroutine =
        compile_function(body(), &mut frame, Strategy::Simple, &mut gensym).expect("code");
    assert!(machine_only(&subroutine.body));
    assert_eq!(frame.pointer, -8 * slots);
    let reserve = if (8 * slots) % 16 == 0 { 8 * slots } else { 8 * slots + 8 };
    assert_eq!(
        subroutine.prolog,
        format!("main:\n    push rbp\n    mov rbp, rsp\n    sub rsp, {}", reserve)
    );
}

#[test]
fn a_frame_without_room_ends_the_simple_strategy() {
    let mut gensym = supply();
    let mut frame = frame(&mut gensym);
    let selected = select_body(body(), &mut frame, &mut gensym).expect("selection");
    let full = tiger::frame::x86_64::MIN_POINTER;
    let mut frame = X86_64 { formals: vec![], name: Label::with_name("main"), pointer: full };
    assert!(place(selected, &mut frame, Strategy::Simple, &mut gensym).is_none());
    assert_eq!(frame.pointer, full);
}

#[test]
fn a_jump_to_nowhere_ends_colouring() {
    let jump = Instruction::Operation {
        assembly: "jmp away".to_string(),
        destination: vec![],
        source: vec![],
        jump: Some(vec![Label::with_name("away")]),
    };
    let mut gensym = supply();
    let mut frame = frame(&mut gensym);
    assert!(place(vec![jump.clone()], &mut frame, Strategy::Color, &mut gensym).is_none());
    assert!(place(vec![jump], &mut frame, Strategy::Simple, &mut gensym).is_some());
}

#[test]
fn the_lines_of_the_data_section() {
    assert_eq!(data_line(&Label::with_name("greeting"), "hello\n"), "    greeting: db 'hello', 10, '', 0");
    assert_eq!(data_line(&Label::Num(3), ""), "    l3: db '', 0");
    assert_eq!(extern_line("printi"), "extern printi");
}

#[test]
fn the_selected_bodies_are_coloured_properly() {
    for statement in [body(), branching()] {
        let mut gensym = supply();
        let mut frame = frame(&mut gensym);
        let instructions = select_body(statement, &mut frame, &mut gensym).expect("selection");
        let initial: Vec<Temp> = instructions
            .iter()
            .flat_map(operands)
            .filter(|temp| X86_64::special_name(*temp).is_none())
            .collect();
        let graph = interference_graph(instructions_to_graph(&instructions));
        let mut pairs = vec![];
        for node in graph.nodes() {
            for successor in node.successors() {
                let other = *graph.nodes()[successor.index()].get();
                if other != *node.get() {
                    pairs.push((*node.get(), other));
                }
            }
        }
        assert!(!pairs.is_empty());
        let (allocation, spills, _, _) = color::<X86_64>(graph, initial.clone());
        assert!(spills.is_empty());
        for temp in &initial {
            assert!(X86_64::special_name(allocation[&temp.num]).is_some());
        }
        for (first, second) in pairs {
            assert_ne!(allocation[&first.num], allocation[&second.num]);
        }
    }
}
