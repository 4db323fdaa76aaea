use std::collections::HashMap;
use tiger::assem::Instruction;
use tiger::color::color;
use tiger::flow::instructions_to_graph;
use tiger::frame::x86_64::{reg, X86_64, R10, R11, RAX, RBP, RDI};
use tiger::frame::Frame;
use tiger::liveness::interference_graph;
use tiger::reg_alloc::{allocate, allocate_registers, replace_allocation};
use tiger::spill::{count_operands, rewrite_program};
use tiger::simplest_reg_alloc::{is_spilled, simplest_allocate};
use tiger::temp::{Gensym, Label, Temp};

fn t(num: u32) -> Temp {
    Temp { num }
}

fn op(assembly: &str, destination: Vec<Temp>, source: Vec<Temp>) -> Instruction {
    Instruction::Operation { assembly: assembly.to_string(), destination, source, jump: None }
}

fn mov(destination: Temp, source: Temp) -> Instruction {
    Instruction::Move {
        assembly: "mov 'd0, 's0".to_string(),
        destination: vec![destination],
        source: vec![source],
    }
}

fn sink(source: Vec<Temp>) -> Instruction {
    Instruction::Operation {
        assembly: String::new(),
        destination: vec![],
        source,
        jump: Some(vec![]),
    }
}

fn supply(temps: u32) -> Gensym {
    Gensym { temps, labels: 0, uniques: 0 }
}

fn operands(instruction: &Instruction) -> Vec<Temp> {
    match instruction {
        Instruction::Label { .. } => vec![],
        Instruction::Move { destination, source, .. }
        | Instruction::Operation { destination, source, .. } => {
            let mut all = destination.clone();
            all.extend(source.iter().cloned());
            all
        }
    }
}

fn many_live(count: u32) -> Vec<Instruction> {
    let mut instructions = vec![];
    for index in 0..count {
        instructions.push(op(&format!("mov 'd0, {}", index), vec![t(100 + index)], vec![]));
    }
    instructions.push(mov(t(99), t(100)));
    for index in 1..count {
        instructions.push(op("add 'd0, 's1", vec![t(99)], vec![t(99), t(100 + index)]));
    }
    instructions.push(sink(vec![t(99)]));
    instructions
}

fn interfering(instructions: &Vec<Instruction>) -> Vec<(Temp, Temp)> {
    let graph = interference_graph(instructions_to_graph(instructions));
    let nodes = graph.nodes();
    let mut result = vec![];
    for node in nodes {
        for successor in node.successors() {
            let other = *nodes[successor.index()].get();
            if other != *node.get() {
                result.push((*node.get(), other));
            }
        }
    }
    result
}

#[test]
fn temporaries_that_interfere_get_different_registers() {
    let instructions = vec![
        op("mov 'd0, 1", vec![t(17)], vec![]),
        op("mov 'd0, 2", vec![t(18)], vec![]),
        op("mov 'd0, 3", vec![t(19)], vec![]),
        op("use", vec![], vec![t(17), t(18), t(19)]),
    ];
    let graph = interference_graph(instructions_to_graph(&instructions));
    let (allocation, spills, colored, coalesced) =
        color::<X86_64>(graph, vec![t(17), t(18), t(19)]);
    assert!(spills.is_empty());
    assert!(coalesced.is_empty());
    assert_eq!(colored.to_vec(), vec![t(17), t(18), t(19)]);
    for (first, second) in interfering(&instructions) {
        assert_ne!(allocation[&first.num], allocation[&second.num]);
    }
    for temp in [17, 18, 19] {
        assert!(X86_64::special_name(allocation[&temp]).is_some());
    }
    for register in 1..=16 {
        assert_eq!(allocation[&register], t(register));
    }
}

#[test]
fn a_move_between_temporaries_that_do_not_interfere_is_coalesced() {
    let instructions = vec![
        op("mov 'd0, 1", vec![t(17)], vec![]),
        mov(t(18), t(17)),
        sink(vec![t(18)]),
    ];
    let graph = interference_graph(instructions_to_graph(&instructions));
    let (allocation, spills, colored, coalesced) = color::<X86_64>(graph, vec![t(17), t(18), t(17), t(18)]);
    assert!(spills.is_empty());
    assert_eq!(colored.len() + coalesced.len(), 2);
    assert_eq!(coalesced.len(), 1);
    assert_eq!(allocation[&17], allocation[&18]);
    let mut gensym = supply(18);
    let mut frame = X86_64::new(Label::with_name("f"), vec![], &mut gensym);
    let result = allocate_registers(instructions, &mut frame, &mut gensym).unwrap();
    assert_eq!(result.len(), 2);
    assert_eq!(frame.pointer, 0);
    match (&result[0], &result[1]) {
        (
            Instruction::Operation { destination, .. },
            Instruction::Operation { source, .. },
        ) => assert_eq!(destination, source),
        other => panic!("{:?}", other),
    }
}

#[test]
fn a_move_from_a_register_is_coalesced_with_it() {
    let instructions = vec![
        mov(t(17), reg(RDI)),
        op("add 'd0, 's1", vec![t(17)], vec![t(17), t(17)]),
        mov(reg(RAX), t(17)),
        sink(vec![reg(RAX)]),
    ];
    let mut gensym = supply(17);
    let mut frame = X86_64::new(Label::with_name("f"), vec![], &mut gensym);
    let result = allocate_registers(instructions, &mut frame, &mut gensym).unwrap();
    for instruction in &result {
        for temp in operands(instruction) {
            assert!(X86_64::special_name(temp).is_some(), "{:?}", instruction);
        }
    }
    assert!(result.len() <= 3);
}

#[test]
fn more_live_temporaries_than_registers_are_spilled() {
    let instructions = many_live(30);
    let mut initial = vec![t(99)];
    for index in 0..30 {
        initial.push(t(100 + index));
    }
    let graph = interference_graph(instructions_to_graph(&instructions));
    let (allocation, spills, colored, coalesced) = color::<X86_64>(graph, initial);
    assert!(!spills.is_empty());
    assert_eq!(spills.len() + colored.len() + coalesced.len(), 31);
    for spill in &spills {
        assert!(!allocation.contains_key(&spill.num));
    }
    for (first, second) in interfering(&instructions) {
        if let (Some(one), Some(other)) = (allocation.get(&first.num), allocation.get(&second.num)) {
            assert_ne!(one, other, "{:?} {:?}", first, second);
        }
    }
}

#[test]
fn allocation_ends_with_machine_registers_only() {
    let instructions = many_live(30);
    let mut gensym = supply(200);
    let mut frame = X86_64::new(Label::with_name("main"), vec![], &mut gensym);
    let result = allocate_registers(instructions, &mut frame, &mut gensym).unwrap();
    assert!(frame.pointer < 0);
    assert_eq!(frame.pointer % 8, 0);
    assert!(gensym.temps > 200);
    for instruction in &result {
        for temp in operands(instruction) {
            assert!(X86_64::special_name(temp).is_some(), "{:?}", instruction);
        }
    }
    let size = frame.proc_entry_exit3(vec![]).prolog;
    let reserved: i64 = size.rsplit(' ').next().unwrap().parse().unwrap();
    assert!(reserved > 0);
    assert_eq!(reserved % 16, 0);
    assert!(reserved >= -frame.pointer);
}

#[test]
fn without_rounds_a_spill_ends_the_allocation() {
    let instructions = many_live(30);
    let mut initial = vec![t(99)];
    for index in 0..30 {
        initial.push(t(100 + index));
    }
    let mut gensym = supply(200);
    let mut frame = X86_64::new(Label::with_name("main"), vec![], &mut gensym);
    assert_eq!(allocate(instructions, initial, &mut frame, &mut gensym, 0), None);
    assert_eq!(frame.pointer, 0);
    assert_eq!(gensym.temps, 200);
}

#[test]
fn registers_take_the_place_of_temporaries_and_moves_to_itself_go() {
    let mut allocation = HashMap::new();
    allocation.insert(17, reg(RAX));
    allocation.insert(18, reg(RAX));
    allocation.insert(19, reg(R10));
    let instructions = vec![
        op("mov 'd0, 1", vec![t(17)], vec![]),
        mov(t(18), t(17)),
        mov(t(19), t(18)),
        Instruction::Move {
            assembly: "movzx 'd0, 's0".to_string(),
            destination: vec![t(17)],
            source: vec![t(18)],
        },
        Instruction::Label { assembly: "a:".to_string(), label: Label::with_name("a") },
        op("use", vec![], vec![t(19), t(20)]),
    ];
    assert_eq!(
        replace_allocation(instructions, &allocation),
        vec![
            op("mov 'd0, 1", vec![reg(RAX)], vec![]),
            mov(reg(R10), reg(RAX)),
            Instruction::Move {
                assembly: "movzx 'd0, 's0".to_string(),
                destination: vec![reg(RAX)],
                source: vec![reg(RAX)],
            },
            Instruction::Label { assembly: "a:".to_string(), label: Label::with_name("a") },
            op("use", vec![], vec![reg(R10), t(20)]),
        ]
    );
}

#[test]
fn a_fresh_temporary_stands_for_a_spilled_one_in_each_instruction() {
    let mut gensym = supply(20);
    let mut frame = X86_64::new(Label::with_name("f"), vec![true], &mut gensym);
    let instructions = vec![
        op("mov 'd0, 1", vec![t(17)], vec![]),
        Instruction::Label { assembly: "a:".to_string(), label: Label::with_name("a") },
        op("add 'd0, 's1", vec![t(18)], vec![t(18), t(17)]),
        op("inc 'd0", vec![t(17)], vec![t(17)]),
        op("use", vec![], vec![t(18)]),
    ];
    let (rewritten, new_temps) = rewrite_program(instructions, vec![t(17)], &mut frame, &mut gensym);
    assert_eq!(frame.pointer, -16);
    assert_eq!(gensym.temps, 23);
    assert_eq!(new_temps.to_vec(), vec![t(21), t(22), t(23)]);
    assert_eq!(
        rewritten,
        vec![
            op("mov 'd0, 1", vec![t(21)], vec![]),
            op("mov ['s0 + -16], 's1", vec![], vec![reg(RBP), t(21)]),
            Instruction::Label { assembly: "a:".to_string(), label: Label::with_name("a") },
            op("mov 'd0, ['s0 + -16]", vec![t(22)], vec![reg(RBP)]),
            op("add 'd0, 's1", vec![t(18)], vec![t(18), t(22)]),
            op("mov 'd0, ['s0 + -16]", vec![t(23)], vec![reg(RBP)]),
            op("inc 'd0", vec![t(23)], vec![t(23)]),
            op("mov ['s0 + -16], 's1", vec![], vec![reg(RBP), t(23)]),
            op("use", vec![], vec![t(18)]),
        ]
    );
}

#[test]
fn a_temporary_spilled_twice_uses_its_last_slot() {
    let mut gensym = supply(20);
    let mut frame = X86_64::new(Label::with_name("f"), vec![], &mut gensym);
    let instructions = vec![op("use", vec![], vec![t(17)]), op("def", vec![t(18)], vec![])];
    let (rewritten, _) =
        rewrite_program(instructions, vec![t(17), t(18), t(17)], &mut frame, &mut gensym);
    assert_eq!(frame.pointer, -24);
    assert_eq!(
        rewritten,
        vec![
            op("mov 'd0, ['s0 + -24]", vec![t(21)], vec![reg(RBP)]),
            op("use", vec![], vec![t(21)]),
            op("def", vec![t(22)], vec![]),
            op("mov ['s0 + -16], 's1", vec![], vec![reg(RBP), t(22)]),
        ]
    );
}

#[test]
fn every_spilled_operand_of_an_instruction_is_rewritten() {
    let mut gensym = supply(30);
    let mut frame = X86_64::new(Label::with_name("f"), vec![], &mut gensym);
    let instructions = vec![
        op("lea 'd0, ['s0 + 's1]", vec![t(19)], vec![t(17), t(18)]),
        mov(t(18), t(17)),
        op("xchg 'd0, 'd1", vec![t(17), t(18)], vec![t(17), t(18), t(17)]),
    ];
    assert_eq!(count_operands(&instructions), 10);
    let (rewritten, new_temps) =
        rewrite_program(instructions, vec![t(17), t(18)], &mut frame, &mut gensym);
    assert_eq!(frame.pointer, -16);
    assert_eq!(gensym.temps, 36);
    assert_eq!(new_temps.to_vec(), (31..=36).map(t).collect::<Vec<_>>());
    assert_eq!(
        rewritten,
        vec![
            op("mov 'd0, ['s0 + -8]", vec![t(31)], vec![reg(RBP)]),
            op("mov 'd0, ['s0 + -16]", vec![t(32)], vec![reg(RBP)]),
            op("lea 'd0, ['s0 + 's1]", vec![t(19)], vec![t(31), t(32)]),
            op("mov 'd0, ['s0 + -8]", vec![t(33)], vec![reg(RBP)]),
            mov(t(34), t(33)),
            op("mov ['s0 + -16], 's1", vec![], vec![reg(RBP), t(34)]),
            op("mov 'd0, ['s0 + -8]", vec![t(35)], vec![reg(RBP)]),
            op("mov 'd0, ['s0 + -16]", vec![t(36)], vec![reg(RBP)]),
            op("xchg 'd0, 'd1", vec![t(35), t(36)], vec![t(35), t(36), t(35)]),
            op("mov ['s0 + -8], 's1", vec![], vec![reg(RBP), t(35)]),
            op("mov ['s0 + -16], 's1", vec![], vec![reg(RBP), t(36)]),
        ]
    );
}

#[test]
fn only_temporaries_that_are_no_registers_live_in_the_frame() {
    assert!(is_spilled(t(17)));
    assert!(is_spilled(t(0)));
    assert!(!is_spilled(reg(RBP)));
    assert!(!is_spilled(t(16)));
}

#[test]
fn the_simplest_allocation_stages_everything_through_two_registers() {
    let mut gensym = supply(30);
    let mut frame = X86_64::new(Label::with_name("f"), vec![], &mut gensym);
    let instructions = vec![
        Instruction::Label { assembly: "f:".to_string(), label: Label::with_name("f") },
        op("mov 'd0, 1", vec![t(17)], vec![]),
        mov(t(18), t(17)),
        op("add 'd0, 's1", vec![t(18)], vec![t(18), t(17)]),
        op("add 'd0, 's1", vec![t(18)], vec![t(18), reg(RDI)]),
        op("add 'd0, 's1", vec![t(18)], vec![reg(RDI), t(17)]),
        op("cmp 's0, 's1", vec![], vec![t(17), t(18)]),
        op("cmp 's0, 's1", vec![], vec![reg(RDI), t(18)]),
        op("cmp 's0, 's1", vec![], vec![t(17), reg(RDI)]),
        op("push 's0", vec![], vec![t(18)]),
        mov(reg(RAX), reg(RDI)),
    ];
    let result = simplest_allocate(instructions, &mut frame, &mut gensym);
    assert_eq!(gensym.temps, 30);
    assert_eq!(frame.pointer, -120);
    let load = |register: u32, offset: i64| {
        op(&format!("mov 'd0, ['s0 + {}]", offset), vec![reg(register)], vec![reg(RBP)])
    };
    let store = |offset: i64| {
        op(&format!("mov ['s0 + {}], 's1", offset), vec![], vec![reg(RBP), reg(R11)])
    };
    let seventeen = -112;
    let eighteen = -120;
    assert_eq!(
        result,
        vec![
            Instruction::Label { assembly: "f:".to_string(), label: Label::with_name("f") },
            op("mov 'd0, 1", vec![reg(R11)], vec![]),
            store(seventeen),
            load(R10, seventeen),
            mov(reg(R11), reg(R10)),
            store(eighteen),
            load(R10, eighteen),
            load(R11, seventeen),
            op("add 'd0, 's1", vec![reg(R11)], vec![reg(R10), reg(R11)]),
            store(eighteen),
            load(R10, eighteen),
            op("add 'd0, 's1", vec![reg(R11)], vec![reg(R10), reg(RDI)]),
            store(eighteen),
            load(R10, seventeen),
            op("add 'd0, 's1", vec![reg(R11)], vec![reg(RDI), reg(R10)]),
            store(eighteen),
            load(R10, seventeen),
            load(R11, eighteen),
            op("cmp 's0, 's1", vec![], vec![reg(R10), reg(R11)]),
            load(R11, eighteen),
            op("cmp 's0, 's1", vec![], vec![reg(RDI), reg(R11)]),
            load(R10, seventeen),
            op("cmp 's0, 's1", vec![], vec![reg(R10), reg(RDI)]),
            load(R10, eighteen),
            op("push 's0", vec![], vec![reg(R10)]),
            mov(reg(RAX), reg(RDI)),
        ]
    );
    for instruction in &result {
        for temp in operands(instruction) {
            assert!(!is_spilled(temp));
        }
    }
}
