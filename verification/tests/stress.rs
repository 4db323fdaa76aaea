use std::collections::BTreeSet;
use tiger::assem::Instruction;
use tiger::color::color;
use tiger::flow::{instructions_to_graph, jumps_are_defined};
use tiger::frame::x86_64::X86_64;
use tiger::frame::Frame;
use tiger::liveness::interference_graph;
use tiger::reg_alloc::allocate_registers;
use tiger::temp::{Gensym, Label, Temp};

/// A small generator of numbers that gives the same sequence every time.
struct Numbers {
    state: u64,
}

impl Numbers {
    fn next(&mut self) -> u64 {
        self.state = self.state.wrapping_mul(6364136223846793005).wrapping_add(1442695040888963407);
        self.state >> 33
    }

    fn below(&mut self, limit: u64) -> u64 {
        self.next() % limit
    }
}

fn t(num: u32) -> Temp {
    Temp { num }
}

fn is_register(temp: Temp) -> bool {
    X86_64::special_name(temp).is_some()
}

fn pick(numbers: &mut Numbers, temps: u32) -> Temp {
    if numbers.below(8) == 0 {
        // A register that the allocator may hand out.
        t(3 + numbers.below(14) as u32)
    } else {
        t(100 + numbers.below(temps as u64) as u32)
    }
}

fn program(numbers: &mut Numbers, temps: u32, length: usize, labels: u32) -> Vec<Instruction> {
    let mut instructions = vec![];
    let mut placed = 0;
    for position in 0..length {
        if placed < labels && position * labels as usize >= placed as usize * length {
            let label = Label::Num(placed);
            instructions.push(Instruction::Label { assembly: format!("l{}:", placed), label });
            placed += 1;
        }
        match numbers.below(10) {
            0..=2 => {
                let mut destination = vec![pick(numbers, temps)];
                if numbers.below(6) == 0 {
                    destination.push(pick(numbers, temps));
                }
                instructions.push(Instruction::Move {
                    assembly: "mov 'd0, 's0".to_string(),
                    destination,
                    source: vec![pick(numbers, temps)],
                })
            }
            3 if labels > 0 => {
                let target = Label::Num(numbers.below(labels as u64) as u32);
                instructions.push(Instruction::Operation {
                    assembly: "cmp 's0, 's1".to_string(),
                    destination: vec![],
                    source: vec![pick(numbers, temps), pick(numbers, temps)],
                    jump: None,
                });
                instructions.push(Instruction::Operation {
                    assembly: "je".to_string(),
                    destination: vec![],
                    source: vec![],
                    jump: Some(vec![target]),
                });
            }
            4 => instructions.push(Instruction::Operation {
                assembly: "mov 'd0, 1".to_string(),
                destination: vec![pick(numbers, temps)],
                source: vec![],
                jump: None,
            }),
            _ => {
                let destination = pick(numbers, temps);
                instructions.push(Instruction::Operation {
                    assembly: "add 'd0, 's1".to_string(),
                    destination: vec![destination],
                    source: vec![destination, pick(numbers, temps)],
                    jump: None,
                });
            }
        }
    }
    while placed < labels {
        let label = Label::Num(placed);
        instructions.push(Instruction::Label { assembly: format!("l{}:", placed), label });
        placed += 1;
    }
    let live: Vec<Temp> = (0..3).map(|_| pick(numbers, temps)).collect();
    instructions.push(Instruction::Operation {
        assembly: String::new(),
        destination: vec![],
        source: live,
        jump: Some(vec![]),
    });
    instructions
}

fn operands(instruction: &Instruction) -> Vec<Temp> {
    match instruction {
        Instruction::Label { .. } => vec![],
        Instruction::Move { destination, source, .. }
        | Instruction::Operation { destination, source, .. } => {
            destination.iter().chain(source.iter()).cloned().collect()
        }
    }
}

fn virtual_temps(instructions: &Vec<Instruction>) -> Vec<Temp> {
    instructions
        .iter()
        .flat_map(operands)
        .filter(|temp| !is_register(*temp))
        .collect()
}

fn interfering(instructions: &Vec<Instruction>) -> Vec<(Temp, Temp)> {
    let graph = interference_graph(instructions_to_graph(instructions));
    let nodes = graph.nodes();
    let mut result = vec![];
    for node in nodes {
        for successor in node.successors() {
            let other = *nodes[successor.index()].get();
            if other != *node.get() {
                result.push((*node.get(), other));
            }
        }
    }
    result
}

fn check_colouring(instructions: &Vec<Instruction>, what: &str) {
    assert!(jumps_are_defined(instructions));
    let graph = interference_graph(instructions_to_graph(instructions));
    let initial = virtual_temps(instructions);
    let (allocation, spills, colored, coalesced) = color::<X86_64>(graph, initial.clone());
    for register in 1..=16 {
        assert_eq!(allocation[&register], t(register), "{}", what);
    }
    let spilled: BTreeSet<u32> = spills.iter().map(|temp| temp.num).collect();
    assert_eq!(spilled.len(), spills.len(), "{}: a temporary is spilled twice", what);
    for temp in &initial {
        let places = [
            colored.contains(temp),
            spilled.contains(&temp.num),
            coalesced.contains(temp),
        ];
        assert_eq!(
            places.iter().filter(|place| **place).count(),
            1,
            "{}: t{} is not in exactly one of the coloured, spilled and coalesced",
            what,
            temp.num
        );
        if colored.contains(temp) {
            assert!(is_register(allocation[&temp.num]), "{}", what);
        }
        if spilled.contains(&temp.num) {
            assert!(!allocation.contains_key(&temp.num), "{}", what);
        }
    }
    for (first, second) in interfering(instructions) {
        if let (Some(one), Some(other)) = (allocation.get(&first.num), allocation.get(&second.num))
        {
            assert_ne!(
                one, other,
                "{}: t{} and t{} interfere and share a register",
                what, first.num, second.num
            );
        }
    }
}

fn check_allocation(instructions: Vec<Instruction>, what: &str) {
    let mut gensym = Gensym { temps: 1000, labels: 100, uniques: 0 };
    let mut frame = X86_64::new(Label::with_name("f"), vec![], &mut gensym);
    let before = instructions.len();
    match allocate_registers(instructions, &mut frame, &mut gensym) {
        Some(result) => {
            for instruction in &result {
                for temp in operands(instruction) {
                    assert!(is_register(temp), "{}: t{} is left", what, temp.num);
                }
            }
            assert!(frame.pointer <= 0 && frame.pointer % 8 == 0, "{}", what);
            assert!(result.len() <= before + 3 * before * (-frame.pointer / 8 + 1) as usize);
            check_colouring(&result, what);
        }
        None => panic!("{}: no allocation", what),
    }
}

#[test]
fn straight_programs_are_coloured_properly() {
    let mut numbers = Numbers { state: 1 };
    for round in 0..60 {
        let temps = 2 + numbers.below(12) as u32;
        let length = 1 + numbers.below(30) as usize;
        let instructions = program(&mut numbers, temps, length, 0);
        check_colouring(&instructions, &format!("straight program {}", round));
    }
}

#[test]
fn branching_programs_are_coloured_properly() {
    let mut numbers = Numbers { state: 2 };
    for round in 0..60 {
        let temps = 2 + numbers.below(12) as u32;
        let length = 1 + numbers.below(30) as usize;
        let labels = 1 + numbers.below(4) as u32;
        let instructions = program(&mut numbers, temps, length, labels);
        check_colouring(&instructions, &format!("branching program {}", round));
    }
}

#[test]
fn crowded_programs_are_coloured_properly() {
    let mut numbers = Numbers { state: 3 };
    for round in 0..10 {
        let temps = 15 + numbers.below(15) as u32;
        let length = 40 + numbers.below(30) as usize;
        let labels = numbers.below(5) as u32;
        let instructions = program(&mut numbers, temps, length, labels);
        check_colouring(&instructions, &format!("crowded program {}", round));
    }
}

#[test]
fn straight_programs_end_with_registers_only() {
    let mut numbers = Numbers { state: 4 };
    for round in 0..20 {
        let temps = 2 + numbers.below(12) as u32;
        let length = 1 + numbers.below(30) as usize;
        let instructions = program(&mut numbers, temps, length, 0);
        check_allocation(instructions, &format!("straight program {}", round));
    }
}

#[test]
fn branching_programs_end_with_registers_only() {
    let mut numbers = Numbers { state: 5 };
    for round in 0..20 {
        let temps = 2 + numbers.below(14) as u32;
        let length = 1 + numbers.below(40) as usize;
        let labels = 1 + numbers.below(4) as u32;
        let instructions = program(&mut numbers, temps, length, labels);
        check_allocation(instructions, &format!("branching program {}", round));
    }
}

#[test]
fn crowded_programs_end_with_registers_only() {
    let mut numbers = Numbers { state: 6 };
    for round in 0..2 {
        let temps = 17 + numbers.below(6) as u32;
        let length = 30 + numbers.below(20) as usize;
        let labels = numbers.below(4) as u32;
        let instructions = program(&mut numbers, temps, length, labels);
        check_allocation(instructions, &format!("crowded program {}", round));
    }
}
