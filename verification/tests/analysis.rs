use tiger::assem::Instruction;
use tiger::flow::{find_label, instructions_to_graph};
use tiger::graph::Entry;
use tiger::liveness::{interference_graph, liveness};
use tiger::ordset::Move;
use tiger::temp::{Label, Temp};

fn t(num: u32) -> Temp {
    Temp { num }
}

fn op(assembly: &str, destination: Vec<Temp>, source: Vec<Temp>) -> Instruction {
    Instruction::Operation { assembly: assembly.to_string(), destination, source, jump: None }
}

fn branch(assembly: &str, source: Vec<Temp>, labels: Vec<Label>) -> Instruction {
    Instruction::Operation {
        assembly: assembly.to_string(),
        destination: vec![],
        source,
        jump: Some(labels),
    }
}

fn mov(destination: Temp, source: Temp) -> Instruction {
    Instruction::Move {
        assembly: "mov 'd0, 's0".to_string(),
        destination: vec![destination],
        source: vec![source],
    }
}

fn label(name: &str) -> Instruction {
    Instruction::Label { assembly: format!("{}:", name), label: Label::with_name(name) }
}

fn temps(set: &tiger::ordset::OrdSet<Temp>) -> Vec<u32> {
    set.to_vec().iter().map(|temp| temp.num).collect()
}

fn edges(instructions: &Vec<Instruction>) -> Vec<(u32, u32)> {
    let graph = interference_graph(instructions_to_graph(instructions));
    let nodes = graph.nodes();
    let mut result = vec![];
    for node in nodes {
        for successor in node.successors() {
            result.push((node.get().num, nodes[successor.index()].get().num));
        }
    }
    result.sort();
    result.dedup();
    result
}

#[test]
fn labels_are_found_at_their_last_position() {
    let instructions = vec![label("a"), op("nop", vec![], vec![]), label("b"), label("a")];
    assert_eq!(find_label(&instructions, &Label::with_name("a")), Some(3));
    assert_eq!(find_label(&instructions, &Label::with_name("b")), Some(2));
    assert_eq!(find_label(&instructions, &Label::with_name("c")), None);
}

#[test]
fn straight_code_is_a_chain() {
    let instructions = vec![
        op("mov 'd0, 1", vec![t(17)], vec![]),
        mov(t(18), t(17)),
        op("use", vec![], vec![t(18)]),
    ];
    let graph = instructions_to_graph(&instructions);
    let nodes = graph.nodes();
    assert_eq!(nodes.len(), 3);
    assert_eq!(temps(&nodes[0].get().defines), vec![17]);
    assert!(nodes[0].get().uses.is_empty());
    assert!(!nodes[0].get().is_move);
    assert!(nodes[1].get().is_move);
    assert_eq!(temps(&nodes[1].get().defines), vec![18]);
    assert_eq!(temps(&nodes[1].get().uses), vec![17]);
    assert_eq!(nodes[0].successors(), &vec![Entry(1)]);
    assert_eq!(nodes[1].successors(), &vec![Entry(2)]);
    assert_eq!(nodes[1].predecessors(), &vec![Entry(0)]);
    assert!(nodes[2].successors().is_empty());
}

#[test]
fn an_unconditional_jump_does_not_fall_through() {
    let instructions = vec![
        label("a"),
        branch("jmp b", vec![], vec![Label::with_name("b")]),
        op("dead", vec![t(20)], vec![]),
        label("b"),
        op("use", vec![], vec![t(17)]),
    ];
    let graph = instructions_to_graph(&instructions);
    let nodes = graph.nodes();
    assert_eq!(nodes.len(), 4);
    assert_eq!(nodes[0].successors(), &vec![Entry(1)]);
    assert_eq!(nodes[1].successors(), &vec![Entry(2)]);
    assert_eq!(nodes[2].successors(), &vec![Entry(3)]);
    assert_eq!(temps(&nodes[3].get().uses), vec![17]);
    for node in nodes {
        assert!(!node.get().defines.contains(&t(20)));
    }
}

#[test]
fn a_conditional_jump_leads_to_its_targets_and_falls_through() {
    let instructions = vec![
        op("cmp 's0, 's1", vec![], vec![t(17), t(18)]),
        branch("je yes", vec![], vec![Label::with_name("yes"), Label::with_name("no")]),
        label("no"),
        op("a", vec![t(19)], vec![]),
        label("yes"),
        op("b", vec![], vec![t(19)]),
    ];
    let graph = instructions_to_graph(&instructions);
    let nodes = graph.nodes();
    assert_eq!(nodes.len(), 6);
    assert_eq!(nodes[1].successors(), &vec![Entry(2), Entry(4), Entry(4)]);
    assert_eq!(temps(&nodes[3].get().uses), vec![19]);
    assert_eq!(temps(&nodes[5].get().defines), vec![19]);
    assert_eq!(nodes[5].successors(), &vec![Entry(2)]);
    assert_eq!(nodes[2].predecessors(), &vec![Entry(1), Entry(5)]);
}

#[test]
fn a_loop_leads_back() {
    let instructions = vec![
        label("top"),
        op("inc", vec![t(17)], vec![t(17)]),
        branch("jmp top", vec![], vec![Label::with_name("top")]),
    ];
    let graph = instructions_to_graph(&instructions);
    let nodes = graph.nodes();
    assert_eq!(nodes.len(), 3);
    assert_eq!(nodes[2].successors(), &vec![Entry(0)]);
    assert_eq!(nodes[0].predecessors(), &vec![Entry(2)]);
    let live = liveness(&graph);
    assert_eq!(temps(&live.live_in[0]), vec![17]);
    assert_eq!(temps(&live.live_out[2]), vec![17]);
}

#[test]
fn a_temporary_is_live_from_its_definition_to_its_last_use() {
    let instructions = vec![
        op("mov 'd0, 1", vec![t(17)], vec![]),
        op("mov 'd0, 2", vec![t(18)], vec![]),
        op("add 'd0, 's1", vec![t(17)], vec![t(17), t(18)]),
        op("use", vec![], vec![t(17)]),
    ];
    let graph = instructions_to_graph(&instructions);
    let live = liveness(&graph);
    assert_eq!(temps(&live.live_in[0]), Vec::<u32>::new());
    assert_eq!(temps(&live.live_out[0]), vec![17]);
    assert_eq!(temps(&live.live_in[1]), vec![17]);
    assert_eq!(temps(&live.live_out[1]), vec![17, 18]);
    assert_eq!(temps(&live.live_in[2]), vec![17, 18]);
    assert_eq!(temps(&live.live_out[2]), vec![17]);
    assert_eq!(temps(&live.live_in[3]), vec![17]);
    assert_eq!(temps(&live.live_out[3]), Vec::<u32>::new());
}

#[test]
fn liveness_is_a_fixed_point() {
    let instructions = vec![
        op("mov 'd0, 0", vec![t(17)], vec![]),
        label("top"),
        op("add 'd0, 's1", vec![t(18)], vec![t(18), t(17)]),
        op("cmp 's0, 's1", vec![], vec![t(18), t(19)]),
        branch("jl top", vec![], vec![Label::with_name("top"), Label::with_name("out")]),
        label("out"),
        op("use", vec![], vec![t(18)]),
    ];
    let graph = instructions_to_graph(&instructions);
    let live = liveness(&graph);
    let nodes = graph.nodes();
    for index in 0..nodes.len() {
        let node = nodes[index].get();
        let mut entering = node.uses.copy();
        let mut leaving = live.live_out[index].copy();
        leaving.subtract(&node.defines);
        entering.extend(&leaving);
        assert!(entering.equals(&live.live_in[index]));
        let mut exiting = tiger::ordset::OrdSet::new();
        for successor in nodes[index].successors() {
            exiting.extend(&live.live_in[successor.index()]);
        }
        assert!(exiting.equals(&live.live_out[index]));
    }
    assert_eq!(temps(&live.live_in[0]), vec![18, 19]);
}

#[test]
fn what_is_defined_interferes_with_what_is_live_after() {
    let instructions = vec![
        op("mov 'd0, 1", vec![t(17)], vec![]),
        op("mov 'd0, 2", vec![t(18)], vec![]),
        op("use", vec![], vec![t(17), t(18)]),
    ];
    assert_eq!(edges(&instructions), vec![(17, 17), (18, 17), (18, 18)]);
}

#[test]
fn a_move_does_not_interfere_with_its_source() {
    let instructions = vec![
        op("mov 'd0, 1", vec![t(17)], vec![]),
        mov(t(18), t(17)),
        op("use", vec![], vec![t(17), t(18)]),
    ];
    assert_eq!(edges(&instructions), vec![(17, 17), (18, 18)]);
    let graph = interference_graph(instructions_to_graph(&instructions));
    assert_eq!(graph.worklist_moves.to_vec(), vec![Move { destination: t(18), source: t(17) }]);
    assert_eq!(
        graph.move_list[&17].to_vec(),
        vec![Move { destination: t(18), source: t(17) }]
    );
    assert_eq!(
        graph.move_list[&18].to_vec(),
        vec![Move { destination: t(18), source: t(17) }]
    );
    assert!(graph.move_list.get(&19).is_none());
}

#[test]
fn an_operation_interferes_with_its_source_that_lives_on() {
    let instructions = vec![
        op("mov 'd0, 1", vec![t(17)], vec![]),
        op("lea 'd0, ['s0 + 1]", vec![t(18)], vec![t(17)]),
        op("use", vec![], vec![t(17), t(18)]),
    ];
    assert_eq!(edges(&instructions), vec![(17, 17), (18, 17), (18, 18)]);
}

#[test]
fn a_move_is_listed_under_its_two_ends_only() {
    let wide = Instruction::Move {
        assembly: "mov 'd0, 's0".to_string(),
        destination: vec![t(20), t(18), t(19)],
        source: vec![t(17)],
    };
    let instructions = vec![
        op("mov 'd0, 1", vec![t(17)], vec![]),
        wide,
        op("use", vec![], vec![t(18), t(19), t(20)]),
    ];
    let graph = interference_graph(instructions_to_graph(&instructions));
    let first = Move { destination: t(18), source: t(17) };
    assert_eq!(graph.worklist_moves.to_vec(), vec![first]);
    assert_eq!(graph.move_list[&17].to_vec(), vec![first]);
    assert_eq!(graph.move_list[&18].to_vec(), vec![first]);
    assert!(graph.move_list.get(&19).is_none());
    assert!(graph.move_list.get(&20).is_none());
}
