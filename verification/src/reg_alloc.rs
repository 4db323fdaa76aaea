//! Register allocation by graph colouring: colour the interference graph of
//! the instructions, rewrite them with loads and stores for the temporaries
//! that found no register and colour again, and in the end put the
//! registers in place of the temporaries.

use std::collections::HashMap;
use vstd::prelude::*;
use vstd::string::*;
use crate::assem::{copy_temps, instruction_views, Instruction, InstructionView};
use crate::color::{color, colored, initial_state};
use crate::flow::{instructions_to_graph, jumps_defined, FlowGraph};
use crate::liveness::{interference_graph, is_liveness, InterferenceGraph};
use crate::ordset::{ordered, table_view};
use crate::codegen::move_text;
use crate::frame::x86_64::{X86_64, MIN_POINTER};
use crate::frame::Frame;
use crate::spill::{
    count_operands, lemma_rewrite_all_temps, lemma_rewrite_extends, lemma_rewrite_jumps,
    operand_count, rewrite_all, rewrite_program,
};
use crate::registers::{
    all_machine, covers, lemma_allocated_machine, lemma_allocated_proper, lemma_initial_covers,
    lemma_initial_virtual, properly_coloured,
};
use crate::temp::{Gensym, Temp};

verus! {

/// The register of each temporary that has one.
pub type Allocation = HashMap<u32, Temp>;

/// What stands for `temp` under an allocation: its register, or itself if
/// it has none.
pub open spec fn assigned(allocation: Map<u32, Temp>, temp: Temp) -> Temp {
    if allocation.contains_key(temp.num) {
        allocation[temp.num]
    } else {
        temp
    }
}

/// The temporaries with the register of each in its place.
pub open spec fn assigned_all(allocation: Map<u32, Temp>, temps: Seq<Temp>) -> Seq<Temp> {
    Seq::new(temps.len(), |i: int| assigned(allocation, temps[i]))
}

/// The instruction with the register of each temporary in its place.
pub open spec fn substituted(allocation: Map<u32, Temp>, instruction: InstructionView) -> InstructionView {
    instruction.with_operands(
        assigned_all(allocation, instruction.destination()),
        assigned_all(allocation, instruction.source()),
    )
}

/// Whether the instruction is a plain move of a register to itself.
pub open spec fn is_self_move(instruction: InstructionView) -> bool {
    &&& instruction is Move
    &&& instruction.assembly() == move_text()
    &&& instruction.destination().len() > 0
    &&& instruction.source().len() > 0
    &&& instruction.destination()[0] == instruction.source()[0]
}

/// The instructions with the registers in place of the temporaries, without
/// the moves of a register to itself.
pub open spec fn replaced(allocation: Map<u32, Temp>, instructions: Seq<InstructionView>) -> Seq<
    InstructionView,
>
    decreases instructions.len(),
{
    if instructions.len() == 0 {
        Seq::empty()
    } else {
        let before = replaced(allocation, instructions.drop_last());
        let last = substituted(allocation, instructions.last());
        if is_self_move(last) {
            before
        } else {
            before.push(last)
        }
    }
}

/// The temporaries with the register of each in its place.
fn assign_temps(allocation: &HashMap<u32, Temp>, temps: &Vec<Temp>) -> (result: Vec<Temp>)
    ensures
        result@ == assigned_all(allocation@, temps@),
{
    let mut result: Vec<Temp> = Vec::new();
    let mut index: usize = 0;
    while index < temps.len()
        invariant
            index <= temps@.len(),
            result@.len() == index,
            forall|i: int| 0 <= i < index ==> #[trigger] result@[i] == assigned(allocation@, temps@[i]),
        decreases temps@.len() - index,
    {
        let temp = temps[index];
        let register = match allocation.get(&temp.num) {
            Some(register) => *register,
            None => temp,
        };
        result.push(register);
        index = index + 1;
    }
    assert(result@ =~= assigned_all(allocation@, temps@));
    result
}

/// Puts the registers in place of the temporaries and drops the moves of a
/// register to itself.
pub fn replace_allocation(instructions: Vec<Instruction>, allocation: &HashMap<u32, Temp>) -> (result:
    Vec<Instruction>)
    ensures
        instruction_views(result@) == replaced(allocation@, instruction_views(instructions@)),
{
    let ghost views = instruction_views(instructions@);
    let plain = String::from_str("mov 'd0, 's0");
    let mut result: Vec<Instruction> = Vec::new();
    let mut index: usize = 0;
    assert(instruction_views(result@) =~= replaced(allocation@, views.subrange(0, 0)));
    while index < instructions.len()
        invariant
            index <= instructions@.len(),
            views == instruction_views(instructions@),
            plain@ == move_text(),
            instruction_views(result@) == replaced(allocation@, views.subrange(0, index as int)),
        decreases instructions@.len() - index,
    {
        proof {
            let longer = views.subrange(0, index + 1);
            assert(longer.drop_last() =~= views.subrange(0, index as int));
            assert(longer.last() == instructions@[index as int]@);
        }
        let ghost before = instruction_views(result@);
        match &instructions[index] {
            Instruction::Label { assembly, label } => {
                let copy = Instruction::Label { assembly: assembly.clone(), label: label.copy() };
                result.push(copy);
                assert(instruction_views(result@) =~= before.push(copy@));
            },
            Instruction::Move { assembly, destination, source } => {
                let destination = assign_temps(allocation, destination);
                let source = assign_temps(allocation, source);
                let same = *assembly == plain && destination.len() > 0 && source.len() > 0
                    && destination[0].num == source[0].num;
                if !same {
                    let copy = Instruction::Move { assembly: assembly.clone(), destination, source };
                    result.push(copy);
                    assert(instruction_views(result@) =~= before.push(copy@));
                }
            },
            Instruction::Operation { assembly, destination, source, jump } => {
                let copy = Instruction::Operation {
                    assembly: assembly.clone(),
                    destination: assign_temps(allocation, destination),
                    source: assign_temps(allocation, source),
                    jump: match jump {
                        Some(labels) => Some(crate::ir::copy_labels(labels)),
                        None => None,
                    },
                };
                result.push(copy);
                assert(instruction_views(result@) =~= before.push(copy@));
            },
        }
        index = index + 1;
    }
    assert(views.subrange(0, index as int) =~= views);
    result
}

/// Whether the graphs and the run are those of one colouring of the
/// instructions.
pub open spec fn coloring_by(
    instructions: Seq<InstructionView>,
    initial: Seq<Temp>,
    flow: FlowGraph,
    graph: InterferenceGraph,
    live_in: Seq<Set<Temp>>,
    live_out: Seq<Set<Temp>>,
    count: nat,
    allocation: Map<u32, Temp>,
    spills: Seq<Temp>,
    colored_nodes: Set<Temp>,
    coalesced_nodes: Set<Temp>,
) -> bool {
    &&& flow.describes(instructions)
    &&& is_liveness(flow.control_flow_graph, live_in, live_out)
    &&& graph.built_from(flow.control_flow_graph, live_out, live_in.len() as int)
    &&& colored(
        initial_state::<X86_64>(table_view(graph.move_list@), graph.worklist_moves@).build(
            graph.graph.nodes@,
        ).make_worklist(initial).run(count),
        allocation,
        spills,
        colored_nodes,
        coalesced_nodes,
    )
}

/// Whether the allocation, the spills and the sets of nodes are what
/// colouring the interference graph of the instructions gives.
pub open spec fn is_coloring(
    instructions: Seq<InstructionView>,
    initial: Seq<Temp>,
    allocation: Map<u32, Temp>,
    spills: Seq<Temp>,
    colored_nodes: Set<Temp>,
    coalesced_nodes: Set<Temp>,
) -> bool {
    exists|
        flow: FlowGraph,
        graph: InterferenceGraph,
        live_in: Seq<Set<Temp>>,
        live_out: Seq<Set<Temp>>,
        count: nat,
    | #[trigger]
        coloring_by(
            instructions,
            initial,
            flow,
            graph,
            live_in,
            live_out,
            count,
            allocation,
            spills,
            colored_nodes,
            coalesced_nodes,
        )
}

/// Whether a round of rewriting fits the machine: a slot for each spilled
/// temporary below `pointer`, and a fresh temporary for each operand.
pub open spec fn round_fits(count: nat, spills: nat, pointer: int, temps: int) -> bool {
    &&& temps + count <= u32::MAX
    &&& pointer - 8 * spills >= MIN_POINTER
}

/// The temporaries that the next round starts from: those that were
/// coloured, the fresh ones that stand for the spilled ones, and the
/// coalesced ones, in increasing order.
pub open spec fn next_initial(
    colored_nodes: Set<Temp>,
    new_temps: Set<Temp>,
    coalesced_nodes: Set<Temp>,
) -> Seq<Temp> {
    ordered(colored_nodes.union(new_temps).union(coalesced_nodes))
}

/// What allocation ends with: the instructions, if it gives any, the
/// pointer of the frame, and the last temporary taken from the supply.
pub struct Outcome {
    pub code: Option<Seq<InstructionView>>,
    pub pointer: int,
    pub temps: int,
}

/// Whether what one colouring with these results leads to, within `rounds`
/// more rounds of rewriting, is `outcome`.
pub open spec fn allocated_from(
    instructions: Seq<InstructionView>,
    pointer: int,
    temps: int,
    rounds: nat,
    outcome: Outcome,
    allocation: Map<u32, Temp>,
    spills: Seq<Temp>,
    colored_nodes: Set<Temp>,
    coalesced_nodes: Set<Temp>,
) -> bool
    decreases rounds, 0nat,
{
    if spills.len() == 0 {
        outcome == (Outcome { code: Some(replaced(allocation, instructions)), pointer, temps })
    } else if rounds == 0 || !round_fits(
        operand_count(instructions),
        spills.len(),
        pointer,
        temps,
    ) {
        outcome == (Outcome { code: None, pointer, temps })
    } else {
        let rewritten = rewrite_all(instructions, spills, pointer, temps);
        allocated(
            rewritten.code,
            next_initial(colored_nodes, rewritten.fresh, coalesced_nodes),
            pointer - 8 * spills.len(),
            rewritten.temps,
            (rounds - 1) as nat,
            outcome,
        )
    }
}

/// Whether `outcome` is what allocation ends with for the instructions
/// within `rounds` rounds of rewriting: the instructions with registers in
/// place of temporaries after a colouring without spills, reached by
/// rewriting the instructions for the spills of each colouring before; or
/// nothing, if the rounds or the machine's limits do not suffice; with the
/// frame and the supply as the last rewriting left them.
pub open spec fn allocated(
    instructions: Seq<InstructionView>,
    initial: Seq<Temp>,
    pointer: int,
    temps: int,
    rounds: nat,
    outcome: Outcome,
) -> bool
    decreases rounds, 1nat,
{
    exists|
        allocation: Map<u32, Temp>,
        spills: Seq<Temp>,
        colored_nodes: Set<Temp>,
        coalesced_nodes: Set<Temp>,
    |
        #![trigger is_coloring(
            instructions,
            initial,
            allocation,
            spills,
            colored_nodes,
            coalesced_nodes,
        )]
        is_coloring(instructions, initial, allocation, spills, colored_nodes, coalesced_nodes)
            && allocated_from(
            instructions,
            pointer,
            temps,
            rounds,
            outcome,
            allocation,
            spills,
            colored_nodes,
            coalesced_nodes,
        )
}

/// What allocation ended with, given what it gave and how it left the
/// frame and the supply.
pub open spec fn outcome_of(result: Option<Vec<Instruction>>, frame: X86_64, gensym: Gensym) -> Outcome {
    Outcome {
        code: result_views(result),
        pointer: frame.pointer as int,
        temps: gensym.temps as int,
    }
}

/// The views of the instructions of a result.
pub open spec fn result_views(result: Option<Vec<Instruction>>) -> Option<Seq<InstructionView>> {
    match result {
        Some(instructions) => Some(instruction_views(instructions@)),
        None => None,
    }
}

/// Colours the instructions for the temporaries `initial`; if temporaries
/// have to be spilled, rewrites the instructions and colours again, at most
/// `rounds` times. Where `initial` holds every temporary of the
/// instructions that stands for no machine register, what it gives holds
/// machine registers only.
pub fn allocate(
    instructions: Vec<Instruction>,
    initial: Vec<Temp>,
    frame: &mut X86_64,
    gensym: &mut Gensym,
    rounds: usize,
) -> (result: Option<Vec<Instruction>>)
    requires
        old(frame).wf(),
        instructions@.len() > 0,
        jumps_defined(instruction_views(instructions@)),
    ensures
        allocated(
            instruction_views(instructions@),
            initial@,
            old(frame).pointer as int,
            old(gensym).temps as int,
            rounds as nat,
            outcome_of(result, *final(frame), *final(gensym)),
        ),
        covers(instruction_views(instructions@), initial@.to_set()) ==> (result matches Some(code)
            ==> all_machine(instruction_views(code@))),
        final(frame).wf(),
        final(frame).name == old(frame).name,
        final(frame).formals == old(frame).formals,
        final(frame).pointer <= old(frame).pointer,
        final(gensym).temps >= old(gensym).temps,
        final(gensym).labels == old(gensym).labels,
        final(gensym).uniques == old(gensym).uniques,
    decreases rounds,
{
    let ghost views = instruction_views(instructions@);
    let ghost pointer = frame.pointer as int;
    let ghost temps = gensym.temps as int;
    let flow_graph = instructions_to_graph(&instructions);
    let ghost flow = flow_graph;
    let graph = interference_graph(flow_graph);
    let ghost interference = graph;
    let (allocation, spills, colored_nodes, coalesced_nodes) = color::<X86_64>(graph, copy_temps(&initial));
    proof {
        let (live_in, live_out) = choose|live_in: Seq<Set<Temp>>, live_out: Seq<Set<Temp>>|
            is_liveness(flow.control_flow_graph, live_in, live_out)
                && #[trigger] interference.built_from(
                flow.control_flow_graph,
                live_out,
                live_in.len() as int,
            );
        let count = choose|count: nat|
            colored(
                #[trigger] initial_state::<X86_64>(
                    table_view(interference.move_list@),
                    interference.worklist_moves@,
                ).build(interference.graph.nodes@).make_worklist(initial@).run(count),
                allocation@,
                spills@,
                colored_nodes@,
                coalesced_nodes@,
            );
        assert(coloring_by(
            views,
            initial@,
            flow,
            interference,
            live_in,
            live_out,
            count,
            allocation@,
            spills@,
            colored_nodes@,
            coalesced_nodes@,
        ));
        assert(is_coloring(
            views,
            initial@,
            allocation@,
            spills@,
            colored_nodes@,
            coalesced_nodes@,
        ));
    }
    let result = if spills.len() == 0 {
        let result = replace_allocation(instructions, &allocation);
        assert(allocated_from(
            views,
            pointer,
            temps,
            rounds as nat,
            Outcome { code: Some(instruction_views(result@)), pointer, temps },
            allocation@,
            spills@,
            colored_nodes@,
            coalesced_nodes@,
        ));
        Some(result)
    } else if rounds == 0 || count_operands(&instructions) > gensym.remaining_temps() as u64
        || !frame.has_room(spills.len()) {
        assert(allocated_from(
            views,
            pointer,
            temps,
            rounds as nat,
            Outcome { code: None, pointer, temps },
            allocation@,
            spills@,
            colored_nodes@,
            coalesced_nodes@,
        ));
        None
    } else {
        proof {
            lemma_rewrite_jumps(views, spills@, pointer, temps);
            lemma_rewrite_extends(views, spills@, pointer, temps);
            lemma_rewrite_all_temps(views, spills@, pointer, temps);
        }
        let ghost spilled = spills@;
        let (rewritten, new_temps) = rewrite_program(instructions, spills, frame, gensym);
        let mut next = colored_nodes;
        next.extend(&new_temps);
        next.extend(&coalesced_nodes);
        let initial = next.to_vec();
        let result = allocate(rewritten, initial, frame, gensym, rounds - 1);
        assert(allocated_from(
            views,
            pointer,
            temps,
            rounds as nat,
            outcome_of(result, *frame, *gensym),
            allocation@,
            spilled,
            colored_nodes@,
            coalesced_nodes@,
        ));
        result
    };
    proof {
        assert(allocated(
            views,
            initial@,
            pointer,
            temps,
            rounds as nat,
            outcome_of(result, *frame, *gensym),
        ));
        if covers(views, initial@.to_set()) {
            lemma_allocated_machine(
                views,
                initial@,
                pointer,
                temps,
                rounds as nat,
                outcome_of(result, *frame, *gensym),
            );
        }
    }
    result
}

/// Whether `temp` stands for a machine register.
pub open spec fn is_machine(temp: Temp) -> bool {
    X86_64::spec_special_name(temp) is Some
}

/// The temporaries of a list that stand for no machine register.
pub open spec fn virtual_temps(temps: Seq<Temp>) -> Seq<Temp> {
    temps.filter(|temp: Temp| !is_machine(temp))
}

/// The temporaries that the instructions write and read and that stand for
/// no machine register: for each instruction those it writes, then those it
/// reads.
pub open spec fn initial_temps(instructions: Seq<InstructionView>) -> Seq<Temp>
    decreases instructions.len(),
{
    if instructions.len() == 0 {
        Seq::empty()
    } else {
        initial_temps(instructions.drop_last()) + virtual_temps(instructions.last().destination())
            + virtual_temps(instructions.last().source())
    }
}

/// Adds the temporaries of a list that stand for no machine register.
fn collect_virtual(temps: &Vec<Temp>, initial: &mut Vec<Temp>)
    ensures
        final(initial)@ == old(initial)@ + virtual_temps(temps@),
{
    let mut index: usize = 0;
    assert(temps@.subrange(0, 0).filter(|temp: Temp| !is_machine(temp)) =~= Seq::<Temp>::empty())
        by {
        reveal(Seq::filter);
    }
    assert(initial@ =~= old(initial)@ + virtual_temps(temps@.subrange(0, 0)));
    while index < temps.len()
        invariant
            index <= temps@.len(),
            initial@ == old(initial)@ + virtual_temps(temps@.subrange(0, index as int)),
        decreases temps@.len() - index,
    {
        let temp = temps[index];
        proof {
            let shorter = temps@.subrange(0, index as int);
            let longer = temps@.subrange(0, index + 1);
            assert(longer.drop_last() =~= shorter);
            assert(longer.last() == temp);
            reveal(Seq::filter);
            assert(virtual_temps(longer) =~= if !is_machine(temp) {
                virtual_temps(shorter).push(temp)
            } else {
                virtual_temps(shorter)
            });
        }
        match X86_64::special_name(temp) {
            Some(_) => {},
            None => {
                initial.push(temp);
            },
        }
        assert(initial@ =~= old(initial)@ + virtual_temps(temps@.subrange(0, index + 1)));
        index = index + 1;
    }
    assert(temps@.subrange(0, index as int) =~= temps@);
}

/// Allocates registers for the instructions of a function: colours the
/// temporaries that stand for no machine register, spilling into `frame`
/// those that find none, and puts the registers in their place, so that
/// what it gives holds machine registers only, those of a colouring of the
/// instructions or of what rewriting made of them. Gives nothing if as
/// many rounds of rewriting as there are such temporaries do not suffice.
pub fn allocate_registers(
    instructions: Vec<Instruction>,
    frame: &mut X86_64,
    gensym: &mut Gensym,
) -> (result: Option<Vec<Instruction>>)
    requires
        old(frame).wf(),
        instructions@.len() > 0,
        jumps_defined(instruction_views(instructions@)),
    ensures
        allocated(
            instruction_views(instructions@),
            initial_temps(instruction_views(instructions@)),
            old(frame).pointer as int,
            old(gensym).temps as int,
            initial_temps(instruction_views(instructions@)).len(),
            outcome_of(result, *final(frame), *final(gensym)),
        ),
        result matches Some(code) ==> all_machine(instruction_views(code@)),
        old(gensym).temps >= 16 && 0x1_0000_0010 <= usize::MAX ==> (result matches Some(code)
            ==> properly_coloured(instruction_views(code@))),
        final(frame).wf(),
        final(frame).name == old(frame).name,
        final(frame).formals == old(frame).formals,
        final(frame).pointer <= old(frame).pointer,
        final(gensym).temps >= old(gensym).temps,
        final(gensym).labels == old(gensym).labels,
        final(gensym).uniques == old(gensym).uniques,
{
    let ghost views = instruction_views(instructions@);
    let mut initial: Vec<Temp> = Vec::new();
    let mut index: usize = 0;
    assert(initial@ =~= initial_temps(views.subrange(0, 0)));
    while index < instructions.len()
        invariant
            index <= instructions@.len(),
            views == instruction_views(instructions@),
            initial@ == initial_temps(views.subrange(0, index as int)),
        decreases instructions@.len() - index,
    {
        proof {
            let longer = views.subrange(0, index + 1);
            assert(longer.drop_last() =~= views.subrange(0, index as int));
            assert(longer.last() == instructions@[index as int]@);
        }
        match &instructions[index] {
            Instruction::Label { .. } => {
                assert(virtual_temps(Seq::<Temp>::empty()) =~= Seq::<Temp>::empty()) by {
                    reveal(Seq::filter);
                }
                assert(initial@ =~= initial_temps(views.subrange(0, index + 1)));
            },
            Instruction::Move { destination, source, .. } => {
                collect_virtual(destination, &mut initial);
                collect_virtual(source, &mut initial);
            },
            Instruction::Operation { destination, source, .. } => {
                collect_virtual(destination, &mut initial);
                collect_virtual(source, &mut initial);
            },
        }
        index = index + 1;
    }
    assert(views.subrange(0, index as int) =~= views);
    let rounds = initial.len();
    let ghost pointer = frame.pointer as int;
    let ghost temps = gensym.temps as int;
    proof {
        lemma_initial_covers(views);
        lemma_initial_virtual(views);
    }
    let result = allocate(instructions, initial, frame, gensym, rounds);
    proof {
        if temps >= 16 && 0x1_0000_0010 <= usize::MAX {
            lemma_allocated_proper(
                views,
                initial_temps(views),
                pointer,
                temps,
                rounds as nat,
                outcome_of(result, *frame, *gensym),
            );
        }
    }
    result
}

} // verus!
