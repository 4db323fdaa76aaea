//! What allocation gives holds machine registers only: every temporary of
//! the instructions finds a register, is spilled, or is coalesced with one
//! that does, in each round of rewriting.

use vstd::prelude::*;
use vstd::set_lib::*;
use crate::assem::InstructionView;
use crate::codegen::fresh;
use crate::spill::place_in;
use crate::color::initial_state;
use crate::coalescing::{lemma_colouring_is_sound, lemma_colouring_parts, moves_listed, suits};
use crate::coverage::{fits, lemma_colouring_covers, within};
use crate::flow::{graph_follows, node_matches, FlowGraph};
use crate::frame::Frame;
use crate::frame::x86_64::{
    machine_registers, reg, X86_64, R10, R11, R12, R13, R14, R15, R8, R9, RAX, RBP, RBX, RCX, RDI,
    RDX, RSI, RSP,
};
use crate::graph::Entry;
use crate::liveness::{has_edge, move_of, moves_of, node_interferes, InterferenceGraph};
use crate::painting::apart;
use crate::ordset::{lemma_ordered_exists, table_view, Move};
use crate::reg_alloc::{
    allocated, allocated_from, assigned, coloring_by, initial_temps, is_coloring, is_machine,
    next_initial, replaced, round_fits, substituted,
    virtual_temps, Outcome,
};
use crate::spill::{
    fresh_set, lemma_place_in, lemma_spilled_in, loads, operand_count, renamed, rewrite_all,
    rewrite_one, spilled_in, stand_in, stores,
};
use crate::temp::Temp;

verus! {

/// Whether each of `temps` stands for a machine register.
pub open spec fn machine_only(temps: Seq<Temp>) -> bool {
    forall|i: int| 0 <= i < temps.len() ==> is_machine(#[trigger] temps[i])
}

/// Whether every temporary that the instructions write or read stands for
/// a machine register.
pub open spec fn all_machine(instructions: Seq<InstructionView>) -> bool {
    forall|j: int|
        0 <= j < instructions.len() ==> machine_only((#[trigger] instructions[j]).destination())
            && machine_only(instructions[j].source())
}

/// Whether each of `temps` stands for a machine register or is one of
/// `initial`.
pub open spec fn listed(temps: Seq<Temp>, initial: Set<Temp>) -> bool {
    forall|i: int| 0 <= i < temps.len() ==> is_machine(#[trigger] temps[i]) || initial.contains(temps[i])
}

/// Whether every temporary that the instructions write or read stands for
/// a machine register or is one of `initial`.
pub open spec fn covers(instructions: Seq<InstructionView>, initial: Set<Temp>) -> bool {
    forall|j: int|
        0 <= j < instructions.len() ==> listed((#[trigger] instructions[j]).destination(), initial)
            && listed(instructions[j].source(), initial)
}

/// The temporaries with a register's name are those of the sixteen
/// registers: finitely many, each register among them.
pub proof fn lemma_machine()
    ensures
        Set::new(|temp: Temp| is_machine(temp)).finite(),
        forall|i: int| 0 <= i < machine_registers().len() ==> is_machine(#[trigger] machine_registers()[i]),
        machine_registers().len() == 16,
        is_machine(reg(RBP)),
{
    let named = Set::new(|temp: Temp| is_machine(temp));
    let registers = machine_registers();
    vstd::seq_lib::seq_to_set_is_finite(registers);
    assert(named.subset_of(registers.to_set())) by {
        assert forall|temp: Temp| named.contains(temp) implies registers.to_set().contains(temp) by {
            if temp.num == RDI {
                assert(registers[0] == temp);
            } else if temp.num == RSI {
                assert(registers[1] == temp);
            } else if temp.num == RDX {
                assert(registers[2] == temp);
            } else if temp.num == RCX {
                assert(registers[3] == temp);
            } else if temp.num == R8 {
                assert(registers[4] == temp);
            } else if temp.num == R9 {
                assert(registers[5] == temp);
            } else if temp.num == RAX {
                assert(registers[6] == temp);
            } else if temp.num == RBX {
                assert(registers[7] == temp);
            } else if temp.num == RBP {
                assert(registers[8] == temp);
            } else if temp.num == R12 {
                assert(registers[9] == temp);
            } else if temp.num == R13 {
                assert(registers[10] == temp);
            } else if temp.num == R14 {
                assert(registers[11] == temp);
            } else if temp.num == R15 {
                assert(registers[12] == temp);
            } else if temp.num == RSP {
                assert(registers[13] == temp);
            } else if temp.num == R10 {
                assert(registers[14] == temp);
            } else if temp.num == R11 {
                assert(registers[15] == temp);
            }
        }
    }
    lemma_len_subset(named, registers.to_set());
}

/// With a register for each listed temporary in its place, only machine
/// registers are left.
pub proof fn lemma_replaced_machine(
    allocation: Map<u32, Temp>,
    instructions: Seq<InstructionView>,
    initial: Set<Temp>,
)
    requires
        covers(instructions, initial),
        forall|temp: Temp|
            is_machine(temp) || initial.contains(temp) ==> is_machine(
                #[trigger] assigned(allocation, temp),
            ),
    ensures
        all_machine(replaced(allocation, instructions)),
    decreases instructions.len(),
{
    if instructions.len() > 0 {
        let shorter = instructions.drop_last();
        assert(covers(shorter, initial)) by {
            assert forall|j: int| 0 <= j < shorter.len() implies listed(
                (#[trigger] shorter[j]).destination(),
                initial,
            ) && listed(shorter[j].source(), initial) by {
                assert(shorter[j] == instructions[j]);
            }
        }
        lemma_replaced_machine(allocation, shorter, initial);
        let before = replaced(allocation, shorter);
        let last = substituted(allocation, instructions.last());
        let given = instructions[instructions.len() - 1];
        assert(machine_only(last.destination())) by {
            assert forall|i: int| 0 <= i < last.destination().len() implies is_machine(
                #[trigger] last.destination()[i],
            ) by {
                let temp = given.destination()[i];
                assert(is_machine(temp) || initial.contains(temp));
                assert(is_machine(assigned(allocation, temp)));
            }
        }
        assert(machine_only(last.source())) by {
            assert forall|i: int| 0 <= i < last.source().len() implies is_machine(
                #[trigger] last.source()[i],
            ) by {
                let temp = given.source()[i];
                assert(is_machine(temp) || initial.contains(temp));
                assert(is_machine(assigned(allocation, temp)));
            }
        }
        let after = replaced(allocation, instructions);
        assert forall|j: int| 0 <= j < after.len() implies machine_only(
            (#[trigger] after[j]).destination(),
        ) && machine_only(after[j].source()) by {
            if j < before.len() {
                assert(after[j] == before[j]);
            }
        }
    }
}

/// The ends of the moves of an interference graph are temporaries of the
/// instructions, so that the graph and the temporaries of the instructions
/// fit together.
pub proof fn lemma_moves_listed(
    instructions: Seq<InstructionView>,
    initial: Seq<Temp>,
    flow: FlowGraph,
    graph: InterferenceGraph,
    live_out: Seq<Set<Temp>>,
)
    requires
        covers(instructions, initial.to_set()),
        flow.describes(instructions),
        graph.built_from(flow.control_flow_graph, live_out, flow.control_flow_graph.size() as int),
    ensures
        fits::<X86_64>(table_view(graph.move_list@), graph.worklist_moves@, initial),
{
    let start = initial_state::<X86_64>(table_view(graph.move_list@), graph.worklist_moves@);
    lemma_machine();
    assert(start.precolored =~= Set::new(|temp: Temp| is_machine(temp)));
    graph.worklist_moves.lemma_finite();
    assert(table_view(graph.move_list@).dom() =~= Set::<u32>::full());
    let nodes = flow.control_flow_graph;
    let origin = flow.origin@;
    let visited = choose|visited: Seq<Option<Entry>>| graph_follows(nodes, origin, visited, instructions);
    assert forall|mov: Move| #[trigger] graph.worklist_moves@.contains(mov) implies within(
        start,
        initial.to_set(),
        mov.destination,
    ) && within(start, initial.to_set(), mov.source) by {
        let node = choose|node: int|
            0 <= node < nodes.size() && #[trigger] move_of(nodes.element(node)) == Some(mov);
        assert(node_matches(nodes, origin, instructions, node));
        let instruction = instructions[origin[node]];
        let element = nodes.element(node);
        element.defines.lemma_holds(0);
        element.uses.lemma_holds(0);
        assert(instruction.destination().to_set().contains(mov.destination));
        assert(instruction.source().to_set().contains(mov.source));
        let d = choose|d: int|
            0 <= d < instruction.destination().len() && instruction.destination()[d]
                == mov.destination;
        let s = choose|s: int|
            0 <= s < instruction.source().len() && instruction.source()[s] == mov.source;
        assert(listed(instruction.destination(), initial.to_set()));
        assert(is_machine(instruction.destination()[d]) || initial.to_set().contains(
            instruction.destination()[d],
        ));
        assert(is_machine(instruction.source()[s]) || initial.to_set().contains(
            instruction.source()[s],
        ));
    }
}

/// The fresh temporaries that rewriting takes are finitely many, of the
/// places after `temps`.
pub proof fn lemma_fresh_set(temps: int, count: int)
    ensures
        fresh_set(temps, count).finite(),
        forall|k: int| 0 <= k < count ==> fresh_set(temps, count).contains(#[trigger] fresh(temps + k)),
    decreases count,
{
    if count > 0 {
        lemma_fresh_set(temps, count - 1);
        assert forall|k: int| 0 <= k < count implies fresh_set(temps, count).contains(
            #[trigger] fresh(temps + k),
        ) by {
            if k < count - 1 {
                assert(fresh_set(temps, count - 1).contains(fresh(temps + k)));
            }
        }
    }
}

/// The loads read the frame pointer and write fresh temporaries.
pub proof fn lemma_loads_listed(
    given: Seq<Temp>,
    upto: int,
    read: Seq<Temp>,
    spills: Seq<Temp>,
    pointer: int,
    temps: int,
    next: Set<Temp>,
)
    requires
        upto <= given.len(),
        fresh_set(temps, given.len() as int).subset_of(next),
    ensures
        covers(loads(given, upto, read, spills, pointer, temps), next),
    decreases upto,
{
    let all = loads(given, upto, read, spills, pointer, temps);
    if upto > 0 {
        lemma_loads_listed(given, upto - 1, read, spills, pointer, temps, next);
        let before = loads(given, upto - 1, read, spills, pointer, temps);
        lemma_fresh_set(temps, given.len() as int);
        lemma_machine();
        assert forall|j: int| 0 <= j < all.len() implies listed(
            (#[trigger] all[j]).destination(),
            next,
        ) && listed(all[j].source(), next) by {
            if j < before.len() {
                assert(all[j] == before[j]);
            } else {
                assert(next.contains(fresh(temps + (upto - 1))));
            }
        }
    }
}

/// The stores read the frame pointer and fresh temporaries.
pub proof fn lemma_stores_listed(
    given: Seq<Temp>,
    upto: int,
    written: Seq<Temp>,
    spills: Seq<Temp>,
    pointer: int,
    temps: int,
    next: Set<Temp>,
)
    requires
        upto <= given.len(),
        fresh_set(temps, given.len() as int).subset_of(next),
    ensures
        covers(stores(given, upto, written, spills, pointer, temps), next),
    decreases upto,
{
    let all = stores(given, upto, written, spills, pointer, temps);
    if upto > 0 {
        lemma_stores_listed(given, upto - 1, written, spills, pointer, temps, next);
        let before = stores(given, upto - 1, written, spills, pointer, temps);
        lemma_fresh_set(temps, given.len() as int);
        lemma_machine();
        assert forall|j: int| 0 <= j < all.len() implies listed(
            (#[trigger] all[j]).destination(),
            next,
        ) && listed(all[j].source(), next) by {
            if j < before.len() {
                assert(all[j] == before[j]);
            } else {
                assert(next.contains(fresh(temps + (upto - 1))));
            }
        }
    }
}

/// Operands in which fresh temporaries stand for the spilled ones are
/// fresh, or were listed and are not spilled.
pub proof fn lemma_renamed_listed(
    operands: Seq<Temp>,
    given: Seq<Temp>,
    temps: int,
    spills: Set<Temp>,
    initial: Set<Temp>,
    next: Set<Temp>,
)
    requires
        listed(operands, initial),
        forall|i: int|
            0 <= i < operands.len() && spills.contains(#[trigger] operands[i]) ==> given.contains(
                operands[i],
            ),
        forall|temp: Temp|
            initial.contains(temp) ==> is_machine(temp) || spills.contains(temp) || next.contains(
                temp,
            ),
        fresh_set(temps, given.len() as int).subset_of(next),
    ensures
        listed(renamed(operands, given, temps), next),
{
    lemma_fresh_set(temps, given.len() as int);
    let all = renamed(operands, given, temps);
    assert forall|i: int| 0 <= i < all.len() implies is_machine(#[trigger] all[i]) || next.contains(
        all[i],
    ) by {
        let temp = operands[i];
        assert(all[i] == stand_in(given, temps, temp));
        if given.contains(temp) {
            lemma_place_in(given, temp);
            assert(next.contains(fresh(temps + place_in(given, temp))));
        } else {
            assert(is_machine(temp) || initial.contains(temp));
        }
    }
}

/// Rewriting stays within the temporaries that were listed and are not
/// spilled, and the fresh ones.
pub proof fn lemma_rewrite_covers(
    instructions: Seq<InstructionView>,
    spills: Seq<Temp>,
    pointer: int,
    temps: int,
    initial: Set<Temp>,
    next: Set<Temp>,
)
    requires
        covers(instructions, initial),
        forall|temp: Temp|
            initial.contains(temp) ==> is_machine(temp) || spills.to_set().contains(temp)
                || next.contains(temp),
        rewrite_all(instructions, spills, pointer, temps).fresh.subset_of(next),
    ensures
        covers(rewrite_all(instructions, spills, pointer, temps).code, next),
        rewrite_all(instructions, spills, pointer, temps).fresh.finite(),
    decreases instructions.len(),
{
    if instructions.len() > 0 {
        let shorter = instructions.drop_last();
        let given = instructions[instructions.len() - 1];
        assert(covers(shorter, initial)) by {
            assert forall|j: int| 0 <= j < shorter.len() implies listed(
                (#[trigger] shorter[j]).destination(),
                initial,
            ) && listed(shorter[j].source(), initial) by {
                assert(shorter[j] == instructions[j]);
            }
        }
        let before = rewrite_all(shorter, spills, pointer, temps);
        let last = rewrite_one(given, spills, pointer, before.temps);
        let after = rewrite_all(instructions, spills, pointer, temps);
        lemma_rewrite_covers(shorter, spills, pointer, temps, initial, next);
        let found = spilled_in(given, spills.to_set());
        let count = found.len() as int;
        lemma_spilled_in(given, spills.to_set());
        lemma_fresh_set(before.temps, count);
        assert(listed(given.destination(), initial) && listed(given.source(), initial));
        let first = loads(found, count, given.source(), spills, pointer, before.temps);
        let second = stores(found, count, given.destination(), spills, pointer, before.temps);
        lemma_loads_listed(found, count, given.source(), spills, pointer, before.temps, next);
        lemma_stores_listed(found, count, given.destination(), spills, pointer, before.temps, next);
        lemma_renamed_listed(
            given.destination(),
            found,
            before.temps,
            spills.to_set(),
            initial,
            next,
        );
        lemma_renamed_listed(given.source(), found, before.temps, spills.to_set(), initial, next);
        let own = (before.code.len() + first.len()) as int;
        assert forall|j: int| 0 <= j < after.code.len() implies listed(
            (#[trigger] after.code[j]).destination(),
            next,
        ) && listed(after.code[j].source(), next) by {
            if j < before.code.len() {
                assert(after.code[j] == before.code[j]);
            } else if j < own {
                assert(after.code[j] == first[j - before.code.len()]);
            } else if j == own {
                let middle = given.with_operands(
                    renamed(given.destination(), found, before.temps),
                    renamed(given.source(), found, before.temps),
                );
                assert(after.code[j] == middle);
                if given is Label {
                    assert(middle.destination().len() == 0);
                    assert(middle.source().len() == 0);
                }
            } else {
                assert(after.code[j] == second[j - own - 1]);
            }
        }
    }
}

/// What allocation gives holds machine registers only: if every temporary
/// of the instructions stands for a machine register or is one of
/// `initial`, every temporary of the result stands for a machine register.
pub proof fn lemma_allocated_machine(
    instructions: Seq<InstructionView>,
    initial: Seq<Temp>,
    pointer: int,
    temps: int,
    rounds: nat,
    outcome: Outcome,
)
    requires
        allocated(instructions, initial, pointer, temps, rounds, outcome),
        covers(instructions, initial.to_set()),
    ensures
        outcome.code matches Some(code) ==> all_machine(code),
    decreases rounds,
{
    let (allocation, spills, colored_nodes, coalesced_nodes) = choose|
        allocation: Map<u32, Temp>,
        spills: Seq<Temp>,
        colored_nodes: Set<Temp>,
        coalesced_nodes: Set<Temp>,
    |
        #![trigger is_coloring(
            instructions,
            initial,
            allocation,
            spills,
            colored_nodes,
            coalesced_nodes,
        )]
        is_coloring(instructions, initial, allocation, spills, colored_nodes, coalesced_nodes)
            && allocated_from(
            instructions,
            pointer,
            temps,
            rounds,
            outcome,
            allocation,
            spills,
            colored_nodes,
            coalesced_nodes,
        );
    let (flow, graph, live_in, live_out, count) = choose|
        flow: FlowGraph,
        graph: InterferenceGraph,
        live_in: Seq<Set<Temp>>,
        live_out: Seq<Set<Temp>>,
        count: nat,
    | #[trigger]
        coloring_by(
            instructions,
            initial,
            flow,
            graph,
            live_in,
            live_out,
            count,
            allocation,
            spills,
            colored_nodes,
            coalesced_nodes,
        );
    lemma_moves_listed(instructions, initial, flow, graph, live_out);
    let moves = table_view(graph.move_list@);
    let nodes = graph.graph.nodes@;
    assert forall|temp: Temp|
        spills.len() == 0 && (is_machine(temp) || initial.to_set().contains(temp)) implies is_machine(
        #[trigger] assigned(allocation, temp),
    ) by {
        lemma_colouring_covers::<X86_64>(moves, graph.worklist_moves@, nodes, initial, count, temp);
    }
    lemma_colouring_covers::<X86_64>(moves, graph.worklist_moves@, nodes, initial, count, reg(RBP));
    if spills.len() == 0 {
        lemma_replaced_machine(allocation, instructions, initial.to_set());
    } else if rounds == 0 || !round_fits(
        operand_count(instructions),
        spills.len(),
        pointer,
        temps,
    ) {
    } else {
        let rewritten = rewrite_all(instructions, spills, pointer, temps);
        let all = colored_nodes.union(rewritten.fresh).union(coalesced_nodes);
        let next = next_initial(colored_nodes, rewritten.fresh, coalesced_nodes);
        assert forall|temp: Temp| initial.to_set().contains(temp) implies is_machine(temp)
            || spills.to_set().contains(temp) || all.contains(temp) by {
            lemma_colouring_covers::<X86_64>(
                moves,
                graph.worklist_moves@,
                nodes,
                initial,
                count,
                temp,
            );
        }
        lemma_rewrite_covers(instructions, spills, pointer, temps, initial.to_set(), all);
        vstd::seq_lib::seq_to_set_is_finite(spills);
        lemma_ordered_exists(all);
        lemma_allocated_machine(
            rewritten.code,
            next,
            pointer - 8 * spills.len(),
            rewritten.temps,
            (rounds - 1) as nat,
            outcome,
        );
    }
}

/// Each temporary of a list stands for a machine register or is among
/// those of the list that do not.
pub proof fn lemma_virtual_listed(temps: Seq<Temp>, initial: Set<Temp>)
    requires
        virtual_temps(temps).to_set().subset_of(initial),
    ensures
        listed(temps, initial),
{
    assert forall|i: int| 0 <= i < temps.len() implies is_machine(#[trigger] temps[i])
        || initial.contains(temps[i]) by {
        if !is_machine(temps[i]) {
            temps.lemma_filter_contains(|temp: Temp| !is_machine(temp), i);
            assert(virtual_temps(temps).to_set().contains(temps[i]));
        }
    }
}

/// Every temporary of the instructions stands for a machine register or is
/// one of those that allocation starts from.
pub proof fn lemma_initial_covers(instructions: Seq<InstructionView>)
    ensures
        covers(instructions, initial_temps(instructions).to_set()),
    decreases instructions.len(),
{
    if instructions.len() > 0 {
        let shorter = instructions.drop_last();
        let given = instructions[instructions.len() - 1];
        lemma_initial_covers(shorter);
        let all = initial_temps(instructions).to_set();
        let before = initial_temps(shorter);
        let written = virtual_temps(given.destination());
        let read = virtual_temps(given.source());
        assert(initial_temps(instructions) == before + written + read);
        assert(before.to_set().subset_of(all)) by {
            assert forall|temp: Temp| before.to_set().contains(temp) implies all.contains(temp) by {
                let i = choose|i: int| 0 <= i < before.len() && before[i] == temp;
                assert((before + written + read)[i] == temp);
            }
        }
        assert(written.to_set().subset_of(all)) by {
            assert forall|temp: Temp| written.to_set().contains(temp) implies all.contains(temp) by {
                let i = choose|i: int| 0 <= i < written.len() && written[i] == temp;
                assert((before + written + read)[before.len() + i] == temp);
            }
        }
        assert(read.to_set().subset_of(all)) by {
            assert forall|temp: Temp| read.to_set().contains(temp) implies all.contains(temp) by {
                let i = choose|i: int| 0 <= i < read.len() && read[i] == temp;
                assert((before + written + read)[before.len() + written.len() + i] == temp);
            }
        }
        lemma_virtual_listed(given.destination(), all);
        lemma_virtual_listed(given.source(), all);
        assert forall|j: int| 0 <= j < instructions.len() implies listed(
            (#[trigger] instructions[j]).destination(),
            all,
        ) && listed(instructions[j].source(), all) by {
            if j < shorter.len() {
                assert(shorter[j] == instructions[j]);
                assert(listed(shorter[j].destination(), before.to_set()));
                assert(listed(shorter[j].source(), before.to_set()));
            }
        }
    }
}

/// The moves of an interference graph are listed under their ends and
/// nowhere else.
pub proof fn lemma_moves_of_ends(flow: FlowGraph, graph: InterferenceGraph, live_out: Seq<Set<Temp>>)
    requires
        graph.built_from(flow.control_flow_graph, live_out, flow.control_flow_graph.size() as int),
    ensures
        moves_listed(table_view(graph.move_list@), graph.worklist_moves@),
{
    let nodes = flow.control_flow_graph;
    let moves = table_view(graph.move_list@);
    assert forall|temp: Temp| #[trigger] moves[temp.num] == moves_of(graph.move_list@, temp) by {}
    assert forall|mov: Move| #[trigger] graph.worklist_moves@.contains(mov) implies moves[mov.source.num].contains(
        mov,
    ) && moves[mov.destination.num].contains(mov) by {
        let n = choose|n: int| 0 <= n < nodes.size() && #[trigger] move_of(nodes.element(n)) == Some(mov);
        assert(move_of(nodes.element(n)) == Some(mov));
        assert(moves_of(graph.move_list@, mov.source).contains(mov));
        assert(moves_of(graph.move_list@, mov.destination).contains(mov));
    }
    assert forall|node: Temp, mov: Move|
        #![trigger moves[node.num].contains(mov)]
        moves[node.num].contains(mov) && graph.worklist_moves@.contains(mov) implies node
        == mov.source || node == mov.destination by {
        assert(moves_of(graph.move_list@, node).contains(mov));
    }
}

/// No two temporaries of which one is defined where the other is live
/// end with the same register, unless the definition is a move from the
/// other alone: for instructions coloured for temporaries that stand for
/// no machine register, on a machine whose words count further than there
/// are temporaries and registers together.
pub proof fn lemma_interfering_apart(
    instructions: Seq<InstructionView>,
    initial: Seq<Temp>,
    flow: FlowGraph,
    graph: InterferenceGraph,
    live_in: Seq<Set<Temp>>,
    live_out: Seq<Set<Temp>>,
    count: nat,
    allocation: Map<u32, Temp>,
    spills: Seq<Temp>,
    colored_nodes: Set<Temp>,
    coalesced_nodes: Set<Temp>,
    node: int,
    first: Temp,
    second: Temp,
)
    requires
        coloring_by(
            instructions,
            initial,
            flow,
            graph,
            live_in,
            live_out,
            count,
            allocation,
            spills,
            colored_nodes,
            coalesced_nodes,
        ),
        forall|i: int| 0 <= i < initial.len() ==> !is_machine(#[trigger] initial[i]),
        0x1_0000_0010 <= usize::MAX,
        0 <= node < flow.control_flow_graph.size(),
        node_interferes(flow.control_flow_graph.element(node), live_out[node], first, second),
        first != second,
    ensures
        apart(allocation, first, second),
{
    lemma_moves_of_ends(flow, graph, live_out);
    lemma_machine();
    let moves = table_view(graph.move_list@);
    assert(moves.dom() =~= Set::<u32>::full());
    graph.worklist_moves.lemma_finite();
    assert(is_machine(reg(RBP)));
    assert(Set::new(|temp: Temp| X86_64::spec_special_name(temp) is Some) =~= Set::new(
        |temp: Temp| is_machine(temp),
    ));
    assert(suits::<X86_64>(moves, graph.worklist_moves@, initial));
    assert(has_edge(graph.graph, first, second));
    lemma_colouring_is_sound::<X86_64>(
        moves,
        graph.worklist_moves@,
        graph.graph,
        initial,
        count,
        first,
        second,
    );
}

/// Whether `code` is what `last` becomes with the registers of
/// `allocation` in place of its temporaries, and `allocation` is a
/// colouring of `last` for `initial` that leaves nothing to spill, where
/// `initial` holds the temporaries of `last` that stand for no machine
/// register, and no others.
pub open spec fn coloured_from(
    code: Seq<InstructionView>,
    last: Seq<InstructionView>,
    initial: Seq<Temp>,
    flow: FlowGraph,
    graph: InterferenceGraph,
    live_in: Seq<Set<Temp>>,
    live_out: Seq<Set<Temp>>,
    count: nat,
    allocation: Map<u32, Temp>,
    colored_nodes: Set<Temp>,
    coalesced_nodes: Set<Temp>,
) -> bool {
    &&& coloring_by(
        last,
        initial,
        flow,
        graph,
        live_in,
        live_out,
        count,
        allocation,
        Seq::empty(),
        colored_nodes,
        coalesced_nodes,
    )
    &&& code == replaced(allocation, last)
    &&& covers(last, initial.to_set())
    &&& forall|i: int| 0 <= i < initial.len() ==> !is_machine(#[trigger] initial[i])
}

/// Whether `code` is some list of instructions with the registers of a
/// colouring of it in place of its temporaries.
pub open spec fn properly_coloured(code: Seq<InstructionView>) -> bool {
    exists|
        last: Seq<InstructionView>,
        initial: Seq<Temp>,
        flow: FlowGraph,
        graph: InterferenceGraph,
        live_in: Seq<Set<Temp>>,
        live_out: Seq<Set<Temp>>,
        count: nat,
        allocation: Map<u32, Temp>,
        colored_nodes: Set<Temp>,
        coalesced_nodes: Set<Temp>,
    | #[trigger]
        coloured_from(
            code,
            last,
            initial,
            flow,
            graph,
            live_in,
            live_out,
            count,
            allocation,
            colored_nodes,
            coalesced_nodes,
        )
}

/// The fresh temporaries of rewriting are those that the supply hands out
/// after `temps`.
pub proof fn lemma_rewrite_fresh(
    instructions: Seq<InstructionView>,
    spills: Seq<Temp>,
    pointer: int,
    temps: int,
    temp: Temp,
)
    requires
        rewrite_all(instructions, spills, pointer, temps).fresh.contains(temp),
    ensures
        exists|k: int|
            temps <= k < rewrite_all(instructions, spills, pointer, temps).temps && temp
                == #[trigger] fresh(k),
    decreases instructions.len(),
{
    if instructions.len() > 0 {
        let shorter = instructions.drop_last();
        let before = rewrite_all(shorter, spills, pointer, temps);
        let last = rewrite_one(instructions.last(), spills, pointer, before.temps);
        crate::spill::lemma_rewrite_all_temps(shorter, spills, pointer, temps);
        if before.fresh.contains(temp) {
            lemma_rewrite_fresh(shorter, spills, pointer, temps, temp);
            let k = choose|k: int| temps <= k < before.temps && temp == #[trigger] fresh(k);
            assert(temps <= k < last.temps && temp == fresh(k));
        } else {
            lemma_fresh_member(before.temps, last.temps - before.temps, temp);
            let k = choose|k: int| before.temps <= k < last.temps && temp == #[trigger] fresh(k);
            assert(temps <= k < last.temps && temp == fresh(k));
        }
    }
}

/// A temporary of the `count` that the supply hands out after `temps` is
/// one of them.
pub proof fn lemma_fresh_member(temps: int, count: int, temp: Temp)
    requires
        fresh_set(temps, count).contains(temp),
    ensures
        exists|k: int| temps <= k < temps + count && temp == #[trigger] fresh(k),
    decreases count,
{
    if count > 0 {
        if fresh_set(temps, count - 1).contains(temp) {
            lemma_fresh_member(temps, count - 1, temp);
            let k = choose|k: int| temps <= k < temps + count - 1 && temp == #[trigger] fresh(k);
            assert(temps <= k < temps + count && temp == fresh(k));
        } else {
            assert(temp == fresh(temps + count - 1));
        }
    }
}

/// What allocation gives is a list of instructions with the registers of a
/// colouring of it in place of its temporaries: the instructions
/// themselves, or what rewriting for spilled temporaries made of them. This
/// holds where `initial` holds the temporaries of the instructions that
/// stand for no machine register, and no others, the supply has handed out
/// the machine registers, and the words of the machine count further than
/// there are temporaries and registers together.
pub proof fn lemma_allocated_proper(
    instructions: Seq<InstructionView>,
    initial: Seq<Temp>,
    pointer: int,
    temps: int,
    rounds: nat,
    outcome: Outcome,
)
    requires
        allocated(instructions, initial, pointer, temps, rounds, outcome),
        covers(instructions, initial.to_set()),
        forall|i: int| 0 <= i < initial.len() ==> !is_machine(#[trigger] initial[i]),
        16 <= temps,
        0x1_0000_0010 <= usize::MAX,
    ensures
        outcome.code matches Some(code) ==> properly_coloured(code),
    decreases rounds,
{
    let (allocation, spills, colored_nodes, coalesced_nodes) = choose|
        allocation: Map<u32, Temp>,
        spills: Seq<Temp>,
        colored_nodes: Set<Temp>,
        coalesced_nodes: Set<Temp>,
    |
        #![trigger is_coloring(
            instructions,
            initial,
            allocation,
            spills,
            colored_nodes,
            coalesced_nodes,
        )]
        is_coloring(instructions, initial, allocation, spills, colored_nodes, coalesced_nodes)
            && allocated_from(
            instructions,
            pointer,
            temps,
            rounds,
            outcome,
            allocation,
            spills,
            colored_nodes,
            coalesced_nodes,
        );
    let (flow, graph, live_in, live_out, count) = choose|
        flow: FlowGraph,
        graph: InterferenceGraph,
        live_in: Seq<Set<Temp>>,
        live_out: Seq<Set<Temp>>,
        count: nat,
    | #[trigger]
        coloring_by(
            instructions,
            initial,
            flow,
            graph,
            live_in,
            live_out,
            count,
            allocation,
            spills,
            colored_nodes,
            coalesced_nodes,
        );
    if spills.len() == 0 {
        assert(spills =~= Seq::<Temp>::empty());
        assert(coloured_from(
            outcome.code.unwrap(),
            instructions,
            initial,
            flow,
            graph,
            live_in,
            live_out,
            count,
            allocation,
            colored_nodes,
            coalesced_nodes,
        ));
    } else if rounds == 0 || !round_fits(
        operand_count(instructions),
        spills.len(),
        pointer,
        temps,
    ) {
    } else {
        let rewritten = rewrite_all(instructions, spills, pointer, temps);
        let all = colored_nodes.union(rewritten.fresh).union(coalesced_nodes);
        let next = next_initial(colored_nodes, rewritten.fresh, coalesced_nodes);
        let moves = table_view(graph.move_list@);
        let nodes = graph.graph.nodes@;
        lemma_moves_listed(instructions, initial, flow, graph, live_out);
        lemma_moves_of_ends(flow, graph, live_out);
        lemma_machine();
        assert(moves.dom() =~= Set::<u32>::full());
        graph.worklist_moves.lemma_finite();
        assert(is_machine(reg(RBP)));
        assert(Set::new(|temp: Temp| X86_64::spec_special_name(temp) is Some) =~= Set::new(
            |temp: Temp| is_machine(temp),
        ));
        assert(suits::<X86_64>(moves, graph.worklist_moves@, initial));
        assert forall|temp: Temp| initial.to_set().contains(temp) implies is_machine(temp)
            || spills.to_set().contains(temp) || all.contains(temp) by {
            lemma_colouring_covers::<X86_64>(
                moves,
                graph.worklist_moves@,
                nodes,
                initial,
                count,
                temp,
            );
        }
        lemma_colouring_covers::<X86_64>(
            moves,
            graph.worklist_moves@,
            nodes,
            initial,
            count,
            reg(RBP),
        );
        lemma_rewrite_covers(instructions, spills, pointer, temps, initial.to_set(), all);
        lemma_ordered_exists(all);
        crate::spill::lemma_rewrite_all_temps(instructions, spills, pointer, temps);
        assert forall|i: int| 0 <= i < next.len() implies !is_machine(#[trigger] next[i]) by {
            let temp = next[i];
            assert(next.to_set().contains(temp));
            if rewritten.fresh.contains(temp) {
                lemma_rewrite_fresh(instructions, spills, pointer, temps, temp);
                let k = choose|k: int| temps <= k < rewritten.temps && temp == #[trigger] fresh(k);
                assert(temp.num == k + 1);
            } else {
                lemma_colouring_parts::<X86_64>(
                    moves,
                    graph.worklist_moves@,
                    graph.graph,
                    initial,
                    count,
                    temp,
                );
            }
        }
        lemma_allocated_proper(
            rewritten.code,
            next,
            pointer - 8 * spills.len(),
            rewritten.temps,
            (rounds - 1) as nat,
            outcome,
        );
    }
}

/// None of the temporaries that allocation starts from stands for a
/// machine register.
pub proof fn lemma_initial_virtual(instructions: Seq<InstructionView>)
    ensures
        forall|i: int|
            0 <= i < initial_temps(instructions).len() ==> !is_machine(
                #[trigger] initial_temps(instructions)[i],
            ),
    decreases instructions.len(),
{
    if instructions.len() > 0 {
        let shorter = instructions.drop_last();
        let given = instructions[instructions.len() - 1];
        lemma_initial_virtual(shorter);
        let before = initial_temps(shorter);
        let written = virtual_temps(given.destination());
        let read = virtual_temps(given.source());
        let all = initial_temps(instructions);
        assert(all == before + written + read);
        assert forall|i: int| 0 <= i < all.len() implies !is_machine(#[trigger] all[i]) by {
            if i < before.len() {
                assert(all[i] == before[i]);
            } else if i < before.len() + written.len() {
                assert(all[i] == written[i - before.len()]);
                given.destination().lemma_filter_pred(
                    |temp: Temp| !is_machine(temp),
                    i - before.len(),
                );
            } else {
                assert(all[i] == read[i - before.len() - written.len()]);
                given.source().lemma_filter_pred(
                    |temp: Temp| !is_machine(temp),
                    i - before.len() - written.len(),
                );
            }
        }
    }
}

} // verus!
