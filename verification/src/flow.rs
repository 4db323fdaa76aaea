//! The control-flow graph of a list of instructions: one node for each
//! instruction that can be reached from the first, with what it defines and
//! uses, and an edge to each instruction that may run next.

use vstd::prelude::*;
use crate::assem::{Instruction, InstructionView, instruction_views};
use crate::graph::{self, Entry, Graph};
use crate::ir::label_views;
use crate::ordset::OrdSet;
use crate::temp::{Label, LabelView, Temp};
use crate::text::{has_prefix, starts_with_text};

verus! {

/// What the flow graph knows of one instruction.
pub struct Node {
    pub defines: OrdSet<Temp>,
    pub uses: OrdSet<Temp>,
    pub is_move: bool,
}

/// The position of the last instruction that is the label `label`.
pub open spec fn label_position(instructions: Seq<InstructionView>, label: LabelView) -> Option<int>
    decreases instructions.len(),
{
    if instructions.len() == 0 {
        None
    } else if instructions.last() is Label && instructions.last()->Label_label == label {
        Some(instructions.len() - 1)
    } else {
        label_position(instructions.drop_last(), label)
    }
}

/// The labels an instruction may branch to.
pub open spec fn jump_labels(instruction: InstructionView) -> Seq<LabelView> {
    match instruction {
        InstructionView::Operation { jump: Some(labels), .. } => labels,
        _ => Seq::empty(),
    }
}

/// Whether every label that is branched to stands in the list.
pub open spec fn jumps_defined(instructions: Seq<InstructionView>) -> bool {
    forall|i: int, k: int|
        0 <= i < instructions.len() && 0 <= k < jump_labels(instructions[i]).len()
            ==> label_position(instructions, #[trigger] jump_labels(instructions[i])[k]) is Some
}

/// Whether the instruction is a jump that never falls through.
pub open spec fn is_unconditional(instruction: InstructionView) -> bool {
    instruction is Operation && has_prefix(instruction.assembly(), "jmp "@)
}

/// The positions of the instructions that may run after the one at
/// `index`: the targets of its branch in their order, then the next
/// instruction, unless there is none or the instruction is an unconditional
/// jump.
pub open spec fn flow_targets(instructions: Seq<InstructionView>, index: int) -> Seq<int> {
    let labels = jump_labels(instructions[index]);
    let jumps = Seq::new(labels.len(), |k: int| label_position(instructions, labels[k]).unwrap());
    if !is_unconditional(instructions[index]) && index + 1 < instructions.len() {
        jumps.push(index + 1)
    } else {
        jumps
    }
}

/// How many instructions have no node yet.
pub open spec fn count_none(visited: Seq<Option<Entry>>) -> nat
    decreases visited.len(),
{
    if visited.len() == 0 {
        0
    } else {
        count_none(visited.drop_last()) + if visited.last() is None {
            1nat
        } else {
            0nat
        }
    }
}

/// Giving a node to an instruction that had none leaves one instruction
/// less without a node.
pub proof fn lemma_count_none_update(visited: Seq<Option<Entry>>, index: int, entry: Entry)
    requires
        0 <= index < visited.len(),
        visited[index] is None,
    ensures
        count_none(visited.update(index, Some(entry))) + 1 == count_none(visited),
    decreases visited.len(),
{
    let updated = visited.update(index, Some(entry));
    if index == visited.len() - 1 {
        assert(updated.drop_last() =~= visited.drop_last());
    } else {
        assert(updated.drop_last() =~= visited.drop_last().update(index, Some(entry)));
        lemma_count_none_update(visited.drop_last(), index, entry);
    }
}

/// The control-flow graph of a list of instructions. `origin` gives for
/// each node the position of its instruction in the list.
pub struct FlowGraph {
    pub control_flow_graph: Graph<Node>,
    pub origin: Ghost<Seq<int>>,
}

/// Whether the node at `node` of `graph` carries what the instruction at
/// `origin[node]` defines and uses.
pub open spec fn node_matches(
    graph: Graph<Node>,
    origin: Seq<int>,
    instructions: Seq<InstructionView>,
    node: int,
) -> bool {
    let instruction = instructions[origin[node]];
    &&& graph.element(node).defines@ == instruction.destination().to_set()
    &&& graph.element(node).uses@ == instruction.source().to_set()
    &&& graph.element(node).is_move == (instruction is Move)
}

/// Whether the edges that leave the node at `node` lead, in their order,
/// to the nodes of the first instructions that may run after its own.
pub open spec fn edges_begin(
    graph: Graph<Node>,
    origin: Seq<int>,
    instructions: Seq<InstructionView>,
    node: int,
) -> bool {
    let targets = flow_targets(instructions, origin[node]);
    &&& graph.successors_of(node).len() <= targets.len()
    &&& forall|m: int|
        0 <= m < graph.successors_of(node).len() ==> origin[(
        #[trigger] graph.successors_of(node)[m]).0 as int] == targets[m]
}

/// Whether the node at `node` has an edge to every instruction that may run
/// after its own.
pub open spec fn edges_complete(
    graph: Graph<Node>,
    origin: Seq<int>,
    instructions: Seq<InstructionView>,
    node: int,
) -> bool {
    graph.successors_of(node).len() == flow_targets(instructions, origin[node]).len()
}

/// Whether an edge leads to the node at `node` from a node before it.
pub open spec fn reached_from_earlier(graph: Graph<Node>, node: int) -> bool {
    exists|p: int| 0 <= p < node && #[trigger] graph.successors_of(p).contains(Entry(node as usize))
}

/// What holds of a flow graph while it is built, and after: every node
/// stands for one instruction and no two for the same; it carries what the
/// instruction defines and uses; its outgoing edges follow the
/// instruction's successors in order; an edge is known at both of its ends;
/// and every node but the first was reached over an edge from an earlier
/// one.
pub open spec fn graph_follows(
    graph: Graph<Node>,
    origin: Seq<int>,
    visited: Seq<Option<Entry>>,
    instructions: Seq<InstructionView>,
) -> bool {
    &&& graph.wf()
    &&& origin.len() == graph.size()
    &&& visited.len() == instructions.len()
    &&& forall|k: int|
        0 <= k < origin.len() ==> 0 <= #[trigger] origin[k] < instructions.len() && visited[origin[k]]
            == Some(Entry(k as usize))
    &&& forall|i: int|
        0 <= i < visited.len() && (#[trigger] visited[i]) is Some ==> visited[i].unwrap().0 < origin.len()
            && origin[visited[i].unwrap().0 as int] == i
    &&& forall|k: int| 0 <= k < origin.len() ==> #[trigger] node_matches(graph, origin, instructions, k)
    &&& forall|k: int| 0 <= k < origin.len() ==> #[trigger] edges_begin(graph, origin, instructions, k)
    &&& forall|a: int, b: int|
        0 <= a < origin.len() && 0 <= b < origin.len() ==> (graph.successors_of(a).contains(
            Entry(b as usize),
        ) <==> #[trigger] graph.predecessors_of(b).contains(Entry(a as usize)))
    &&& forall|k: int| 0 < k < origin.len() ==> #[trigger] reached_from_earlier(graph, k)
}

impl FlowGraph {
    /// Whether this is the flow graph of `instructions`: the first node is
    /// the first instruction, and every node has all its edges.
    pub open spec fn describes(&self, instructions: Seq<InstructionView>) -> bool {
        let graph = self.control_flow_graph;
        let origin = self.origin@;
        &&& exists|visited: Seq<Option<Entry>>| graph_follows(graph, origin, visited, instructions)
        &&& origin.len() > 0
        &&& origin[0] == 0
        &&& forall|k: int|
            0 <= k < origin.len() ==> #[trigger] edges_complete(graph, origin, instructions, k)
    }

    /// The nodes, in the order in which the instructions were reached.
    pub fn nodes(&self) -> (nodes: &Vec<graph::Node<Node>>)
        ensures
            *nodes == self.control_flow_graph.nodes,
    {
        self.control_flow_graph.nodes()
    }
}

/// The position of the last instruction that is the label `label`.
pub fn find_label(instructions: &Vec<Instruction>, label: &Label) -> (position: Option<usize>)
    ensures
        match position {
            Some(index) => index < instructions@.len() && label_position(
                instruction_views(instructions@),
                label@,
            ) == Some(index as int),
            None => label_position(instruction_views(instructions@), label@) is None,
        },
{
    let ghost views = instruction_views(instructions@);
    let mut index: usize = instructions.len();
    assert(views.subrange(0, index as int) =~= views);
    while index > 0
        invariant
            index <= instructions@.len(),
            views == instruction_views(instructions@),
            label_position(views, label@) == label_position(views.subrange(0, index as int), label@),
        decreases index,
    {
        let found = match &instructions[index - 1] {
            Instruction::Label { label: here, .. } => here.same(label),
            _ => false,
        };
        proof {
            let prefix = views.subrange(0, index as int);
            assert(prefix.last() == views[index - 1]);
            assert(prefix.drop_last() =~= views.subrange(0, index - 1));
        }
        if found {
            return Some(index - 1);
        }
        index = index - 1;
    }
    None
}

/// Whether each of the first `upto` labels that the instruction at `index`
/// may branch to stands in the list.
pub open spec fn labels_found(instructions: Seq<InstructionView>, index: int, upto: int) -> bool {
    forall|k: int|
        0 <= k < upto ==> label_position(
            instructions,
            #[trigger] jump_labels(instructions[index])[k],
        ) is Some
}

/// Whether every label that the instructions branch to stands among them.
pub fn jumps_are_defined(instructions: &Vec<Instruction>) -> (defined: bool)
    ensures
        defined == jumps_defined(instruction_views(instructions@)),
{
    let ghost views = instruction_views(instructions@);
    let mut index: usize = 0;
    while index < instructions.len()
        invariant
            index <= instructions@.len(),
            views == instruction_views(instructions@),
            forall|i: int|
                0 <= i < index ==> #[trigger] labels_found(
                    views,
                    i,
                    jump_labels(views[i]).len() as int,
                ),
        decreases instructions@.len() - index,
    {
        assert(views[index as int] == instructions@[index as int]@);
        match &instructions[index] {
            Instruction::Operation { jump: Some(labels), .. } => {
                assert(jump_labels(views[index as int]) == label_views(labels@));
                let mut place: usize = 0;
                while place < labels.len()
                    invariant
                        place <= labels@.len(),
                        index < instructions@.len(),
                        views == instruction_views(instructions@),
                        jump_labels(views[index as int]) == label_views(labels@),
                        labels_found(views, index as int, place as int),
                    decreases labels@.len() - place,
                {
                    match find_label(instructions, &labels[place]) {
                        Some(_) => {},
                        None => {
                            assert(jump_labels(views[index as int])[place as int]
                                == labels@[place as int]@);
                            return false;
                        },
                    }
                    assert(jump_labels(views[index as int])[place as int] == labels@[place as int]@);
                    place = place + 1;
                }
            },
            _ => {
                assert(jump_labels(views[index as int]).len() == 0);
            },
        }
        index = index + 1;
    }
    assert forall|i: int, k: int|
        0 <= i < views.len() && 0 <= k < jump_labels(views[i]).len() implies label_position(
        views,
        #[trigger] jump_labels(views[i])[k],
    ) is Some by {
        assert(labels_found(views, i, jump_labels(views[i]).len() as int));
    }
    true
}

/// Whether `entry` is the address of the node at `node`.
pub open spec fn is_entry(entry: Option<Entry>, node: int) -> bool {
    entry matches Some(address) && address.0 == node
}

/// The state of the walk that builds a flow graph.
pub struct GraphBuilder {
    pub control_flow_graph: Graph<Node>,
    pub visited: Vec<Option<Entry>>,
    pub origin: Ghost<Seq<int>>,
}

impl GraphBuilder {
    /// What holds of the graph built so far.
    pub open spec fn follows(&self, instructions: Seq<InstructionView>) -> bool {
        graph_follows(self.control_flow_graph, self.origin@, self.visited@, instructions)
    }

    /// Whether the next edge that is owed to the node `node` leads to the
    /// instruction at `index`.
    pub open spec fn expects(&self, instructions: Seq<InstructionView>, node: int, index: int) -> bool {
        let targets = flow_targets(instructions, self.origin@[node]);
        let drawn = self.control_flow_graph.successors_of(node).len();
        drawn < targets.len() && targets[drawn as int] == index
    }

    /// What a step of the walk keeps of the graph it found: the nodes and
    /// their instructions, the edges that leave the nodes it did not come
    /// from, and the edges that were drawn to a node.
    pub open spec fn extends(&self, before: &GraphBuilder, predecessor: Option<Entry>) -> bool {
        let size = before.control_flow_graph.size();
        &&& self.control_flow_graph.size() >= size
        &&& self.origin@.len() >= size
        &&& self.origin@.subrange(0, size as int) == before.origin@
        &&& count_none(self.visited@) <= count_none(before.visited@)
        &&& self.visited@.len() == before.visited@.len()
        &&& forall|i: int|
            0 <= i < before.visited@.len() && (#[trigger] before.visited@[i]) is Some
                ==> self.visited@[i] == before.visited@[i]
        &&& forall|k: int|
            0 <= k < size && !is_entry(predecessor, k)
                ==> #[trigger] self.control_flow_graph.successors_of(k)
                == before.control_flow_graph.successors_of(k)
    }

    /// A step after a step keeps what both keep.
    pub proof fn lemma_extends_twice(
        self,
        first: GraphBuilder,
        middle: GraphBuilder,
        from: Option<Entry>,
        then: Option<Entry>,
        both: Option<Entry>,
    )
        requires
            middle.extends(&first, from),
            self.extends(&middle, then),
            from == both || from is None || from.unwrap().0 >= first.control_flow_graph.size(),
            then == both || then is None || then.unwrap().0 >= first.control_flow_graph.size(),
        ensures
            self.extends(&first, both),
    {
        let size = first.control_flow_graph.size() as int;
        assert(self.origin@.subrange(0, size) =~= first.origin@) by {
            assert forall|k: int| 0 <= k < size implies self.origin@[k] == first.origin@[k] by {
                assert(self.origin@[k] == self.origin@.subrange(
                    0,
                    middle.control_flow_graph.size() as int,
                )[k]);
                assert(middle.origin@[k] == middle.origin@.subrange(0, size)[k]);
            }
        }
        assert forall|i: int|
            0 <= i < first.visited@.len() && (#[trigger] first.visited@[i]) is Some
            implies self.visited@[i] == first.visited@[i] by {
            assert(middle.visited@[i] == first.visited@[i]);
        }
        assert forall|k: int|
            0 <= k < size && !is_entry(both, k)
            implies #[trigger] self.control_flow_graph.successors_of(k)
            == first.control_flow_graph.successors_of(k) by {
            assert(middle.control_flow_graph.successors_of(k)
                == first.control_flow_graph.successors_of(k));
            assert(self.control_flow_graph.successors_of(k)
                == middle.control_flow_graph.successors_of(k));
        }
    }

    /// A node that had all its edges keeps them through a step that did not
    /// come from it.
    pub proof fn lemma_complete_kept(
        self,
        before: GraphBuilder,
        from: Option<Entry>,
        instructions: Seq<InstructionView>,
        node: int,
    )
        requires
            self.extends(&before, from),
            0 <= node < before.control_flow_graph.size(),
            before.origin@.len() == before.control_flow_graph.size(),
            !is_entry(from, node),
            edges_complete(before.control_flow_graph, before.origin@, instructions, node),
        ensures
            edges_complete(self.control_flow_graph, self.origin@, instructions, node),
            self.origin@[node] == before.origin@[node],
    {
        assert(self.origin@[node] == self.origin@.subrange(
            0,
            before.control_flow_graph.size() as int,
        )[node]);
        assert(self.control_flow_graph.successors_of(node)
            == before.control_flow_graph.successors_of(node));
    }

    /// The instruction of a node stays what it was.
    pub proof fn lemma_origin_kept(self, before: GraphBuilder, from: Option<Entry>, node: int)
        requires
            self.extends(&before, from),
            0 <= node < before.control_flow_graph.size(),
        ensures
            self.origin@[node] == before.origin@[node],
    {
        assert(self.origin@[node] == self.origin@.subrange(
            0,
            before.control_flow_graph.size() as int,
        )[node]);
    }

    /// Goes on from the node `entry` of the instruction at `current_index`
    /// with each of the labels that it may branch to.
    pub fn build_jumps(
        &mut self,
        instructions: &Vec<Instruction>,
        current_index: usize,
        entry: Entry,
    )
        requires
            old(self).follows(instruction_views(instructions@)),
            jumps_defined(instruction_views(instructions@)),
            current_index < instructions@.len(),
            entry.0 < old(self).control_flow_graph.size(),
            old(self).origin@[entry.0 as int] == current_index,
            old(self).control_flow_graph.successors_of(entry.0 as int).len() == 0,
        ensures
            final(self).follows(instruction_views(instructions@)),
            final(self).extends(old(self), Some(entry)),
            final(self).control_flow_graph.successors_of(entry.0 as int).len() == jump_labels(
                instruction_views(instructions@)[current_index as int],
            ).len(),
            forall|k: int|
                old(self).control_flow_graph.size() <= k < final(self).control_flow_graph.size()
                    ==> #[trigger] edges_complete(
                    final(self).control_flow_graph,
                    final(self).origin@,
                    instruction_views(instructions@),
                    k,
                ),
        decreases count_none(old(self).visited@), 1nat,
    {
        let ghost views = instruction_views(instructions@);
        let ghost start = *self;
        assert(self.origin@.subrange(0, self.control_flow_graph.size() as int) =~= self.origin@);
        match &instructions[current_index] {
            Instruction::Operation { jump: Some(labels), .. } => {
                assert(jump_labels(views[current_index as int]) == label_views(labels@));
                let mut drawn: usize = 0;
                while drawn < labels.len()
                    invariant
                        drawn <= labels@.len(),
                        start == *old(self),
                        current_index < instructions@.len(),
                        views == instruction_views(instructions@),
                        jumps_defined(views),
                        jump_labels(views[current_index as int]) == label_views(labels@),
                        start.follows(views),
                        self.follows(views),
                        self.extends(&start, Some(entry)),
                        entry.0 < start.control_flow_graph.size(),
                        start.origin@[entry.0 as int] == current_index,
                        self.control_flow_graph.successors_of(entry.0 as int).len() == drawn,
                        forall|k: int|
                            start.control_flow_graph.size() <= k < self.control_flow_graph.size()
                                ==> #[trigger] edges_complete(
                                self.control_flow_graph,
                                self.origin@,
                                views,
                                k,
                            ),
                    decreases labels@.len() - drawn,
                {
                    let ghost before = *self;
                    let target = find_label(instructions, &labels[drawn]);
                    proof {
                        self.lemma_origin_kept(start, Some(entry), entry.0 as int);
                        assert(jump_labels(views[current_index as int])[drawn as int]
                            == labels@[drawn as int]@);
                        assert(flow_targets(views, current_index as int)[drawn as int]
                            == target.unwrap());
                    }
                    self.build(instructions, target.unwrap(), Some(entry));
                    proof {
                        self.lemma_extends_twice(start, before, Some(entry), Some(entry), Some(entry));
                        assert forall|k: int|
                            start.control_flow_graph.size() <= k < self.control_flow_graph.size()
                            implies #[trigger] edges_complete(
                            self.control_flow_graph,
                            self.origin@,
                            views,
                            k,
                        ) by {
                            if k < before.control_flow_graph.size() {
                                self.lemma_complete_kept(before, Some(entry), views, k);
                            }
                        }
                    }
                    drawn = drawn + 1;
                }
            },
            _ => {},
        }
    }

    /// Gives the instruction at `current_index` its node, unless it has one,
    /// draws the edge from `predecessor` to it, and goes on with the
    /// instructions that may run after it.
    pub fn build(
        &mut self,
        instructions: &Vec<Instruction>,
        current_index: usize,
        predecessor: Option<Entry>,
    )
        requires
            old(self).follows(instruction_views(instructions@)),
            jumps_defined(instruction_views(instructions@)),
            current_index < instructions@.len(),
            match predecessor {
                Some(entry) => entry.0 < old(self).control_flow_graph.size() && old(self).expects(
                    instruction_views(instructions@),
                    entry.0 as int,
                    current_index as int,
                ),
                None => old(self).control_flow_graph.size() == 0,
            },
        ensures
            final(self).follows(instruction_views(instructions@)),
            final(self).extends(old(self), predecessor),
            final(self).visited@[current_index as int] is Some,
            predecessor matches Some(entry) ==> final(self).control_flow_graph.successors_of(
                entry.0 as int,
            ) == old(self).control_flow_graph.successors_of(entry.0 as int).push(
                final(self).visited@[current_index as int].unwrap(),
            ),
            predecessor is None ==> final(self).visited@[current_index as int] == Some(Entry(0)),
            forall|k: int|
                old(self).control_flow_graph.size() <= k < final(self).control_flow_graph.size()
                    ==> #[trigger] edges_complete(
                    final(self).control_flow_graph,
                    final(self).origin@,
                    instruction_views(instructions@),
                    k,
                ),
        decreases count_none(old(self).visited@), 0nat,
    {
        let ghost views = instruction_views(instructions@);
        let ghost start = *old(self);
        match self.visited[current_index] {
            Some(entry) => {
                match predecessor {
                    Some(from) => {
                        self.link_to(Ghost(views), from, entry);
                    },
                    None => {},
                }
                return ;
            },
            None => {},
        }
        let entry = self.enter(instructions, current_index);
        let ghost entered = *self;
        match predecessor {
            Some(from) => {
                self.link_to(Ghost(views), from, entry);
                proof {
                    self.lemma_extends_twice(start, entered, None, Some(from), Some(from));
                }
            },
            None => {},
        }
        let ghost linked = *self;
        assert(linked.extends(&start, predecessor));
        self.build_jumps(instructions, current_index, entry);
        let ghost jumped = *self;
        proof {
            jumped.lemma_extends_twice(start, linked, predecessor, Some(entry), predecessor);
            jumped.lemma_origin_kept(linked, Some(entry), entry.0 as int);
        }
        let unconditional = match &instructions[current_index] {
            Instruction::Operation { assembly, .. } => starts_with_text(assembly.as_str(), "jmp "),
            _ => false,
        };
        let ghost mut stepped = false;
        if !unconditional && current_index < instructions.len() - 1 {
            proof {
                stepped = true;
                assert(flow_targets(views, current_index as int)[jump_labels(
                    views[current_index as int],
                ).len() as int] == current_index + 1);
            }
            self.build(instructions, current_index + 1, Some(entry));
            proof {
                self.lemma_extends_twice(start, jumped, predecessor, Some(entry), predecessor);
                self.lemma_origin_kept(jumped, Some(entry), entry.0 as int);
            }
        }
        proof {
            let size = start.control_flow_graph.size() as int;
            assert forall|k: int|
                size <= k < self.control_flow_graph.size() implies #[trigger] edges_complete(
                self.control_flow_graph,
                self.origin@,
                views,
                k,
            ) by {
                if k > entry.0 && k < jumped.control_flow_graph.size() {
                    if k >= linked.control_flow_graph.size() {
                        assert(edges_complete(jumped.control_flow_graph, jumped.origin@, views, k));
                    }
                    if stepped {
                        self.lemma_complete_kept(jumped, Some(entry), views, k);
                    }
                }
            }
            if predecessor is Some {
                let from = predecessor.unwrap().0 as int;
                assert(jumped.control_flow_graph.successors_of(from)
                    == linked.control_flow_graph.successors_of(from));
            }
        }
    }

    /// Adds the node of an instruction that has none.
    fn enter(&mut self, instructions: &Vec<Instruction>, current_index: usize) -> (entry: Entry)
        requires
            old(self).follows(instruction_views(instructions@)),
            current_index < instructions@.len(),
            old(self).visited@[current_index as int] is None,
        ensures
            entry.0 == 0 ==> final(self).follows(instruction_views(instructions@)),
            final(self).almost_follows(instruction_views(instructions@), entry),
            final(self).extends(old(self), None),
            entry.0 == old(self).control_flow_graph.size(),
            final(self).control_flow_graph.size() == entry.0 + 1,
            final(self).origin@ == old(self).origin@.push(current_index as int),
            final(self).visited@ == old(self).visited@.update(current_index as int, Some(entry)),
            count_none(final(self).visited@) < count_none(old(self).visited@),
            final(self).control_flow_graph.successors_of(entry.0 as int).len() == 0,
            forall|k: int|
                0 <= k < entry.0 ==> #[trigger] final(self).control_flow_graph.nodes@[k] == old(
                    self,
                ).control_flow_graph.nodes@[k],
    {
        let ghost views = instruction_views(instructions@);
        let ghost start = *self;
        let node = match &instructions[current_index] {
            Instruction::Move { destination, source, .. } => Node {
                defines: OrdSet::from_vec(destination),
                uses: OrdSet::from_vec(source),
                is_move: true,
            },
            Instruction::Operation { destination, source, .. } => Node {
                defines: OrdSet::from_vec(destination),
                uses: OrdSet::from_vec(source),
                is_move: false,
            },
            Instruction::Label { .. } => {
                assert(Seq::<Temp>::empty().to_set() =~= Set::<Temp>::empty());
                Node { defines: OrdSet::new(), uses: OrdSet::new(), is_move: false }
            },
        };
        let entry = self.control_flow_graph.insert(node);
        self.visited[current_index] = Some(entry);
        proof {
            self.origin@ = self.origin@.push(current_index as int);
            lemma_count_none_update(start.visited@, current_index as int, entry);
            assert(self.control_flow_graph.nodes.len() == self.control_flow_graph.nodes@.len());
            assert(self.origin@.subrange(0, start.control_flow_graph.size() as int)
                =~= start.origin@);
            let graph = self.control_flow_graph;
            let origin = self.origin@;
            assert forall|k: int| 0 <= k < origin.len() implies #[trigger] node_matches(
                graph,
                origin,
                views,
                k,
            ) by {
                if k < entry.0 {
                    assert(node_matches(start.control_flow_graph, start.origin@, views, k));
                }
            }
            assert forall|k: int| 0 <= k < origin.len() implies #[trigger] edges_begin(
                graph,
                origin,
                views,
                k,
            ) by {
                if k < entry.0 {
                    assert(edges_begin(start.control_flow_graph, start.origin@, views, k));
                }
            }
            assert forall|a: int, b: int| 0 <= a < origin.len() && 0 <= b < origin.len() implies (
            graph.successors_of(a).contains(Entry(b as usize))
                <==> #[trigger] graph.predecessors_of(b).contains(Entry(a as usize))) by {
                if a < entry.0 && b < entry.0 {
                    assert(start.control_flow_graph.successors_of(a).contains(Entry(b as usize))
                        <==> start.control_flow_graph.predecessors_of(b).contains(
                        Entry(a as usize),
                    ));
                } else if a < entry.0 {
                    if start.control_flow_graph.successors_of(a).contains(Entry(b as usize)) {
                        let m = choose|m: int|
                            0 <= m < start.control_flow_graph.successors_of(a).len()
                                && start.control_flow_graph.successors_of(a)[m] == Entry(
                                b as usize,
                            );
                        assert(start.control_flow_graph.successors_of(a)[m].0
                            < start.control_flow_graph.size());
                    }
                } else if b < entry.0 {
                    if start.control_flow_graph.predecessors_of(b).contains(Entry(a as usize)) {
                        let m = choose|m: int|
                            0 <= m < start.control_flow_graph.predecessors_of(b).len()
                                && start.control_flow_graph.predecessors_of(b)[m] == Entry(
                                a as usize,
                            );
                        assert(start.control_flow_graph.predecessors_of(b)[m].0
                            < start.control_flow_graph.size());
                    }
                }
            }
            assert forall|k: int| 0 < k < entry.0 implies #[trigger] reached_from_earlier(
                graph,
                k,
            ) by {
                assert(reached_from_earlier(start.control_flow_graph, k));
                let p = choose|p: int|
                    0 <= p < k && #[trigger] start.control_flow_graph.successors_of(p).contains(
                        Entry(k as usize),
                    );
                assert(graph.successors_of(p).contains(Entry(k as usize)));
            }
        }
        entry
    }

    /// What holds of the graph between the moment a node was added and the
    /// moment the edge that reached it was drawn.
    pub open spec fn almost_follows(&self, instructions: Seq<InstructionView>, last: Entry) -> bool {
        let graph = self.control_flow_graph;
        let origin = self.origin@;
        let visited = self.visited@;
        &&& graph.wf()
        &&& origin.len() == graph.size()
        &&& last.0 + 1 == origin.len()
        &&& visited.len() == instructions.len()
        &&& forall|k: int|
            0 <= k < origin.len() ==> 0 <= #[trigger] origin[k] < instructions.len()
                && visited[origin[k]] == Some(Entry(k as usize))
        &&& forall|i: int|
            0 <= i < visited.len() && (#[trigger] visited[i]) is Some ==> visited[i].unwrap().0
                < origin.len() && origin[visited[i].unwrap().0 as int] == i
        &&& forall|k: int|
            0 <= k < origin.len() ==> #[trigger] node_matches(graph, origin, instructions, k)
        &&& forall|k: int|
            0 <= k < origin.len() ==> #[trigger] edges_begin(graph, origin, instructions, k)
        &&& forall|a: int, b: int|
            0 <= a < origin.len() && 0 <= b < origin.len() ==> (graph.successors_of(a).contains(
                Entry(b as usize),
            ) <==> #[trigger] graph.predecessors_of(b).contains(Entry(a as usize)))
        &&& forall|k: int| 0 < k < last.0 ==> #[trigger] reached_from_earlier(graph, k)
    }

    /// Draws the edge that the node `from` is owed next, to the node `to`.
    fn link_to(&mut self, Ghost(instructions): Ghost<Seq<InstructionView>>, from: Entry, to: Entry)
        requires
            from.0 < old(self).control_flow_graph.size(),
            to.0 < old(self).control_flow_graph.size(),
            old(self).follows(instructions) || (old(self).almost_follows(instructions, to) && from.0
                < to.0),
            old(self).expects(instructions, from.0 as int, old(self).origin@[to.0 as int]),
        ensures
            final(self).follows(instructions),
            final(self).origin == old(self).origin,
            final(self).visited == old(self).visited,
            final(self).control_flow_graph.size() == old(self).control_flow_graph.size(),
            final(self).extends(old(self), Some(from)),
            final(self).control_flow_graph.successors_of(from.0 as int) == old(
                self,
            ).control_flow_graph.successors_of(from.0 as int).push(to),
            forall|k: int|
                0 <= k < old(self).control_flow_graph.size() && k != from.0
                    ==> #[trigger] final(self).control_flow_graph.successors_of(k) == old(
                    self,
                ).control_flow_graph.successors_of(k),
    {
        let ghost start = *self;
        self.control_flow_graph.link(from, to);
        proof {
            let graph = self.control_flow_graph;
            let origin = self.origin@;
            assert(graph.nodes.len() == graph.nodes@.len());
            assert(origin.subrange(0, start.control_flow_graph.size() as int) =~= start.origin@);
            assert forall|k: int| 0 <= k < origin.len() implies #[trigger] node_matches(
                graph,
                origin,
                instructions,
                k,
            ) by {
                assert(node_matches(start.control_flow_graph, origin, instructions, k));
            }
            assert forall|k: int| 0 <= k < origin.len() implies #[trigger] edges_begin(
                graph,
                origin,
                instructions,
                k,
            ) by {
                assert(edges_begin(start.control_flow_graph, origin, instructions, k));
                assert(graph.successors_of(k) == if k == from.0 {
                    start.control_flow_graph.successors_of(k).push(to)
                } else {
                    start.control_flow_graph.successors_of(k)
                });
            }
            assert forall|a: int, b: int| 0 <= a < origin.len() && 0 <= b < origin.len() implies (
            graph.successors_of(a).contains(Entry(b as usize))
                <==> #[trigger] graph.predecessors_of(b).contains(Entry(a as usize))) by {
                let old_successors = start.control_flow_graph.successors_of(a);
                let old_predecessors = start.control_flow_graph.predecessors_of(b);
                assert(old_successors.contains(Entry(b as usize)) <==> old_predecessors.contains(
                    Entry(a as usize),
                ));
                assert(graph.successors_of(a) == if a == from.0 {
                    old_successors.push(to)
                } else {
                    old_successors
                });
                assert(graph.predecessors_of(b) == if b == to.0 {
                    old_predecessors.push(from)
                } else {
                    old_predecessors
                });
                lemma_push_contains(old_successors, to, Entry(b as usize));
                lemma_push_contains(old_predecessors, from, Entry(a as usize));
            }
            assert forall|k: int| 0 < k < origin.len() implies #[trigger] reached_from_earlier(
                graph,
                k,
            ) by {
                if start.follows(instructions) || k < to.0 {
                    assert(reached_from_earlier(start.control_flow_graph, k));
                    let p = choose|p: int|
                        0 <= p < k && #[trigger] start.control_flow_graph.successors_of(
                            p,
                        ).contains(Entry(k as usize));
                    assert(graph.successors_of(p) == if p == from.0 {
                        start.control_flow_graph.successors_of(p).push(to)
                    } else {
                        start.control_flow_graph.successors_of(p)
                    });
                    lemma_push_contains(
                        start.control_flow_graph.successors_of(p),
                        to,
                        Entry(k as usize),
                    );
                    assert(graph.successors_of(p).contains(Entry(k as usize)));
                } else {
                    assert(k == to.0);
                    lemma_push_contains(
                        start.control_flow_graph.successors_of(from.0 as int),
                        to,
                        to,
                    );
                    assert(graph.successors_of(from.0 as int).contains(Entry(k as usize)));
                }
            }
        }
    }
}

/// What a sequence with one more element at its end contains.
pub proof fn lemma_push_contains<T>(s: Seq<T>, last: T, value: T)
    ensures
        s.push(last).contains(value) <==> (s.contains(value) || value == last),
{
    if s.push(last).contains(value) {
        let i = choose|i: int| 0 <= i < s.push(last).len() && s.push(last)[i] == value;
        if i < s.len() {
            assert(s[i] == value);
        }
    }
    if s.contains(value) {
        let i = choose|i: int| 0 <= i < s.len() && s[i] == value;
        assert(s.push(last)[i] == value);
    }
    if value == last {
        assert(s.push(last)[s.len() as int] == value);
    }
}

/// The flow graph of a list of instructions that is not empty and in which
/// every label that is branched to stands.
pub fn instructions_to_graph(instructions: &Vec<Instruction>) -> (graph: FlowGraph)
    requires
        instructions@.len() > 0,
        jumps_defined(instruction_views(instructions@)),
    ensures
        graph.describes(instruction_views(instructions@)),
{
    let mut visited: Vec<Option<Entry>> = Vec::new();
    let mut index: usize = 0;
    while index < instructions.len()
        invariant
            index <= instructions@.len(),
            visited@.len() == index,
            forall|i: int| 0 <= i < index ==> (#[trigger] visited@[i]) is None,
        decreases instructions@.len() - index,
    {
        visited.push(None);
        index = index + 1;
    }
    let mut builder = GraphBuilder {
        control_flow_graph: Graph::new(),
        visited,
        origin: Ghost(Seq::empty()),
    };
    builder.build(instructions, 0, None);
    let graph = FlowGraph {
        control_flow_graph: builder.control_flow_graph,
        origin: Ghost(builder.origin@),
    };
    proof {
        assert(graph_follows(
            graph.control_flow_graph,
            graph.origin@,
            builder.visited@,
            instruction_views(instructions@),
        ));
    }
    graph
}

/// A label has a position exactly if it stands somewhere in the list.
pub proof fn lemma_label_position(instructions: Seq<InstructionView>, label: LabelView)
    ensures
        label_position(instructions, label) is Some <==> exists|i: int|
            0 <= i < instructions.len() && (#[trigger] instructions[i]) is Label
                && instructions[i]->Label_label == label,
    decreases instructions.len(),
{
    if instructions.len() > 0 {
        let shorter = instructions.drop_last();
        lemma_label_position(shorter, label);
        if label_position(instructions, label) is Some {
            if instructions.last() is Label && instructions.last()->Label_label == label {
                assert(instructions[instructions.len() - 1] is Label);
            } else {
                let i = choose|i: int|
                    0 <= i < shorter.len() && (#[trigger] shorter[i]) is Label
                        && shorter[i]->Label_label == label;
                assert(instructions[i] == shorter[i]);
            }
        }
        if exists|i: int|
            0 <= i < instructions.len() && (#[trigger] instructions[i]) is Label
                && instructions[i]->Label_label == label {
            let i = choose|i: int|
                0 <= i < instructions.len() && (#[trigger] instructions[i]) is Label
                    && instructions[i]->Label_label == label;
            if i < shorter.len() {
                assert(shorter[i] == instructions[i]);
            }
        }
    }
}

} // verus!
