//! Liveness: which temporaries hold a value that may still be read, on
//! entry to and on exit from each instruction, and, from that, which
//! temporaries may not share a register.

use std::collections::HashMap;
use vstd::prelude::*;
use vstd::set_lib::*;
use crate::flow::{self, FlowGraph};
use crate::graph::{self, Entry, Graph};
use crate::ordset::{Move, OrdSet};
use crate::temp::Temp;

verus! {

/// The sets of a list of ordered sets.
pub open spec fn set_views(sets: Seq<OrdSet<Temp>>) -> Seq<Set<Temp>> {
    Seq::new(sets.len(), |i: int| sets[i]@)
}

/// What is live on entry to the node `node`, given what is live on exit
/// from it: what the node uses, and what is live on exit and not defined
/// by it.
pub open spec fn flow_in(graph: Graph<flow::Node>, live_out: Seq<Set<Temp>>, node: int) -> Set<Temp> {
    graph.element(node).uses@.union(live_out[node].difference(graph.element(node).defines@))
}

/// What is live on entry to any of the nodes at `successors`.
pub open spec fn union_over(live_in: Seq<Set<Temp>>, successors: Seq<Entry>) -> Set<Temp>
    decreases successors.len(),
{
    if successors.len() == 0 {
        Set::empty()
    } else {
        union_over(live_in, successors.drop_last()).union(live_in[successors.last().0 as int])
    }
}

/// What is live on exit from the node `node`, given what is live on entry
/// to each node: what is live on entry to any of its successors.
pub open spec fn flow_out(graph: Graph<flow::Node>, live_in: Seq<Set<Temp>>, node: int) -> Set<Temp> {
    union_over(live_in, graph.successors_of(node))
}

/// Whether the sets solve the dataflow equations of the graph.
pub open spec fn is_fixed_point(
    graph: Graph<flow::Node>,
    live_in: Seq<Set<Temp>>,
    live_out: Seq<Set<Temp>>,
) -> bool {
    &&& live_in.len() == graph.size()
    &&& live_out.len() == graph.size()
    &&& forall|node: int|
        0 <= node < graph.size() ==> #[trigger] live_in[node] == flow_in(graph, live_out, node)
    &&& forall|node: int|
        0 <= node < graph.size() ==> #[trigger] live_out[node] == flow_out(graph, live_in, node)
}

/// Whether each set of `smaller` lies within the set of `larger` at the
/// same position.
pub open spec fn below(smaller: Seq<Set<Temp>>, larger: Seq<Set<Temp>>) -> bool {
    &&& smaller.len() == larger.len()
    &&& forall|i: int| 0 <= i < smaller.len() ==> #[trigger] smaller[i].subset_of(larger[i])
}

/// Whether the sets lie within every solution of the dataflow equations.
pub open spec fn within_every_solution(
    graph: Graph<flow::Node>,
    live_in: Seq<Set<Temp>>,
    live_out: Seq<Set<Temp>>,
) -> bool {
    forall|other_in: Seq<Set<Temp>>, other_out: Seq<Set<Temp>>| #[trigger]
        is_fixed_point(graph, other_in, other_out) ==> below(live_in, other_in) && below(
            live_out,
            other_out,
        )
}

/// A temporary is live on entry to one of the nodes at `successors` exactly
/// if it is in their union.
pub proof fn lemma_union_over_contains(live_in: Seq<Set<Temp>>, successors: Seq<Entry>, temp: Temp)
    ensures
        union_over(live_in, successors).contains(temp) <==> exists|m: int|
            0 <= m < successors.len() && live_in[(#[trigger] successors[m]).0 as int].contains(temp),
    decreases successors.len(),
{
    if successors.len() > 0 {
        let shorter = successors.drop_last();
        lemma_union_over_contains(live_in, shorter, temp);
        if union_over(live_in, successors).contains(temp) {
            if live_in[successors.last().0 as int].contains(temp) {
                assert(live_in[successors[successors.len() - 1].0 as int].contains(temp));
            } else {
                let m = choose|m: int|
                    0 <= m < shorter.len() && live_in[(#[trigger] shorter[m]).0 as int].contains(
                        temp,
                    );
                assert(live_in[successors[m].0 as int].contains(temp));
            }
        }
        if exists|m: int|
            0 <= m < successors.len() && live_in[(#[trigger] successors[m]).0 as int].contains(
                temp,
            ) {
            let m = choose|m: int|
                0 <= m < successors.len() && live_in[(#[trigger] successors[m]).0 as int].contains(
                    temp,
                );
            if m < shorter.len() {
                assert(live_in[shorter[m].0 as int].contains(temp));
            }
        }
    }
}

/// The union over successors grows with the sets it is taken of.
pub proof fn lemma_union_over_grows(
    smaller: Seq<Set<Temp>>,
    larger: Seq<Set<Temp>>,
    successors: Seq<Entry>,
)
    requires
        below(smaller, larger),
        forall|m: int| 0 <= m < successors.len() ==> (#[trigger] successors[m]).0 < smaller.len(),
    ensures
        union_over(smaller, successors).subset_of(union_over(larger, successors)),
    decreases successors.len(),
{
    if successors.len() > 0 {
        lemma_union_over_grows(smaller, larger, successors.drop_last());
        let last = successors[successors.len() - 1].0 as int;
        assert(smaller[last].subset_of(larger[last]));
    }
}

/// The union over successors is finite and within `universe` when the sets
/// are.
pub proof fn lemma_union_over_within(
    live_in: Seq<Set<Temp>>,
    successors: Seq<Entry>,
    universe: Set<Temp>,
)
    requires
        forall|i: int| 0 <= i < live_in.len() ==> (#[trigger] live_in[i]).subset_of(universe),
        forall|m: int| 0 <= m < successors.len() ==> (#[trigger] successors[m]).0 < live_in.len(),
    ensures
        union_over(live_in, successors).subset_of(universe),
    decreases successors.len(),
{
    if successors.len() > 0 {
        lemma_union_over_within(live_in, successors.drop_last(), universe);
        let last = successors[successors.len() - 1].0 as int;
        assert(live_in[last].subset_of(universe));
    }
}

/// The number of elements of all the sets together.
pub open spec fn total(sets: Seq<Set<Temp>>) -> nat
    decreases sets.len(),
{
    if sets.len() == 0 {
        0
    } else {
        total(sets.drop_last()) + sets.last().len()
    }
}

/// Replacing one set changes the total by the difference of the sizes.
pub proof fn lemma_total_update(sets: Seq<Set<Temp>>, index: int, set: Set<Temp>)
    requires
        0 <= index < sets.len(),
    ensures
        total(sets.update(index, set)) + sets[index].len() == total(sets) + set.len(),
    decreases sets.len(),
{
    let updated = sets.update(index, set);
    if index == sets.len() - 1 {
        assert(updated.drop_last() =~= sets.drop_last());
    } else {
        assert(updated.drop_last() =~= sets.drop_last().update(index, set));
        lemma_total_update(sets.drop_last(), index, set);
    }
}

/// Sets within a finite universe have, together, at most as many elements
/// as that many universes.
pub proof fn lemma_total_bounded(sets: Seq<Set<Temp>>, universe: Set<Temp>)
    requires
        universe.finite(),
        forall|i: int| 0 <= i < sets.len() ==> (#[trigger] sets[i]).subset_of(universe),
    ensures
        total(sets) <= sets.len() * universe.len(),
    decreases sets.len(),
{
    if sets.len() > 0 {
        let shorter = sets.drop_last();
        assert forall|i: int| 0 <= i < shorter.len() implies (#[trigger] shorter[i]).subset_of(
            universe,
        ) by {
            assert(shorter[i] == sets[i]);
        }
        lemma_total_bounded(shorter, universe);
        assert(sets[sets.len() - 1].subset_of(universe));
        lemma_len_subset(sets.last(), universe);
        assert(sets.len() * universe.len() == shorter.len() * universe.len() + universe.len())
            by (nonlinear_arith)
            requires
                sets.len() == shorter.len() + 1,
        ;
    }
}

/// What every node uses, taken together.
pub open spec fn all_uses(graph: Graph<flow::Node>, upto: int) -> Set<Temp>
    decreases upto,
{
    if upto <= 0 {
        Set::empty()
    } else {
        all_uses(graph, upto - 1).union(graph.element(upto - 1).uses@)
    }
}

/// The temporaries that are used anywhere are finitely many, and hold what
/// each node uses.
pub proof fn lemma_all_uses(graph: Graph<flow::Node>, upto: int)
    requires
        0 <= upto <= graph.size(),
    ensures
        all_uses(graph, upto).finite(),
        forall|node: int|
            0 <= node < upto ==> (#[trigger] graph.element(node)).uses@.subset_of(
                all_uses(graph, upto),
            ),
    decreases upto,
{
    if upto > 0 {
        lemma_all_uses(graph, upto - 1);
        graph.element(upto - 1).uses.lemma_finite();
    }
}

/// What is live on entry to and on exit from each node of a flow graph.
pub struct Liveness {
    pub live_in: Vec<OrdSet<Temp>>,
    pub live_out: Vec<OrdSet<Temp>>,
}

/// What the analysis keeps true of its sets from one step to the next: they
/// have not outgrown the equations, they hold only temporaries that are
/// used somewhere, and they lie within every solution.
pub open spec fn approaching(
    graph: Graph<flow::Node>,
    live_in: Seq<Set<Temp>>,
    live_out: Seq<Set<Temp>>,
) -> bool {
    let universe = all_uses(graph, graph.size() as int);
    &&& live_in.len() == graph.size()
    &&& live_out.len() == graph.size()
    &&& forall|node: int|
        0 <= node < graph.size() ==> (#[trigger] live_in[node]).subset_of(
            flow_in(graph, live_out, node),
        )
    &&& forall|node: int|
        0 <= node < graph.size() ==> (#[trigger] live_out[node]).subset_of(
            flow_out(graph, live_in, node),
        )
    &&& forall|node: int| 0 <= node < graph.size() ==> (#[trigger] live_in[node]).subset_of(universe)
    &&& forall|node: int| 0 <= node < graph.size() ==> (#[trigger] live_out[node]).subset_of(universe)
    &&& within_every_solution(graph, live_in, live_out)
}

/// Putting what the equation gives in place of what is live on entry to
/// one node keeps the analysis on its way.
pub proof fn lemma_step_in(
    graph: Graph<flow::Node>,
    live_in: Seq<Set<Temp>>,
    live_out: Seq<Set<Temp>>,
    node: int,
)
    requires
        graph.wf(),
        approaching(graph, live_in, live_out),
        0 <= node < graph.size(),
    ensures
        approaching(graph, live_in.update(node, flow_in(graph, live_out, node)), live_out),
        live_in[node].subset_of(flow_in(graph, live_out, node)),
{
    let universe = all_uses(graph, graph.size() as int);
    let after = live_in.update(node, flow_in(graph, live_out, node));
    lemma_all_uses(graph, graph.size() as int);
    assert(graph.element(node).uses@.subset_of(universe));
    assert(live_out[node].subset_of(universe));
    assert(below(live_in, after)) by {
        assert forall|i: int| 0 <= i < live_in.len() implies #[trigger] live_in[i].subset_of(
            after[i],
        ) by {}
    }
    assert forall|other: int| 0 <= other < graph.size() implies (#[trigger] live_out[other]).subset_of(
        flow_out(graph, after, other),
    ) by {
        assert(graph.nodes@[other].successors@ == graph.successors_of(other));
        assert forall|m: int| 0 <= m < graph.successors_of(other).len() implies (
        #[trigger] graph.successors_of(other)[m]).0 < live_in.len() by {
            assert(graph.nodes@[other].successors@[m].0 < graph.nodes@.len());
        }
        lemma_union_over_grows(live_in, after, graph.successors_of(other));
        assert(live_out[other].subset_of(flow_out(graph, live_in, other)));
    }
    assert forall|other_in: Seq<Set<Temp>>, other_out: Seq<Set<Temp>>| #[trigger]
        is_fixed_point(graph, other_in, other_out) implies below(after, other_in) && below(
        live_out,
        other_out,
    ) by {
        assert(below(live_in, other_in) && below(live_out, other_out));
        assert(live_out[node].subset_of(other_out[node]));
        assert(other_in[node] == flow_in(graph, other_out, node));
        assert forall|i: int| 0 <= i < after.len() implies #[trigger] after[i].subset_of(
            other_in[i],
        ) by {
            if i != node {
                assert(live_in[i].subset_of(other_in[i]));
            }
        }
    }
    assert forall|other: int| 0 <= other < graph.size() implies (#[trigger] after[other]).subset_of(
        flow_in(graph, live_out, other),
    ) by {
        if other != node {
            assert(live_in[other].subset_of(flow_in(graph, live_out, other)));
        }
    }
    assert forall|other: int| 0 <= other < graph.size() implies (#[trigger] after[other]).subset_of(
        universe,
    ) by {
        if other != node {
            assert(live_in[other].subset_of(universe));
        }
    }
}

/// Putting what the equation gives in place of what is live on exit from
/// one node keeps the analysis on its way.
pub proof fn lemma_step_out(
    graph: Graph<flow::Node>,
    live_in: Seq<Set<Temp>>,
    live_out: Seq<Set<Temp>>,
    node: int,
)
    requires
        graph.wf(),
        approaching(graph, live_in, live_out),
        0 <= node < graph.size(),
    ensures
        approaching(graph, live_in, live_out.update(node, flow_out(graph, live_in, node))),
        live_out[node].subset_of(flow_out(graph, live_in, node)),
{
    let universe = all_uses(graph, graph.size() as int);
    let after = live_out.update(node, flow_out(graph, live_in, node));
    assert(graph.nodes@[node].successors@ == graph.successors_of(node));
    assert forall|m: int| 0 <= m < graph.successors_of(node).len() implies (
    #[trigger] graph.successors_of(node)[m]).0 < live_in.len() by {
        assert(graph.nodes@[node].successors@[m].0 < graph.nodes@.len());
    }
    lemma_union_over_within(live_in, graph.successors_of(node), universe);
    assert forall|other_in: Seq<Set<Temp>>, other_out: Seq<Set<Temp>>| #[trigger]
        is_fixed_point(graph, other_in, other_out) implies below(live_in, other_in) && below(
        after,
        other_out,
    ) by {
        assert(below(live_in, other_in) && below(live_out, other_out));
        lemma_union_over_grows(live_in, other_in, graph.successors_of(node));
        assert(other_out[node] == flow_out(graph, other_in, node));
        assert forall|i: int| 0 <= i < after.len() implies #[trigger] after[i].subset_of(
            other_out[i],
        ) by {
            if i != node {
                assert(live_out[i].subset_of(other_out[i]));
            }
        }
    }
    assert forall|other: int| 0 <= other < graph.size() implies (#[trigger] live_in[other]).subset_of(
        flow_in(graph, after, other),
    ) by {
        assert(live_in[other].subset_of(flow_in(graph, live_out, other)));
        assert(live_out[node].subset_of(after[node]));
    }
    assert forall|other: int| 0 <= other < graph.size() implies (#[trigger] after[other]).subset_of(
        flow_out(graph, live_in, other),
    ) by {
        if other != node {
            assert(live_out[other].subset_of(flow_out(graph, live_in, other)));
        }
    }
    assert forall|other: int| 0 <= other < graph.size() implies (#[trigger] after[other]).subset_of(
        universe,
    ) by {
        if other != node {
            assert(live_out[other].subset_of(universe));
        }
    }
}

/// A list of `count` empty sets.
fn empty_sets(count: usize) -> (sets: Vec<OrdSet<Temp>>)
    ensures
        sets@.len() == count,
        forall|i: int| 0 <= i < count ==> (#[trigger] sets@[i])@ == Set::<Temp>::empty(),
{
    let mut sets: Vec<OrdSet<Temp>> = Vec::new();
    let mut index: usize = 0;
    while index < count
        invariant
            index <= count,
            sets@.len() == index,
            forall|i: int| 0 <= i < index ==> (#[trigger] sets@[i])@ == Set::<Temp>::empty(),
        decreases count - index,
    {
        sets.push(OrdSet::new());
        index = index + 1;
    }
    sets
}

/// What is live on entry to any successor of a node.
fn successors_live(
    graph: &FlowGraph,
    live_in: &Vec<OrdSet<Temp>>,
    node: usize,
) -> (live: OrdSet<Temp>)
    requires
        graph.control_flow_graph.wf(),
        node < graph.control_flow_graph.size(),
        live_in@.len() == graph.control_flow_graph.size(),
    ensures
        live@ == flow_out(graph.control_flow_graph, set_views(live_in@), node as int),
{
    let nodes = graph.nodes();
    let successors = nodes[node].successors();
    let ghost views = set_views(live_in@);
    let mut live = OrdSet::new();
    let mut index: usize = 0;
    while index < successors.len()
        invariant
            index <= successors@.len(),
            views == set_views(live_in@),
            live_in@.len() == graph.control_flow_graph.size(),
            forall|m: int|
                0 <= m < successors@.len() ==> (#[trigger] successors@[m]).0
                    < graph.control_flow_graph.size(),
            live@ == union_over(views, successors@.subrange(0, index as int)),
        decreases successors@.len() - index,
    {
        let successor = successors[index].index();
        proof {
            let longer = successors@.subrange(0, index + 1);
            assert(longer.drop_last() =~= successors@.subrange(0, index as int));
            assert(longer.last() == successors@[index as int]);
        }
        live.extend(&live_in[successor]);
        index = index + 1;
    }
    assert(successors@.subrange(0, index as int) =~= successors@);
    live
}

/// Solves the dataflow equations of liveness by iteration: the sets start
/// empty and grow until a pass over all nodes changes none of them.
pub fn liveness(graph: &FlowGraph) -> (result: Liveness)
    requires
        graph.control_flow_graph.wf(),
    ensures
        is_fixed_point(
            graph.control_flow_graph,
            set_views(result.live_in@),
            set_views(result.live_out@),
        ),
        within_every_solution(
            graph.control_flow_graph,
            set_views(result.live_in@),
            set_views(result.live_out@),
        ),
{
    let ghost flow = graph.control_flow_graph;
    let ghost universe = all_uses(flow, flow.size() as int);
    let nodes = graph.nodes();
    let count = nodes.len();
    let mut live_in = empty_sets(count);
    let mut live_out = empty_sets(count);
    let mut done = false;
    proof {
        lemma_all_uses(flow, flow.size() as int);
        assert(approaching(flow, set_views(live_in@), set_views(live_out@))) by {
            assert forall|other_in: Seq<Set<Temp>>, other_out: Seq<Set<Temp>>| #[trigger]
                is_fixed_point(flow, other_in, other_out) implies below(
                set_views(live_in@),
                other_in,
            ) && below(set_views(live_out@), other_out) by {}
        }
        lemma_total_bounded(set_views(live_in@), universe);
        lemma_total_bounded(set_views(live_out@), universe);
    }
    while !done
        invariant
            flow == graph.control_flow_graph,
            *nodes == flow.nodes,
            count == flow.size(),
            flow.wf(),
            universe == all_uses(flow, flow.size() as int),
            universe.finite(),
            approaching(flow, set_views(live_in@), set_views(live_out@)),
            total(set_views(live_in@)) <= count * universe.len(),
            total(set_views(live_out@)) <= count * universe.len(),
            done ==> is_fixed_point(flow, set_views(live_in@), set_views(live_out@)),
        decreases
                if done {
                    0
                } else {
                    1 + 2 * (count * universe.len()) - total(set_views(live_in@)) - total(
                        set_views(live_out@),
                    )
                },
    {
        let ghost first_in = set_views(live_in@);
        let ghost first_out = set_views(live_out@);
        let mut changed = false;
        let mut index: usize = 0;
        while index < count
            invariant
                index <= count,
                flow == graph.control_flow_graph,
                *nodes == flow.nodes,
                count == flow.size(),
                flow.wf(),
                universe == all_uses(flow, flow.size() as int),
                universe.finite(),
                approaching(flow, set_views(live_in@), set_views(live_out@)),
                total(set_views(live_in@)) + total(set_views(live_out@)) >= total(first_in) + total(
                    first_out,
                ) + if changed {
                    1int
                } else {
                    0int
                },
                !changed ==> forall|node: int|
                    0 <= node < index ==> (#[trigger] set_views(live_in@)[node]) == flow_in(
                        flow,
                        set_views(live_out@),
                        node,
                    ),
                !changed ==> forall|node: int|
                    0 <= node < index ==> (#[trigger] set_views(live_out@)[node]) == flow_out(
                        flow,
                        set_views(live_in@),
                        node,
                    ),
            decreases count - index,
        {
            let ghost ins = set_views(live_in@);
            let ghost outs = set_views(live_out@);
            let mut entering = nodes[index].get().uses.copy();
            let mut leaving = live_out[index].copy();
            leaving.subtract(&nodes[index].get().defines);
            entering.extend(&leaving);
            assert(entering@ =~= flow_in(flow, outs, index as int));
            let same_in = entering.equals(&live_in[index]);
            proof {
                lemma_step_in(flow, ins, outs, index as int);
                lemma_total_update(ins, index as int, entering@);
                entering.lemma_finite();
                lemma_len_subset(ins[index as int], entering@);
                if !same_in {
                    lemma_strict_subset_len(ins[index as int], entering@);
                }
            }
            live_in[index] = entering;
            assert(set_views(live_in@) =~= ins.update(index as int, flow_in(flow, outs, index as int)));
            let ghost new_ins = set_views(live_in@);
            let exiting = successors_live(graph, &live_in, index);
            let same_out = exiting.equals(&live_out[index]);
            proof {
                lemma_step_out(flow, new_ins, outs, index as int);
                lemma_total_update(outs, index as int, exiting@);
                exiting.lemma_finite();
                lemma_len_subset(outs[index as int], exiting@);
                if !same_out {
                    lemma_strict_subset_len(outs[index as int], exiting@);
                }
            }
            live_out[index] = exiting;
            assert(set_views(live_out@) =~= outs.update(
                index as int,
                flow_out(flow, new_ins, index as int),
            ));
            if !same_in || !same_out {
                changed = true;
            }
            proof {
                if !changed {
                    assert(set_views(live_in@) =~= ins);
                    assert(set_views(live_out@) =~= outs);
                }
            }
            index = index + 1;
        }
        proof {
            lemma_total_bounded(set_views(live_in@), universe);
            lemma_total_bounded(set_views(live_out@), universe);
        }
        if !changed {
            done = true;
        }
    }
    Liveness { live_in, live_out }
}

/// A set that lies within another and differs from it is smaller.
pub proof fn lemma_strict_subset_len(smaller: Set<Temp>, larger: Set<Temp>)
    requires
        larger.finite(),
        smaller.subset_of(larger),
        smaller != larger,
    ensures
        smaller.len() < larger.len(),
{
    assert(exists|t: Temp| larger.contains(t) && !smaller.contains(t)) by {
        if forall|t: Temp| larger.contains(t) ==> smaller.contains(t) {
            assert(smaller =~= larger);
        }
    }
    let witness = choose|t: Temp| larger.contains(t) && !smaller.contains(t);
    assert(smaller.subset_of(larger.remove(witness)));
    lemma_len_subset(smaller, larger.remove(witness));
}

/// The solution of the dataflow equations that lies within every other.
pub open spec fn is_liveness(
    graph: Graph<flow::Node>,
    live_in: Seq<Set<Temp>>,
    live_out: Seq<Set<Temp>>,
) -> bool {
    is_fixed_point(graph, live_in, live_out) && within_every_solution(graph, live_in, live_out)
}

/// At a fixed point, what is live on entry to a node holds what the node
/// uses and what is live on exit from it and not defined by it; and what is
/// live on exit is exactly what is live on entry to one of its successors.
pub proof fn lemma_fixed_point(
    graph: Graph<flow::Node>,
    live_in: Seq<Set<Temp>>,
    live_out: Seq<Set<Temp>>,
    node: int,
)
    requires
        is_fixed_point(graph, live_in, live_out),
        0 <= node < graph.size(),
    ensures
        graph.element(node).uses@.subset_of(live_in[node]),
        live_out[node].difference(graph.element(node).defines@).subset_of(live_in[node]),
        forall|temp: Temp|
            live_out[node].contains(temp) <==> exists|m: int|
                0 <= m < graph.successors_of(node).len() && live_in[(
                #[trigger] graph.successors_of(node)[m]).0 as int].contains(temp),
{
    assert(live_in[node] == flow_in(graph, live_out, node));
    assert(live_out[node] == flow_out(graph, live_in, node));
    assert forall|temp: Temp|
        live_out[node].contains(temp) <==> exists|m: int|
            0 <= m < graph.successors_of(node).len() && live_in[(
            #[trigger] graph.successors_of(node)[m]).0 as int].contains(temp) by {
        lemma_union_over_contains(live_in, graph.successors_of(node), temp);
    }
}

/// There is one solution that lies within every other.
pub proof fn lemma_liveness_unique(
    graph: Graph<flow::Node>,
    live_in: Seq<Set<Temp>>,
    live_out: Seq<Set<Temp>>,
    other_in: Seq<Set<Temp>>,
    other_out: Seq<Set<Temp>>,
)
    requires
        is_liveness(graph, live_in, live_out),
        is_liveness(graph, other_in, other_out),
    ensures
        live_in == other_in,
        live_out == other_out,
{
    assert(below(live_in, other_in) && below(live_out, other_out));
    assert(below(other_in, live_in) && below(other_out, live_out));
    assert forall|i: int| 0 <= i < live_in.len() implies live_in[i] == other_in[i] by {
        assert(live_in[i].subset_of(other_in[i]));
        assert(other_in[i].subset_of(live_in[i]));
        assert(live_in[i] =~= other_in[i]);
    }
    assert forall|i: int| 0 <= i < live_out.len() implies live_out[i] == other_out[i] by {
        assert(live_out[i].subset_of(other_out[i]));
        assert(other_out[i].subset_of(live_out[i]));
        assert(live_out[i] =~= other_out[i]);
    }
    assert(live_in =~= other_in);
    assert(live_out =~= other_out);
}

/// The temporaries that may not share a register, as a graph in which each
/// edge joins two nodes of its own, and the moves that the allocator may
/// try to remove.
pub struct InterferenceGraph {
    pub graph: Graph<Temp>,
    pub move_list: HashMap<u32, OrdSet<Move>>,
    pub worklist_moves: OrdSet<Move>,
}

/// Whether an edge of the graph leads from a node of `first` to a node of
/// `second`.
pub open spec fn has_edge(graph: Graph<Temp>, first: Temp, second: Temp) -> bool {
    exists|n: int, m: int|
        0 <= n < graph.size() && 0 <= m < graph.successors_of(n).len() && graph.element(n) == first
            && graph.element((#[trigger] graph.successors_of(n)[m]).0 as int) == second
}

/// The source that a move's destination need not be kept apart from: the
/// one temporary that a move instruction reads.
pub open spec fn move_source(node: flow::Node) -> Option<Temp> {
    if node.is_move && node.uses@.len() == 1 {
        Some(node.uses.seq()[0])
    } else {
        None
    }
}

/// Whether the node keeps `first` and `second` apart: it defines `first`
/// while `second` is live on exit from it, unless it is a move from
/// `second` alone.
pub open spec fn node_interferes(node: flow::Node, live_out: Set<Temp>, first: Temp, second: Temp) -> bool {
    &&& node.defines@.contains(first)
    &&& live_out.contains(second)
    &&& move_source(node) != Some(second)
}

/// The move that a node stands for: from the first temporary it uses to the
/// first it defines, if it is a move instruction that has both.
pub open spec fn move_of(node: flow::Node) -> Option<Move> {
    if node.is_move && node.defines.seq().len() > 0 && node.uses.seq().len() > 0 {
        Some(Move { destination: node.defines.seq()[0], source: node.uses.seq()[0] })
    } else {
        None
    }
}

/// The moves listed under a temporary.
pub open spec fn moves_of(move_list: Map<u32, OrdSet<Move>>, temp: Temp) -> Set<Move> {
    if move_list.contains_key(temp.num) {
        move_list[temp.num]@
    } else {
        Set::empty()
    }
}

impl InterferenceGraph {
    /// Whether this is the interference graph of `flow` under the liveness
    /// `live_out`: an edge for what each of the first `upto` nodes keeps
    /// apart, each of their moves in the worklist, and under each temporary
    /// the moves of which it is an end.
    pub open spec fn built_from(&self, flow: Graph<flow::Node>, live_out: Seq<Set<Temp>>, upto: int) -> bool {
        &&& self.graph.wf()
        &&& forall|first: Temp, second: Temp| #[trigger]
            has_edge(self.graph, first, second) <==> exists|node: int|
                0 <= node < upto && #[trigger] node_interferes(
                    flow.element(node),
                    live_out[node],
                    first,
                    second,
                )
        &&& forall|mov: Move| #[trigger]
            self.worklist_moves@.contains(mov) <==> exists|node: int|
                0 <= node < upto && #[trigger] move_of(flow.element(node)) == Some(mov)
        &&& forall|temp: Temp, mov: Move| #[trigger]
            moves_of(self.move_list@, temp).contains(mov) <==> exists|node: int|
                0 <= node < upto && #[trigger] move_of(flow.element(node)) == Some(mov) && (temp
                    == mov.destination || temp == mov.source)
    }

    /// The nodes of the graph.
    pub fn nodes(&self) -> (nodes: &Vec<graph::Node<Temp>>)
        ensures
            *nodes == self.graph.nodes,
    {
        self.graph.nodes()
    }
}

/// Adds a node for `define` and an edge from it to a new node for each
/// temporary of `live` but `skip`.
fn add_edges(graph: &mut Graph<Temp>, define: Temp, live: &OrdSet<Temp>, skip: Option<Temp>)
    requires
        old(graph).wf(),
    ensures
        final(graph).wf(),
        forall|first: Temp, second: Temp| #[trigger]
            has_edge(*final(graph), first, second) <==> has_edge(*old(graph), first, second) || (
            first == define && live@.contains(second) && skip != Some(second)),
{
    let ghost start = *graph;
    let define_node = graph.insert(define);
    assert forall|first: Temp, second: Temp| #[trigger]
        has_edge(*graph, first, second) <==> has_edge(start, first, second) by {
        lemma_has_edge_after_insert(start, *graph, first, second);
    }
    let mut index: usize = 0;
    proof {
        live.lemma_finite();
    }
    while index < live.len()
        invariant
            index <= live.seq().len(),
            graph.wf(),
            define_node.0 < graph.size(),
            graph.element(define_node.0 as int) == define,
            forall|first: Temp, second: Temp| #[trigger]
                has_edge(*graph, first, second) <==> has_edge(start, first, second) || (first
                    == define && live.seq().subrange(0, index as int).contains(second) && skip
                    != Some(second)),
        decreases live.seq().len() - index,
    {
        let temp = live.get(index);
        let ghost before = *graph;
        let skipped = match skip {
            Some(other) => other.num == temp.num,
            None => false,
        };
        if !skipped {
            let temp_node = graph.insert(temp);
            let ghost inserted = *graph;
            graph.link(define_node, temp_node);
            proof {
                assert forall|first: Temp, second: Temp| #[trigger]
                    has_edge(*graph, first, second) <==> has_edge(before, first, second) || (first
                        == define && second == temp) by {
                    lemma_has_edge_after_insert(before, inserted, first, second);
                    lemma_has_edge_after_link(
                        inserted,
                        *graph,
                        define_node,
                        temp_node,
                        first,
                        second,
                    );
                }
            }
        }
        proof {
            let shorter = live.seq().subrange(0, index as int);
            let longer = live.seq().subrange(0, index + 1);
            assert(longer =~= shorter.push(temp));
            assert forall|second: Temp| longer.contains(second) <==> shorter.contains(second)
                || second == temp by {
                crate::flow::lemma_push_contains(shorter, temp, second);
            }
        }
        index = index + 1;
    }
    proof {
        assert(live.seq().subrange(0, index as int) =~= live.seq());
        use_type_invariant(live);
        live.lemma_seq();
        assert forall|second: Temp| live.seq().contains(second) <==> live@.contains(second) by {}
    }
}

/// A new node without edges leaves the edges as they are.
pub proof fn lemma_has_edge_after_insert(
    before: Graph<Temp>,
    after: Graph<Temp>,
    first: Temp,
    second: Temp,
)
    requires
        before.wf(),
        after.size() == before.size() + 1,
        forall|i: int| 0 <= i < before.size() ==> after.nodes@[i] == before.nodes@[i],
        after.successors_of(before.size() as int) == Seq::<Entry>::empty(),
    ensures
        has_edge(after, first, second) <==> has_edge(before, first, second),
{
    if has_edge(after, first, second) {
        let (n, m) = choose|n: int, m: int|
            0 <= n < after.size() && 0 <= m < after.successors_of(n).len() && after.element(n)
                == first && after.element((#[trigger] after.successors_of(n)[m]).0 as int)
                == second;
        assert(n < before.size());
        assert(before.nodes@[n].successors@[m].0 < before.nodes@.len());
        assert(before.element((before.successors_of(n)[m]).0 as int) == second);
    }
    if has_edge(before, first, second) {
        let (n, m) = choose|n: int, m: int|
            0 <= n < before.size() && 0 <= m < before.successors_of(n).len() && before.element(n)
                == first && before.element((#[trigger] before.successors_of(n)[m]).0 as int)
                == second;
        assert(before.nodes@[n].successors@[m].0 < before.nodes@.len());
        assert(after.element((after.successors_of(n)[m]).0 as int) == second);
    }
}

/// A new edge between two nodes adds the edge between their temporaries
/// and no other.
pub proof fn lemma_has_edge_after_link(
    before: Graph<Temp>,
    after: Graph<Temp>,
    from: Entry,
    to: Entry,
    first: Temp,
    second: Temp,
)
    requires
        before.wf(),
        from.0 < before.size(),
        to.0 < before.size(),
        after.size() == before.size(),
        forall|i: int| 0 <= i < before.size() ==> after.element(i) == before.element(i),
        forall|i: int|
            0 <= i < before.size() ==> #[trigger] after.successors_of(i) == if i == from.0 {
                before.successors_of(i).push(to)
            } else {
                before.successors_of(i)
            },
    ensures
        has_edge(after, first, second) <==> has_edge(before, first, second) || (first
            == before.element(from.0 as int) && second == before.element(to.0 as int)),
{
    if has_edge(after, first, second) {
        let (n, m) = choose|n: int, m: int|
            0 <= n < after.size() && 0 <= m < after.successors_of(n).len() && after.element(n)
                == first && after.element((#[trigger] after.successors_of(n)[m]).0 as int)
                == second;
        if n == from.0 && m == before.successors_of(n).len() {
        } else {
            assert(before.successors_of(n)[m] == after.successors_of(n)[m]);
            assert(before.nodes@[n].successors@[m].0 < before.nodes@.len());
            assert(before.element((before.successors_of(n)[m]).0 as int) == second);
        }
    }
    if has_edge(before, first, second) {
        let (n, m) = choose|n: int, m: int|
            0 <= n < before.size() && 0 <= m < before.successors_of(n).len() && before.element(n)
                == first && before.element((#[trigger] before.successors_of(n)[m]).0 as int)
                == second;
        assert(after.successors_of(n)[m] == before.successors_of(n)[m]);
        assert(before.nodes@[n].successors@[m].0 < before.nodes@.len());
        assert(after.element((after.successors_of(n)[m]).0 as int) == second);
    }
    if first == before.element(from.0 as int) && second == before.element(to.0 as int) {
        let m = before.successors_of(from.0 as int).len() as int;
        assert(after.successors_of(from.0 as int)[m] == to);
        assert(after.element((after.successors_of(from.0 as int)[m]).0 as int) == second);
    }
}

/// Lists `mov` under `temp`.
fn list_move(move_list: &mut HashMap<u32, OrdSet<Move>>, temp: Temp, mov: Move)
    ensures
        forall|other: Temp, any: Move| #[trigger]
            moves_of(final(move_list)@, other).contains(any) <==> moves_of(
                old(move_list)@,
                other,
            ).contains(any) || (other == temp && any == mov),
{
    let mut moves = match move_list.remove(&temp.num) {
        Some(moves) => moves,
        None => OrdSet::new(),
    };
    moves.insert(mov);
    move_list.insert(temp.num, moves);
    assert forall|other: Temp, any: Move| #[trigger]
        moves_of(move_list@, other).contains(any) <==> moves_of(old(move_list)@, other).contains(
            any,
        ) || (other == temp && any == mov) by {
        if other.num == temp.num {
            assert(other == temp);
        }
    }
}

/// The temporaries that may not share a register, and the moves between
/// temporaries, of a flow graph.
pub fn interference_graph(graph: FlowGraph) -> (result: InterferenceGraph)
    requires
        graph.control_flow_graph.wf(),
    ensures
        exists|live_in: Seq<Set<Temp>>, live_out: Seq<Set<Temp>>|
            is_liveness(graph.control_flow_graph, live_in, live_out) && #[trigger] result.built_from(
                graph.control_flow_graph,
                live_out,
                live_in.len() as int,
            ),
{
    let live = liveness(&graph);
    let ghost flow = graph.control_flow_graph;
    let ghost live_out = set_views(live.live_out@);
    let nodes = graph.nodes();
    let mut result = InterferenceGraph {
        graph: Graph::new(),
        move_list: HashMap::new(),
        worklist_moves: OrdSet::new(),
    };
    let mut index: usize = 0;
    while index < nodes.len()
        invariant
            index <= nodes@.len(),
            flow == graph.control_flow_graph,
            *nodes == flow.nodes,
            live_out == set_views(live.live_out@),
            live.live_out@.len() == flow.size(),
            result.built_from(flow, live_out, index as int),
        decreases nodes@.len() - index,
    {
        let node = nodes[index].get();
        let ghost before = result;
        proof {
            use_type_invariant(&node.uses);
            use_type_invariant(&node.defines);
            node.uses.lemma_seq();
            node.defines.lemma_seq();
        }
        let skip = if node.is_move && node.uses.len() == 1 {
            Some(node.uses.get(0))
        } else {
            None
        };
        assert(skip == move_source(*node));
        let mut position: usize = 0;
        while position < node.defines.len()
            invariant
                position <= node.defines.seq().len(),
                node.defines.wf(),
                result.graph.wf(),
                result.move_list == before.move_list,
                result.worklist_moves == before.worklist_moves,
                live.live_out@.len() == flow.size(),
                index < flow.size(),
                live_out == set_views(live.live_out@),
                skip == move_source(*node),
                forall|first: Temp, second: Temp| #[trigger]
                    has_edge(result.graph, first, second) <==> has_edge(before.graph, first, second)
                        || (node.defines.seq().subrange(0, position as int).contains(first)
                        && live_out[index as int].contains(second) && skip != Some(second)),
            decreases node.defines.seq().len() - position,
        {
            let define = node.defines.get(position);
            add_edges(&mut result.graph, define, &live.live_out[index], skip);
            proof {
                let shorter = node.defines.seq().subrange(0, position as int);
                let longer = node.defines.seq().subrange(0, position + 1);
                assert(longer =~= shorter.push(define));
                assert forall|first: Temp| longer.contains(first) <==> shorter.contains(first)
                    || first == define by {
                    crate::flow::lemma_push_contains(shorter, define, first);
                }
            }
            position = position + 1;
        }
        proof {
            assert(node.defines.seq().subrange(0, position as int) =~= node.defines.seq());
            assert forall|first: Temp|
                node.defines.seq().contains(first) <==> node.defines@.contains(first) by {}
        }
        if node.is_move && node.defines.len() > 0 && node.uses.len() > 0 {
            let mov = Move { destination: node.defines.get(0), source: node.uses.get(0) };
            result.worklist_moves.insert(mov);
            list_move(&mut result.move_list, mov.destination, mov);
            list_move(&mut result.move_list, mov.source, mov);
        }
        proof {
            assert(*node == flow.element(index as int));
            assert forall|first: Temp, second: Temp| #[trigger]
                has_edge(result.graph, first, second) <==> exists|k: int|
                    0 <= k < index + 1 && #[trigger] node_interferes(
                        flow.element(k),
                        live_out[k],
                        first,
                        second,
                    ) by {
                if has_edge(before.graph, first, second) {
                    let k = choose|k: int|
                        0 <= k < index && #[trigger] node_interferes(
                            flow.element(k),
                            live_out[k],
                            first,
                            second,
                        );
                    assert(node_interferes(flow.element(k), live_out[k], first, second));
                }
                if node_interferes(*node, live_out[index as int], first, second) {
                    assert(node_interferes(
                        flow.element(index as int),
                        live_out[index as int],
                        first,
                        second,
                    ));
                }
            }
            assert forall|mov: Move| #[trigger]
                result.worklist_moves@.contains(mov) <==> exists|k: int|
                    0 <= k < index + 1 && #[trigger] move_of(flow.element(k)) == Some(mov) by {
                if before.worklist_moves@.contains(mov) {
                    let k = choose|k: int|
                        0 <= k < index && #[trigger] move_of(flow.element(k)) == Some(mov);
                    assert(move_of(flow.element(k)) == Some(mov));
                }
                if move_of(*node) == Some(mov) {
                    assert(move_of(flow.element(index as int)) == Some(mov));
                }
            }
            assert forall|temp: Temp, mov: Move| #[trigger]
                moves_of(result.move_list@, temp).contains(mov) <==> exists|k: int|
                    0 <= k < index + 1 && #[trigger] move_of(flow.element(k)) == Some(mov) && (temp
                        == mov.destination || temp == mov.source) by {
                if moves_of(before.move_list@, temp).contains(mov) {
                    let k = choose|k: int|
                        0 <= k < index && #[trigger] move_of(flow.element(k)) == Some(mov) && (temp
                            == mov.destination || temp == mov.source);
                    assert(move_of(flow.element(k)) == Some(mov));
                }
                if move_of(*node) == Some(mov) && (temp == mov.destination || temp == mov.source) {
                    assert(move_of(flow.element(index as int)) == Some(mov));
                }
            }
        }
        index = index + 1;
    }
    proof {
        assert(is_liveness(flow, set_views(live.live_in@), live_out));
        assert(result.built_from(flow, live_out, set_views(live.live_in@).len() as int));
    }
    result
}

} // verus!
