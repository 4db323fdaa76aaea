//! What becomes of the temporaries that the allocator starts from: each of
//! them stays in one of the worklists, on the stack or among the coalesced
//! nodes, so that in the end each of them has a register, is to be
//! spilled, or stands for a node that is one of the two.

use vstd::prelude::*;
use vstd::relations::injective_on;
use vstd::set_lib::*;
use crate::color::{initial_state, own_colors, State};
use crate::frame::Frame;
use crate::graph;
use crate::ordset::{lemma_ordered_exists, ordered, Edge, Move};
use crate::temp::Temp;

verus! {

/// The moves that may still be coalesced.
pub open spec fn pending(state: State) -> Set<Move> {
    state.active_moves.union(state.worklist_moves)
}

/// Whether `temp` is in one of the three worklists of nodes.
pub open spec fn waiting(state: State, temp: Temp) -> bool {
    state.simplify_worklist.contains(temp) || state.freeze_worklist.contains(temp)
        || state.spill_worklist.contains(temp)
}

/// Whether the allocator knows what to do with `temp`: it is pre-coloured,
/// in a worklist, on the stack, or coalesced.
pub open spec fn known(state: State, temp: Temp) -> bool {
    state.precolored.contains(temp) || waiting(state, temp) || state.select_stack.contains(temp)
        || state.coalesced_nodes.contains(temp)
}

/// Whether `after` knows every temporary that `before` knows, has no move
/// pending that was not pending, and has every coalesced node of `before`
/// with the alias it had.
pub open spec fn carries(after: State, before: State) -> bool {
    &&& after.precolored == before.precolored
    &&& after.registers == before.registers
    &&& after.register_count == before.register_count
    &&& after.colored_nodes == before.colored_nodes
    &&& after.spill_nodes == before.spill_nodes
    &&& forall|temp: Temp| #[trigger] known(before, temp) ==> known(after, temp)
    &&& pending(after).subset_of(pending(before))
    &&& before.coalesced_nodes.subset_of(after.coalesced_nodes)
    &&& forall|node: Temp|
        before.coalesced_nodes.contains(node) ==> #[trigger] after.alias[node.num]
            == before.alias[node.num]
}

/// Whether `after` has the worklists of nodes, the stack and the coalesced
/// nodes of `before`, and the same moves pending.
pub open spec fn leaves_nodes(after: State, before: State) -> bool {
    &&& after.same_nodes(before)
    &&& after.simplify_worklist == before.simplify_worklist
    &&& after.freeze_worklist == before.freeze_worklist
    &&& after.spill_worklist == before.spill_worklist
    &&& pending(after) == pending(before)
}

/// Carrying goes on through a second step.
pub proof fn lemma_carries_twice(last: State, middle: State, first: State)
    requires
        carries(middle, first),
        carries(last, middle),
    ensures
        carries(last, first),
{
    assert forall|temp: Temp| #[trigger] known(first, temp) implies known(last, temp) by {
        assert(known(middle, temp));
    }
    assert forall|node: Temp| first.coalesced_nodes.contains(node) implies #[trigger] last.alias[node.num]
        == first.alias[node.num] by {
        assert(middle.coalesced_nodes.contains(node));
        assert(middle.alias[node.num] == first.alias[node.num]);
    }
}

impl State {
    /// Lowering a degree carries everything.
    pub proof fn lemma_decrement_degree_carries(self, temp: Temp)
        requires
            self.wf(),
        ensures
            carries(self.decrement_degree(temp), self),
            self.decrement_degree(temp).wf(),
    {
        self.lemma_decrement_degree(temp);
        let degree = self.degree_of(temp);
        let lowered = State {
            degree: self.degree.insert(
                temp.num,
                if degree > 0 {
                    (degree - 1) as nat
                } else {
                    0
                },
            ),
            ..self
        };
        assert(lowered.degree.dom() =~= Set::<u32>::full());
        assert(lowered.wf());
        if degree == self.register_count {
            lowered.lemma_enable_moves(ordered(lowered.adjacent(temp).insert(temp)));
        }
        let after = self.decrement_degree(temp);
        assert forall|other: Temp| #[trigger] known(self, other) implies known(after, other) by {}
    }

    /// Lowering degrees carries everything.
    pub proof fn lemma_decrement_all_carries(self, nodes: Seq<Temp>)
        requires
            self.wf(),
        ensures
            carries(self.decrement_all(nodes), self),
            self.decrement_all(nodes).wf(),
        decreases nodes.len(),
    {
        if nodes.len() > 0 {
            self.lemma_decrement_all_carries(nodes.drop_last());
            let before = self.decrement_all(nodes.drop_last());
            before.lemma_decrement_degree_carries(nodes.last());
            lemma_carries_twice(self.decrement_all(nodes), before, self);
        }
    }

    /// Simplifying carries everything.
    pub proof fn lemma_simplify_carries(self)
        requires
            self.wf(),
            self.simplify_worklist != Set::<Temp>::empty(),
        ensures
            carries(self.simplify(), self),
    {
        let temp = ordered(self.simplify_worklist)[0];
        let pushed = State {
            simplify_worklist: self.simplify_worklist.remove(temp),
            select_stack: self.select_stack.push(temp),
            ..self
        };
        assert(pushed.wf());
        assert forall|other: Temp| #[trigger] known(self, other) implies known(pushed, other) by {
            if self.select_stack.contains(other) {
                let i = choose|i: int| 0 <= i < self.select_stack.len() && self.select_stack[i] == other;
                assert(pushed.select_stack[i] == other);
            }
            if other == temp {
                assert(pushed.select_stack[self.select_stack.len() as int] == temp);
            }
        }
        assert(carries(pushed, self));
        pushed.lemma_decrement_all_carries(ordered(pushed.adjacent(temp)));
        lemma_carries_twice(self.simplify(), pushed, self);
    }

    /// Moving a node to the simplify worklist carries everything.
    pub proof fn lemma_add_worklist_carries(self, u: Temp)
        ensures
            carries(self.add_worklist(u), self),
    {
        let after = self.add_worklist(u);
        assert forall|other: Temp| #[trigger] known(self, other) implies known(after, other) by {}
    }

    /// Freezing a move carries everything.
    pub proof fn lemma_freeze_move_carries(self, u: Temp, mov: Move)
        ensures
            carries(self.freeze_move(u, mov), self),
    {
        let after = self.freeze_move(u, mov);
        assert forall|other: Temp| #[trigger] known(self, other) implies known(after, other) by {}
    }

    /// Freezing moves carries everything.
    pub proof fn lemma_freeze_list_carries(self, u: Temp, moves: Seq<Move>)
        ensures
            carries(self.freeze_list(u, moves), self),
        decreases moves.len(),
    {
        if moves.len() > 0 {
            self.lemma_freeze_list_carries(u, moves.drop_last());
            let before = self.freeze_list(u, moves.drop_last());
            before.lemma_freeze_move_carries(u, moves.last());
            lemma_carries_twice(self.freeze_list(u, moves), before, self);
        }
    }

    /// Freezing carries everything.
    pub proof fn lemma_freeze_carries(self)
        ensures
            carries(self.freeze(), self),
    {
        let u = ordered(self.freeze_worklist)[0];
        let moved = State {
            freeze_worklist: self.freeze_worklist.remove(u),
            simplify_worklist: self.simplify_worklist.insert(u),
            ..self
        };
        assert forall|other: Temp| #[trigger] known(self, other) implies known(moved, other) by {}
        moved.lemma_freeze_list_carries(u, ordered(moved.node_moves(u)));
        lemma_carries_twice(self.freeze(), moved, self);
    }

    /// Choosing a node to spill carries everything.
    pub proof fn lemma_select_spill_carries(self)
        ensures
            carries(self.select_spill(), self),
    {
        let temp = self.highest_degree(ordered(self.spill_worklist));
        let moved = State {
            spill_worklist: self.spill_worklist.remove(temp),
            simplify_worklist: self.simplify_worklist.insert(temp),
            ..self
        };
        assert forall|other: Temp| #[trigger] known(self, other) implies known(moved, other) by {}
        moved.lemma_freeze_list_carries(temp, ordered(moved.node_moves(temp)));
        lemma_carries_twice(self.select_spill(), moved, self);
    }

    /// Merging neighbours carries everything.
    pub proof fn lemma_merge_neighbors_carries(self, u: Temp, nodes: Seq<Temp>)
        requires
            self.wf(),
        ensures
            carries(self.merge_neighbors(u, nodes), self),
            self.merge_neighbors(u, nodes).wf(),
        decreases nodes.len(),
    {
        if nodes.len() > 0 {
            self.lemma_merge_neighbors_carries(u, nodes.drop_last());
            let before = self.merge_neighbors(u, nodes.drop_last());
            before.lemma_add_edge(nodes.last(), u);
            let joined = before.add_edge(nodes.last(), u);
            assert(leaves_nodes(joined, before));
            joined.lemma_decrement_degree_carries(nodes.last());
            lemma_carries_twice(joined, before, self);
            lemma_carries_twice(self.merge_neighbors(u, nodes), joined, self);
        }
    }

    /// Combining carries everything, and gives the merged node the node
    /// that it went into as alias.
    pub proof fn lemma_combine_carries(self, u: Temp, v: Temp)
        requires
            self.wf(),
            u != v,
            !self.coalesced_nodes.contains(u),
            !self.coalesced_nodes.contains(v),
            self.coalesced_nodes.len() < usize::MAX,
        ensures
            carries(self.combine(u, v), self),
            self.combine(u, v).coalesced_nodes == self.coalesced_nodes.insert(v),
            self.combine(u, v).alias[v.num] == u,
    {
        self.lemma_merge_node(u, v);
        let merged = self.merge_node(u, v);
        assert forall|other: Temp| #[trigger] known(self, other) implies known(merged, other) by {}
        assert forall|node: Temp| self.coalesced_nodes.contains(node) implies #[trigger] merged.alias[node.num]
            == self.alias[node.num] by {
            assert(node.num != v.num);
        }
        assert(carries(merged, self));
        merged.lemma_enable_moves(seq![v]);
        let enabled = merged.enable_moves(seq![v]);
        assert(leaves_nodes(enabled, merged));
        lemma_carries_twice(enabled, merged, self);
        enabled.lemma_merge_neighbors_carries(u, ordered(enabled.adjacent(v)));
        let joined = enabled.merge_neighbors(u, ordered(enabled.adjacent(v)));
        lemma_carries_twice(joined, enabled, self);
        let after = self.combine(u, v);
        assert forall|other: Temp| #[trigger] known(joined, other) implies known(after, other) by {}
        assert(carries(after, joined));
        lemma_carries_twice(after, joined, self);
        self.lemma_combine_nodes(u, v);
        assert(joined.alias[v.num] == merged.alias[v.num]) by {
            assert(merged.coalesced_nodes.contains(v));
            assert(enabled.alias[v.num] == merged.alias[v.num]);
            assert(enabled.coalesced_nodes.contains(v));
        }
    }
}

/// Whether `temp` is one of `universe` or pre-coloured.
pub open spec fn within(state: State, universe: Set<Temp>, temp: Temp) -> bool {
    universe.contains(temp) || state.precolored.contains(temp)
}

/// Fewer temporaries than a machine can count are in a finite set that
/// leaves one out.
pub proof fn lemma_temps_bound(set: Set<Temp>, out: Temp)
    requires
        set.finite(),
        !set.contains(out),
    ensures
        set.len() <= u32::MAX,
{
    let number = |temp: Temp| temp.num as int;
    let numbers = set.map(number);
    assert(injective_on(number, set));
    lemma_map_size(set, numbers, number);
    let others = set_int_range(0, 0x1_0000_0000).remove(out.num as int);
    lemma_int_range(0, 0x1_0000_0000);
    assert(numbers.subset_of(others)) by {
        assert forall|value: int| numbers.contains(value) implies others.contains(value) by {
            let temp = choose|temp: Temp| set.contains(temp) && number(temp) == value;
            assert(temp.num != out.num);
        }
    }
    lemma_len_subset(numbers, others);
}

/// Whether the state stays within the temporaries of `universe`: it knows
/// each of them, the ends of every pending move are among them or
/// pre-coloured, and every coalesced node is one of them, is not
/// pre-coloured, and has such an alias. Some temporary is pre-coloured.
pub open spec fn grounded(state: State, universe: Set<Temp>) -> bool {
    &&& exists|temp: Temp| state.precolored.contains(temp)
    &&& forall|node: Temp| #[trigger]
        state.coalesced_nodes.contains(node) ==> !state.precolored.contains(node)
    &&& forall|temp: Temp| universe.contains(temp) ==> #[trigger] known(state, temp)
    &&& forall|mov: Move| #[trigger]
        pending(state).contains(mov) ==> within(state, universe, mov.destination) && within(
            state,
            universe,
            mov.source,
        )
    &&& forall|node: Temp| #[trigger]
        state.coalesced_nodes.contains(node) ==> universe.contains(node) && within(
            state,
            universe,
            state.alias[node.num],
        )
}

/// What is carried from a state within the universe, with no coalesced
/// node that the state did not have, is within the universe.
pub proof fn lemma_carried_grounded(after: State, before: State, universe: Set<Temp>)
    requires
        carries(after, before),
        grounded(before, universe),
        after.coalesced_nodes == before.coalesced_nodes,
    ensures
        grounded(after, universe),
{
    assert forall|temp: Temp| universe.contains(temp) implies #[trigger] known(after, temp) by {
        assert(known(before, temp));
    }
    assert forall|mov: Move| #[trigger] pending(after).contains(mov) implies within(
        after,
        universe,
        mov.destination,
    ) && within(after, universe, mov.source) by {
        assert(pending(before).contains(mov));
    }
    assert forall|node: Temp| #[trigger] after.coalesced_nodes.contains(node) implies universe.contains(
        node,
    ) && within(after, universe, after.alias[node.num]) by {
        assert(before.coalesced_nodes.contains(node));
        assert(after.alias[node.num] == before.alias[node.num]);
    }
}

impl State {
    /// What stands for a temporary of the universe, or for a pre-coloured
    /// one, is one of the universe or pre-coloured.
    pub proof fn lemma_alias_grounded(self, universe: Set<Temp>, node: Temp)
        requires
            self.alias_ok(),
            grounded(self, universe),
            within(self, universe, node),
        ensures
            within(self, universe, self.get_alias(node)),
        decreases self.height(node),
    {
        if self.coalesced_nodes.contains(node) {
            self.lemma_alias_grounded(universe, self.alias[node.num]);
        }
    }

    /// States with the same coalesced nodes and aliases have the same node
    /// stand for each node.
    pub proof fn lemma_same_alias(self, other: State, node: Temp)
        requires
            self.alias_ok(),
            other.coalesced_nodes == self.coalesced_nodes,
            other.alias == self.alias,
            other.rank == self.rank,
        ensures
            other.get_alias(node) == self.get_alias(node),
        decreases self.height(node),
    {
        if self.coalesced_nodes.contains(node) {
            self.lemma_same_alias(other, self.alias[node.num]);
        }
    }

    /// Looking at a move keeps the state within the universe.
    pub proof fn lemma_coalesce_grounded(self, universe: Set<Temp>)
        requires
            self.wf(),
            grounded(self, universe),
            self.worklist_moves != Set::<Move>::empty(),
        ensures
            grounded(self.coalesce(), universe),
            carries(self.coalesce(), self),
            self.coalesce().coalesced_nodes.len() <= usize::MAX,
    {
        lemma_ordered_exists(self.worklist_moves);
        assert(self.worklist_moves.len() > 0) by {
            if self.worklist_moves.len() == 0 {
                assert(self.worklist_moves =~= Set::<Move>::empty());
            }
        }
        let mov = ordered(self.worklist_moves)[0];
        assert(pending(self).contains(mov));
        let popped = State { worklist_moves: self.worklist_moves.remove(mov), ..self };
        assert(popped.wf());
        assert(carries(popped, self));
        lemma_carried_grounded(popped, self, universe);
        let u = popped.target(mov);
        let v = popped.merged(mov);
        popped.lemma_alias_not_coalesced(mov.source);
        popped.lemma_alias_not_coalesced(mov.destination);
        popped.lemma_alias_grounded(universe, mov.source);
        popped.lemma_alias_grounded(universe, mov.destination);
        let after = self.coalesce();
        let fixed = choose|temp: Temp| self.precolored.contains(temp);
        lemma_temps_bound(self.coalesced_nodes, fixed);
        if u == v {
            let marked = State { coalesced_moves: popped.coalesced_moves.insert(mov), ..popped };
            assert(carries(marked, popped));
            marked.lemma_add_worklist_carries(u);
            lemma_carries_twice(after, marked, popped);
            lemma_carries_twice(after, popped, self);
            lemma_carried_grounded(after, self, universe);
        } else if popped.precolored.contains(v) || popped.edges.contains(
            Edge { first: u, second: v },
        ) {
            let marked = State { constrained_moves: popped.constrained_moves.insert(mov), ..popped };
            assert(carries(marked, popped));
            marked.lemma_add_worklist_carries(u);
            marked.add_worklist(u).lemma_add_worklist_carries(v);
            lemma_carries_twice(marked.add_worklist(u), marked, popped);
            lemma_carries_twice(after, marked.add_worklist(u), popped);
            lemma_carries_twice(after, popped, self);
            lemma_carried_grounded(after, self, universe);
        } else if popped.may_combine(u, v) {
            let marked = State { coalesced_moves: popped.coalesced_moves.insert(mov), ..popped };
            assert(marked.wf());
            assert(carries(marked, popped));
            marked.lemma_combine_nodes(u, v);
            let combined = marked.combine(u, v);
            combined.lemma_add_worklist_carries(u);
            assert(after.coalesced_nodes == combined.coalesced_nodes);
            assert(universe.contains(v));
            lemma_temps_bound(self.coalesced_nodes.insert(v), fixed);
            assert(marked.coalesced_nodes.len() < usize::MAX);
            marked.lemma_combine_carries(u, v);
            lemma_carries_twice(combined, marked, popped);
            lemma_carries_twice(after, combined, popped);
            lemma_carries_twice(after, popped, self);
            assert(after.alias[v.num] == u) by {
                assert(combined.coalesced_nodes.contains(v));
            }
            assert forall|temp: Temp| universe.contains(temp) implies #[trigger] known(
                after,
                temp,
            ) by {
                assert(known(self, temp));
            }
            assert forall|other: Move| #[trigger] pending(after).contains(other) implies within(
                after,
                universe,
                other.destination,
            ) && within(after, universe, other.source) by {
                assert(pending(self).contains(other));
            }
            assert forall|node: Temp| #[trigger] after.coalesced_nodes.contains(node) implies universe.contains(
                node,
            ) && within(after, universe, after.alias[node.num]) by {
                if self.coalesced_nodes.contains(node) {
                    assert(after.alias[node.num] == self.alias[node.num]);
                } else {
                    assert(node == v);
                }
            }
        } else {
            let aside = State { active_moves: popped.active_moves.insert(mov), ..popped };
            assert(pending(aside).subset_of(pending(self)));
            assert forall|temp: Temp| #[trigger] known(self, temp) implies known(aside, temp) by {}
            assert(carries(aside, self));
            lemma_carried_grounded(after, self, universe);
        }
    }

    /// A step keeps the state well formed and within the universe.
    pub proof fn lemma_step_grounded(self, universe: Set<Temp>)
        requires
            self.wf(),
            grounded(self, universe),
        ensures
            self.step().wf(),
            grounded(self.step(), universe),
            carries(self.step(), self),
    {
        if self.simplify_worklist != Set::<Temp>::empty() {
            self.lemma_simplify_carries();
            self.lemma_simplify();
            lemma_carried_grounded(self.step(), self, universe);
        } else if self.worklist_moves != Set::<Move>::empty() {
            self.lemma_coalesce_grounded(universe);
            self.lemma_coalesce();
        } else if self.freeze_worklist != Set::<Temp>::empty() {
            self.lemma_freeze_carries();
            self.lemma_freeze();
            lemma_carried_grounded(self.step(), self, universe);
        } else if self.spill_worklist != Set::<Temp>::empty() {
            self.lemma_select_spill_carries();
            self.lemma_select_spill();
            lemma_carried_grounded(self.step(), self, universe);
        } else {
        }
    }

    /// Any number of steps keep the state well formed and within the
    /// universe.
    pub proof fn lemma_run_grounded(self, count: nat, universe: Set<Temp>)
        requires
            self.wf(),
            grounded(self, universe),
        ensures
            self.run(count).wf(),
            grounded(self.run(count), universe),
            carries(self.run(count), self),
        decreases count,
    {
        if count > 0 {
            self.lemma_run_grounded((count - 1) as nat, universe);
            let before = self.run((count - 1) as nat);
            before.lemma_step_grounded(universe);
            lemma_carries_twice(self.run(count), before, self);
        }
    }

    /// Filling the worklists puts each of `initial` that is not
    /// pre-coloured in one of them, and moves nothing else.
    pub proof fn lemma_make_worklist_known(self, initial: Seq<Temp>)
        ensures
            carries(self.make_worklist(initial), self),
            pending(self.make_worklist(initial)) == pending(self),
            self.make_worklist(initial).coalesced_nodes == self.coalesced_nodes,
            forall|i: int|
                0 <= i < initial.len() ==> waiting(self.make_worklist(initial), #[trigger] initial[i]),
        decreases initial.len(),
    {
        if initial.len() > 0 {
            self.lemma_make_worklist_known(initial.drop_last());
            let before = self.make_worklist(initial.drop_last());
            let after = self.make_worklist(initial);
            assert forall|temp: Temp| #[trigger] known(before, temp) implies known(after, temp) by {}
            assert(carries(after, before));
            lemma_carries_twice(after, before, self);
            assert forall|i: int| 0 <= i < initial.len() implies waiting(after, #[trigger] initial[i]) by {
                if i < initial.len() - 1 {
                    assert(initial.drop_last()[i] == initial[i]);
                    assert(waiting(before, initial[i]));
                }
            }
        }
    }
}

/// Whether `temp` is among `spills` at `from` or later.
pub open spec fn spilled_from(spills: Seq<Temp>, from: int, temp: Temp) -> bool {
    exists|j: int| from <= j < spills.len() && #[trigger] spills[j] == temp
}

/// Whether every colour of `colors` is one of `machine`.
pub open spec fn machine_valued(colors: Map<u32, Temp>, machine: Set<Temp>) -> bool {
    forall|key: u32| #[trigger] colors.contains_key(key) ==> machine.contains(colors[key])
}

/// Whether `after` has a colour for every temporary for which `before` has
/// one.
pub open spec fn keeps_keys(after: Map<u32, Temp>, before: Map<u32, Temp>) -> bool {
    forall|key: u32| #[trigger] before.contains_key(key) ==> after.contains_key(key)
}

/// Giving temporaries of the machine their own colours keeps every colour
/// one of the machine, and gives each of them a colour.
pub proof fn lemma_own_colors(colors: Map<u32, Temp>, nodes: Seq<Temp>, machine: Set<Temp>)
    requires
        machine_valued(colors, machine),
        forall|i: int| 0 <= i < nodes.len() ==> machine.contains(#[trigger] nodes[i]),
    ensures
        machine_valued(own_colors(colors, nodes), machine),
        keeps_keys(own_colors(colors, nodes), colors),
        forall|i: int|
            0 <= i < nodes.len() ==> own_colors(colors, nodes).contains_key(#[trigger] nodes[i].num),
    decreases nodes.len(),
{
    if nodes.len() > 0 {
        lemma_own_colors(colors, nodes.drop_last(), machine);
        let before = own_colors(colors, nodes.drop_last());
        assert forall|i: int| 0 <= i < nodes.len() implies own_colors(colors, nodes).contains_key(
            #[trigger] nodes[i].num,
        ) by {
            if i < nodes.len() - 1 {
                assert(nodes.drop_last()[i] == nodes[i]);
            }
        }
        assert forall|i: int| 0 <= i < nodes.len() - 1 implies machine.contains(
            #[trigger] nodes.drop_last()[i],
        ) by {
            assert(nodes.drop_last()[i] == nodes[i]);
        }
    }
}

impl State {
    /// Only colours that were free are left.
    pub proof fn lemma_free_within(
        self,
        colors: Map<u32, Temp>,
        free: Set<Temp>,
        neighbors: Seq<Temp>,
    )
        ensures
            self.free_colors(colors, free, neighbors).subset_of(free),
        decreases neighbors.len(),
    {
        if neighbors.len() > 0 {
            self.lemma_free_within(colors, free, neighbors.drop_last());
        }
    }

    /// Colouring the stack keeps every colour one of the machine and every
    /// temporary that had a colour with one, puts no node among the nodes
    /// to spill without making their list longer, and leaves each node of
    /// the stack with a colour or among the nodes to spill.
    pub proof fn lemma_paint_stack(self, colors: Map<u32, Temp>, machine: Set<Temp>)
        requires
            machine_valued(colors, machine),
            forall|i: int| 0 <= i < self.registers.len() ==> machine.contains(#[trigger] self.registers[i]),
        ensures
            ({
                let painted = self.paint_stack(colors);
                &&& machine_valued(painted.colors, machine)
                &&& keeps_keys(painted.colors, colors)
                &&& painted.state.coalesced_nodes == self.coalesced_nodes
                &&& painted.state.alias == self.alias
                &&& painted.state.rank == self.rank
                &&& painted.state.precolored == self.precolored
                &&& painted.state.spill_nodes.len() >= self.spill_nodes.len()
                &&& forall|i: int|
                    0 <= i < self.spill_nodes.len() ==> #[trigger] painted.state.spill_nodes[i]
                        == self.spill_nodes[i]
                &&& forall|temp: Temp| #[trigger]
                    self.colored_nodes.contains(temp) ==> painted.state.colored_nodes.contains(temp)
                &&& self.colored_nodes.finite() ==> painted.state.colored_nodes.finite()
                &&& forall|i: int|
                    0 <= i < self.select_stack.len() ==> {
                        ||| spilled_from(
                            painted.state.spill_nodes,
                            self.spill_nodes.len() as int,
                            #[trigger] self.select_stack[i],
                        )
                        ||| painted.colors.contains_key(self.select_stack[i].num)
                            && painted.state.colored_nodes.contains(self.select_stack[i])
                    }
            }),
        decreases self.select_stack.len(),
    {
        if self.select_stack.len() > 0 {
            let temp = self.select_stack.last();
            let popped = State { select_stack: self.select_stack.drop_last(), ..self };
            let free = self.colors_for_top(colors);
            let top = self.paint_top(colors);
            popped.lemma_free_within(
                colors,
                self.registers.to_set(),
                ordered(self.adjacency[temp.num]),
            );
            if free != Set::<Temp>::empty() {
                vstd::seq_lib::seq_to_set_is_finite(self.registers);
                lemma_len_subset(free, self.registers.to_set());
                lemma_ordered_exists(free);
                assert(free.len() > 0) by {
                    if free.len() == 0 {
                        assert(free =~= Set::<Temp>::empty());
                    }
                }
                let colour = ordered(free)[0];
                assert(self.registers.to_set().contains(colour));
                assert(machine.contains(colour));
                assert(machine_valued(top.colors, machine));
            }
            top.state.lemma_paint_stack(top.colors, machine);
            let painted = self.paint_stack(colors);
            assert(keeps_keys(painted.colors, colors)) by {
                assert forall|key: u32| #[trigger] colors.contains_key(key) implies painted.colors.contains_key(
                    key,
                ) by {
                    assert(top.colors.contains_key(key));
                }
            }
            assert forall|i: int| 0 <= i < self.spill_nodes.len() implies #[trigger] painted.state.spill_nodes[i]
                == self.spill_nodes[i] by {
                assert(top.state.spill_nodes[i] == self.spill_nodes[i]);
            }
            assert forall|other: Temp| #[trigger] self.colored_nodes.contains(other) implies painted.state.colored_nodes.contains(
                other,
            ) by {
                assert(top.state.colored_nodes.contains(other));
            }
            assert forall|i: int| 0 <= i < self.select_stack.len() implies {
                ||| spilled_from(
                    painted.state.spill_nodes,
                    self.spill_nodes.len() as int,
                    #[trigger] self.select_stack[i],
                )
                ||| painted.colors.contains_key(self.select_stack[i].num)
                    && painted.state.colored_nodes.contains(self.select_stack[i])
            } by {
                if i < self.select_stack.len() - 1 {
                    assert(top.state.select_stack[i] == self.select_stack[i]);
                    if spilled_from(
                        painted.state.spill_nodes,
                        top.state.spill_nodes.len() as int,
                        self.select_stack[i],
                    ) {
                        let j = choose|j: int|
                            top.state.spill_nodes.len() <= j < painted.state.spill_nodes.len()
                                && #[trigger] painted.state.spill_nodes[j] == self.select_stack[i];
                        assert(self.spill_nodes.len() <= j);
                    }
                } else if free != Set::<Temp>::empty() {
                    assert(top.colors.contains_key(temp.num));
                    assert(top.state.colored_nodes.contains(temp));
                } else {
                    let last = self.spill_nodes.len() as int;
                    assert(top.state.spill_nodes[last] == temp);
                    assert(painted.state.spill_nodes[last] == temp);
                }
            }
        }
    }

    /// Colouring the coalesced nodes keeps every colour one of the machine
    /// and every temporary that had a colour with one, and gives a colour
    /// to each node that stands for a temporary that had one.
    pub proof fn lemma_paint_coalesced(self, colors: Map<u32, Temp>, nodes: Seq<Temp>, machine: Set<Temp>)
        requires
            machine_valued(colors, machine),
        ensures
            machine_valued(self.paint_coalesced(colors, nodes), machine),
            keeps_keys(self.paint_coalesced(colors, nodes), colors),
            forall|i: int|
                0 <= i < nodes.len() && colors.contains_key(self.get_alias(#[trigger] nodes[i]).num)
                    ==> self.paint_coalesced(colors, nodes).contains_key(nodes[i].num),
        decreases nodes.len(),
    {
        if nodes.len() > 0 {
            self.lemma_paint_coalesced(colors, nodes.drop_last(), machine);
            let before = self.paint_coalesced(colors, nodes.drop_last());
            let after = self.paint_coalesced(colors, nodes);
            let alias = self.get_alias(nodes.last());
            assert forall|i: int|
                0 <= i < nodes.len() && colors.contains_key(
                    self.get_alias(#[trigger] nodes[i]).num,
                ) implies after.contains_key(nodes[i].num) by {
                if i < nodes.len() - 1 {
                    assert(nodes.drop_last()[i] == nodes[i]);
                } else {
                    assert(before.contains_key(alias.num));
                }
            }
        }
    }

    /// Colouring the coalesced nodes changes the colour of no other
    /// temporary.
    pub proof fn lemma_paint_coalesced_keeps(self, colors: Map<u32, Temp>, nodes: Seq<Temp>, other: Temp)
        requires
            !nodes.contains(other),
        ensures
            self.paint_coalesced(colors, nodes).contains_key(other.num) == colors.contains_key(
                other.num,
            ),
            colors.contains_key(other.num) ==> self.paint_coalesced(colors, nodes)[other.num]
                == colors[other.num],
        decreases nodes.len(),
    {
        if nodes.len() > 0 {
            assert(!nodes.drop_last().contains(other)) by {
                if nodes.drop_last().contains(other) {
                    let i = choose|i: int| 0 <= i < nodes.len() - 1 && nodes.drop_last()[i] == other;
                    assert(nodes[i] == other);
                }
            }
            self.lemma_paint_coalesced_keeps(colors, nodes.drop_last(), other);
            assert(nodes[nodes.len() - 1] != other);
        }
    }

    /// Each coalesced node takes the colour of the node that stands for
    /// it, where that has one.
    pub proof fn lemma_paint_coalesced_shares(self, colors: Map<u32, Temp>, nodes: Seq<Temp>, index: int)
        requires
            self.alias_ok(),
            nodes.no_duplicates(),
            0 <= index < nodes.len(),
            forall|i: int| 0 <= i < nodes.len() ==> self.coalesced_nodes.contains(#[trigger] nodes[i]),
            colors.contains_key(self.get_alias(nodes[index]).num),
        ensures
            ({
                let alias = self.get_alias(nodes[index]);
                let after = self.paint_coalesced(colors, nodes);
                &&& after.contains_key(nodes[index].num)
                &&& after.contains_key(alias.num)
                &&& after[nodes[index].num] == colors[alias.num]
                &&& after[alias.num] == colors[alias.num]
            }),
        decreases nodes.len(),
    {
        let shorter = nodes.drop_last();
        let alias = self.get_alias(nodes[index]);
        self.lemma_alias_not_coalesced(nodes[index]);
        assert(!nodes.contains(alias)) by {
            if nodes.contains(alias) {
                let i = choose|i: int| 0 <= i < nodes.len() && nodes[i] == alias;
                assert(self.coalesced_nodes.contains(nodes[i]));
            }
        }
        self.lemma_paint_coalesced_keeps(colors, nodes, alias);
        assert(!shorter.contains(alias)) by {
            if shorter.contains(alias) {
                let i = choose|i: int| 0 <= i < shorter.len() && shorter[i] == alias;
                assert(nodes[i] == alias);
            }
        }
        self.lemma_paint_coalesced_keeps(colors, shorter, alias);
        if index < nodes.len() - 1 {
            assert(shorter[index] == nodes[index]);
            assert forall|i: int| 0 <= i < shorter.len() implies self.coalesced_nodes.contains(
                #[trigger] shorter[i],
            ) by {
                assert(shorter[i] == nodes[i]);
            }
            self.lemma_paint_coalesced_shares(colors, shorter, index);
            assert(nodes[nodes.len() - 1] != nodes[index]);
        }
    }

    /// A coalesced temporary shares the register of the node that stands
    /// for it: where that node has a colour in the end, the temporary has
    /// the same.
    pub proof fn lemma_coalesced_share(self, node: Temp)
        requires
            self.wf(),
            self.coalesced_nodes.contains(node),
        ensures
            ({
                let painted = self.assign_colors();
                let alias = self.get_alias(node);
                painted.colors.contains_key(alias.num) ==> painted.colors.contains_key(node.num)
                    && painted.colors[node.num] == painted.colors[alias.num]
            }),
    {
        let everything = Set::new(|temp: Temp| true);
        let own = own_colors(Map::empty(), ordered(self.precolored));
        self.lemma_paint_stack(own, everything);
        let stacked = self.paint_stack(own);
        let nodes = ordered(stacked.state.coalesced_nodes);
        lemma_ordered_exists(self.coalesced_nodes);
        let alias = self.get_alias(node);
        self.lemma_same_alias(stacked.state, node);
        self.lemma_alias_not_coalesced(node);
        assert(nodes.to_set().contains(node));
        let index = choose|index: int| 0 <= index < nodes.len() && nodes[index] == node;
        assert(!nodes.contains(alias)) by {
            if nodes.contains(alias) {
                let i = choose|i: int| 0 <= i < nodes.len() && nodes[i] == alias;
                assert(nodes.to_set().contains(nodes[i]));
            }
        }
        stacked.state.lemma_paint_coalesced_keeps(stacked.colors, nodes, alias);
        if stacked.colors.contains_key(alias.num) {
            assert forall|i: int| 0 <= i < nodes.len() implies stacked.state.coalesced_nodes.contains(
                #[trigger] nodes[i],
            ) by {
                assert(nodes.to_set().contains(nodes[i]));
            }
            stacked.state.lemma_paint_coalesced_shares(stacked.colors, nodes, index);
        }
    }

    /// Every temporary of the universe, and every pre-coloured one, ends
    /// with a register or among the nodes to spill, or stands for one that
    /// does; where nothing is added to the nodes to spill, each of them has
    /// a register.
    pub proof fn lemma_all_coloured(self, universe: Set<Temp>, temp: Temp)
        requires
            self.wf(),
            self.done(),
            self.precolored.finite(),
            grounded(self, universe),
            within(self, universe, temp),
            forall|i: int|
                0 <= i < self.registers.len() ==> self.precolored.contains(#[trigger] self.registers[i]),
        ensures
            ({
                let painted = self.assign_colors();
                &&& machine_valued(painted.colors, self.precolored)
                &&& painted.state.spill_nodes.len() >= self.spill_nodes.len()
                &&& painted.state.spill_nodes.len() == self.spill_nodes.len()
                    ==> painted.colors.contains_key(temp.num)
                &&& painted.colors.contains_key(self.get_alias(temp).num)
                    || painted.state.spill_nodes.contains(self.get_alias(temp))
                &&& painted.state.coalesced_nodes == self.coalesced_nodes
                &&& self.colored_nodes.finite() ==> painted.state.colored_nodes.finite()
                &&& self.precolored.contains(temp) || painted.state.colored_nodes.contains(temp)
                    || painted.state.spill_nodes.contains(temp) || self.coalesced_nodes.contains(
                    temp,
                )
            }),
    {
        let machine = self.precolored;
        let fixed = ordered(self.precolored);
        lemma_ordered_exists(self.precolored);
        assert forall|i: int| 0 <= i < fixed.len() implies machine.contains(#[trigger] fixed[i]) by {
            assert(fixed.to_set().contains(fixed[i]));
        }
        let own = own_colors(Map::empty(), fixed);
        lemma_own_colors(Map::empty(), fixed, machine);
        self.lemma_paint_stack(own, machine);
        let stacked = self.paint_stack(own);
        let nodes = ordered(stacked.state.coalesced_nodes);
        lemma_ordered_exists(self.coalesced_nodes);
        stacked.state.lemma_paint_coalesced(stacked.colors, nodes, machine);
        let painted = self.assign_colors();
        let alias = self.get_alias(temp);
        self.lemma_alias_grounded(universe, temp);
        self.lemma_alias_not_coalesced(temp);
        assert(known(self, alias));
        assert(stacked.state.get_alias(temp) == alias) by {
            self.lemma_same_alias(stacked.state, temp);
        }
        assert(self.simplify_worklist =~= Set::<Temp>::empty());
        assert(!waiting(self, alias));
        if self.precolored.contains(alias) {
            assert(fixed.to_set().contains(alias));
            let i = choose|i: int| 0 <= i < fixed.len() && fixed[i] == alias;
            assert(own.contains_key(fixed[i].num));
            assert(stacked.colors.contains_key(alias.num));
        } else {
            assert(self.select_stack.contains(alias));
            let i = choose|i: int| 0 <= i < self.select_stack.len() && self.select_stack[i] == alias;
            if spilled_from(
                stacked.state.spill_nodes,
                self.spill_nodes.len() as int,
                self.select_stack[i],
            ) {
                let j = choose|j: int|
                    self.spill_nodes.len() <= j < stacked.state.spill_nodes.len()
                        && #[trigger] stacked.state.spill_nodes[j] == alias;
                assert(stacked.state.spill_nodes.contains(alias));
            }
        }
        if stacked.colors.contains_key(alias.num) {
            assert(painted.colors.contains_key(alias.num));
            if alias != temp {
                assert(self.coalesced_nodes.contains(temp));
                assert(nodes.to_set().contains(temp));
                let i = choose|i: int| 0 <= i < nodes.len() && nodes[i] == temp;
                assert(stacked.colors.contains_key(stacked.state.get_alias(nodes[i]).num));
            }
        }
    }
}

impl State {
    /// Building the edges keeps the state well formed and moves nothing.
    pub proof fn lemma_build_edges_leaves(
        self,
        nodes: Seq<graph::Node<Temp>>,
        temp: Temp,
        entries: Seq<graph::Entry>,
    )
        requires
            self.wf(),
        ensures
            self.build_edges(nodes, temp, entries).wf(),
            leaves_nodes(self.build_edges(nodes, temp, entries), self),
        decreases entries.len(),
    {
        if entries.len() > 0 {
            self.lemma_build_edges_leaves(nodes, temp, entries.drop_last());
            self.build_edges(nodes, temp, entries.drop_last()).lemma_add_edge(
                temp,
                nodes[entries.last().0 as int].element,
            );
        }
    }

    /// Building the edges of nodes keeps the state well formed and moves
    /// nothing.
    pub proof fn lemma_build_nodes_leaves(self, nodes: Seq<graph::Node<Temp>>, upto: int)
        requires
            self.wf(),
        ensures
            self.build_nodes(nodes, upto).wf(),
            leaves_nodes(self.build_nodes(nodes, upto), self),
        decreases upto,
    {
        if upto > 0 {
            self.lemma_build_nodes_leaves(nodes, upto - 1);
            let node = nodes[upto - 1];
            let before = self.build_nodes(nodes, upto - 1);
            before.lemma_build_edges_leaves(nodes, node.element, node.predecessors@);
            before.build_edges(nodes, node.element, node.predecessors@).lemma_build_edges_leaves(
                nodes,
                node.element,
                node.successors@,
            );
        }
    }

    /// Unbounded degrees move nothing.
    pub proof fn lemma_unbounded_leaves(self, nodes: Seq<Temp>)
        ensures
            leaves_nodes(self.unbounded_degrees(nodes), self),
        decreases nodes.len(),
    {
        if nodes.len() > 0 {
            self.lemma_unbounded_leaves(nodes.drop_last());
        }
    }

    /// Building the graph keeps the state well formed and moves nothing.
    pub proof fn lemma_build_leaves(self, nodes: Seq<graph::Node<Temp>>)
        requires
            self.wf(),
            self.precolored.finite(),
        ensures
            self.build(nodes).wf(),
            leaves_nodes(self.build(nodes), self),
    {
        self.lemma_build_nodes_leaves(nodes, nodes.len() as int);
        let built = self.build_nodes(nodes, nodes.len() as int);
        let fixed = ordered(self.precolored);
        lemma_ordered_exists(self.precolored);
        assert forall|k: int| 0 <= k < fixed.len() implies built.precolored.contains(
            #[trigger] fixed[k],
        ) by {
            assert(fixed.to_set().contains(fixed[k]));
        }
        built.lemma_unbounded_degrees(fixed);
        built.lemma_unbounded_leaves(fixed);
    }
}

/// The state of an allocator that has done nothing yet is well formed.
pub proof fn lemma_initial_state<F: Frame>(move_list: Map<u32, Set<Move>>, worklist_moves: Set<Move>)
    requires
        worklist_moves.finite(),
        move_list.dom() == Set::<u32>::full(),
    ensures
        initial_state::<F>(move_list, worklist_moves).wf(),
{
    let state = initial_state::<F>(move_list, worklist_moves);
    assert(state.adjacency.dom() =~= Set::<u32>::full());
    assert(state.degree.dom() =~= Set::<u32>::full());
    assert(state.alias.dom() =~= Set::<u32>::full());
}

/// Whether the moves and the temporaries that a colouring starts from fit
/// together on the machine of the frame `F`: the machine has registers,
/// each with a name, and finitely many names; the moves are finitely many,
/// under every key; and each end of a move is one of `initial` or has a
/// register's name.
pub open spec fn fits<F: Frame>(
    move_list: Map<u32, Set<Move>>,
    worklist_moves: Set<Move>,
    initial: Seq<Temp>,
) -> bool {
    let start = initial_state::<F>(move_list, worklist_moves);
    &&& start.precolored.finite()
    &&& forall|i: int|
        0 <= i < start.registers.len() ==> start.precolored.contains(#[trigger] start.registers[i])
    &&& worklist_moves.finite()
    &&& move_list.dom() == Set::<u32>::full()
    &&& start.registers.len() > 0
    &&& forall|mov: Move| #[trigger]
        worklist_moves.contains(mov) ==> within(start, initial.to_set(), mov.destination) && within(
            start,
            initial.to_set(),
            mov.source,
        )
}

/// Colouring leaves no temporary out: each of `initial`, and each that has
/// a register's name, ends with a register, among the temporaries to
/// spill, or coalesced; every colour is a register's; and where nothing is
/// to be spilled, each of them has a colour.
pub proof fn lemma_colouring_covers<F: Frame>(
    move_list: Map<u32, Set<Move>>,
    worklist_moves: Set<Move>,
    nodes: Seq<graph::Node<Temp>>,
    initial: Seq<Temp>,
    count: nat,
    temp: Temp,
)
    requires
        fits::<F>(move_list, worklist_moves, initial),
        initial_state::<F>(move_list, worklist_moves).build(nodes).make_worklist(initial).run(
            count,
        ).done(),
        initial.contains(temp) || F::spec_special_name(temp) is Some,
    ensures
        ({
            let ready = initial_state::<F>(move_list, worklist_moves).build(nodes).make_worklist(
                initial,
            ).run(count);
            let painted = ready.assign_colors();
            &&& forall|key: u32| #[trigger]
                painted.colors.contains_key(key) ==> F::spec_special_name(painted.colors[key])
                    is Some
            &&& painted.state.spill_nodes.len() == 0 ==> painted.colors.contains_key(temp.num)
            &&& F::spec_special_name(temp) is Some || painted.state.colored_nodes.contains(temp)
                || painted.state.spill_nodes.contains(temp)
                || painted.state.coalesced_nodes.contains(temp)
            &&& painted.state.coalesced_nodes.finite()
            &&& painted.state.colored_nodes.finite()
        }),
{
    let start = initial_state::<F>(move_list, worklist_moves);
    let universe = initial.to_set();
    lemma_initial_state::<F>(move_list, worklist_moves);
    start.lemma_build_leaves(nodes);
    let built = start.build(nodes);
    built.lemma_make_worklist(initial);
    built.lemma_make_worklist_known(initial);
    let filled = built.make_worklist(initial);
    assert(start.precolored.contains(start.registers[0]));
    assert(grounded(filled, universe)) by {
        assert forall|other: Temp| universe.contains(other) implies #[trigger] known(
            filled,
            other,
        ) by {
            let i = choose|i: int| 0 <= i < initial.len() && initial[i] == other;
            assert(waiting(filled, initial[i]));
        }
        assert(pending(filled) =~= worklist_moves);
    }
    filled.lemma_run_grounded(count, universe);
    let ready = filled.run(count);
    assert(within(ready, universe, temp));
    ready.lemma_all_coloured(universe, temp);
    let painted = ready.assign_colors();
    assert forall|key: u32| #[trigger] painted.colors.contains_key(key) implies F::spec_special_name(
        painted.colors[key],
    ) is Some by {
        assert(start.precolored.contains(painted.colors[key]));
    }
}

} // verus!
