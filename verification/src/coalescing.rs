//! Why colouring is sound: every step keeps the nodes apart, each in one
//! place, every pending move under what stands for its ends, and the edges
//! between what stands for their ends, so that in the end no two
//! temporaries that interfere share a register.

use vstd::prelude::*;
use vstd::set_lib::*;
use crate::color::{initial_state, own_colors, State};
use crate::coverage::{lemma_initial_state, lemma_temps_bound, pending};
use crate::frame::Frame;
use crate::graph::{self, Graph};
use crate::liveness::has_edge;
use crate::ordset::{lemma_ordered_exists, ordered, Edge, Move};
use crate::temp::Temp;
use crate::painting::{apart, lemma_own_keys, misses, separate};

verus! {

/// Whether `mov` is a move of `node` that may still be coalesced.
pub open spec fn has_move(state: State, node: Temp, mov: Move) -> bool {
    state.move_list[node.num].contains(mov) && pending(state).contains(mov)
}

/// Whether `node` has a move that may still be coalesced.
pub open spec fn related(state: State, node: Temp) -> bool {
    exists|mov: Move| has_move(state, node, mov)
}

/// Whether `node` is in none of the worklists and not pre-coloured.
pub open spec fn unlisted(state: State, node: Temp) -> bool {
    &&& !state.precolored.contains(node)
    &&& !state.simplify_worklist.contains(node)
    &&& !state.freeze_worklist.contains(node)
    &&& !state.spill_worklist.contains(node)
}

/// Whether `node` is still in the graph: neither on the stack nor
/// coalesced.
pub open spec fn present(state: State, node: Temp) -> bool {
    !state.select_stack.contains(node) && !state.coalesced_nodes.contains(node)
}

/// Whether the degree of every pre-coloured node lies more than `slack`
/// above the significant ones.
pub open spec fn roomy(state: State, slack: nat) -> bool {
    forall|node: Temp| #[trigger]
        state.precolored.contains(node) ==> state.degree[node.num] > state.register_count + slack
}

/// Whether every node is in one place at most and every pending move is
/// listed under what stands for its ends, and only there. The nodes of
/// `loose` may wait to be frozen with a significant degree, those of
/// `lonely` without a move, and those of `busy` to be simplified with one.
pub open spec fn placed_with(state: State, loose: Set<Temp>, lonely: Set<Temp>, busy: Set<Temp>) -> bool {
    &&& state.colored_nodes == Set::<Temp>::empty()
    &&& state.select_stack.no_duplicates()
    &&& forall|k: int|
        0 <= k < state.select_stack.len() ==> unlisted(state, #[trigger] state.select_stack[k])
            && !state.coalesced_nodes.contains(state.select_stack[k]) && !related(
            state,
            state.select_stack[k],
        )
    &&& forall|node: Temp| #[trigger]
        state.coalesced_nodes.contains(node) ==> unlisted(state, node)
    &&& forall|node: Temp| #[trigger]
        state.simplify_worklist.contains(node) ==> !state.precolored.contains(node)
            && !state.freeze_worklist.contains(node) && !state.spill_worklist.contains(node) && (
        busy.contains(node) || !related(state, node))
    &&& forall|node: Temp| #[trigger]
        state.freeze_worklist.contains(node) ==> !state.precolored.contains(node)
            && !state.spill_worklist.contains(node) && (loose.contains(node)
            || state.degree[node.num] < state.register_count) && (lonely.contains(node) || related(
            state,
            node,
        ))
    &&& forall|node: Temp| #[trigger]
        state.spill_worklist.contains(node) ==> !state.precolored.contains(node)
            && state.degree[node.num] >= state.register_count
    &&& forall|node: Temp| #[trigger]
        state.precolored.contains(node) ==> state.degree[node.num] > state.register_count
    &&& forall|mov: Move| #[trigger]
        pending(state).contains(mov) ==> state.move_list[state.get_alias(mov.source).num].contains(
            mov,
        ) && state.move_list[state.get_alias(mov.destination).num].contains(mov)
    &&& forall|node: Temp, mov: Move| #[trigger]
        has_move(state, node, mov) && !state.coalesced_nodes.contains(node) ==> node
            == state.get_alias(mov.source) || node == state.get_alias(mov.destination)
}

/// Whether every node is in one place at most and every pending move is
/// listed under what stands for its ends, and only there.
pub open spec fn placed(state: State) -> bool {
    placed_with(state, Set::empty(), Set::empty(), Set::empty())
}

/// Whether `after` has the stack, the coalesced nodes with their aliases,
/// the lists of moves and the machine of `before`.
pub open spec fn same_ground(after: State, before: State) -> bool {
    &&& after.select_stack == before.select_stack
    &&& after.coalesced_nodes == before.coalesced_nodes
    &&& after.colored_nodes == before.colored_nodes
    &&& after.alias == before.alias
    &&& after.rank == before.rank
    &&& after.move_list == before.move_list
    &&& after.precolored == before.precolored
    &&& after.registers == before.registers
    &&& after.register_count == before.register_count
}

impl State {
    /// A node has a move that may still be coalesced if and only if one of
    /// its moves is pending.
    pub proof fn lemma_related(self, node: Temp)
        ensures
            self.move_related(node) == related(self, node),
    {
        if self.move_related(node) {
            let mov = choose|mov: Move| self.node_moves(node).contains(mov);
            if !self.node_moves(node).contains(mov) {
                assert(self.node_moves(node) =~= Set::<Move>::empty());
            }
            assert(has_move(self, node, mov));
        }
        if related(self, node) {
            let mov = choose|mov: Move| has_move(self, node, mov);
            assert(self.node_moves(node).contains(mov));
        }
    }

    /// States on the same ground have the same node stand for each node.
    pub proof fn lemma_same_aliases(self, other: State)
        requires
            self.alias_ok(),
            same_ground(other, self),
        ensures
            forall|node: Temp| #[trigger] other.get_alias(node) == self.get_alias(node),
    {
        assert forall|node: Temp| #[trigger] other.get_alias(node) == self.get_alias(node) by {
            self.lemma_same_alias(other, node);
        }
    }

    /// What stays on the same ground with the same worklists, degrees and
    /// pending moves keeps every node in its place.
    pub proof fn lemma_placed_kept(self, other: State, loose: Set<Temp>, lonely: Set<Temp>, busy: Set<Temp>)
        requires
            self.alias_ok(),
            placed_with(self, loose, lonely, busy),
            same_ground(other, self),
            pending(other) == pending(self),
            other.simplify_worklist == self.simplify_worklist,
            other.freeze_worklist == self.freeze_worklist,
            other.spill_worklist == self.spill_worklist,
            other.degree == self.degree,
        ensures
            placed_with(other, loose, lonely, busy),
    {
        self.lemma_same_aliases(other);
        assert forall|node: Temp| related(other, node) == related(self, node) by {
            if related(other, node) {
                let mov = choose|mov: Move| has_move(other, node, mov);
                assert(has_move(self, node, mov));
            }
            if related(self, node) {
                let mov = choose|mov: Move| has_move(self, node, mov);
                assert(has_move(other, node, mov));
            }
        }
        assert forall|k: int| 0 <= k < other.select_stack.len() implies unlisted(
            other,
            #[trigger] other.select_stack[k],
        ) && !other.coalesced_nodes.contains(other.select_stack[k]) && !related(
            other,
            other.select_stack[k],
        ) by {
            assert(unlisted(self, self.select_stack[k]));
        }
        assert forall|node: Temp| #[trigger] other.coalesced_nodes.contains(node) implies unlisted(
            other,
            node,
        ) by {
            assert(unlisted(self, node));
        }
        assert forall|mov: Move| #[trigger] pending(other).contains(mov) implies other.move_list[other.get_alias(
            mov.source,
        ).num].contains(mov) && other.move_list[other.get_alias(mov.destination).num].contains(
            mov,
        ) by {
            assert(pending(self).contains(mov));
        }
        assert forall|node: Temp, mov: Move| #[trigger]
            has_move(other, node, mov) && !other.coalesced_nodes.contains(node) implies node
            == other.get_alias(mov.source) || node == other.get_alias(mov.destination) by {
            assert(has_move(self, node, mov));
        }
    }

    /// Enabling the moves of nodes keeps every node in its place.
    pub proof fn lemma_enable_moves_placed(
        self,
        nodes: Seq<Temp>,
        loose: Set<Temp>,
        lonely: Set<Temp>,
        busy: Set<Temp>,
    )
        requires
            self.wf(),
            placed_with(self, loose, lonely, busy),
        ensures
            placed_with(self.enable_moves(nodes), loose, lonely, busy),
            same_ground(self.enable_moves(nodes), self),
            self.enable_moves(nodes).wf(),
            self.enable_moves(nodes).degree == self.degree,
            self.enable_moves(nodes).edges == self.edges,
            self.enable_moves(nodes).adjacency == self.adjacency,
            pending(self.enable_moves(nodes)) == pending(self),
            self.enable_moves(nodes).simplify_worklist == self.simplify_worklist,
            self.enable_moves(nodes).freeze_worklist == self.freeze_worklist,
            self.enable_moves(nodes).spill_worklist == self.spill_worklist,
    {
        self.lemma_enable_moves(nodes);
        self.lemma_placed_kept(self.enable_moves(nodes), loose, lonely, busy);
    }

    /// Lowering the degree of a node that is still in the graph keeps
    /// every node in its place, and changes no degree but its own, by one
    /// at most. A node that waited to be frozen with a degree no more than
    /// significant is no longer loose.
    pub proof fn lemma_decrement_degree_placed(self, temp: Temp, loose: Set<Temp>, lonely: Set<Temp>)
        requires
            self.wf(),
            placed_with(self, loose, lonely, Set::empty()),
            self.register_count > 0,
            present(self, temp),
            !lonely.contains(temp),
            self.precolored.contains(temp) ==> self.degree[temp.num] > self.register_count + 1,
            self.freeze_worklist.contains(temp) ==> self.degree[temp.num] <= self.register_count,
        ensures
            self.decrement_degree(temp).wf(),
            placed_with(self.decrement_degree(temp), loose.remove(temp), lonely, Set::empty()),
            same_ground(self.decrement_degree(temp), self),
            pending(self.decrement_degree(temp)) == pending(self),
            self.decrement_degree(temp).edges == self.edges,
            self.decrement_degree(temp).adjacency == self.adjacency,
            self.decrement_degree(temp).degree[temp.num] + 1 >= self.degree[temp.num],
            self.decrement_degree(temp).degree[temp.num] <= self.degree[temp.num],
            forall|key: u32|
                key != temp.num ==> #[trigger] self.decrement_degree(temp).degree[key]
                    == self.degree[key],
    {
        let degree = self.degree_of(temp);
        let lowered = State {
            degree: self.degree.insert(
                temp.num,
                if degree > 0 {
                    (degree - 1) as nat
                } else {
                    0
                },
            ),
            ..self
        };
        let after = self.decrement_degree(temp);
        let rest = loose.remove(temp);
        self.lemma_decrement_degree(temp);
        assert(lowered.degree.dom() =~= Set::<u32>::full());
        assert(lowered.wf());
        if degree == self.register_count {
            let enabled = lowered.enable_moves(ordered(lowered.adjacent(temp).insert(temp)));
            lowered.lemma_enable_moves(ordered(lowered.adjacent(temp).insert(temp)));
            let removed = State { spill_worklist: enabled.spill_worklist.remove(temp), ..enabled };
            removed.lemma_related(temp);
            assert(pending(removed) == pending(self));
            assert(related(removed, temp) == related(self, temp)) by {
                if related(removed, temp) {
                    let mov = choose|mov: Move| has_move(removed, temp, mov);
                    assert(has_move(self, temp, mov));
                }
                if related(self, temp) {
                    let mov = choose|mov: Move| has_move(self, temp, mov);
                    assert(has_move(removed, temp, mov));
                }
            }
            assert(same_ground(after, self));
            assert(pending(after) == pending(self));
            assert(after.degree == lowered.degree);
            assert(after.spill_worklist == self.spill_worklist.remove(temp));
            assert(!self.precolored.contains(temp));
            if related(self, temp) {
                assert(after.freeze_worklist == self.freeze_worklist.insert(temp));
                assert(after.simplify_worklist == self.simplify_worklist);
                assert(!self.simplify_worklist.contains(temp));
            } else {
                assert(after.simplify_worklist == self.simplify_worklist.insert(temp));
                assert(after.freeze_worklist == self.freeze_worklist);
                assert(!self.freeze_worklist.contains(temp));
            }
        } else {
            assert(after == lowered);
        }
        self.lemma_same_aliases(after);
        assert forall|node: Temp| related(after, node) == related(self, node) by {
            if related(after, node) {
                let mov = choose|mov: Move| has_move(after, node, mov);
                assert(has_move(self, node, mov));
            }
            if related(self, node) {
                let mov = choose|mov: Move| has_move(self, node, mov);
                assert(has_move(after, node, mov));
            }
        }
        assert(!self.select_stack.contains(temp));
        assert forall|k: int| 0 <= k < after.select_stack.len() implies unlisted(
            after,
            #[trigger] after.select_stack[k],
        ) && !after.coalesced_nodes.contains(after.select_stack[k]) && !related(
            after,
            after.select_stack[k],
        ) by {
            assert(unlisted(self, self.select_stack[k]));
            assert(self.select_stack[k] != temp);
        }
        assert forall|node: Temp| #[trigger] after.coalesced_nodes.contains(node) implies unlisted(
            after,
            node,
        ) by {
            assert(unlisted(self, node));
            assert(node != temp);
        }
        assert forall|node: Temp| #[trigger]
            after.simplify_worklist.contains(node) implies !after.precolored.contains(node)
            && !after.freeze_worklist.contains(node) && !after.spill_worklist.contains(node)
            && !related(after, node) by {
            if node != temp {
                assert(self.simplify_worklist.contains(node));
            } else if self.simplify_worklist.contains(node) {
            }
        }
        assert forall|node: Temp| #[trigger]
            after.freeze_worklist.contains(node) implies !after.precolored.contains(node)
            && !after.spill_worklist.contains(node) && (rest.contains(node)
            || after.degree[node.num] < after.register_count) && (lonely.contains(node) || related(
            after,
            node,
        )) by {
            if node != temp {
                assert(self.freeze_worklist.contains(node));
                assert(node.num != temp.num);
            } else if self.freeze_worklist.contains(node) {
            }
        }
        assert forall|node: Temp| #[trigger]
            after.spill_worklist.contains(node) implies !after.precolored.contains(node)
            && after.degree[node.num] >= after.register_count by {
            assert(self.spill_worklist.contains(node));
            if node != temp {
                assert(node.num != temp.num);
            }
        }
        assert forall|node: Temp| #[trigger]
            after.precolored.contains(node) implies after.degree[node.num]
            > after.register_count by {
            if node != temp {
                assert(node.num != temp.num);
            }
        }
        assert forall|mov: Move| #[trigger] pending(after).contains(mov) implies after.move_list[after.get_alias(
            mov.source,
        ).num].contains(mov) && after.move_list[after.get_alias(mov.destination).num].contains(
            mov,
        ) by {
            assert(pending(self).contains(mov));
        }
        assert forall|node: Temp, mov: Move| #[trigger]
            has_move(after, node, mov) && !after.coalesced_nodes.contains(node) implies node
            == after.get_alias(mov.source) || node == after.get_alias(mov.destination) by {
            assert(has_move(self, node, mov));
        }
    }

    /// Lowering the degrees of different nodes that are still in the graph
    /// keeps every node in its place and lowers no degree by more than
    /// one.
    pub proof fn lemma_decrement_all_placed(self, nodes: Seq<Temp>)
        requires
            self.wf(),
            placed(self),
            self.register_count > 0,
            nodes.no_duplicates(),
            forall|i: int| 0 <= i < nodes.len() ==> present(self, #[trigger] nodes[i]),
            forall|node: Temp| #[trigger]
                self.precolored.contains(node) ==> self.degree[node.num] > self.register_count + 1,
        ensures
            self.decrement_all(nodes).wf(),
            placed(self.decrement_all(nodes)),
            same_ground(self.decrement_all(nodes), self),
            pending(self.decrement_all(nodes)) == pending(self),
            self.decrement_all(nodes).edges == self.edges,
            self.decrement_all(nodes).adjacency == self.adjacency,
            forall|key: u32| #[trigger] self.decrement_all(nodes).degree[key] + 1 >= self.degree[key],
            forall|key: u32|
                !nodes.contains(Temp { num: key }) ==> #[trigger] self.decrement_all(nodes).degree[key]
                    == self.degree[key],
        decreases nodes.len(),
    {
        if nodes.len() > 0 {
            let shorter = nodes.drop_last();
            let last = nodes[nodes.len() - 1];
            assert forall|i: int| 0 <= i < shorter.len() implies present(self, #[trigger] shorter[i]) by {
                assert(shorter[i] == nodes[i]);
            }
            assert(shorter.no_duplicates()) by {
                assert forall|i: int, j: int|
                    0 <= i < shorter.len() && 0 <= j < shorter.len() && i != j implies shorter[i]
                    != shorter[j] by {
                    assert(shorter[i] == nodes[i]);
                    assert(shorter[j] == nodes[j]);
                }
            }
            self.lemma_decrement_all_placed(shorter);
            let before = self.decrement_all(shorter);
            assert(!shorter.contains(last)) by {
                if shorter.contains(last) {
                    let i = choose|i: int| 0 <= i < shorter.len() && shorter[i] == last;
                    assert(nodes[i] == nodes[nodes.len() - 1]);
                }
            }
            assert(before.degree[last.num] == self.degree[last.num]);
            assert(present(before, last)) by {
                assert(present(self, nodes[nodes.len() - 1]));
            }
            before.lemma_decrement_degree_placed(last, Set::empty(), Set::empty());
            let after = self.decrement_all(nodes);
            assert(Set::<Temp>::empty().remove(last) =~= Set::<Temp>::empty());
            assert forall|key: u32| #[trigger] after.degree[key] + 1 >= self.degree[key] by {
                if key != last.num {
                    assert(after.degree[key] == before.degree[key]);
                }
            }
            assert forall|key: u32| !nodes.contains(Temp { num: key }) implies #[trigger] after.degree[key]
                == self.degree[key] by {
                assert(key != last.num) by {
                    if key == last.num {
                        assert(nodes[nodes.len() - 1] == Temp { num: key });
                    }
                }
                if shorter.contains(Temp { num: key }) {
                    let i = choose|i: int| 0 <= i < shorter.len() && shorter[i] == Temp { num: key };
                    assert(nodes[i] == Temp { num: key });
                }
                assert(after.degree[key] == before.degree[key]);
            }
        }
    }

    /// Simplifying keeps every node in its place and takes one from the
    /// degrees of the pre-coloured at most.
    pub proof fn lemma_simplify_placed(self)
        requires
            self.wf(),
            placed(self),
            self.register_count > 0,
            self.simplify_worklist != Set::<Temp>::empty(),
            forall|node: Temp| #[trigger]
                self.precolored.contains(node) ==> self.degree[node.num] > self.register_count + 1,
        ensures
            placed(self.simplify()),
            self.simplify().edges == self.edges,
            self.simplify().adjacency == self.adjacency,
            self.simplify().alias == self.alias,
            self.simplify().rank == self.rank,
            self.simplify().coalesced_nodes == self.coalesced_nodes,
            self.simplify().select_stack == self.select_stack.push(
                ordered(self.simplify_worklist)[0],
            ),
            present(self, ordered(self.simplify_worklist)[0]),
            !self.precolored.contains(ordered(self.simplify_worklist)[0]),
            forall|key: u32| #[trigger] self.simplify().degree[key] + 1 >= self.degree[key],
    {
        lemma_ordered_exists(self.simplify_worklist);
        assert(self.simplify_worklist.len() > 0) by {
            if self.simplify_worklist.len() == 0 {
                assert(self.simplify_worklist =~= Set::<Temp>::empty());
            }
        }
        let temp = ordered(self.simplify_worklist)[0];
        let pushed = State {
            simplify_worklist: self.simplify_worklist.remove(temp),
            select_stack: self.select_stack.push(temp),
            ..self
        };
        assert(self.simplify_worklist.contains(temp));
        assert(!self.select_stack.contains(temp)) by {
            if self.select_stack.contains(temp) {
                let k = choose|k: int| 0 <= k < self.select_stack.len() && self.select_stack[k] == temp;
                assert(unlisted(self, self.select_stack[k]));
            }
        }
        assert(!self.coalesced_nodes.contains(temp)) by {
            if self.coalesced_nodes.contains(temp) {
                assert(unlisted(self, temp));
            }
        }
        assert(pushed.wf());
        self.lemma_same_alias_ground(pushed);
        assert forall|node: Temp| related(pushed, node) == related(self, node) by {
            if related(pushed, node) {
                let mov = choose|mov: Move| has_move(pushed, node, mov);
                assert(has_move(self, node, mov));
            }
            if related(self, node) {
                let mov = choose|mov: Move| has_move(self, node, mov);
                assert(has_move(pushed, node, mov));
            }
        }
        assert(placed(pushed)) by {
            assert forall|i: int, j: int|
                0 <= i < pushed.select_stack.len() && 0 <= j < pushed.select_stack.len() && i
                    != j implies pushed.select_stack[i] != pushed.select_stack[j] by {
                if i < self.select_stack.len() {
                    assert(self.select_stack[i] == pushed.select_stack[i]);
                }
                if j < self.select_stack.len() {
                    assert(self.select_stack[j] == pushed.select_stack[j]);
                }
            }
            assert forall|k: int| 0 <= k < pushed.select_stack.len() implies unlisted(
                pushed,
                #[trigger] pushed.select_stack[k],
            ) && !pushed.coalesced_nodes.contains(pushed.select_stack[k]) && !related(
                pushed,
                pushed.select_stack[k],
            ) by {
                if k < self.select_stack.len() {
                    assert(self.select_stack[k] == pushed.select_stack[k]);
                    assert(unlisted(self, self.select_stack[k]));
                }
            }
            assert forall|node: Temp| #[trigger]
                pushed.coalesced_nodes.contains(node) implies unlisted(pushed, node) by {
                assert(unlisted(self, node));
            }
            assert forall|node: Temp| #[trigger]
                pushed.freeze_worklist.contains(node) implies !pushed.precolored.contains(node)
                && !pushed.spill_worklist.contains(node) && pushed.degree[node.num]
                < pushed.register_count && related(pushed, node) by {
                assert(self.freeze_worklist.contains(node));
            }
            assert forall|mov: Move| #[trigger] pending(pushed).contains(mov) implies pushed.move_list[pushed.get_alias(
                mov.source,
            ).num].contains(mov) && pushed.move_list[pushed.get_alias(
                mov.destination,
            ).num].contains(mov) by {
                assert(pending(self).contains(mov));
            }
            assert forall|node: Temp, mov: Move| #[trigger]
                has_move(pushed, node, mov) && !pushed.coalesced_nodes.contains(node) implies node
                == pushed.get_alias(mov.source) || node == pushed.get_alias(mov.destination) by {
                assert(has_move(self, node, mov));
            }
        }
        let neighbors = ordered(pushed.adjacent(temp));
        assert(pushed.adjacency[temp.num].finite());
        lemma_len_subset(pushed.adjacent(temp), pushed.adjacency[temp.num]);
        lemma_ordered_exists(pushed.adjacent(temp));
        assert forall|i: int| 0 <= i < neighbors.len() implies present(pushed, #[trigger] neighbors[i]) by {
            assert(neighbors.to_set().contains(neighbors[i]));
            if pushed.select_stack.contains(neighbors[i]) {
                assert(pushed.select_stack.to_set().contains(neighbors[i]));
            }
        }
        pushed.lemma_decrement_all_placed(neighbors);
    }

    /// States with the same coalesced nodes and aliases have the same node
    /// stand for each node.
    pub proof fn lemma_same_alias_ground(self, other: State)
        requires
            self.alias_ok(),
            other.coalesced_nodes == self.coalesced_nodes,
            other.alias == self.alias,
            other.rank == self.rank,
        ensures
            forall|node: Temp| #[trigger] other.get_alias(node) == self.get_alias(node),
    {
        assert forall|node: Temp| #[trigger] other.get_alias(node) == self.get_alias(node) by {
            self.lemma_same_alias(other, node);
        }
    }

    /// Freezing a pending move of a node that waits to be simplified, where
    /// no move waits to be looked at, keeps every node in its place.
    pub proof fn lemma_freeze_move_placed(self, u: Temp, mov: Move)
        requires
            self.wf(),
            placed_with(self, Set::empty(), Set::empty(), set![u]),
            self.register_count > 0,
            self.worklist_moves == Set::<Move>::empty(),
            self.simplify_worklist.contains(u),
            has_move(self, u, mov),
        ensures
            self.freeze_move(u, mov).wf(),
            placed_with(self.freeze_move(u, mov), Set::empty(), Set::empty(), set![u]),
            same_ground(self.freeze_move(u, mov), self),
            self.freeze_move(u, mov).worklist_moves == Set::<Move>::empty(),
            self.freeze_move(u, mov).active_moves == self.active_moves.remove(mov),
            self.freeze_move(u, mov).simplify_worklist.contains(u),
            self.freeze_move(u, mov).degree == self.degree,
            self.freeze_move(u, mov).edges == self.edges,
            self.freeze_move(u, mov).adjacency == self.adjacency,
    {
        let busy = set![u];
        let v = if self.get_alias(mov.source) == self.get_alias(u) {
            self.get_alias(mov.destination)
        } else {
            self.get_alias(mov.source)
        };
        let frozen = State {
            active_moves: self.active_moves.remove(mov),
            frozen_moves: self.frozen_moves.insert(mov),
            ..self
        };
        let after = self.freeze_move(u, mov);
        self.lemma_freeze_move(u, mov);
        assert(!self.coalesced_nodes.contains(u)) by {
            if self.coalesced_nodes.contains(u) {
                assert(unlisted(self, u));
            }
        }
        assert(self.get_alias(u) == u);
        assert(pending(self).contains(mov));
        assert(u == self.get_alias(mov.source) || u == self.get_alias(mov.destination));
        self.lemma_alias_not_coalesced(mov.source);
        self.lemma_alias_not_coalesced(mov.destination);
        assert(has_move(self, v, mov));
        assert(pending(frozen) =~= pending(self).remove(mov));
        assert(pending(after) == pending(frozen));
        self.lemma_same_aliases(after);
        frozen.lemma_related(v);
        assert(related(frozen, v) == related(after, v)) by {
            if related(frozen, v) {
                let other = choose|other: Move| has_move(frozen, v, other);
                assert(has_move(after, v, other));
            }
            if related(after, v) {
                let other = choose|other: Move| has_move(after, v, other);
                assert(has_move(frozen, v, other));
            }
        }
        assert forall|node: Temp| #[trigger] related(after, node) implies related(self, node) by {
            let other = choose|other: Move| has_move(after, node, other);
            assert(has_move(self, node, other));
        }
        assert forall|node: Temp|
            related(self, node) && !self.coalesced_nodes.contains(node) && node != u && node
                != v implies #[trigger] related(after, node) by {
            let other = choose|other: Move| has_move(self, node, other);
            if other == mov {
                assert(has_move(self, node, mov));
            }
            assert(has_move(after, node, other));
        }
        assert(!self.select_stack.contains(v)) by {
            if self.select_stack.contains(v) {
                let k = choose|k: int| 0 <= k < self.select_stack.len() && self.select_stack[k] == v;
                assert(!related(self, self.select_stack[k]));
            }
        }
        let moves = !frozen.move_related(v) && !frozen.significant(v);
        if moves {
            assert(after.simplify_worklist == self.simplify_worklist.insert(v));
            assert(after.freeze_worklist == self.freeze_worklist.remove(v));
        } else {
            assert(after == frozen);
        }
        assert forall|k: int| 0 <= k < after.select_stack.len() implies unlisted(
            after,
            #[trigger] after.select_stack[k],
        ) && !after.coalesced_nodes.contains(after.select_stack[k]) && !related(
            after,
            after.select_stack[k],
        ) by {
            assert(unlisted(self, self.select_stack[k]));
            assert(self.select_stack[k] != v);
        }
        assert forall|node: Temp| #[trigger] after.coalesced_nodes.contains(node) implies unlisted(
            after,
            node,
        ) by {
            assert(unlisted(self, node));
            assert(node != v);
        }
        assert forall|node: Temp| #[trigger]
            after.simplify_worklist.contains(node) implies !after.precolored.contains(node)
            && !after.freeze_worklist.contains(node) && !after.spill_worklist.contains(node) && (
        busy.contains(node) || !related(after, node)) by {
            if self.simplify_worklist.contains(node) {
                if !busy.contains(node) && related(after, node) {
                    assert(related(self, node));
                }
            } else {
                assert(node == v);
            }
        }
        assert forall|node: Temp| #[trigger]
            after.freeze_worklist.contains(node) implies !after.precolored.contains(node)
            && !after.spill_worklist.contains(node) && after.degree[node.num]
            < after.register_count && related(after, node) by {
            assert(self.freeze_worklist.contains(node));
            assert(node != u);
            assert(!self.coalesced_nodes.contains(node)) by {
                if self.coalesced_nodes.contains(node) {
                    assert(unlisted(self, node));
                }
            }
            assert(related(self, node));
            if node == v {
                assert(!moves);
            }
        }
        assert forall|mov2: Move| #[trigger] pending(after).contains(mov2) implies after.move_list[after.get_alias(
            mov2.source,
        ).num].contains(mov2) && after.move_list[after.get_alias(mov2.destination).num].contains(
            mov2,
        ) by {
            assert(pending(self).contains(mov2));
        }
        assert forall|node: Temp, mov2: Move| #[trigger]
            has_move(after, node, mov2) && !after.coalesced_nodes.contains(node) implies node
            == after.get_alias(mov2.source) || node == after.get_alias(mov2.destination) by {
            assert(has_move(self, node, mov2));
        }
    }

    /// Freezing different pending moves of a node that waits to be
    /// simplified, where no move waits to be looked at, keeps every node
    /// in its place and leaves none of those moves pending.
    pub proof fn lemma_freeze_list_placed(self, u: Temp, moves: Seq<Move>)
        requires
            self.wf(),
            placed_with(self, Set::empty(), Set::empty(), set![u]),
            self.register_count > 0,
            self.worklist_moves == Set::<Move>::empty(),
            self.simplify_worklist.contains(u),
            moves.no_duplicates(),
            forall|i: int| 0 <= i < moves.len() ==> has_move(self, u, #[trigger] moves[i]),
        ensures
            self.freeze_list(u, moves).wf(),
            placed_with(self.freeze_list(u, moves), Set::empty(), Set::empty(), set![u]),
            same_ground(self.freeze_list(u, moves), self),
            self.freeze_list(u, moves).worklist_moves == Set::<Move>::empty(),
            self.freeze_list(u, moves).active_moves.subset_of(self.active_moves),
            forall|mov: Move|
                self.active_moves.contains(mov) && !moves.contains(mov)
                    ==> #[trigger] self.freeze_list(u, moves).active_moves.contains(mov),
            forall|i: int|
                0 <= i < moves.len() ==> !self.freeze_list(u, moves).active_moves.contains(
                    #[trigger] moves[i],
                ),
            self.freeze_list(u, moves).simplify_worklist.contains(u),
            self.freeze_list(u, moves).degree == self.degree,
            self.freeze_list(u, moves).edges == self.edges,
            self.freeze_list(u, moves).adjacency == self.adjacency,
        decreases moves.len(),
    {
        if moves.len() > 0 {
            let shorter = moves.drop_last();
            let last = moves[moves.len() - 1];
            assert forall|i: int| 0 <= i < shorter.len() implies has_move(self, u, #[trigger] shorter[i]) by {
                assert(shorter[i] == moves[i]);
            }
            assert(shorter.no_duplicates()) by {
                assert forall|i: int, j: int|
                    0 <= i < shorter.len() && 0 <= j < shorter.len() && i != j implies shorter[i]
                    != shorter[j] by {
                    assert(shorter[i] == moves[i]);
                    assert(shorter[j] == moves[j]);
                }
            }
            self.lemma_freeze_list_placed(u, shorter);
            let before = self.freeze_list(u, shorter);
            assert(!shorter.contains(last)) by {
                if shorter.contains(last) {
                    let i = choose|i: int| 0 <= i < shorter.len() && shorter[i] == last;
                    assert(moves[i] == moves[moves.len() - 1]);
                }
            }
            assert(has_move(self, u, moves[moves.len() - 1]));
            assert(before.active_moves.contains(last));
            assert(has_move(before, u, last));
            before.lemma_freeze_move_placed(u, last);
            let after = self.freeze_list(u, moves);
            assert forall|mov: Move|
                self.active_moves.contains(mov) && !moves.contains(mov) implies #[trigger] after.active_moves.contains(
                mov,
            ) by {
                if shorter.contains(mov) {
                    let i = choose|i: int| 0 <= i < shorter.len() && shorter[i] == mov;
                    assert(moves[i] == mov);
                }
                assert(mov != last) by {
                    if mov == last {
                        assert(moves[moves.len() - 1] == mov);
                    }
                }
                assert(before.active_moves.contains(mov));
            }
            assert forall|i: int| 0 <= i < moves.len() implies !after.active_moves.contains(
                #[trigger] moves[i],
            ) by {
                if i < moves.len() - 1 {
                    assert(shorter[i] == moves[i]);
                    assert(!before.active_moves.contains(shorter[i]));
                }
            }
        }
    }

    /// Freezing all the moves of a node that waits to be simplified, where
    /// no move waits to be looked at, leaves every node in its place.
    pub proof fn lemma_freeze_moves_placed(self, u: Temp)
        requires
            self.wf(),
            placed_with(self, Set::empty(), Set::empty(), set![u]),
            self.register_count > 0,
            self.worklist_moves == Set::<Move>::empty(),
            self.simplify_worklist.contains(u),
        ensures
            self.freeze_moves(u).wf(),
            placed(self.freeze_moves(u)),
            same_ground(self.freeze_moves(u), self),
            self.freeze_moves(u).degree == self.degree,
            self.freeze_moves(u).edges == self.edges,
            self.freeze_moves(u).adjacency == self.adjacency,
    {
        let moves = ordered(self.node_moves(u));
        lemma_len_subset(self.node_moves(u), self.active_moves.union(self.worklist_moves));
        lemma_ordered_exists(self.node_moves(u));
        assert forall|i: int| 0 <= i < moves.len() implies has_move(self, u, #[trigger] moves[i]) by {
            assert(moves.to_set().contains(moves[i]));
        }
        self.lemma_freeze_list_placed(u, moves);
        let after = self.freeze_moves(u);
        self.lemma_same_aliases(after);
        assert(!related(after, u)) by {
            if related(after, u) {
                let mov = choose|mov: Move| has_move(after, u, mov);
                assert(self.active_moves.contains(mov));
                assert(self.node_moves(u).contains(mov));
                assert(moves.to_set().contains(mov));
                let i = choose|i: int| 0 <= i < moves.len() && moves[i] == mov;
                assert(!after.active_moves.contains(moves[i]));
            }
        }
        assert forall|node: Temp| #[trigger]
            after.simplify_worklist.contains(node) implies !after.precolored.contains(node)
            && !after.freeze_worklist.contains(node) && !after.spill_worklist.contains(node)
            && !related(after, node) by {
            if node != u {
                assert(!set![u].contains(node));
            }
        }
    }

    /// Freezing keeps every node in its place.
    pub proof fn lemma_freeze_placed(self)
        requires
            self.wf(),
            placed(self),
            self.register_count > 0,
            self.worklist_moves == Set::<Move>::empty(),
            self.freeze_worklist != Set::<Temp>::empty(),
        ensures
            placed(self.freeze()),
            same_ground(self.freeze(), self),
            self.freeze().degree == self.degree,
            self.freeze().edges == self.edges,
            self.freeze().adjacency == self.adjacency,
    {
        lemma_ordered_exists(self.freeze_worklist);
        assert(self.freeze_worklist.len() > 0) by {
            if self.freeze_worklist.len() == 0 {
                assert(self.freeze_worklist =~= Set::<Temp>::empty());
            }
        }
        let u = ordered(self.freeze_worklist)[0];
        assert(self.freeze_worklist.contains(u));
        let moved = State {
            freeze_worklist: self.freeze_worklist.remove(u),
            simplify_worklist: self.simplify_worklist.insert(u),
            ..self
        };
        assert(self.spill_worklist.remove(u) =~= self.spill_worklist);
        self.lemma_moved_placed(moved, u);
        moved.lemma_freeze_moves_placed(u);
    }

    /// Choosing a node to spill keeps every node in its place.
    pub proof fn lemma_select_spill_placed(self)
        requires
            self.wf(),
            placed(self),
            self.register_count > 0,
            self.worklist_moves == Set::<Move>::empty(),
            self.spill_worklist != Set::<Temp>::empty(),
        ensures
            placed(self.select_spill()),
            same_ground(self.select_spill(), self),
            self.select_spill().degree == self.degree,
            self.select_spill().edges == self.edges,
            self.select_spill().adjacency == self.adjacency,
    {
        lemma_ordered_exists(self.spill_worklist);
        assert(self.spill_worklist.len() > 0) by {
            if self.spill_worklist.len() == 0 {
                assert(self.spill_worklist =~= Set::<Temp>::empty());
            }
        }
        self.lemma_highest_degree(ordered(self.spill_worklist));
        let u = self.highest_degree(ordered(self.spill_worklist));
        assert(ordered(self.spill_worklist).to_set().contains(u));
        let moved = State {
            spill_worklist: self.spill_worklist.remove(u),
            simplify_worklist: self.simplify_worklist.insert(u),
            ..self
        };
        assert(self.freeze_worklist.remove(u) =~= self.freeze_worklist) by {
            if self.freeze_worklist.contains(u) {
                assert(!self.spill_worklist.contains(u));
            }
        }
        self.lemma_moved_placed(moved, u);
        moved.lemma_freeze_moves_placed(u);
    }

    /// A node that goes from the freeze or the spill worklist to the
    /// simplify worklist leaves every node in its place, but may have
    /// moves.
    pub proof fn lemma_moved_placed(self, moved: State, u: Temp)
        requires
            self.wf(),
            placed(self),
            self.freeze_worklist.contains(u) || self.spill_worklist.contains(u),
            moved == (State {
                freeze_worklist: self.freeze_worklist.remove(u),
                spill_worklist: self.spill_worklist.remove(u),
                simplify_worklist: self.simplify_worklist.insert(u),
                ..self
            }),
        ensures
            moved.wf(),
            placed_with(moved, Set::empty(), Set::empty(), set![u]),
            moved.simplify_worklist.contains(u),
    {
        assert(moved.wf()) by {
            lemma_len_subset(moved.freeze_worklist, self.freeze_worklist);
            lemma_len_subset(moved.spill_worklist, self.spill_worklist);
        }
        self.lemma_same_aliases(moved);
        assert forall|node: Temp| related(moved, node) == related(self, node) by {
            if related(moved, node) {
                let mov = choose|mov: Move| has_move(moved, node, mov);
                assert(has_move(self, node, mov));
            }
            if related(self, node) {
                let mov = choose|mov: Move| has_move(self, node, mov);
                assert(has_move(moved, node, mov));
            }
        }
        assert(!self.select_stack.contains(u)) by {
            if self.select_stack.contains(u) {
                let k = choose|k: int| 0 <= k < self.select_stack.len() && self.select_stack[k] == u;
                assert(unlisted(self, self.select_stack[k]));
            }
        }
        assert(!self.coalesced_nodes.contains(u)) by {
            if self.coalesced_nodes.contains(u) {
                assert(unlisted(self, u));
            }
        }
        assert forall|k: int| 0 <= k < moved.select_stack.len() implies unlisted(
            moved,
            #[trigger] moved.select_stack[k],
        ) && !moved.coalesced_nodes.contains(moved.select_stack[k]) && !related(
            moved,
            moved.select_stack[k],
        ) by {
            assert(unlisted(self, self.select_stack[k]));
        }
        assert forall|node: Temp| #[trigger] moved.coalesced_nodes.contains(node) implies unlisted(
            moved,
            node,
        ) by {
            assert(unlisted(self, node));
        }
        assert forall|node: Temp| #[trigger]
            moved.freeze_worklist.contains(node) implies !moved.precolored.contains(node)
            && !moved.spill_worklist.contains(node) && moved.degree[node.num]
            < moved.register_count && related(moved, node) by {
            assert(self.freeze_worklist.contains(node));
        }
        assert forall|node: Temp| #[trigger]
            moved.spill_worklist.contains(node) implies !moved.precolored.contains(node)
            && moved.degree[node.num] >= moved.register_count by {
            assert(self.spill_worklist.contains(node));
        }
        assert forall|mov: Move| #[trigger] pending(moved).contains(mov) implies moved.move_list[moved.get_alias(
            mov.source,
        ).num].contains(mov) && moved.move_list[moved.get_alias(mov.destination).num].contains(
            mov,
        ) by {
            assert(pending(self).contains(mov));
        }
        assert forall|node: Temp, mov: Move| #[trigger]
            has_move(moved, node, mov) && !moved.coalesced_nodes.contains(node) implies node
            == moved.get_alias(mov.source) || node == moved.get_alias(mov.destination) by {
            assert(has_move(self, node, mov));
        }
    }

    /// Once `v` has gone into `u`, `u` stands for what `v` stood for, and
    /// every other node stands for what it stood for.
    pub proof fn lemma_merged_alias(self, u: Temp, v: Temp, node: Temp)
        requires
            self.wf(),
            u != v,
            !self.coalesced_nodes.contains(u),
            !self.coalesced_nodes.contains(v),
            self.coalesced_nodes.len() < usize::MAX,
        ensures
            self.merge_node(u, v).get_alias(node) == if self.get_alias(node) == v {
                u
            } else {
                self.get_alias(node)
            },
        decreases self.height(node),
    {
        self.lemma_merge_node(u, v);
        let merged = self.merge_node(u, v);
        if self.coalesced_nodes.contains(node) {
            assert(node.num != v.num);
            assert(merged.alias[node.num] == self.alias[node.num]);
            self.lemma_merged_alias(u, v, self.alias[node.num]);
        } else if node == v {
            assert(merged.alias[v.num] == u);
            assert(merged.get_alias(u) == u);
        } else {
        }
    }

    /// Moving a node that is still in the graph to the simplify worklist,
    /// if it is of low degree and has no moves, keeps every node in its
    /// place, and the node is no longer lonely.
    pub proof fn lemma_add_worklist_placed(self, u: Temp, lonely: Set<Temp>)
        requires
            self.wf(),
            placed_with(self, Set::empty(), lonely, Set::empty()),
            present(self, u),
        ensures
            self.add_worklist(u).wf(),
            placed_with(self.add_worklist(u), Set::empty(), lonely.remove(u), Set::empty()),
            same_ground(self.add_worklist(u), self),
            pending(self.add_worklist(u)) == pending(self),
            self.add_worklist(u).worklist_moves == self.worklist_moves,
            self.add_worklist(u).degree == self.degree,
            self.add_worklist(u).edges == self.edges,
            self.add_worklist(u).adjacency == self.adjacency,
    {
        let after = self.add_worklist(u);
        let rest = lonely.remove(u);
        self.lemma_add_worklist(u);
        self.lemma_related(u);
        self.lemma_same_aliases(after);
        assert forall|node: Temp| related(after, node) == related(self, node) by {
            if related(after, node) {
                let mov = choose|mov: Move| has_move(after, node, mov);
                assert(has_move(self, node, mov));
            }
            if related(self, node) {
                let mov = choose|mov: Move| has_move(self, node, mov);
                assert(has_move(after, node, mov));
            }
        }
        let moves = !self.precolored.contains(u) && !self.move_related(u) && !self.significant(u);
        assert forall|k: int| 0 <= k < after.select_stack.len() implies unlisted(
            after,
            #[trigger] after.select_stack[k],
        ) && !after.coalesced_nodes.contains(after.select_stack[k]) && !related(
            after,
            after.select_stack[k],
        ) by {
            assert(unlisted(self, self.select_stack[k]));
            assert(self.select_stack[k] != u);
        }
        assert forall|node: Temp| #[trigger] after.coalesced_nodes.contains(node) implies unlisted(
            after,
            node,
        ) by {
            assert(unlisted(self, node));
        }
        assert forall|node: Temp| #[trigger]
            after.simplify_worklist.contains(node) implies !after.precolored.contains(node)
            && !after.freeze_worklist.contains(node) && !after.spill_worklist.contains(node)
            && !related(after, node) by {
            if node != u {
                assert(self.simplify_worklist.contains(node));
            } else if self.simplify_worklist.contains(node) {
                if moves {
                } else {
                    assert(after == self);
                }
            }
        }
        assert forall|node: Temp| #[trigger]
            after.freeze_worklist.contains(node) implies !after.precolored.contains(node)
            && !after.spill_worklist.contains(node) && after.degree[node.num]
            < after.register_count && (rest.contains(node) || related(after, node)) by {
            assert(self.freeze_worklist.contains(node));
            if node == u {
                assert(!moves);
            }
        }
        assert forall|mov: Move| #[trigger] pending(after).contains(mov) implies after.move_list[after.get_alias(
            mov.source,
        ).num].contains(mov) && after.move_list[after.get_alias(mov.destination).num].contains(
            mov,
        ) by {
            assert(pending(self).contains(mov));
        }
        assert forall|node: Temp, mov: Move| #[trigger]
            has_move(after, node, mov) && !after.coalesced_nodes.contains(node) implies node
            == after.get_alias(mov.source) || node == after.get_alias(mov.destination) by {
            assert(has_move(self, node, mov));
        }
    }

    /// A new edge keeps every node in its place, but its ends may wait to
    /// be frozen with a degree that has become significant.
    pub proof fn lemma_add_edge_placed(self, t: Temp, u: Temp, loose: Set<Temp>, lonely: Set<Temp>)
        requires
            self.wf(),
            placed_with(self, loose, lonely, Set::empty()),
        ensures
            self.add_edge(t, u).wf(),
            placed_with(self.add_edge(t, u), loose.insert(t).insert(u), lonely, Set::empty()),
            same_ground(self.add_edge(t, u), self),
            pending(self.add_edge(t, u)) == pending(self),
            self.add_edge(t, u).worklist_moves == self.worklist_moves,
            forall|key: u32|
                key != t.num && key != u.num ==> #[trigger] self.add_edge(t, u).degree[key]
                    == self.degree[key],
            forall|key: u32|
                self.degree[key] <= #[trigger] self.add_edge(t, u).degree[key] <= self.degree[key]
                    + 1,
            forall|node: Temp| #[trigger]
                self.precolored.contains(node) ==> self.add_edge(t, u).degree[node.num]
                    == self.degree[node.num],
    {
        let after = self.add_edge(t, u);
        let wide = loose.insert(t).insert(u);
        self.lemma_add_edge(t, u);
        self.lemma_same_aliases(after);
        assert forall|node: Temp| related(after, node) == related(self, node) by {
            if related(after, node) {
                let mov = choose|mov: Move| has_move(after, node, mov);
                assert(has_move(self, node, mov));
            }
            if related(self, node) {
                let mov = choose|mov: Move| has_move(self, node, mov);
                assert(has_move(after, node, mov));
            }
        }
        assert forall|key: u32|
            key != t.num && key != u.num implies #[trigger] after.degree[key] == self.degree[key] by {}
        assert forall|key: u32|
            self.degree[key] <= #[trigger] after.degree[key] <= self.degree[key] + 1 by {}
        assert forall|node: Temp| #[trigger] self.precolored.contains(node) implies after.degree[node.num]
            == self.degree[node.num] by {
            if node.num == t.num {
                assert(node == t);
            }
            if node.num == u.num {
                assert(node == u);
            }
        }
        assert forall|k: int| 0 <= k < after.select_stack.len() implies unlisted(
            after,
            #[trigger] after.select_stack[k],
        ) && !after.coalesced_nodes.contains(after.select_stack[k]) && !related(
            after,
            after.select_stack[k],
        ) by {
            assert(unlisted(self, self.select_stack[k]));
        }
        assert forall|node: Temp| #[trigger] after.coalesced_nodes.contains(node) implies unlisted(
            after,
            node,
        ) by {
            assert(unlisted(self, node));
        }
        assert forall|node: Temp| #[trigger]
            after.freeze_worklist.contains(node) implies !after.precolored.contains(node)
            && !after.spill_worklist.contains(node) && (wide.contains(node)
            || after.degree[node.num] < after.register_count) && (lonely.contains(node) || related(
            after,
            node,
        )) by {
            assert(self.freeze_worklist.contains(node));
            if node != t && node != u {
                assert(node.num != t.num && node.num != u.num);
            }
        }
        assert forall|node: Temp| #[trigger]
            after.spill_worklist.contains(node) implies !after.precolored.contains(node)
            && after.degree[node.num] >= after.register_count by {
            assert(self.spill_worklist.contains(node));
        }
        assert forall|mov: Move| #[trigger] pending(after).contains(mov) implies after.move_list[after.get_alias(
            mov.source,
        ).num].contains(mov) && after.move_list[after.get_alias(mov.destination).num].contains(
            mov,
        ) by {
            assert(pending(self).contains(mov));
        }
        assert forall|node: Temp, mov: Move| #[trigger]
            has_move(after, node, mov) && !after.coalesced_nodes.contains(node) implies node
            == after.get_alias(mov.source) || node == after.get_alias(mov.destination) by {
            assert(has_move(self, node, mov));
        }
    }

    /// Giving the neighbours of a merged node to the node it went into
    /// keeps every node in its place, but that node may wait to be frozen
    /// with a significant degree; and it lowers the degree of no
    /// pre-coloured node by more than one.
    pub proof fn lemma_merge_neighbors_placed(self, u: Temp, nodes: Seq<Temp>)
        requires
            self.wf(),
            placed_with(self, set![u], set![u], Set::empty()),
            self.register_count > 0,
            nodes.no_duplicates(),
            forall|i: int| 0 <= i < nodes.len() ==> present(self, #[trigger] nodes[i]) && nodes[i] != u,
            forall|node: Temp| #[trigger]
                self.precolored.contains(node) ==> self.degree[node.num] > self.register_count + 1,
        ensures
            self.merge_neighbors(u, nodes).wf(),
            placed_with(self.merge_neighbors(u, nodes), set![u], set![u], Set::empty()),
            same_ground(self.merge_neighbors(u, nodes), self),
            pending(self.merge_neighbors(u, nodes)) == pending(self),
            forall|node: Temp| #[trigger]
                self.precolored.contains(node) ==> self.merge_neighbors(u, nodes).degree[node.num] + 1
                    >= self.degree[node.num],
            forall|node: Temp| #[trigger]
                self.precolored.contains(node) && !nodes.contains(node) ==> self.merge_neighbors(
                    u,
                    nodes,
                ).degree[node.num] == self.degree[node.num],
        decreases nodes.len(),
    {
        if nodes.len() > 0 {
            let shorter = nodes.drop_last();
            let last = nodes[nodes.len() - 1];
            assert forall|i: int| 0 <= i < shorter.len() implies present(self, #[trigger] shorter[i])
                && shorter[i] != u by {
                assert(shorter[i] == nodes[i]);
            }
            assert(shorter.no_duplicates()) by {
                assert forall|i: int, j: int|
                    0 <= i < shorter.len() && 0 <= j < shorter.len() && i != j implies shorter[i]
                    != shorter[j] by {
                    assert(shorter[i] == nodes[i]);
                    assert(shorter[j] == nodes[j]);
                }
            }
            self.lemma_merge_neighbors_placed(u, shorter);
            let before = self.merge_neighbors(u, shorter);
            assert(!shorter.contains(last)) by {
                if shorter.contains(last) {
                    let i = choose|i: int| 0 <= i < shorter.len() && shorter[i] == last;
                    assert(nodes[i] == nodes[nodes.len() - 1]);
                }
            }
            assert(present(self, nodes[nodes.len() - 1]) && last != u);
            before.lemma_add_edge_placed(last, u, set![u], set![u]);
            let joined = before.add_edge(last, u);
            let wide = set![u].insert(last).insert(u);
            assert(present(joined, last));
            if before.freeze_worklist.contains(last) {
                assert(!set![u].contains(last));
                assert(before.degree[last.num] < before.register_count);
            }
            if before.precolored.contains(last) {
                assert(before.degree[last.num] == self.degree[last.num]);
            }
            joined.lemma_decrement_degree_placed(last, wide, set![u]);
            assert(wide.remove(last) =~= set![u]);
            let after = self.merge_neighbors(u, nodes);
            assert(after == joined.decrement_degree(last));
            assert forall|node: Temp| #[trigger] self.precolored.contains(node) implies after.degree[node.num]
                + 1 >= self.degree[node.num] by {
                assert(joined.degree[node.num] == before.degree[node.num]);
                if node.num == last.num {
                    assert(node == last);
                    assert(before.degree[node.num] == self.degree[node.num]);
                } else {
                    assert(after.degree[node.num] == joined.degree[node.num]);
                }
            }
            assert forall|node: Temp| #[trigger]
                self.precolored.contains(node) && !nodes.contains(node) implies after.degree[node.num]
                == self.degree[node.num] by {
                assert(joined.degree[node.num] == before.degree[node.num]);
                assert(node != last) by {
                    if node == last {
                        assert(nodes[nodes.len() - 1] == node);
                    }
                }
                assert(node.num != last.num);
                if shorter.contains(node) {
                    let i = choose|i: int| 0 <= i < shorter.len() && shorter[i] == node;
                    assert(nodes[i] == node);
                }
                assert(after.degree[node.num] == joined.degree[node.num]);
            }
        }
    }

    /// Once `v` has gone into `u`, every node is in its place, but `u` may
    /// wait to be frozen without a move.
    pub proof fn lemma_merge_node_placed(self, u: Temp, v: Temp)
        requires
            self.wf(),
            placed_with(self, Set::empty(), set![u, v], Set::empty()),
            u != v,
            present(self, u),
            present(self, v),
            !self.precolored.contains(v),
            !self.simplify_worklist.contains(u),
            !self.simplify_worklist.contains(v),
            self.coalesced_nodes.len() < usize::MAX,
        ensures
            self.merge_node(u, v).wf(),
            placed_with(self.merge_node(u, v), Set::empty(), set![u], Set::empty()),
            pending(self.merge_node(u, v)) == pending(self),
            self.merge_node(u, v).select_stack == self.select_stack,
            self.merge_node(u, v).coalesced_nodes == self.coalesced_nodes.insert(v),
            self.merge_node(u, v).degree == self.degree,
            self.merge_node(u, v).edges == self.edges,
            self.merge_node(u, v).adjacency == self.adjacency,
            self.merge_node(u, v).precolored == self.precolored,
            self.merge_node(u, v).register_count == self.register_count,
    {
        let merged = self.merge_node(u, v);
        self.lemma_merge_node(u, v);
        assert forall|node: Temp|
            #[trigger] merged.get_alias(node) == if self.get_alias(node) == v {
                u
            } else {
                self.get_alias(node)
            } by {
            self.lemma_merged_alias(u, v, node);
        }
        assert(self.get_alias(u) == u && self.get_alias(v) == v);
        assert forall|node: Temp, mov: Move| node != u && #[trigger] has_move(merged, node, mov) implies has_move(
            self,
            node,
            mov,
        ) by {
            assert(node.num != u.num);
        }
        assert forall|node: Temp, mov: Move| #[trigger] has_move(self, node, mov) implies has_move(
            merged,
            node,
            mov,
        ) by {}
        assert forall|mov: Move| #[trigger] has_move(merged, u, mov) implies has_move(self, u, mov)
            || has_move(self, v, mov) by {}
        assert forall|k: int| 0 <= k < merged.select_stack.len() implies unlisted(
            merged,
            #[trigger] merged.select_stack[k],
        ) && !merged.coalesced_nodes.contains(merged.select_stack[k]) && !related(
            merged,
            merged.select_stack[k],
        ) by {
            let node = self.select_stack[k];
            assert(unlisted(self, node));
            assert(node != u && node != v);
            if related(merged, node) {
                let mov = choose|mov: Move| has_move(merged, node, mov);
                assert(has_move(self, node, mov));
            }
        }
        assert forall|node: Temp| #[trigger] merged.coalesced_nodes.contains(node) implies unlisted(
            merged,
            node,
        ) by {
            if node != v {
                assert(unlisted(self, node));
            } else {
                if self.freeze_worklist.contains(v) {
                    assert(!self.spill_worklist.contains(v));
                }
            }
        }
        assert forall|node: Temp| #[trigger]
            merged.simplify_worklist.contains(node) implies !merged.precolored.contains(node)
            && !merged.freeze_worklist.contains(node) && !merged.spill_worklist.contains(node)
            && !related(merged, node) by {
            assert(self.simplify_worklist.contains(node));
            if related(merged, node) {
                let mov = choose|mov: Move| has_move(merged, node, mov);
                assert(has_move(self, node, mov));
            }
        }
        assert forall|node: Temp| #[trigger]
            merged.freeze_worklist.contains(node) implies !merged.precolored.contains(node)
            && !merged.spill_worklist.contains(node) && merged.degree[node.num]
            < merged.register_count && (set![u].contains(node) || related(merged, node)) by {
            assert(self.freeze_worklist.contains(node));
            assert(node != v);
            if node != u {
                assert(!set![u, v].contains(node));
                let mov = choose|mov: Move| has_move(self, node, mov);
                assert(has_move(merged, node, mov));
            }
        }
        assert forall|node: Temp| #[trigger]
            merged.spill_worklist.contains(node) implies !merged.precolored.contains(node)
            && merged.degree[node.num] >= merged.register_count by {
            assert(self.spill_worklist.contains(node));
        }
        assert forall|mov: Move| #[trigger] pending(merged).contains(mov) implies merged.move_list[merged.get_alias(
            mov.source,
        ).num].contains(mov) && merged.move_list[merged.get_alias(
            mov.destination,
        ).num].contains(mov) by {
            assert(pending(self).contains(mov));
        }
        assert forall|node: Temp, mov: Move| #[trigger]
            has_move(merged, node, mov) && !merged.coalesced_nodes.contains(node) implies node
            == merged.get_alias(mov.source) || node == merged.get_alias(mov.destination) by {
            if node != u {
                assert(has_move(self, node, mov));
            } else {
                if has_move(self, u, mov) {
                } else {
                    assert(has_move(self, v, mov));
                }
            }
        }
    }

    /// Merging `v` into `u`, two different nodes that are still in the
    /// graph and have no edge between them, keeps every node in its
    /// place, but `u` may wait to be frozen without a move; and it lowers
    /// the degree of no pre-coloured node by more than one.
    pub proof fn lemma_combine_placed(self, u: Temp, v: Temp)
        requires
            self.wf(),
            placed_with(self, Set::empty(), set![u, v], Set::empty()),
            self.register_count > 0,
            u != v,
            present(self, u),
            present(self, v),
            !self.precolored.contains(v),
            !self.simplify_worklist.contains(u),
            !self.simplify_worklist.contains(v),
            !self.edges.contains(Edge { first: u, second: v }),
            self.coalesced_nodes.len() < usize::MAX,
            forall|node: Temp| #[trigger]
                self.precolored.contains(node) ==> self.degree[node.num] > self.register_count + 1,
        ensures
            self.combine(u, v).wf(),
            placed_with(self.combine(u, v), Set::empty(), set![u], Set::empty()),
            pending(self.combine(u, v)) == pending(self),
            self.combine(u, v).select_stack == self.select_stack,
            self.combine(u, v).coalesced_nodes == self.coalesced_nodes.insert(v),
            self.combine(u, v).precolored == self.precolored,
            self.combine(u, v).register_count == self.register_count,
            forall|node: Temp| #[trigger]
                self.precolored.contains(node) ==> self.combine(u, v).degree[node.num] + 1
                    >= self.degree[node.num],
    {
        self.lemma_combine(u, v);
        self.lemma_merge_node(u, v);
        self.lemma_merge_node_placed(u, v);
        let merged = self.merge_node(u, v);
        merged.lemma_enable_moves_placed(seq![v], Set::empty(), set![u], Set::empty());
        let enabled = merged.enable_moves(seq![v]);
        let nodes = ordered(enabled.adjacent(v));
        assert(enabled.adjacency[v.num].finite());
        lemma_len_subset(enabled.adjacent(v), enabled.adjacency[v.num]);
        lemma_ordered_exists(enabled.adjacent(v));
        assert forall|i: int| 0 <= i < nodes.len() implies present(enabled, #[trigger] nodes[i])
            && nodes[i] != u by {
            assert(nodes.to_set().contains(nodes[i]));
            if enabled.select_stack.contains(nodes[i]) {
                assert(enabled.select_stack.to_set().contains(nodes[i]));
            }
            if nodes[i] == u {
                assert(self.adjacency[v.num].contains(u));
                assert(self.edges.contains(Edge { first: v, second: u }));
            }
        }
        enabled.lemma_widen(Set::empty(), set![u], set![u]);
        enabled.lemma_merge_neighbors_placed(u, nodes);
        let joined = enabled.merge_neighbors(u, nodes);
        let after = self.combine(u, v);
        joined.lemma_same_aliases(after);
        assert forall|node: Temp| related(after, node) == related(joined, node) by {
            if related(after, node) {
                let mov = choose|mov: Move| has_move(after, node, mov);
                assert(has_move(joined, node, mov));
            }
            if related(joined, node) {
                let mov = choose|mov: Move| has_move(joined, node, mov);
                assert(has_move(after, node, mov));
            }
        }
        assert(!joined.simplify_worklist.contains(u) || !joined.freeze_worklist.contains(u));
        assert forall|k: int| 0 <= k < after.select_stack.len() implies unlisted(
            after,
            #[trigger] after.select_stack[k],
        ) && !after.coalesced_nodes.contains(after.select_stack[k]) && !related(
            after,
            after.select_stack[k],
        ) by {
            assert(unlisted(joined, joined.select_stack[k]));
        }
        assert forall|node: Temp| #[trigger] after.coalesced_nodes.contains(node) implies unlisted(
            after,
            node,
        ) by {
            assert(unlisted(joined, node));
        }
        assert forall|node: Temp| #[trigger]
            after.simplify_worklist.contains(node) implies !after.precolored.contains(node)
            && !after.freeze_worklist.contains(node) && !after.spill_worklist.contains(node)
            && !related(after, node) by {
            assert(joined.simplify_worklist.contains(node));
        }
        assert forall|node: Temp| #[trigger]
            after.freeze_worklist.contains(node) implies !after.precolored.contains(node)
            && !after.spill_worklist.contains(node) && after.degree[node.num]
            < after.register_count && (set![u].contains(node) || related(after, node)) by {
            assert(joined.freeze_worklist.contains(node));
        }
        assert forall|node: Temp| #[trigger]
            after.spill_worklist.contains(node) implies !after.precolored.contains(node)
            && after.degree[node.num] >= after.register_count by {
            if node != u {
                assert(joined.spill_worklist.contains(node));
            } else if joined.spill_worklist.contains(node) {
            } else {
                assert(joined.freeze_worklist.contains(u));
            }
        }
        assert forall|mov: Move| #[trigger] pending(after).contains(mov) implies after.move_list[after.get_alias(
            mov.source,
        ).num].contains(mov) && after.move_list[after.get_alias(mov.destination).num].contains(
            mov,
        ) by {
            assert(pending(joined).contains(mov));
        }
        assert forall|node: Temp, mov: Move| #[trigger]
            has_move(after, node, mov) && !after.coalesced_nodes.contains(node) implies node
            == after.get_alias(mov.source) || node == after.get_alias(mov.destination) by {
            assert(has_move(joined, node, mov));
        }
        assert forall|node: Temp| #[trigger] self.precolored.contains(node) implies after.degree[node.num]
            + 1 >= self.degree[node.num] by {
            assert(joined.degree[node.num] + 1 >= enabled.degree[node.num]);
        }
    }

    /// Nodes that keep their places keep them where more nodes may be
    /// loose or lonely.
    pub proof fn lemma_widen(self, loose: Set<Temp>, lonely: Set<Temp>, wider: Set<Temp>)
        requires
            placed_with(self, loose, lonely, Set::empty()),
            loose.subset_of(wider),
        ensures
            placed_with(self, wider, lonely, Set::empty()),
    {
    }

    /// Taking a move from the worklist leaves every node in its place, but
    /// what stands for its ends may wait to be frozen without a move.
    pub proof fn lemma_popped_placed(self, mov: Move)
        requires
            self.wf(),
            placed(self),
            self.worklist_moves.contains(mov),
        ensures
            ({
                let popped = State { worklist_moves: self.worklist_moves.remove(mov), ..self };
                let first = self.get_alias(mov.source);
                let second = self.get_alias(mov.destination);
                &&& popped.wf()
                &&& placed_with(popped, Set::empty(), set![first, second], Set::empty())
                &&& present(popped, first)
                &&& present(popped, second)
                &&& !popped.simplify_worklist.contains(first)
                &&& !popped.simplify_worklist.contains(second)
                &&& popped.get_alias(mov.source) == first
                &&& popped.get_alias(mov.destination) == second
            }),
    {
        let popped = State { worklist_moves: self.worklist_moves.remove(mov), ..self };
        let first = self.get_alias(mov.source);
        let second = self.get_alias(mov.destination);
        let lonely = set![first, second];
        assert(popped.wf()) by {
            lemma_len_subset(popped.worklist_moves, self.worklist_moves);
        }
        assert(pending(self).contains(mov));
        self.lemma_same_aliases(popped);
        self.lemma_alias_not_coalesced(mov.source);
        self.lemma_alias_not_coalesced(mov.destination);
        assert(has_move(self, first, mov));
        assert(has_move(self, second, mov));
        assert(!self.select_stack.contains(first)) by {
            if self.select_stack.contains(first) {
                let k = choose|k: int| 0 <= k < self.select_stack.len() && self.select_stack[k] == first;
                assert(!related(self, self.select_stack[k]));
            }
        }
        assert(!self.select_stack.contains(second)) by {
            if self.select_stack.contains(second) {
                let k = choose|k: int|
                    0 <= k < self.select_stack.len() && self.select_stack[k] == second;
                assert(!related(self, self.select_stack[k]));
            }
        }
        assert forall|node: Temp, other: Move| #[trigger] has_move(popped, node, other) implies has_move(
            self,
            node,
            other,
        ) by {}
        assert forall|node: Temp| #[trigger] related(popped, node) implies related(self, node) by {
            let other = choose|other: Move| has_move(popped, node, other);
            assert(has_move(self, node, other));
        }
        assert forall|k: int| 0 <= k < popped.select_stack.len() implies unlisted(
            popped,
            #[trigger] popped.select_stack[k],
        ) && !popped.coalesced_nodes.contains(popped.select_stack[k]) && !related(
            popped,
            popped.select_stack[k],
        ) by {
            assert(unlisted(self, self.select_stack[k]));
        }
        assert forall|node: Temp| #[trigger] popped.coalesced_nodes.contains(node) implies unlisted(
            popped,
            node,
        ) by {
            assert(unlisted(self, node));
        }
        assert forall|node: Temp| #[trigger]
            popped.freeze_worklist.contains(node) implies !popped.precolored.contains(node)
            && !popped.spill_worklist.contains(node) && popped.degree[node.num]
            < popped.register_count && (lonely.contains(node) || related(popped, node)) by {
            assert(self.freeze_worklist.contains(node));
            if !lonely.contains(node) {
                assert(!self.coalesced_nodes.contains(node)) by {
                    if self.coalesced_nodes.contains(node) {
                        assert(unlisted(self, node));
                    }
                }
                let other = choose|other: Move| has_move(self, node, other);
                if other == mov {
                    assert(has_move(self, node, mov));
                }
                assert(pending(popped).contains(other));
                assert(has_move(popped, node, other));
            }
        }
        assert forall|other: Move| #[trigger] pending(popped).contains(other) implies popped.move_list[popped.get_alias(
            other.source,
        ).num].contains(other) && popped.move_list[popped.get_alias(
            other.destination,
        ).num].contains(other) by {
            assert(pending(self).contains(other));
        }
        assert forall|node: Temp, other: Move| #[trigger]
            has_move(popped, node, other) && !popped.coalesced_nodes.contains(node) implies node
            == popped.get_alias(other.source) || node == popped.get_alias(other.destination) by {
            assert(has_move(self, node, other));
        }
    }

    /// What differs from a state only in the records of the moves that
    /// were looked at keeps every node in its place.
    pub proof fn lemma_marked_placed(self, marked: State, lonely: Set<Temp>)
        requires
            self.wf(),
            placed_with(self, Set::empty(), lonely, Set::empty()),
            marked == (State {
                coalesced_moves: marked.coalesced_moves,
                constrained_moves: marked.constrained_moves,
                ..self
            }),
        ensures
            marked.wf(),
            placed_with(marked, Set::empty(), lonely, Set::empty()),
    {
        self.lemma_placed_kept(marked, Set::empty(), lonely, Set::empty());
    }

    /// Looking at a move keeps every node in its place and lowers the
    /// degree of no pre-coloured node by more than one.
    pub proof fn lemma_coalesce_placed(self)
        requires
            self.wf(),
            placed(self),
            self.register_count > 0,
            self.worklist_moves != Set::<Move>::empty(),
            exists|node: Temp| self.precolored.contains(node),
            forall|node: Temp| #[trigger]
                self.precolored.contains(node) ==> self.degree[node.num] > self.register_count + 1,
        ensures
            self.coalesce().wf(),
            placed(self.coalesce()),
            self.coalesce().precolored == self.precolored,
            self.coalesce().register_count == self.register_count,
            forall|node: Temp| #[trigger]
                self.precolored.contains(node) ==> self.coalesce().degree[node.num] + 1
                    >= self.degree[node.num],
            forall|node: Temp| #[trigger]
                self.precolored.contains(node) ==> self.coalesce().degree[node.num]
                    + self.coalesce().removed() >= self.degree[node.num] + self.removed(),
    {
        lemma_ordered_exists(self.worklist_moves);
        assert(self.worklist_moves.len() > 0) by {
            if self.worklist_moves.len() == 0 {
                assert(self.worklist_moves =~= Set::<Move>::empty());
            }
        }
        let mov = ordered(self.worklist_moves)[0];
        assert(self.worklist_moves.contains(mov));
        self.lemma_popped_placed(mov);
        let popped = State { worklist_moves: self.worklist_moves.remove(mov), ..self };
        let first = self.get_alias(mov.source);
        let second = self.get_alias(mov.destination);
        let u = popped.target(mov);
        let v = popped.merged(mov);
        let after = self.coalesce();
        assert(set![first, second] =~= set![u, v]);
        let fixed = choose|node: Temp| self.precolored.contains(node);
        assert(!self.coalesced_nodes.contains(fixed)) by {
            if self.coalesced_nodes.contains(fixed) {
                assert(unlisted(self, fixed));
            }
        }
        if u == v {
            let marked = State { coalesced_moves: popped.coalesced_moves.insert(mov), ..popped };
            popped.lemma_marked_placed(marked, set![u, v]);
            marked.lemma_add_worklist_placed(u, set![u, v]);
            assert(set![u, v].remove(u) =~= Set::<Temp>::empty());
        } else if popped.precolored.contains(v) || popped.edges.contains(
            Edge { first: u, second: v },
        ) {
            let marked = State { constrained_moves: popped.constrained_moves.insert(mov), ..popped };
            popped.lemma_marked_placed(marked, set![u, v]);
            marked.lemma_add_worklist_placed(u, set![u, v]);
            let middle = marked.add_worklist(u);
            middle.lemma_add_worklist_placed(v, set![u, v].remove(u));
            assert(set![u, v].remove(u).remove(v) =~= Set::<Temp>::empty());
        } else if popped.may_combine(u, v) {
            let marked = State { coalesced_moves: popped.coalesced_moves.insert(mov), ..popped };
            popped.lemma_marked_placed(marked, set![u, v]);
            assert(!self.coalesced_nodes.insert(v).contains(fixed)) by {
                if fixed == v {
                    assert(!popped.precolored.contains(v));
                }
            }
            lemma_temps_bound(self.coalesced_nodes.insert(v), fixed);
            assert(self.coalesced_nodes.len() < self.coalesced_nodes.insert(v).len());
            marked.lemma_combine_placed(u, v);
            let combined = marked.combine(u, v);
            assert(present(combined, u)) by {
                assert(!combined.coalesced_nodes.contains(u));
            }
            combined.lemma_add_worklist_placed(u, set![u]);
            assert(set![u].remove(u) =~= Set::<Temp>::empty());
        } else {
            let aside = State { active_moves: popped.active_moves.insert(mov), ..popped };
            assert(pending(aside) =~= pending(self));
            assert(aside.wf());
            self.lemma_placed_kept(aside, Set::empty(), Set::empty(), Set::empty());
        }
    }

    /// A step keeps every node in its place and takes one from the degrees
    /// of the pre-coloured at most.
    pub proof fn lemma_step_placed(self, slack: nat)
        requires
            self.wf(),
            placed(self),
            self.register_count > 0,
            exists|node: Temp| self.precolored.contains(node),
            roomy(self, slack + 1),
        ensures
            self.step().wf(),
            placed(self.step()),
            roomy(self.step(), slack),
            self.step().precolored == self.precolored,
            self.step().register_count == self.register_count,
            self.step().registers == self.registers,
    {
        let after = self.step();
        if self.simplify_worklist != Set::<Temp>::empty() {
            self.lemma_simplify_placed();
            self.lemma_simplify();
            assert forall|node: Temp| #[trigger] after.precolored.contains(node) implies after.degree[node.num]
                > after.register_count + slack by {
                assert(after.degree[node.num] + 1 >= self.degree[node.num]);
            }
        } else if self.worklist_moves != Set::<Move>::empty() {
            self.lemma_coalesce_placed();
            self.lemma_coalesce();
        } else if self.freeze_worklist != Set::<Temp>::empty() {
            self.lemma_freeze_placed();
            self.lemma_freeze();
        } else if self.spill_worklist != Set::<Temp>::empty() {
            self.lemma_select_spill_placed();
            self.lemma_select_spill();
        } else {
        }
    }

}

/// Whether no edge leads from a node to itself, and every edge that
/// leaves a node that is not pre-coloured stands in the node's list of
/// neighbours.
pub open spec fn complete(state: State) -> bool {
    forall|edge: Edge| #[trigger]
        state.edges.contains(edge) ==> edge.first != edge.second && (!state.precolored.contains(
            edge.first,
        ) ==> state.adjacency[edge.first.num].contains(edge.second))
}

/// Whether the state has the worklists, the stack and the moves of
/// `before`, and its machine.
pub open spec fn same_places(after: State, before: State) -> bool {
    &&& after.active_moves == before.active_moves
    &&& after.worklist_moves == before.worklist_moves
    &&& after.freeze_worklist == before.freeze_worklist
    &&& after.simplify_worklist == before.simplify_worklist
    &&& after.spill_worklist == before.spill_worklist
    &&& after.coalesced_nodes == before.coalesced_nodes
    &&& after.colored_nodes == before.colored_nodes
    &&& after.select_stack == before.select_stack
    &&& after.spill_nodes == before.spill_nodes
    &&& after.move_list == before.move_list
    &&& after.precolored == before.precolored
    &&& after.registers == before.registers
    &&& after.register_count == before.register_count
}

impl State {
    /// A new edge stands in the graph with all that were there, and in the
    /// lists of neighbours of its ends.
    pub proof fn lemma_add_edge_complete(self, u: Temp, v: Temp)
        requires
            self.wf(),
            complete(self),
        ensures
            self.add_edge(u, v).wf(),
            complete(self.add_edge(u, v)),
            same_places(self.add_edge(u, v), self),
            self.edges.subset_of(self.add_edge(u, v).edges),
            u != v ==> self.add_edge(u, v).edges.contains(Edge { first: u, second: v }),
    {
        self.lemma_add_edge(u, v);
        let after = self.add_edge(u, v);
        assert forall|edge: Edge| #[trigger] after.edges.contains(edge) implies edge.first
            != edge.second && (!after.precolored.contains(edge.first)
            ==> after.adjacency[edge.first.num].contains(edge.second)) by {
            if self.edges.contains(edge) {
                assert(self.adjacency[edge.first.num].contains(edge.second)
                    || self.precolored.contains(edge.first));
            }
        }
    }

    /// The edges between a node and those at some entries stand in the
    /// graph with all that were there.
    pub proof fn lemma_build_edges_complete(
        self,
        nodes: Seq<graph::Node<Temp>>,
        temp: Temp,
        entries: Seq<graph::Entry>,
    )
        requires
            self.wf(),
            complete(self),
        ensures
            self.build_edges(nodes, temp, entries).wf(),
            complete(self.build_edges(nodes, temp, entries)),
            same_places(self.build_edges(nodes, temp, entries), self),
            self.edges.subset_of(self.build_edges(nodes, temp, entries).edges),
            forall|k: int|
                0 <= k < entries.len() && temp != nodes[(#[trigger] entries[k]).0 as int].element
                    ==> self.build_edges(nodes, temp, entries).edges.contains(
                    Edge { first: temp, second: nodes[entries[k].0 as int].element },
                ),
        decreases entries.len(),
    {
        if entries.len() > 0 {
            let shorter = entries.drop_last();
            self.lemma_build_edges_complete(nodes, temp, shorter);
            let before = self.build_edges(nodes, temp, shorter);
            let other = nodes[entries.last().0 as int].element;
            before.lemma_add_edge_complete(temp, other);
            let after = self.build_edges(nodes, temp, entries);
            assert forall|k: int|
                0 <= k < entries.len() && temp != nodes[(#[trigger] entries[k]).0 as int].element implies after.edges.contains(
                Edge { first: temp, second: nodes[entries[k].0 as int].element },
            ) by {
                if k < entries.len() - 1 {
                    assert(shorter[k] == entries[k]);
                    assert(before.edges.contains(
                        Edge { first: temp, second: nodes[shorter[k].0 as int].element },
                    ));
                }
            }
        }
    }

    /// The edges of the first nodes of an interference graph stand in the
    /// graph.
    pub proof fn lemma_build_nodes_complete(self, nodes: Seq<graph::Node<Temp>>, upto: int)
        requires
            self.wf(),
            complete(self),
            upto <= nodes.len(),
        ensures
            self.build_nodes(nodes, upto).wf(),
            complete(self.build_nodes(nodes, upto)),
            same_places(self.build_nodes(nodes, upto), self),
            self.edges.subset_of(self.build_nodes(nodes, upto).edges),
            forall|n: int, m: int|
                0 <= n < upto && 0 <= m < nodes[n].successors@.len() && nodes[n].element
                    != nodes[(#[trigger] nodes[n].successors@[m]).0 as int].element
                    ==> self.build_nodes(nodes, upto).edges.contains(
                    Edge {
                        first: nodes[n].element,
                        second: nodes[nodes[n].successors@[m].0 as int].element,
                    },
                ),
        decreases upto,
    {
        if upto > 0 {
            self.lemma_build_nodes_complete(nodes, upto - 1);
            let node = nodes[upto - 1];
            let before = self.build_nodes(nodes, upto - 1);
            before.lemma_build_edges_complete(nodes, node.element, node.predecessors@);
            let middle = before.build_edges(nodes, node.element, node.predecessors@);
            middle.lemma_build_edges_complete(nodes, node.element, node.successors@);
            let after = self.build_nodes(nodes, upto);
            assert forall|n: int, m: int|
                0 <= n < upto && 0 <= m < nodes[n].successors@.len() && nodes[n].element
                    != nodes[(#[trigger] nodes[n].successors@[m]).0 as int].element implies after.edges.contains(
                Edge {
                    first: nodes[n].element,
                    second: nodes[nodes[n].successors@[m].0 as int].element,
                },
            ) by {
                if n < upto - 1 {
                    assert(before.edges.contains(
                        Edge {
                            first: nodes[n].element,
                            second: nodes[nodes[n].successors@[m].0 as int].element,
                        },
                    ));
                }
            }
        }
    }

    /// Unbounded degrees change nothing but the degrees of the nodes they
    /// are given to.
    pub proof fn lemma_unbounded_complete(self, nodes: Seq<Temp>)
        ensures
            same_places(self.unbounded_degrees(nodes), self),
            self.unbounded_degrees(nodes).edges == self.edges,
            self.unbounded_degrees(nodes).adjacency == self.adjacency,
            forall|i: int|
                0 <= i < nodes.len() ==> self.unbounded_degrees(nodes).degree[(#[trigger] nodes[i]).num]
                    == usize::MAX,
        decreases nodes.len(),
    {
        if nodes.len() > 0 {
            self.lemma_unbounded_complete(nodes.drop_last());
            let after = self.unbounded_degrees(nodes);
            assert forall|i: int| 0 <= i < nodes.len() implies after.degree[(#[trigger] nodes[i]).num]
                == usize::MAX by {
                if i < nodes.len() - 1 {
                    assert(nodes.drop_last()[i] == nodes[i]);
                }
            }
        }
    }
}

/// Whether the list of neighbours of `node` leads to a node that `other`
/// stands for.
pub open spec fn sees(state: State, node: Temp, other: Temp) -> bool {
    exists|neighbor: Temp| #[trigger]
        state.adjacency[node.num].contains(neighbor) && state.get_alias(neighbor) == other
}

/// Whether the edges keep apart what stands for their ends: no edge leads
/// from a node to itself or joins two nodes that the same node stands
/// for; what stands for the ends of an edge has an edge between it, as
/// long as neither is on the stack; and a node of the stack sees what
/// stands for the other end of each edge of a node that it stands for,
/// unless that is on the stack at or below it.
pub open spec fn guarded(state: State) -> bool {
    &&& complete(state)
    &&& forall|edge: Edge| #[trigger]
        state.edges.contains(edge) ==> state.get_alias(edge.first) != state.get_alias(edge.second)
    &&& forall|edge: Edge| #[trigger]
        state.edges.contains(edge) && !state.select_stack.contains(state.get_alias(edge.first))
            && !state.select_stack.contains(state.get_alias(edge.second))
            ==> state.edges.contains(
            Edge { first: state.get_alias(edge.first), second: state.get_alias(edge.second) },
        )
    &&& forall|edge: Edge, i: int|
        #![trigger state.edges.contains(edge), state.select_stack[i]]
        state.edges.contains(edge) && 0 <= i < state.select_stack.len() && state.select_stack[i]
            == state.get_alias(edge.first) && misses(
            state.select_stack,
            i + 1,
            state.get_alias(edge.second),
        ) ==> sees(state, state.get_alias(edge.first), state.get_alias(edge.second))
}

impl State {
    /// What has the edges, the lists of neighbours, the stack and the
    /// aliases of a state keeps apart what that keeps apart.
    pub proof fn lemma_guarded_kept(self, other: State)
        requires
            self.alias_ok(),
            guarded(self),
            other.edges == self.edges,
            other.adjacency == self.adjacency,
            other.select_stack == self.select_stack,
            other.coalesced_nodes == self.coalesced_nodes,
            other.alias == self.alias,
            other.rank == self.rank,
            other.precolored == self.precolored,
        ensures
            guarded(other),
    {
        self.lemma_same_alias_ground(other);
        assert forall|edge: Edge, i: int|
            #![trigger other.edges.contains(edge), other.select_stack[i]]
            other.edges.contains(edge) && 0 <= i < other.select_stack.len() && other.select_stack[i]
                == other.get_alias(edge.first) && misses(
                other.select_stack,
                i + 1,
                other.get_alias(edge.second),
            ) implies sees(other, other.get_alias(edge.first), other.get_alias(edge.second)) by {
            assert(self.edges.contains(edge) && self.select_stack[i] == self.get_alias(edge.first));
            let a = self.get_alias(edge.first);
            let b = self.get_alias(edge.second);
            assert(sees(self, a, b));
            let neighbor = choose|neighbor: Temp| #[trigger]
                self.adjacency[a.num].contains(neighbor) && self.get_alias(neighbor) == b;
            assert(other.adjacency[a.num].contains(neighbor) && other.get_alias(neighbor) == b);
        }
    }

    /// Putting a node that is still in the graph and not pre-coloured on
    /// the stack keeps apart what was kept apart.
    pub proof fn lemma_pushed_guarded(self, temp: Temp)
        requires
            self.wf(),
            guarded(self),
            present(self, temp),
            !self.precolored.contains(temp),
        ensures
            guarded(State { select_stack: self.select_stack.push(temp), ..self }),
    {
        let pushed = State { select_stack: self.select_stack.push(temp), ..self };
        self.lemma_same_alias_ground(pushed);
        let top = self.select_stack.len() as int;
        assert forall|node: Temp| self.select_stack.contains(node) implies pushed.select_stack.contains(
            node,
        ) by {
            let k = choose|k: int| 0 <= k < self.select_stack.len() && self.select_stack[k] == node;
            assert(pushed.select_stack[k] == node);
        }
        assert forall|node: Temp|
            pushed.select_stack.contains(node) && node != temp implies self.select_stack.contains(
            node,
        ) by {
            let k = choose|k: int| 0 <= k < pushed.select_stack.len() && pushed.select_stack[k] == node;
            assert(self.select_stack[k] == node);
        }
        assert forall|edge: Edge| #[trigger]
            pushed.edges.contains(edge) && !pushed.select_stack.contains(
                pushed.get_alias(edge.first),
            ) && !pushed.select_stack.contains(
                pushed.get_alias(edge.second),
            ) implies pushed.edges.contains(
            Edge { first: pushed.get_alias(edge.first), second: pushed.get_alias(edge.second) },
        ) by {
            assert(self.edges.contains(edge));
        }
        assert forall|edge: Edge, i: int|
            #![trigger pushed.edges.contains(edge), pushed.select_stack[i]]
            pushed.edges.contains(edge) && 0 <= i < pushed.select_stack.len() && pushed.select_stack[i]
                == pushed.get_alias(edge.first) && misses(
                pushed.select_stack,
                i + 1,
                pushed.get_alias(edge.second),
            ) implies sees(pushed, pushed.get_alias(edge.first), pushed.get_alias(edge.second)) by {
            let a = self.get_alias(edge.first);
            let b = self.get_alias(edge.second);
            assert(self.edges.contains(edge));
            if i < top {
                assert(self.select_stack[i] == a);
                assert(misses(self.select_stack, i + 1, b)) by {
                    assert forall|k: int|
                        0 <= k < i + 1 && k < self.select_stack.len() implies #[trigger] self.select_stack[k]
                        != b by {
                        assert(pushed.select_stack[k] != b);
                    }
                }
                assert(sees(self, a, b));
                let neighbor = choose|neighbor: Temp| #[trigger]
                    self.adjacency[a.num].contains(neighbor) && self.get_alias(neighbor) == b;
                assert(pushed.adjacency[a.num].contains(neighbor) && pushed.get_alias(neighbor)
                    == b);
            } else {
                assert(a == temp);
                assert(!self.select_stack.contains(b)) by {
                    if self.select_stack.contains(b) {
                        let k = choose|k: int|
                            0 <= k < self.select_stack.len() && self.select_stack[k] == b;
                        assert(pushed.select_stack[k] != b);
                    }
                }
                let between = Edge { first: a, second: b };
                assert(self.edges.contains(between));
                assert(self.adjacency[a.num].contains(b));
                self.lemma_alias_not_coalesced(edge.second);
                assert(self.get_alias(b) == b);
                assert(pushed.adjacency[a.num].contains(b) && pushed.get_alias(b) == b);
            }
        }
    }

    /// Giving the neighbours of a merged node to the node it went into
    /// adds an edge between each of them and that node, and no other.
    pub proof fn lemma_merge_neighbors_edges(self, u: Temp, nodes: Seq<Temp>)
        requires
            self.wf(),
            complete(self),
        ensures
            self.merge_neighbors(u, nodes).wf(),
            complete(self.merge_neighbors(u, nodes)),
            same_ground(self.merge_neighbors(u, nodes), self),
            self.edges.subset_of(self.merge_neighbors(u, nodes).edges),
            forall|key: u32, other: Temp|
                self.adjacency[key].contains(other) ==> #[trigger] self.merge_neighbors(
                    u,
                    nodes,
                ).adjacency[key].contains(other),
            forall|i: int|
                0 <= i < nodes.len() && nodes[i] != u ==> self.merge_neighbors(
                    u,
                    nodes,
                ).edges.contains(Edge { first: #[trigger] nodes[i], second: u })
                    && self.merge_neighbors(u, nodes).edges.contains(
                    Edge { first: u, second: nodes[i] },
                ),
            forall|edge: Edge| #[trigger]
                self.merge_neighbors(u, nodes).edges.contains(edge) ==> self.edges.contains(edge)
                    || (edge.second == u && nodes.contains(edge.first)) || (edge.first == u
                    && nodes.contains(edge.second)),
        decreases nodes.len(),
    {
        if nodes.len() > 0 {
            let shorter = nodes.drop_last();
            let last = nodes[nodes.len() - 1];
            self.lemma_merge_neighbors_edges(u, shorter);
            let before = self.merge_neighbors(u, shorter);
            before.lemma_add_edge_complete(last, u);
            let joined = before.add_edge(last, u);
            joined.lemma_decrement_degree(last);
            let after = self.merge_neighbors(u, nodes);
            assert(after == joined.decrement_degree(last));
            assert(after.edges == joined.edges && after.adjacency == joined.adjacency);
            assert forall|key: u32, other: Temp| self.adjacency[key].contains(other) implies #[trigger] after.adjacency[key].contains(
                other,
            ) by {
                assert(before.adjacency[key].contains(other));
            }
            assert forall|i: int| 0 <= i < nodes.len() && nodes[i] != u implies after.edges.contains(
                Edge { first: #[trigger] nodes[i], second: u },
            ) && after.edges.contains(Edge { first: u, second: nodes[i] }) by {
                if i < nodes.len() - 1 {
                    assert(shorter[i] == nodes[i]);
                    assert(before.edges.contains(Edge { first: shorter[i], second: u }));
                    assert(before.edges.contains(Edge { first: u, second: shorter[i] }));
                } else {
                    assert(joined.edges.contains(Edge { first: last, second: u }));
                    assert(joined.edges.contains(Edge { first: u, second: last }));
                }
            }
            assert forall|edge: Edge| #[trigger] after.edges.contains(edge) implies self.edges.contains(
                edge,
            ) || (edge.second == u && nodes.contains(edge.first)) || (edge.first == u
                && nodes.contains(edge.second)) by {
                if before.edges.contains(edge) {
                    if !self.edges.contains(edge) {
                        if edge.second == u && shorter.contains(edge.first) {
                            let i = choose|i: int| 0 <= i < shorter.len() && shorter[i] == edge.first;
                            assert(nodes[i] == edge.first);
                        } else {
                            let i = choose|i: int|
                                0 <= i < shorter.len() && shorter[i] == edge.second;
                            assert(nodes[i] == edge.second);
                        }
                    }
                } else {
                    assert(nodes[nodes.len() - 1] == last);
                    assert(edge == (Edge { first: last, second: u }) || edge == (Edge {
                        first: u,
                        second: last,
                    }));
                }
            }
        }
    }

    /// Merging `v` into `u`, two different nodes that are still in the
    /// graph and have no edge between them, keeps apart what was kept
    /// apart.
    pub proof fn lemma_combine_guarded(self, u: Temp, v: Temp)
        requires
            self.wf(),
            guarded(self),
            u != v,
            present(self, u),
            present(self, v),
            !self.precolored.contains(v),
            !self.edges.contains(Edge { first: u, second: v }),
            self.coalesced_nodes.len() < usize::MAX,
        ensures
            guarded(self.combine(u, v)),
    {
        self.lemma_combine(u, v);
        self.lemma_merge_node(u, v);
        let merged = self.merge_node(u, v);
        merged.lemma_enable_moves(seq![v]);
        let enabled = merged.enable_moves(seq![v]);
        let nodes = ordered(enabled.adjacent(v));
        assert(enabled.adjacency[v.num].finite());
        lemma_len_subset(enabled.adjacent(v), enabled.adjacency[v.num]);
        lemma_ordered_exists(enabled.adjacent(v));
        assert(complete(enabled));
        enabled.lemma_merge_neighbors_edges(u, nodes);
        let joined = enabled.merge_neighbors(u, nodes);
        let after = self.combine(u, v);
        assert(after.edges == joined.edges);
        assert(after.adjacency == joined.adjacency);
        assert(after.select_stack == self.select_stack);
        merged.lemma_same_alias_ground(after);
        assert forall|node: Temp|
            #[trigger] after.get_alias(node) == if self.get_alias(node) == v {
                u
            } else {
                self.get_alias(node)
            } by {
            self.lemma_merged_alias(u, v, node);
        }
        assert(self.get_alias(u) == u && self.get_alias(v) == v);
        assert(!self.edges.contains(Edge { first: v, second: u })) by {
            if self.edges.contains(Edge { first: v, second: u }) {
                assert(self.edges.contains(Edge { first: u, second: v }));
            }
        }
        assert(!self.adjacency[v.num].contains(v)) by {
            if self.adjacency[v.num].contains(v) {
                assert(self.edges.contains(Edge { first: v, second: v }));
            }
        }
        // Whatever is listed beside `v` and still in the graph gets an edge to `u`.
        assert forall|other: Temp|
            self.edges.contains(Edge { first: v, second: other }) && !self.select_stack.contains(other)
                && !self.coalesced_nodes.contains(other) implies #[trigger] after.edges.contains(
            Edge { first: u, second: other },
        ) && after.edges.contains(Edge { first: other, second: u }) by {
            assert(self.adjacency[v.num].contains(other));
            assert(other != v);
            assert(other != u);
            assert(enabled.adjacent(v).contains(other)) by {
                if enabled.select_stack.to_set().contains(other) {
                    assert(enabled.select_stack.contains(other));
                }
            }
            assert(nodes.to_set().contains(other));
            let i = choose|i: int| 0 <= i < nodes.len() && nodes[i] == other;
            assert(after.edges.contains(Edge { first: nodes[i], second: u }));
        }
        assert forall|edge: Edge| #[trigger] after.edges.contains(edge) implies after.get_alias(
            edge.first,
        ) != after.get_alias(edge.second) by {
            self.lemma_new_edge(u, v, nodes, enabled, after, edge);
            if self.edges.contains(edge) {
                let a = self.get_alias(edge.first);
                let b = self.get_alias(edge.second);
                if (a == v && b == u) || (a == u && b == v) {
                    assert(self.edges.contains(Edge { first: a, second: b }));
                }
            }
        }
        assert forall|edge: Edge| #[trigger]
            after.edges.contains(edge) && !after.select_stack.contains(after.get_alias(edge.first))
                && !after.select_stack.contains(
                after.get_alias(edge.second),
            ) implies after.edges.contains(
            Edge { first: after.get_alias(edge.first), second: after.get_alias(edge.second) },
        ) by {
            self.lemma_new_edge(u, v, nodes, enabled, after, edge);
            if self.edges.contains(edge) {
                let a = self.get_alias(edge.first);
                let b = self.get_alias(edge.second);
                self.lemma_alias_not_coalesced(edge.first);
                self.lemma_alias_not_coalesced(edge.second);
                assert(a != b);
                if a == v {
                    assert(self.edges.contains(Edge { first: v, second: b }));
                    assert(b != u);
                    assert(after.edges.contains(Edge { first: u, second: b }));
                } else if b == v {
                    assert(self.edges.contains(Edge { first: a, second: v }));
                    assert(self.edges.contains(Edge { first: v, second: a }));
                    assert(a != u);
                    assert(after.edges.contains(Edge { first: u, second: a }));
                    assert(after.edges.contains(Edge { first: a, second: u }));
                } else {
                    assert(self.edges.contains(Edge { first: a, second: b }));
                    assert(enabled.edges.contains(Edge { first: a, second: b }));
                    assert(after.edges.contains(Edge { first: a, second: b }));
                }
            }
        }
        assert forall|edge: Edge, i: int|
            #![trigger after.edges.contains(edge), after.select_stack[i]]
            after.edges.contains(edge) && 0 <= i < after.select_stack.len() && after.select_stack[i]
                == after.get_alias(edge.first) && misses(
                after.select_stack,
                i + 1,
                after.get_alias(edge.second),
            ) implies sees(after, after.get_alias(edge.first), after.get_alias(edge.second)) by {
            self.lemma_new_edge(u, v, nodes, enabled, after, edge);
            assert(self.select_stack.contains(self.select_stack[i]));
            if self.edges.contains(edge) {
                let a = self.get_alias(edge.first);
                let b = self.get_alias(edge.second);
                assert(a != v);
                assert(self.select_stack[i] == a);
                assert(misses(self.select_stack, i + 1, b)) by {
                    assert forall|k: int|
                        0 <= k < i + 1 && k < self.select_stack.len() implies #[trigger] self.select_stack[k]
                        != b by {
                        if self.select_stack[k] == b {
                            assert(self.select_stack.contains(b));
                            assert(b != v);
                        }
                    }
                }
                assert(sees(self, a, b));
                let neighbor = choose|neighbor: Temp| #[trigger]
                    self.adjacency[a.num].contains(neighbor) && self.get_alias(neighbor) == b;
                assert(after.adjacency[a.num].contains(neighbor));
                assert(after.get_alias(neighbor) == after.get_alias(edge.second));
            }
        }
    }

    /// An edge that merging `v` into `u` adds joins `u` and a node that is
    /// still in the graph and stands for itself.
    pub proof fn lemma_new_edge(
        self,
        u: Temp,
        v: Temp,
        nodes: Seq<Temp>,
        enabled: State,
        after: State,
        edge: Edge,
    )
        requires
            self.wf(),
            present(self, u),
            present(self, v),
            u != v,
            enabled.select_stack == self.select_stack,
            enabled.coalesced_nodes == self.coalesced_nodes.insert(v),
            enabled.adjacency[v.num].finite(),
            nodes == ordered(enabled.adjacent(v)),
            after.select_stack == self.select_stack,
            after.edges.contains(edge),
            self.edges.contains(edge) || (edge.second == u && nodes.contains(edge.first)) || (
            edge.first == u && nodes.contains(edge.second)),
            forall|i: int|
                0 <= i < nodes.len() && nodes[i] != u ==> after.edges.contains(
                    Edge { first: #[trigger] nodes[i], second: u },
                ) && after.edges.contains(Edge { first: u, second: nodes[i] }),
            forall|node: Temp|
                #[trigger] after.get_alias(node) == if self.get_alias(node) == v {
                    u
                } else {
                    self.get_alias(node)
                },
        ensures
            !self.edges.contains(edge) ==> {
                &&& after.get_alias(edge.first) == edge.first
                &&& after.get_alias(edge.second) == edge.second
                &&& !after.select_stack.contains(edge.first)
                &&& !after.select_stack.contains(edge.second)
                &&& (edge.first == u || edge.second == u)
            },
    {
        if !self.edges.contains(edge) {
            lemma_len_subset(enabled.adjacent(v), enabled.adjacency[v.num]);
            lemma_ordered_exists(enabled.adjacent(v));
            let other = if edge.second == u && nodes.contains(edge.first) {
                edge.first
            } else {
                edge.second
            };
            assert(nodes.to_set().contains(other));
            assert(enabled.adjacent(v).contains(other));
            assert(!enabled.select_stack.to_set().contains(other));
            assert(!self.select_stack.contains(other)) by {
                if self.select_stack.contains(other) {
                    assert(enabled.select_stack.to_set().contains(other));
                }
            }
            assert(!self.coalesced_nodes.contains(other));
            assert(other != v);
            assert(self.get_alias(other) == other);
            assert(self.get_alias(u) == u);
        }
    }

    /// A step keeps apart what was kept apart.
    pub proof fn lemma_step_guarded(self)
        requires
            self.wf(),
            placed(self),
            guarded(self),
            self.register_count > 0,
            exists|node: Temp| self.precolored.contains(node),
            roomy(self, 1),
        ensures
            guarded(self.step()),
    {
        let after = self.step();
        if self.simplify_worklist != Set::<Temp>::empty() {
            self.lemma_simplify_placed();
            self.lemma_simplify();
            let temp = ordered(self.simplify_worklist)[0];
            self.lemma_pushed_guarded(temp);
            let pushed = State { select_stack: self.select_stack.push(temp), ..self };
            assert(pushed.alias_ok());
            pushed.lemma_guarded_kept(after);
        } else if self.worklist_moves != Set::<Move>::empty() {
            self.lemma_coalesce_guarded();
        } else if self.freeze_worklist != Set::<Temp>::empty() {
            self.lemma_freeze_placed();
            self.lemma_guarded_kept(after);
        } else if self.spill_worklist != Set::<Temp>::empty() {
            self.lemma_select_spill_placed();
            self.lemma_guarded_kept(after);
        } else {
        }
    }

    /// Looking at a move keeps apart what was kept apart.
    pub proof fn lemma_coalesce_guarded(self)
        requires
            self.wf(),
            placed(self),
            guarded(self),
            self.register_count > 0,
            self.worklist_moves != Set::<Move>::empty(),
            exists|node: Temp| self.precolored.contains(node),
            roomy(self, 1),
        ensures
            guarded(self.coalesce()),
    {
        lemma_ordered_exists(self.worklist_moves);
        assert(self.worklist_moves.len() > 0) by {
            if self.worklist_moves.len() == 0 {
                assert(self.worklist_moves =~= Set::<Move>::empty());
            }
        }
        let mov = ordered(self.worklist_moves)[0];
        assert(self.worklist_moves.contains(mov));
        self.lemma_popped_placed(mov);
        let popped = State { worklist_moves: self.worklist_moves.remove(mov), ..self };
        let first = self.get_alias(mov.source);
        let second = self.get_alias(mov.destination);
        let u = popped.target(mov);
        let v = popped.merged(mov);
        let after = self.coalesce();
        assert(set![first, second] =~= set![u, v]);
        let fixed = choose|node: Temp| self.precolored.contains(node);
        assert(!self.coalesced_nodes.contains(fixed)) by {
            if self.coalesced_nodes.contains(fixed) {
                assert(unlisted(self, fixed));
            }
        }
        self.lemma_guarded_kept(popped);
        if u == v {
            let marked = State { coalesced_moves: popped.coalesced_moves.insert(mov), ..popped };
            popped.lemma_marked_placed(marked, set![u, v]);
            marked.lemma_add_worklist_placed(u, set![u, v]);
            self.lemma_guarded_kept(after);
        } else if popped.precolored.contains(v) || popped.edges.contains(
            Edge { first: u, second: v },
        ) {
            let marked = State { constrained_moves: popped.constrained_moves.insert(mov), ..popped };
            popped.lemma_marked_placed(marked, set![u, v]);
            marked.lemma_add_worklist_placed(u, set![u, v]);
            let middle = marked.add_worklist(u);
            middle.lemma_add_worklist_placed(v, set![u, v].remove(u));
            self.lemma_guarded_kept(after);
        } else if popped.may_combine(u, v) {
            let marked = State { coalesced_moves: popped.coalesced_moves.insert(mov), ..popped };
            popped.lemma_marked_placed(marked, set![u, v]);
            assert(!self.coalesced_nodes.insert(v).contains(fixed)) by {
                if fixed == v {
                    assert(!popped.precolored.contains(v));
                }
            }
            lemma_temps_bound(self.coalesced_nodes.insert(v), fixed);
            assert(self.coalesced_nodes.len() < self.coalesced_nodes.insert(v).len());
            self.lemma_guarded_kept(marked);
            marked.lemma_combine_guarded(u, v);
            marked.lemma_combine_placed(u, v);
            let combined = marked.combine(u, v);
            assert(present(combined, u)) by {
                assert(!combined.coalesced_nodes.contains(u));
            }
            combined.lemma_add_worklist_placed(u, set![u]);
            combined.lemma_guarded_kept(after);
        } else {
            self.lemma_guarded_kept(after);
        }
    }

    /// A step takes no edge away.
    pub proof fn lemma_step_edges(self)
        requires
            self.wf(),
            placed(self),
            guarded(self),
            self.register_count > 0,
            exists|node: Temp| self.precolored.contains(node),
            roomy(self, 1),
        ensures
            self.edges.subset_of(self.step().edges),
    {
        let after = self.step();
        if self.simplify_worklist != Set::<Temp>::empty() {
            self.lemma_simplify_placed();
        } else if self.worklist_moves != Set::<Move>::empty() {
            lemma_ordered_exists(self.worklist_moves);
            assert(self.worklist_moves.len() > 0) by {
                if self.worklist_moves.len() == 0 {
                    assert(self.worklist_moves =~= Set::<Move>::empty());
                }
            }
            let mov = ordered(self.worklist_moves)[0];
            assert(self.worklist_moves.contains(mov));
            self.lemma_popped_placed(mov);
            let popped = State { worklist_moves: self.worklist_moves.remove(mov), ..self };
            let u = popped.target(mov);
            let v = popped.merged(mov);
            let first = self.get_alias(mov.source);
            let second = self.get_alias(mov.destination);
            assert(set![first, second] =~= set![u, v]);
            if u == v {
                let marked = State { coalesced_moves: popped.coalesced_moves.insert(mov), ..popped };
                popped.lemma_marked_placed(marked, set![u, v]);
                marked.lemma_add_worklist_placed(u, set![u, v]);
            } else if popped.precolored.contains(v) || popped.edges.contains(
                Edge { first: u, second: v },
            ) {
                let marked = State {
                    constrained_moves: popped.constrained_moves.insert(mov),
                    ..popped
                };
                popped.lemma_marked_placed(marked, set![u, v]);
                marked.lemma_add_worklist_placed(u, set![u, v]);
                let middle = marked.add_worklist(u);
                middle.lemma_add_worklist_placed(v, set![u, v].remove(u));
            } else if popped.may_combine(u, v) {
                let marked = State { coalesced_moves: popped.coalesced_moves.insert(mov), ..popped };
                popped.lemma_marked_placed(marked, set![u, v]);
                let fixed = choose|node: Temp| self.precolored.contains(node);
                assert(!self.coalesced_nodes.insert(v).contains(fixed)) by {
                    if self.coalesced_nodes.contains(fixed) {
                        assert(unlisted(self, fixed));
                    }
                    if fixed == v {
                        assert(!popped.precolored.contains(v));
                    }
                }
                lemma_temps_bound(self.coalesced_nodes.insert(v), fixed);
                assert(self.coalesced_nodes.len() < self.coalesced_nodes.insert(v).len());
                marked.lemma_combine(u, v);
                marked.lemma_merge_node(u, v);
                let merged = marked.merge_node(u, v);
                merged.lemma_enable_moves(seq![v]);
                let enabled = merged.enable_moves(seq![v]);
                self.lemma_guarded_kept(marked);
                assert(complete(enabled));
                enabled.lemma_merge_neighbors_edges(u, ordered(enabled.adjacent(v)));
                let combined = marked.combine(u, v);
                marked.lemma_combine_placed(u, v);
                assert(present(combined, u)) by {
                    assert(!combined.coalesced_nodes.contains(u));
                }
                combined.lemma_add_worklist_placed(u, set![u]);
            } else {
            }
        } else if self.freeze_worklist != Set::<Temp>::empty() {
            self.lemma_freeze_placed();
        } else if self.spill_worklist != Set::<Temp>::empty() {
            self.lemma_select_spill_placed();
        } else {
        }
    }

    /// A coalesced node that had no colour has one in the end only if the
    /// node that stands for it had one, and then the same.
    pub proof fn lemma_paint_coalesced_from(self, colors: Map<u32, Temp>, nodes: Seq<Temp>, index: int)
        requires
            self.alias_ok(),
            nodes.no_duplicates(),
            0 <= index < nodes.len(),
            forall|i: int| 0 <= i < nodes.len() ==> self.coalesced_nodes.contains(#[trigger] nodes[i]),
            !colors.contains_key(nodes[index].num),
            self.paint_coalesced(colors, nodes).contains_key(nodes[index].num),
        ensures
            colors.contains_key(self.get_alias(nodes[index]).num),
            self.paint_coalesced(colors, nodes)[nodes[index].num] == colors[self.get_alias(
                nodes[index],
            ).num],
            self.paint_coalesced(colors, nodes).contains_key(self.get_alias(nodes[index]).num),
            self.paint_coalesced(colors, nodes)[self.get_alias(nodes[index]).num]
                == colors[self.get_alias(nodes[index]).num],
        decreases nodes.len(),
    {
        let node = nodes[index];
        let alias = self.get_alias(node);
        let shorter = nodes.drop_last();
        let before = self.paint_coalesced(colors, shorter);
        self.lemma_alias_not_coalesced(node);
        assert(!nodes.contains(alias)) by {
            if nodes.contains(alias) {
                let i = choose|i: int| 0 <= i < nodes.len() && nodes[i] == alias;
                assert(self.coalesced_nodes.contains(nodes[i]));
            }
        }
        assert(!shorter.contains(alias)) by {
            if shorter.contains(alias) {
                let i = choose|i: int| 0 <= i < shorter.len() && shorter[i] == alias;
                assert(nodes[i] == alias);
            }
        }
        self.lemma_paint_coalesced_keeps(colors, nodes, alias);
        self.lemma_paint_coalesced_keeps(colors, shorter, alias);
        if index < nodes.len() - 1 {
            assert(shorter[index] == node);
            assert(nodes[nodes.len() - 1] != node);
            assert forall|i: int| 0 <= i < shorter.len() implies self.coalesced_nodes.contains(
                #[trigger] shorter[i],
            ) by {
                assert(shorter[i] == nodes[i]);
            }
            assert(shorter.no_duplicates()) by {
                assert forall|i: int, j: int|
                    0 <= i < shorter.len() && 0 <= j < shorter.len() && i != j implies shorter[i]
                    != shorter[j] by {
                    assert(shorter[i] == nodes[i]);
                    assert(shorter[j] == nodes[j]);
                }
            }
            assert(before.contains_key(node.num));
            self.lemma_paint_coalesced_from(colors, shorter, index);
        } else {
            assert(!shorter.contains(node)) by {
                if shorter.contains(node) {
                    let i = choose|i: int| 0 <= i < shorter.len() && shorter[i] == node;
                    assert(nodes[i] == nodes[index]);
                }
            }
            self.lemma_paint_coalesced_keeps(colors, shorter, node);
        }
    }

    /// What has a colour in the end is pre-coloured, or a node of the
    /// stack that was coloured, or a coalesced node that has the colour of
    /// the node that stands for it.
    pub proof fn lemma_coloured(self, node: Temp)
        requires
            self.wf(),
            placed(self),
            self.precolored.finite(),
            self.assign_colors().colors.contains_key(node.num),
        ensures
            ({
                let painted = self.assign_colors();
                let alias = self.get_alias(node);
                &&& painted.colors.contains_key(alias.num)
                &&& painted.colors[node.num] == painted.colors[alias.num]
                &&& self.precolored.contains(alias) || (self.select_stack.contains(alias)
                    && painted.state.colored_nodes.contains(alias))
            }),
    {
        let painted = self.assign_colors();
        let alias = self.get_alias(node);
        let fixed = ordered(self.precolored);
        lemma_ordered_exists(self.precolored);
        let own = own_colors(Map::empty(), fixed);
        let stacked = self.paint_stack(own);
        self.lemma_paint_stack(own, Set::new(|temp: Temp| true));
        let nodes = ordered(stacked.state.coalesced_nodes);
        lemma_ordered_exists(self.coalesced_nodes);
        self.lemma_same_alias(stacked.state, node);
        self.lemma_alias_not_coalesced(node);
        assert forall|i: int| 0 <= i < nodes.len() implies stacked.state.coalesced_nodes.contains(
            #[trigger] nodes[i],
        ) by {
            assert(nodes.to_set().contains(nodes[i]));
        }
        assert(!nodes.contains(alias)) by {
            if nodes.contains(alias) {
                assert(nodes.to_set().contains(alias));
            }
        }
        stacked.state.lemma_paint_coalesced_keeps(stacked.colors, nodes, alias);
        if self.coalesced_nodes.contains(node) {
            assert(unlisted(self, node));
            assert(!stacked.colors.contains_key(node.num)) by {
                if stacked.colors.contains_key(node.num) {
                    self.lemma_paint_stack_keys(own, node);
                    lemma_own_keys(Map::empty(), fixed, node);
                    if fixed.contains(node) {
                        assert(fixed.to_set().contains(node));
                    }
                    if self.select_stack.contains(node) {
                        let k = choose|k: int|
                            0 <= k < self.select_stack.len() && self.select_stack[k] == node;
                        assert(!self.coalesced_nodes.contains(self.select_stack[k]));
                    }
                }
            }
            assert(nodes.to_set().contains(node));
            let index = choose|index: int| 0 <= index < nodes.len() && nodes[index] == node;
            stacked.state.lemma_paint_coalesced_from(stacked.colors, nodes, index);
        } else {
            assert(alias == node);
        }
        assert(stacked.colors.contains_key(alias.num));
        self.lemma_paint_stack_keys(own, alias);
        lemma_own_keys(Map::empty(), fixed, alias);
        if fixed.contains(alias) {
            assert(fixed.to_set().contains(alias));
        }
    }

    /// Where every node is in its place and the edges keep apart what
    /// stands for their ends, two temporaries with an edge between them do
    /// not end with the same register.
    pub proof fn lemma_sound_colours_apart(self, first: Temp, second: Temp)
        requires
            self.wf(),
            placed(self),
            guarded(self),
            self.precolored.finite(),
            self.edges.contains(Edge { first, second }),
        ensures
            apart(self.assign_colors().colors, first, second),
    {
        let painted = self.assign_colors();
        if painted.colors.contains_key(first.num) && painted.colors.contains_key(second.num) {
            let edge = Edge { first, second };
            let back = Edge { first: second, second: first };
            assert(self.edges.contains(back));
            let a = self.get_alias(first);
            let b = self.get_alias(second);
            self.lemma_coloured(first);
            self.lemma_coloured(second);
            assert(a != b);
            self.lemma_alias_not_coalesced(first);
            self.lemma_alias_not_coalesced(second);
            if self.precolored.contains(a) && self.precolored.contains(b) {
                self.lemma_fixed_colour(a);
                self.lemma_fixed_colour(b);
            } else if !self.precolored.contains(a) && self.precolored.contains(b) {
                let i = choose|i: int| 0 <= i < self.select_stack.len() && self.select_stack[i] == a;
                self.lemma_seen_apart(edge, i);
            } else if self.precolored.contains(a) && !self.precolored.contains(b) {
                let j = choose|j: int| 0 <= j < self.select_stack.len() && self.select_stack[j] == b;
                self.lemma_seen_apart(back, j);
            } else {
                let i = choose|i: int| 0 <= i < self.select_stack.len() && self.select_stack[i] == a;
                let j = choose|j: int| 0 <= j < self.select_stack.len() && self.select_stack[j] == b;
                if i < j {
                    self.lemma_seen_apart(edge, i);
                } else {
                    self.lemma_seen_apart(back, j);
                }
            }
        }
    }

    /// A pre-coloured node ends with itself as colour.
    pub proof fn lemma_fixed_colour(self, node: Temp)
        requires
            self.wf(),
            placed(self),
            self.precolored.finite(),
            self.precolored.contains(node),
        ensures
            self.assign_colors().colors.contains_key(node.num),
            self.assign_colors().colors[node.num] == node,
    {
        let fixed = ordered(self.precolored);
        lemma_ordered_exists(self.precolored);
        let own = own_colors(Map::empty(), fixed);
        assert(fixed.to_set().contains(node));
        let i = choose|i: int| 0 <= i < fixed.len() && fixed[i] == node;
        Self::lemma_own_values(Map::empty(), fixed, i);
        assert(misses(self.select_stack, self.select_stack.len() as int, node)) by {
            assert forall|k: int|
                0 <= k < self.select_stack.len() implies #[trigger] self.select_stack[k] != node by {
                assert(unlisted(self, self.select_stack[k]));
            }
        }
        self.lemma_paint_stack_keeps(own, node);
        let stacked = self.paint_stack(own);
        self.lemma_paint_stack(own, Set::new(|temp: Temp| true));
        let nodes = ordered(stacked.state.coalesced_nodes);
        lemma_ordered_exists(self.coalesced_nodes);
        assert(!nodes.contains(node)) by {
            if nodes.contains(node) {
                assert(nodes.to_set().contains(node));
                assert(unlisted(self, node));
            }
        }
        stacked.state.lemma_paint_coalesced_keeps(stacked.colors, nodes, node);
    }

    /// The node of the stack that stands for the first end of an edge and
    /// what stands for the second end, if that is pre-coloured or stands
    /// above it, do not end with the same register.
    pub proof fn lemma_seen_apart(self, edge: Edge, index: int)
        requires
            self.wf(),
            placed(self),
            guarded(self),
            self.precolored.finite(),
            self.edges.contains(edge),
            0 <= index < self.select_stack.len(),
            self.select_stack[index] == self.get_alias(edge.first),
            self.precolored.contains(self.get_alias(edge.second)) || exists|j: int|
                index < j < self.select_stack.len() && self.select_stack[j] == self.get_alias(
                    edge.second,
                ),
            self.precolored.contains(self.get_alias(edge.second))
                || self.assign_colors().state.colored_nodes.contains(self.get_alias(edge.second)),
            self.assign_colors().state.colored_nodes.contains(self.get_alias(edge.first)),
        ensures
            apart(self.assign_colors().colors, self.get_alias(edge.first), self.get_alias(edge.second)),
    {
        let a = self.get_alias(edge.first);
        let b = self.get_alias(edge.second);
        assert(misses(self.select_stack, index + 1, b)) by {
            assert forall|k: int|
                0 <= k < index + 1 && k < self.select_stack.len() implies #[trigger] self.select_stack[k]
                != b by {
                assert(unlisted(self, self.select_stack[k]));
                if !self.precolored.contains(b) {
                    let j = choose|j: int|
                        index < j < self.select_stack.len() && self.select_stack[j] == b;
                    assert(self.select_stack[k] != self.select_stack[j]);
                }
            }
        }
        assert(self.edges.contains(edge) && self.select_stack[index] == a);
        assert(sees(self, a, b));
        let neighbor = choose|neighbor: Temp| #[trigger]
            self.adjacency[a.num].contains(neighbor) && self.get_alias(neighbor) == b;
        assert(separate(self)) by {
            assert forall|k: int| 0 <= k < self.select_stack.len() implies {
                &&& !self.precolored.contains(#[trigger] self.select_stack[k])
                &&& !self.coalesced_nodes.contains(self.select_stack[k])
                &&& !self.colored_nodes.contains(self.select_stack[k])
            } by {
                assert(unlisted(self, self.select_stack[k]));
            }
        }
        self.lemma_colours_are_proper(index, neighbor);
    }
}

/// Whether the degree of every pre-coloured node has fallen by no more
/// than the number of nodes that have left the graph.
pub open spec fn budget(state: State) -> bool {
    forall|node: Temp| #[trigger]
        state.precolored.contains(node) ==> state.degree[node.num] + state.removed() >= usize::MAX
}

/// Whether a machine word counts further than there are temporaries and
/// significant degrees together.
pub open spec fn wide(state: State) -> bool {
    state.register_count + 0x1_0000_0002 <= usize::MAX
}

impl State {
    /// No more nodes have left the graph than there are temporaries.
    pub proof fn lemma_removed_bound(self)
        requires
            self.wf(),
            placed(self),
            exists|node: Temp| self.precolored.contains(node),
        ensures
            self.removed() <= u32::MAX,
    {
        let fixed = choose|node: Temp| self.precolored.contains(node);
        let stacked = self.select_stack.to_set();
        vstd::seq_lib::seq_to_set_is_finite(self.select_stack);
        self.select_stack.unique_seq_to_set();
        assert(stacked.disjoint(self.coalesced_nodes)) by {
            assert forall|node: Temp| stacked.contains(node) implies !self.coalesced_nodes.contains(
                node,
            ) by {
                let k = choose|k: int| 0 <= k < self.select_stack.len() && self.select_stack[k] == node;
                assert(!self.coalesced_nodes.contains(self.select_stack[k]));
            }
        }
        lemma_set_disjoint_lens(stacked, self.coalesced_nodes);
        let gone = stacked + self.coalesced_nodes;
        assert(!gone.contains(fixed)) by {
            if stacked.contains(fixed) {
                let k = choose|k: int| 0 <= k < self.select_stack.len() && self.select_stack[k] == fixed;
                assert(unlisted(self, self.select_stack[k]));
            }
            if self.coalesced_nodes.contains(fixed) {
                assert(unlisted(self, fixed));
            }
        }
        lemma_temps_bound(gone, fixed);
    }

    /// A step lowers the degree of a pre-coloured node only as a node
    /// leaves the graph.
    pub proof fn lemma_step_budget(self)
        requires
            self.wf(),
            placed(self),
            self.register_count > 0,
            exists|node: Temp| self.precolored.contains(node),
            budget(self),
            wide(self),
        ensures
            roomy(self, 1),
            budget(self.step()),
    {
        self.lemma_removed_bound();
        assert(roomy(self, 1));
        let after = self.step();
        if self.simplify_worklist != Set::<Temp>::empty() {
            self.lemma_simplify_placed();
            self.lemma_simplify();
            assert forall|node: Temp| #[trigger] after.precolored.contains(node) implies after.degree[node.num]
                + after.removed() >= usize::MAX by {
                assert(after.degree[node.num] + 1 >= self.degree[node.num]);
            }
        } else if self.worklist_moves != Set::<Move>::empty() {
            self.lemma_coalesce_placed();
        } else if self.freeze_worklist != Set::<Temp>::empty() {
            self.lemma_freeze_placed();
        } else if self.spill_worklist != Set::<Temp>::empty() {
            self.lemma_select_spill_placed();
        } else {
        }
    }

    /// Steps keep every node in its place and apart what was kept apart,
    /// on a machine whose words count far enough.
    pub proof fn lemma_run_wide(self, count: nat)
        requires
            self.wf(),
            placed(self),
            guarded(self),
            self.register_count > 0,
            exists|node: Temp| self.precolored.contains(node),
            budget(self),
            wide(self),
        ensures
            self.run(count).wf(),
            placed(self.run(count)),
            guarded(self.run(count)),
            budget(self.run(count)),
            self.run(count).precolored == self.precolored,
            self.run(count).register_count == self.register_count,
            self.run(count).registers == self.registers,
            self.edges.subset_of(self.run(count).edges),
        decreases count,
    {
        if count > 0 {
            self.lemma_run_wide((count - 1) as nat);
            let before = self.run((count - 1) as nat);
            let fixed = choose|node: Temp| self.precolored.contains(node);
            assert(before.precolored.contains(fixed));
            before.lemma_step_budget();
            before.lemma_step_placed(0);
            before.lemma_step_guarded();
            before.lemma_step_edges();
        }
    }
}

/// Whether every move of the worklist is listed under its two ends, and a
/// move of the worklist that is listed under a temporary has it as an
/// end.
pub open spec fn moves_listed(move_list: Map<u32, Set<Move>>, worklist_moves: Set<Move>) -> bool {
    &&& forall|mov: Move| #[trigger]
        worklist_moves.contains(mov) ==> move_list[mov.source.num].contains(mov)
            && move_list[mov.destination.num].contains(mov)
    &&& forall|node: Temp, mov: Move|
        #![trigger move_list[node.num].contains(mov)]
        move_list[node.num].contains(mov) && worklist_moves.contains(mov) ==> node == mov.source
            || node == mov.destination
}

impl State {
    /// Filling the worklists of a state in which nothing was done yet, but
    /// for the edges, puts every node in its place.
    pub proof fn lemma_make_worklist_placed(self, initial: Seq<Temp>)
        requires
            self.wf(),
            self.colored_nodes == Set::<Temp>::empty(),
            self.coalesced_nodes == Set::<Temp>::empty(),
            self.select_stack.len() == 0,
            self.simplify_worklist == Set::<Temp>::empty(),
            self.freeze_worklist == Set::<Temp>::empty(),
            self.spill_worklist == Set::<Temp>::empty(),
            self.active_moves == Set::<Move>::empty(),
            moves_listed(self.move_list, self.worklist_moves),
            forall|node: Temp| #[trigger]
                self.precolored.contains(node) ==> self.degree[node.num] > self.register_count,
            forall|i: int| 0 <= i < initial.len() ==> !self.precolored.contains(#[trigger] initial[i]),
        ensures
            self.make_worklist(initial).wf(),
            placed(self.make_worklist(initial)),
            self.make_worklist(initial).degree == self.degree,
            self.make_worklist(initial).edges == self.edges,
            self.make_worklist(initial).adjacency == self.adjacency,
            self.make_worklist(initial).precolored == self.precolored,
            self.make_worklist(initial).register_count == self.register_count,
            self.make_worklist(initial).registers == self.registers,
            self.make_worklist(initial).select_stack == self.select_stack,
            self.make_worklist(initial).coalesced_nodes == self.coalesced_nodes,
            self.make_worklist(initial).alias == self.alias,
            self.make_worklist(initial).rank == self.rank,
            self.make_worklist(initial).move_list == self.move_list,
            self.make_worklist(initial).active_moves == self.active_moves,
            self.make_worklist(initial).worklist_moves == self.worklist_moves,
            forall|node: Temp| #[trigger]
                self.make_worklist(initial).simplify_worklist.contains(node) ==> self.degree[node.num]
                    < self.register_count,
        decreases initial.len(),
    {
        self.lemma_make_worklist(initial);
        assert forall|node: Temp| #[trigger] self.get_alias(node) == node by {}
        if initial.len() > 0 {
            let shorter = initial.drop_last();
            assert forall|i: int| 0 <= i < shorter.len() implies !self.precolored.contains(
                #[trigger] shorter[i],
            ) by {
                assert(shorter[i] == initial[i]);
            }
            self.lemma_make_worklist_placed(shorter);
            let before = self.make_worklist(shorter);
            let node = initial[initial.len() - 1];
            let after = self.make_worklist(initial);
            assert(after == before.classify(node));
            before.lemma_related(node);
            before.lemma_same_alias_ground(after);
            self.lemma_same_alias_ground(after);
            assert forall|other: Temp| related(after, other) == related(before, other) by {
                if related(after, other) {
                    let mov = choose|mov: Move| has_move(after, other, mov);
                    assert(has_move(before, other, mov));
                }
                if related(before, other) {
                    let mov = choose|mov: Move| has_move(before, other, mov);
                    assert(has_move(after, other, mov));
                }
            }
            assert forall|other: Temp| #[trigger] after.coalesced_nodes.contains(other) implies unlisted(
                after,
                other,
            ) by {}
            assert forall|other: Temp| #[trigger]
                after.simplify_worklist.contains(other) implies !after.precolored.contains(other)
                && !after.freeze_worklist.contains(other) && !after.spill_worklist.contains(other)
                && !related(after, other) by {
                if other != node {
                    assert(before.simplify_worklist.contains(other));
                } else if before.simplify_worklist.contains(other) {
                    assert(!before.significant(node));
                } else {
                    assert(initial[initial.len() - 1] == node);
                }
            }
            assert forall|other: Temp| #[trigger]
                after.simplify_worklist.contains(other) implies self.degree[other.num]
                < self.register_count by {
                if other != node {
                    assert(before.simplify_worklist.contains(other));
                }
            }
            assert forall|other: Temp| #[trigger]
                after.freeze_worklist.contains(other) implies !after.precolored.contains(other)
                && !after.spill_worklist.contains(other) && after.degree[other.num]
                < after.register_count && related(after, other) by {
                if other != node {
                    assert(before.freeze_worklist.contains(other));
                } else if before.freeze_worklist.contains(other) {
                }
            }
            assert forall|other: Temp| #[trigger]
                after.spill_worklist.contains(other) implies !after.precolored.contains(other)
                && after.degree[other.num] >= after.register_count by {
                if other != node {
                    assert(before.spill_worklist.contains(other));
                } else if before.spill_worklist.contains(other) {
                }
            }
            assert forall|mov: Move| #[trigger] pending(after).contains(mov) implies after.move_list[after.get_alias(
                mov.source,
            ).num].contains(mov) && after.move_list[after.get_alias(
                mov.destination,
            ).num].contains(mov) by {
                assert(pending(before).contains(mov));
            }
            assert forall|other: Temp, mov: Move| #[trigger]
                has_move(after, other, mov) && !after.coalesced_nodes.contains(other) implies other
                == after.get_alias(mov.source) || other == after.get_alias(mov.destination) by {
                assert(has_move(before, other, mov));
            }
        } else {
            assert(self.make_worklist(initial) == self);
            assert(pending(self) =~= self.worklist_moves);
            assert forall|node: Temp, mov: Move| #[trigger]
                has_move(self, node, mov) && !self.coalesced_nodes.contains(node) implies node
                == self.get_alias(mov.source) || node == self.get_alias(mov.destination) by {
                assert(self.move_list[node.num].contains(mov));
            }
        }
    }
}

/// Whether colouring is at home: the moves are listed under their ends
/// and nowhere else, none of `initial` has a register's name, and the
/// machine of the frame `F` has registers, of which some are to be handed
/// out, and words that count further than there are temporaries and
/// registers together.
pub open spec fn suits<F: Frame>(
    move_list: Map<u32, Set<Move>>,
    worklist_moves: Set<Move>,
    initial: Seq<Temp>,
) -> bool {
    &&& moves_listed(move_list, worklist_moves)
    &&& exists|temp: Temp| #[trigger] F::spec_special_name(temp) is Some
    &&& 0 < F::spec_register_count()
    &&& F::spec_register_count() + 0x1_0000_0002 <= usize::MAX
    &&& forall|i: int| 0 <= i < initial.len() ==> F::spec_special_name(#[trigger] initial[i]) is None
}

/// Whether no two temporaries with an edge of the graph between them have
/// the same colour.
pub open spec fn proper(graph: Graph<Temp>, colors: Map<u32, Temp>) -> bool {
    forall|first: Temp, second: Temp| #[trigger]
        has_edge(graph, first, second) && first != second ==> apart(colors, first, second)
}

/// When colouring is at home, every step leaves every node in its place
/// and the edges between what stands for their ends, and every edge of
/// the interference graph is an edge of the allocator.
pub proof fn lemma_colouring_ready<F: Frame>(
    move_list: Map<u32, Set<Move>>,
    worklist_moves: Set<Move>,
    graph: Graph<Temp>,
    initial: Seq<Temp>,
    count: nat,
)
    requires
        move_list.dom() == Set::<u32>::full(),
        worklist_moves.finite(),
        Set::new(|temp: Temp| F::spec_special_name(temp) is Some).finite(),
        suits::<F>(move_list, worklist_moves, initial),
    ensures
        ({
            let ready = initial_state::<F>(move_list, worklist_moves).build(
                graph.nodes@,
            ).make_worklist(initial).run(count);
            &&& ready.wf()
            &&& placed(ready)
            &&& guarded(ready)
            &&& ready.precolored == Set::new(|temp: Temp| F::spec_special_name(temp) is Some)
            &&& forall|first: Temp, second: Temp| #[trigger]
                has_edge(graph, first, second) && first != second ==> ready.edges.contains(
                    Edge { first, second },
                )
        }),
{
    let start = initial_state::<F>(move_list, worklist_moves);
    let nodes = graph.nodes@;
    lemma_initial_state::<F>(move_list, worklist_moves);
    assert(complete(start));
    start.lemma_build_nodes_complete(nodes, nodes.len() as int);
    let linked = start.build_nodes(nodes, nodes.len() as int);
    let fixed = ordered(start.precolored);
    lemma_ordered_exists(start.precolored);
    linked.lemma_unbounded_complete(fixed);
    start.lemma_build_leaves(nodes);
    let built = start.build(nodes);
    assert(complete(built));
    assert forall|node: Temp| #[trigger] built.precolored.contains(node) implies built.degree[node.num]
        == usize::MAX by {
        assert(fixed.to_set().contains(node));
        let i = choose|i: int| 0 <= i < fixed.len() && fixed[i] == node;
        assert(built.degree[fixed[i].num] == usize::MAX);
    }
    built.lemma_make_worklist_placed(initial);
    let filled = built.make_worklist(initial);
    assert(budget(filled));
    assert(wide(filled));
    assert forall|node: Temp| #[trigger] filled.get_alias(node) == node by {}
    assert(guarded(filled)) by {
        assert forall|edge: Edge| #[trigger] filled.edges.contains(edge) implies edge.first
            != edge.second && (!filled.precolored.contains(edge.first)
            ==> filled.adjacency[edge.first.num].contains(edge.second)) by {
            assert(built.edges.contains(edge));
        }
    }
    let witness = choose|temp: Temp| #[trigger] F::spec_special_name(temp) is Some;
    assert(filled.precolored.contains(witness));
    filled.lemma_run_wide(count);
    let ready = filled.run(count);
    assert forall|first: Temp, second: Temp| #[trigger]
        has_edge(graph, first, second) && first != second implies ready.edges.contains(
        Edge { first, second },
    ) by {
        let (n, m) = choose|n: int, m: int|
            0 <= n < graph.size() && 0 <= m < graph.successors_of(n).len() && graph.element(n)
                == first && graph.element((#[trigger] graph.successors_of(n)[m]).0 as int) == second;
        assert(nodes[n].element != nodes[nodes[n].successors@[m].0 as int].element);
        assert(linked.edges.contains(Edge { first, second }));
        assert(filled.edges.contains(Edge { first, second }));
    }
}

/// No two temporaries that interfere end with the same register, after
/// any number of steps: for an interference graph whose moves are listed
/// under their ends and nowhere else, for temporaries `initial` of which
/// none has a register's name, on a machine that has registers, finitely
/// many, of which some are to be handed out, and whose words count
/// further than there are temporaries and registers together.
pub proof fn lemma_colouring_is_sound<F: Frame>(
    move_list: Map<u32, Set<Move>>,
    worklist_moves: Set<Move>,
    graph: Graph<Temp>,
    initial: Seq<Temp>,
    count: nat,
    first: Temp,
    second: Temp,
)
    requires
        move_list.dom() == Set::<u32>::full(),
        worklist_moves.finite(),
        Set::new(|temp: Temp| F::spec_special_name(temp) is Some).finite(),
        suits::<F>(move_list, worklist_moves, initial),
        has_edge(graph, first, second),
        first != second,
    ensures
        apart(
            initial_state::<F>(move_list, worklist_moves).build(graph.nodes@).make_worklist(
                initial,
            ).run(count).assign_colors().colors,
            first,
            second,
        ),
{
    lemma_colouring_ready::<F>(move_list, worklist_moves, graph, initial, count);
    let ready = initial_state::<F>(move_list, worklist_moves).build(graph.nodes@).make_worklist(
        initial,
    ).run(count);
    ready.lemma_sound_colours_apart(first, second);
}

/// No temporary that ends coloured or coalesced has a register's name,
/// when colouring is at home.
pub proof fn lemma_colouring_parts<F: Frame>(
    move_list: Map<u32, Set<Move>>,
    worklist_moves: Set<Move>,
    graph: Graph<Temp>,
    initial: Seq<Temp>,
    count: nat,
    temp: Temp,
)
    requires
        move_list.dom() == Set::<u32>::full(),
        worklist_moves.finite(),
        Set::new(|temp: Temp| F::spec_special_name(temp) is Some).finite(),
        suits::<F>(move_list, worklist_moves, initial),
    ensures
        ({
            let painted = initial_state::<F>(move_list, worklist_moves).build(
                graph.nodes@,
            ).make_worklist(initial).run(count).assign_colors();
            painted.state.colored_nodes.contains(temp) || painted.state.coalesced_nodes.contains(temp)
                ==> F::spec_special_name(temp) is None
        }),
{
    lemma_colouring_ready::<F>(move_list, worklist_moves, graph, initial, count);
    let ready = initial_state::<F>(move_list, worklist_moves).build(graph.nodes@).make_worklist(
        initial,
    ).run(count);
    let own = own_colors(Map::empty(), ordered(ready.precolored));
    ready.lemma_paint_stack(own, Set::new(|other: Temp| true));
    if ready.coalesced_nodes.contains(temp) {
        assert(unlisted(ready, temp));
    }
    if ready.select_stack.contains(temp) {
        let k = choose|k: int| 0 <= k < ready.select_stack.len() && ready.select_stack[k] == temp;
        assert(unlisted(ready, ready.select_stack[k]));
    } else {
        assert(misses(ready.select_stack, ready.select_stack.len() as int, temp));
        ready.lemma_paint_stack_keeps(own, temp);
    }
}

} // verus!
