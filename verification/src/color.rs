//! Graph colouring with coalescing: the interference graph is simplified
//! node by node, moves are coalesced where that is safe, frozen where it is
//! not, a node is chosen to spill when nothing else can be done, and the
//! nodes are coloured in the reverse of the order in which they left the
//! graph.

use std::collections::HashMap;
use vstd::prelude::*;
use vstd::set_lib::*;
use crate::coalescing::{lemma_colouring_is_sound, proper, suits};
use crate::frame::Frame;
use crate::liveness::has_edge;
use crate::painting::apart;
use crate::graph::{self, Graph};
use crate::liveness::InterferenceGraph;
use crate::ordset::{
    lemma_ordered_exists, ordered, table_extend, table_get, table_insert, table_view, Edge, Key, Move,
    OrdSet,
};
use crate::temp::Temp;

verus! {

/// The state of the allocator as mathematical sets and maps. The maps are
/// total: a temporary that was never touched has no neighbours, no moves,
/// degree zero, and itself as alias.
pub struct State {
    pub precolored: Set<Temp>,
    pub registers: Seq<Temp>,
    pub register_count: usize,
    pub active_moves: Set<Move>,
    pub adjacency: Map<u32, Set<Temp>>,
    pub edges: Set<Edge>,
    pub alias: Map<u32, Temp>,
    pub rank: Map<u32, nat>,
    pub coalesced_moves: Set<Move>,
    pub coalesced_nodes: Set<Temp>,
    pub colored_nodes: Set<Temp>,
    pub constrained_moves: Set<Move>,
    pub degree: Map<u32, nat>,
    pub freeze_worklist: Set<Temp>,
    pub frozen_moves: Set<Move>,
    pub move_list: Map<u32, Set<Move>>,
    pub select_stack: Seq<Temp>,
    pub simplify_worklist: Set<Temp>,
    pub spill_nodes: Seq<Temp>,
    pub spill_worklist: Set<Temp>,
    pub worklist_moves: Set<Move>,
}

impl State {
    /// The neighbours of `temp` that are still in the graph: neither on the
    /// stack nor coalesced.
    pub open spec fn adjacent(self, temp: Temp) -> Set<Temp> {
        self.adjacency[temp.num].difference(
            self.select_stack.to_set().union(self.coalesced_nodes),
        )
    }

    /// The moves of `temp` that may still be coalesced.
    pub open spec fn node_moves(self, temp: Temp) -> Set<Move> {
        self.move_list[temp.num].intersect(self.active_moves.union(self.worklist_moves))
    }

    /// Whether `temp` has a move that may still be coalesced.
    pub open spec fn move_related(self, temp: Temp) -> bool {
        self.node_moves(temp) != Set::<Move>::empty()
    }

    /// The stored degree of `temp`.
    pub open spec fn degree_of(self, temp: Temp) -> nat {
        self.degree[temp.num]
    }

    /// Whether the degree of `temp` is that of a node that cannot simply be
    /// taken out of the graph.
    pub open spec fn significant(self, temp: Temp) -> bool {
        self.degree_of(temp) >= self.register_count
    }

    /// The test of George for one neighbour `temp` of the node that is to
    /// be merged into the pre-coloured `u`: it is of low degree, or
    /// pre-coloured, or a neighbour of `u` already.
    pub open spec fn ok(self, temp: Temp, u: Temp) -> bool {
        !self.significant(temp) || self.precolored.contains(temp) || self.edges.contains(
            Edge { first: temp, second: u },
        )
    }

    /// The test of George for all the neighbours of `v`.
    pub open spec fn george(self, u: Temp, v: Temp) -> bool {
        forall|temp: Temp| self.adjacent(v).contains(temp) ==> #[trigger] self.ok(temp, u)
    }

    /// How many of `nodes` are of significant degree.
    pub open spec fn count_significant(self, nodes: Seq<Temp>) -> nat
        decreases nodes.len(),
    {
        if nodes.len() == 0 {
            0
        } else {
            self.count_significant(nodes.drop_last()) + if self.significant(nodes.last()) {
                1nat
            } else {
                0nat
            }
        }
    }

    /// The test of Briggs: fewer than `register_count` of `nodes` are of
    /// significant degree.
    pub open spec fn conservative(self, nodes: Set<Temp>) -> bool {
        self.count_significant(ordered(nodes)) < self.register_count
    }

    /// Whether along the aliases of coalesced nodes the ranks fall, so that
    /// following aliases ends.
    pub open spec fn alias_ok(self) -> bool {
        &&& self.coalesced_nodes.finite()
        &&& self.coalesced_nodes.len() <= usize::MAX
        &&& forall|node: Temp| #[trigger]
            self.coalesced_nodes.contains(node) ==> {
                &&& self.rank[node.num] + self.coalesced_nodes.len() > usize::MAX
                &&& self.coalesced_nodes.contains(self.alias[node.num])
                    ==> self.rank[self.alias[node.num].num] < self.rank[node.num]
            }
    }

    /// How far `node` is from a node that is not coalesced, at most.
    pub open spec fn height(self, node: Temp) -> nat {
        if self.coalesced_nodes.contains(node) {
            self.rank[node.num] + 1
        } else {
            0
        }
    }

    /// The node that stands for `node`: itself, unless it was coalesced
    /// into another, and then what stands for that one.
    pub open spec fn get_alias(self, node: Temp) -> Temp
        decreases self.height(node),
        when self.alias_ok()
    {
        if self.coalesced_nodes.contains(node) {
            self.get_alias(self.alias[node.num])
        } else {
            node
        }
    }

    /// The state with an edge between `u` and `v`, unless they are the same
    /// or the edge is there; the pre-coloured keep no list of neighbours and
    /// no count of them.
    pub open spec fn add_edge(self, u: Temp, v: Temp) -> State {
        if !self.edges.contains(Edge { first: u, second: v }) && u != v {
            let with_edges = State {
                edges: self.edges.insert(Edge { first: u, second: v }).insert(
                    Edge { first: v, second: u },
                ),
                ..self
            };
            let with_u = if !self.precolored.contains(u) {
                State {
                    adjacency: with_edges.adjacency.insert(
                        u.num,
                        with_edges.adjacency[u.num].insert(v),
                    ),
                    degree: with_edges.degree.insert(u.num, with_edges.degree[u.num] + 1),
                    ..with_edges
                }
            } else {
                with_edges
            };
            if !self.precolored.contains(v) {
                State {
                    adjacency: with_u.adjacency.insert(v.num, with_u.adjacency[v.num].insert(u)),
                    degree: with_u.degree.insert(v.num, with_u.degree[v.num] + 1),
                    ..with_u
                }
            } else {
                with_u
            }
        } else {
            self
        }
    }

    /// The state in which `mov`, if it was set aside, is ready to be
    /// looked at again.
    pub open spec fn enable_move(self, mov: Move) -> State {
        if self.active_moves.contains(mov) {
            State {
                active_moves: self.active_moves.remove(mov),
                worklist_moves: self.worklist_moves.insert(mov),
                ..self
            }
        } else {
            self
        }
    }

    /// The state after each of `moves` was enabled.
    pub open spec fn enable_list(self, moves: Seq<Move>) -> State
        decreases moves.len(),
    {
        if moves.len() == 0 {
            self
        } else {
            self.enable_list(moves.drop_last()).enable_move(moves.last())
        }
    }

    /// The state after the moves of each of `nodes` were enabled.
    pub open spec fn enable_moves(self, nodes: Seq<Temp>) -> State
        decreases nodes.len(),
    {
        if nodes.len() == 0 {
            self
        } else {
            let before = self.enable_moves(nodes.drop_last());
            before.enable_list(ordered(before.node_moves(nodes.last())))
        }
    }

    /// The state after `temp` lost a neighbour: its degree is one less, and
    /// if it was exactly `register_count`, the moves of `temp` and of its
    /// neighbours are enabled and `temp` leaves the spill worklist for the
    /// freeze worklist, if it has moves, or else for the simplify worklist.
    pub open spec fn decrement_degree(self, temp: Temp) -> State {
        let degree = self.degree_of(temp);
        let lowered = State {
            degree: self.degree.insert(
                temp.num,
                if degree > 0 {
                    (degree - 1) as nat
                } else {
                    0
                },
            ),
            ..self
        };
        if degree == self.register_count {
            let enabled = lowered.enable_moves(ordered(lowered.adjacent(temp).insert(temp)));
            let removed = State {
                spill_worklist: enabled.spill_worklist.remove(temp),
                ..enabled
            };
            if removed.move_related(temp) {
                State { freeze_worklist: removed.freeze_worklist.insert(temp), ..removed }
            } else {
                State { simplify_worklist: removed.simplify_worklist.insert(temp), ..removed }
            }
        } else {
            lowered
        }
    }

    /// The state after each of `nodes` lost a neighbour.
    pub open spec fn decrement_all(self, nodes: Seq<Temp>) -> State
        decreases nodes.len(),
    {
        if nodes.len() == 0 {
            self
        } else {
            self.decrement_all(nodes.drop_last()).decrement_degree(nodes.last())
        }
    }

    /// The state after the first node of the simplify worklist went onto
    /// the stack and its neighbours lost it.
    pub open spec fn simplify(self) -> State {
        let temp = ordered(self.simplify_worklist)[0];
        let pushed = State {
            simplify_worklist: self.simplify_worklist.remove(temp),
            select_stack: self.select_stack.push(temp),
            ..self
        };
        pushed.decrement_all(ordered(pushed.adjacent(temp)))
    }

    /// The state in which `u`, if it is not pre-coloured, has no moves left
    /// and is of low degree, went from the freeze to the simplify worklist.
    pub open spec fn add_worklist(self, u: Temp) -> State {
        if !self.precolored.contains(u) && !self.move_related(u) && !self.significant(u) {
            State {
                freeze_worklist: self.freeze_worklist.remove(u),
                simplify_worklist: self.simplify_worklist.insert(u),
                ..self
            }
        } else {
            self
        }
    }
}

impl State {
    /// Whether the sets that are counted are finite.
    pub open spec fn finite(self) -> bool {
        &&& self.active_moves.finite()
        &&& self.worklist_moves.finite()
        &&& self.freeze_worklist.finite()
        &&& self.spill_worklist.finite()
        &&& self.simplify_worklist.finite()
        &&& self.coalesced_nodes.finite()
    }

    /// Whether every temporary that is not pre-coloured is listed only
    /// beside neighbours it has an edge to, and has a degree that is no
    /// more than the number of those neighbours.
    pub open spec fn degrees_ok(self) -> bool {
        &&& forall|edge: Edge| #[trigger]
            self.edges.contains(edge) ==> self.edges.contains(
                Edge { first: edge.second, second: edge.first },
            )
        &&& forall|key: u32|
            !self.precolored.contains(Temp { num: key }) ==> {
                &&& (#[trigger] self.adjacency[key]).finite()
                &&& self.degree[key] <= self.adjacency[key].len()
                &&& forall|other: Temp|
                    self.adjacency[key].contains(other) ==> self.edges.contains(
                        Edge { first: Temp { num: key }, second: other },
                    )
            }
    }

    /// What every step of the allocator keeps.
    pub open spec fn wf(self) -> bool {
        &&& self.finite()
        &&& self.alias_ok()
        &&& self.degrees_ok()
        &&& self.adjacency.dom() == Set::<u32>::full()
        &&& self.degree.dom() == Set::<u32>::full()
        &&& self.alias.dom() == Set::<u32>::full()
        &&& self.move_list.dom() == Set::<u32>::full()
    }

    /// Whether `other` has the nodes of `self` where they were: the same
    /// stack, the same coalesced nodes with the same aliases, and the same
    /// machine.
    pub open spec fn same_nodes(self, other: State) -> bool {
        &&& self.select_stack == other.select_stack
        &&& self.coalesced_nodes == other.coalesced_nodes
        &&& self.alias == other.alias
        &&& self.rank == other.rank
        &&& self.precolored == other.precolored
        &&& self.registers == other.registers
        &&& self.register_count == other.register_count
        &&& self.colored_nodes == other.colored_nodes
        &&& self.spill_nodes == other.spill_nodes
    }

    /// Whether `other` has the graph of `self`: the same edges, lists of
    /// neighbours and lists of moves.
    pub open spec fn same_graph(self, other: State) -> bool {
        &&& self.edges == other.edges
        &&& self.adjacency == other.adjacency
        &&& self.move_list == other.move_list
    }

    /// How many nodes have left the graph.
    pub open spec fn removed(self) -> nat {
        self.select_stack.len() + self.coalesced_nodes.len()
    }

    /// What falls with every step that takes no node out of the graph.
    pub open spec fn potential(self) -> nat {
        self.spill_worklist.len() + self.freeze_worklist.len() + 2 * self.worklist_moves.len()
            + self.active_moves.len()
    }

    /// A state that shares its graph and its aliases with a well-formed
    /// state is well formed if its sets are finite.
    pub proof fn lemma_same_wf(self, other: State)
        requires
            other.wf(),
            self.finite(),
            self.alias == other.alias,
            self.rank == other.rank,
            self.coalesced_nodes == other.coalesced_nodes,
            self.adjacency == other.adjacency,
            self.degree == other.degree,
            self.edges == other.edges,
            self.precolored == other.precolored,
            self.move_list == other.move_list,
        ensures
            self.wf(),
    {
        assert forall|key: u32| !self.precolored.contains(Temp { num: key }) implies {
            &&& (#[trigger] self.adjacency[key]).finite()
            &&& self.degree[key] <= self.adjacency[key].len()
            &&& forall|other_temp: Temp|
                self.adjacency[key].contains(other_temp) ==> self.edges.contains(
                    Edge { first: Temp { num: key }, second: other_temp },
                )
        } by {
            assert(other.adjacency[key].finite());
        }
    }

    /// What stands for a node is not coalesced.
    pub proof fn lemma_alias_not_coalesced(self, node: Temp)
        requires
            self.alias_ok(),
        ensures
            !self.coalesced_nodes.contains(self.get_alias(node)),
        decreases self.height(node),
    {
        if self.coalesced_nodes.contains(node) {
            self.lemma_alias_not_coalesced(self.alias[node.num]);
        }
    }

    /// A new edge keeps the state well formed and the nodes and worklists
    /// where they were.
    pub proof fn lemma_add_edge(self, u: Temp, v: Temp)
        requires
            self.wf(),
        ensures
            self.add_edge(u, v).wf(),
            self.add_edge(u, v).same_nodes(self),
            self.add_edge(u, v).move_list == self.move_list,
            self.add_edge(u, v).active_moves == self.active_moves,
            self.add_edge(u, v).worklist_moves == self.worklist_moves,
            self.add_edge(u, v).freeze_worklist == self.freeze_worklist,
            self.add_edge(u, v).spill_worklist == self.spill_worklist,
            self.add_edge(u, v).simplify_worklist == self.simplify_worklist,
            self.edges.subset_of(self.add_edge(u, v).edges),
    {
        let after = self.add_edge(u, v);
        if !self.edges.contains(Edge { first: u, second: v }) && u != v {
            assert(!self.edges.contains(Edge { first: v, second: u })) by {
                if self.edges.contains(Edge { first: v, second: u }) {
                    assert(self.edges.contains(Edge { first: u, second: v }));
                }
            }
            assert(after.adjacency.dom() =~= Set::<u32>::full());
            assert(after.degree.dom() =~= Set::<u32>::full());
            assert forall|edge: Edge| #[trigger] after.edges.contains(edge) implies after.edges.contains(
                Edge { first: edge.second, second: edge.first },
            ) by {
                if self.edges.contains(edge) {
                    assert(self.edges.contains(Edge { first: edge.second, second: edge.first }));
                }
            }
            assert forall|key: u32| !after.precolored.contains(Temp { num: key }) implies {
                &&& (#[trigger] after.adjacency[key]).finite()
                &&& after.degree[key] <= after.adjacency[key].len()
                &&& forall|other: Temp|
                    after.adjacency[key].contains(other) ==> after.edges.contains(
                        Edge { first: Temp { num: key }, second: other },
                    )
            } by {
                assert(self.adjacency[key].finite());
                assert(self.degree[key] <= self.adjacency[key].len());
                if key == u.num {
                    assert(Temp { num: key } == u);
                    assert(!self.adjacency[key].contains(v));
                }
                if key == v.num {
                    assert(Temp { num: key } == v);
                    assert(!self.adjacency[key].contains(u));
                }
            }
        }
    }

    /// Whether `self` came from `before` by steps that neither take a node
    /// out of the graph nor change an edge or a list of moves: only degrees
    /// fell and worklists changed.
    pub open spec fn keeps(self, before: State) -> bool {
        &&& self.wf()
        &&& self.same_nodes(before)
        &&& self.same_graph(before)
        &&& self.active_moves.union(self.worklist_moves) == before.active_moves.union(
            before.worklist_moves,
        )
        &&& self.coalesced_moves == before.coalesced_moves
        &&& self.constrained_moves == before.constrained_moves
        &&& self.frozen_moves == before.frozen_moves
    }

    /// Enabling a move keeps the graph and the nodes.
    pub proof fn lemma_enable_move(self, mov: Move)
        requires
            self.wf(),
        ensures
            self.enable_move(mov).keeps(self),
            self.enable_move(mov).degree == self.degree,
            self.enable_move(mov).freeze_worklist == self.freeze_worklist,
            self.enable_move(mov).spill_worklist == self.spill_worklist,
            self.enable_move(mov).simplify_worklist == self.simplify_worklist,
    {
        let after = self.enable_move(mov);
        assert(after.active_moves.union(after.worklist_moves) =~= self.active_moves.union(
            self.worklist_moves,
        ));
    }

    /// Enabling moves keeps the graph and the nodes.
    pub proof fn lemma_enable_list(self, moves: Seq<Move>)
        requires
            self.wf(),
        ensures
            self.enable_list(moves).keeps(self),
            self.enable_list(moves).degree == self.degree,
            self.enable_list(moves).freeze_worklist == self.freeze_worklist,
            self.enable_list(moves).spill_worklist == self.spill_worklist,
            self.enable_list(moves).simplify_worklist == self.simplify_worklist,
        decreases moves.len(),
    {
        if moves.len() > 0 {
            self.lemma_enable_list(moves.drop_last());
            self.enable_list(moves.drop_last()).lemma_enable_move(moves.last());
        }
    }

    /// Enabling the moves of nodes keeps the graph and the nodes.
    pub proof fn lemma_enable_moves(self, nodes: Seq<Temp>)
        requires
            self.wf(),
        ensures
            self.enable_moves(nodes).keeps(self),
            self.enable_moves(nodes).degree == self.degree,
            self.enable_moves(nodes).freeze_worklist == self.freeze_worklist,
            self.enable_moves(nodes).spill_worklist == self.spill_worklist,
            self.enable_moves(nodes).simplify_worklist == self.simplify_worklist,
        decreases nodes.len(),
    {
        if nodes.len() > 0 {
            self.lemma_enable_moves(nodes.drop_last());
            let before = self.enable_moves(nodes.drop_last());
            before.lemma_enable_list(ordered(before.node_moves(nodes.last())));
        }
    }

    /// Lowering a degree keeps the graph and the nodes.
    pub proof fn lemma_decrement_degree(self, temp: Temp)
        requires
            self.wf(),
        ensures
            self.decrement_degree(temp).keeps(self),
    {
        let degree = self.degree_of(temp);
        let lowered = State {
            degree: self.degree.insert(
                temp.num,
                if degree > 0 {
                    (degree - 1) as nat
                } else {
                    0
                },
            ),
            ..self
        };
        assert(lowered.degree.dom() =~= Set::<u32>::full());
        assert(lowered.wf());
        if degree == self.register_count {
            lowered.lemma_enable_moves(ordered(lowered.adjacent(temp).insert(temp)));
        }
    }

    /// Lowering degrees keeps the graph and the nodes.
    pub proof fn lemma_decrement_all(self, nodes: Seq<Temp>)
        requires
            self.wf(),
        ensures
            self.decrement_all(nodes).keeps(self),
        decreases nodes.len(),
    {
        if nodes.len() > 0 {
            self.lemma_decrement_all(nodes.drop_last());
            self.decrement_all(nodes.drop_last()).lemma_decrement_degree(nodes.last());
        }
    }

    /// Simplifying puts one node on the stack and keeps the rest.
    pub proof fn lemma_simplify(self)
        requires
            self.wf(),
            self.simplify_worklist != Set::<Temp>::empty(),
        ensures
            self.simplify().wf(),
            self.simplify().select_stack.len() == self.select_stack.len() + 1,
            self.simplify().coalesced_nodes == self.coalesced_nodes,
            self.simplify().precolored == self.precolored,
            self.simplify().registers == self.registers,
            self.simplify().register_count == self.register_count,
    {
        let temp = ordered(self.simplify_worklist)[0];
        let pushed = State {
            simplify_worklist: self.simplify_worklist.remove(temp),
            select_stack: self.select_stack.push(temp),
            ..self
        };
        assert(pushed.wf());
        pushed.lemma_decrement_all(ordered(pushed.adjacent(temp)));
    }
}

impl State {
    /// The state after each of `nodes`, once a neighbour of the node that
    /// went into `u`, became a neighbour of `u` and lost the other.
    pub open spec fn merge_neighbors(self, u: Temp, nodes: Seq<Temp>) -> State
        decreases nodes.len(),
    {
        if nodes.len() == 0 {
            self
        } else {
            self.merge_neighbors(u, nodes.drop_last()).add_edge(nodes.last(), u).decrement_degree(
                nodes.last(),
            )
        }
    }

    /// The state after `v` went into `u`: `v` leaves its worklist and is
    /// coalesced with `u` as alias, `u` takes over the moves and the
    /// neighbours of `v`, and goes to the spill worklist if that made its
    /// degree significant.
    pub open spec fn combine(self, u: Temp, v: Temp) -> State {
        let taken = if self.freeze_worklist.contains(v) {
            State { freeze_worklist: self.freeze_worklist.remove(v), ..self }
        } else {
            State { spill_worklist: self.spill_worklist.remove(v), ..self }
        };
        let merged = State {
            coalesced_nodes: taken.coalesced_nodes.insert(v),
            alias: taken.alias.insert(v.num, u),
            rank: taken.rank.insert(v.num, (usize::MAX - taken.coalesced_nodes.len()) as nat),
            move_list: taken.move_list.insert(
                u.num,
                taken.move_list[u.num].union(taken.move_list[v.num]),
            ),
            ..taken
        };
        let enabled = merged.enable_moves(seq![v]);
        let joined = enabled.merge_neighbors(u, ordered(enabled.adjacent(v)));
        if joined.significant(u) && joined.freeze_worklist.contains(u) {
            State {
                freeze_worklist: joined.freeze_worklist.remove(u),
                spill_worklist: joined.spill_worklist.insert(u),
                ..joined
            }
        } else {
            joined
        }
    }

    /// Whether `v` may go into `u`: by the test of George if `u` is
    /// pre-coloured, by the test of Briggs if it is not.
    pub open spec fn may_combine(self, u: Temp, v: Temp) -> bool {
        if self.precolored.contains(u) {
            self.george(u, v)
        } else {
            self.conservative(self.adjacent(u).union(self.adjacent(v)))
        }
    }

    /// The node that a move may be merged into: what stands for its source
    /// if that is pre-coloured, else what stands for its destination.
    pub open spec fn target(self, mov: Move) -> Temp {
        if self.precolored.contains(self.get_alias(mov.source)) {
            self.get_alias(mov.source)
        } else {
            self.get_alias(mov.destination)
        }
    }

    /// The node that a move may merge into its target.
    pub open spec fn merged(self, mov: Move) -> Temp {
        if self.precolored.contains(self.get_alias(mov.source)) {
            self.get_alias(mov.destination)
        } else {
            self.get_alias(mov.source)
        }
    }

    /// The state after the first move of the worklist was looked at: it is
    /// coalesced if both ends are the same node already; constrained if
    /// both are pre-coloured or interfere; coalesced, and its ends
    /// combined, if that is safe; and set aside otherwise.
    pub open spec fn coalesce(self) -> State {
        let mov = ordered(self.worklist_moves)[0];
        let popped = State { worklist_moves: self.worklist_moves.remove(mov), ..self };
        let u = popped.target(mov);
        let v = popped.merged(mov);
        if u == v {
            State {
                coalesced_moves: popped.coalesced_moves.insert(mov),
                ..popped
            }.add_worklist(u)
        } else if popped.precolored.contains(v) || popped.edges.contains(
            Edge { first: u, second: v },
        ) {
            State {
                constrained_moves: popped.constrained_moves.insert(mov),
                ..popped
            }.add_worklist(u).add_worklist(v)
        } else if popped.may_combine(u, v) {
            State { coalesced_moves: popped.coalesced_moves.insert(mov), ..popped }.combine(
                u,
                v,
            ).add_worklist(u)
        } else {
            State { active_moves: popped.active_moves.insert(mov), ..popped }
        }
    }

    /// The state after a move of `u` was frozen: it will not be coalesced,
    /// and the node at its other end goes to the simplify worklist if it
    /// has no moves left and is of low degree.
    pub open spec fn freeze_move(self, u: Temp, mov: Move) -> State {
        let v = if self.get_alias(mov.source) == self.get_alias(u) {
            self.get_alias(mov.destination)
        } else {
            self.get_alias(mov.source)
        };
        let frozen = State {
            active_moves: self.active_moves.remove(mov),
            frozen_moves: self.frozen_moves.insert(mov),
            ..self
        };
        if !frozen.move_related(v) && !frozen.significant(v) {
            State {
                freeze_worklist: frozen.freeze_worklist.remove(v),
                simplify_worklist: frozen.simplify_worklist.insert(v),
                ..frozen
            }
        } else {
            frozen
        }
    }

    /// The state after each of `moves` was frozen as a move of `u`.
    pub open spec fn freeze_list(self, u: Temp, moves: Seq<Move>) -> State
        decreases moves.len(),
    {
        if moves.len() == 0 {
            self
        } else {
            self.freeze_list(u, moves.drop_last()).freeze_move(u, moves.last())
        }
    }

    /// The state after the moves of `u` were frozen.
    pub open spec fn freeze_moves(self, u: Temp) -> State {
        self.freeze_list(u, ordered(self.node_moves(u)))
    }

    /// The state after the first node of the freeze worklist gave up its
    /// moves and went to the simplify worklist.
    pub open spec fn freeze(self) -> State {
        let u = ordered(self.freeze_worklist)[0];
        State {
            freeze_worklist: self.freeze_worklist.remove(u),
            simplify_worklist: self.simplify_worklist.insert(u),
            ..self
        }.freeze_moves(u)
    }

    /// The first of `nodes` that none of them exceeds in degree.
    pub open spec fn highest_degree(self, nodes: Seq<Temp>) -> Temp
        decreases nodes.len(),
    {
        if nodes.len() <= 1 {
            nodes[0]
        } else {
            let best = self.highest_degree(nodes.drop_last());
            if self.degree_of(nodes.last()) > self.degree_of(best) {
                nodes.last()
            } else {
                best
            }
        }
    }

    /// The state after the node of the spill worklist that costs least to
    /// spill, the one of highest degree, gave up its moves and went to the
    /// simplify worklist.
    pub open spec fn select_spill(self) -> State {
        let temp = self.highest_degree(ordered(self.spill_worklist));
        State {
            spill_worklist: self.spill_worklist.remove(temp),
            simplify_worklist: self.simplify_worklist.insert(temp),
            ..self
        }.freeze_moves(temp)
    }

    /// The state with `node` in the worklist that its degree and its moves
    /// call for.
    pub open spec fn classify(self, node: Temp) -> State {
        if self.significant(node) {
            State { spill_worklist: self.spill_worklist.insert(node), ..self }
        } else if self.move_related(node) {
            State { freeze_worklist: self.freeze_worklist.insert(node), ..self }
        } else {
            State { simplify_worklist: self.simplify_worklist.insert(node), ..self }
        }
    }

    /// The state with each of `initial` in its worklist.
    pub open spec fn make_worklist(self, initial: Seq<Temp>) -> State
        decreases initial.len(),
    {
        if initial.len() == 0 {
            self
        } else {
            self.make_worklist(initial.drop_last()).classify(initial.last())
        }
    }

    /// The state with an edge between `temp` and the temporary of each of
    /// the nodes at `entries`.
    pub open spec fn build_edges(
        self,
        nodes: Seq<graph::Node<Temp>>,
        temp: Temp,
        entries: Seq<graph::Entry>,
    ) -> State
        decreases entries.len(),
    {
        if entries.len() == 0 {
            self
        } else {
            self.build_edges(nodes, temp, entries.drop_last()).add_edge(
                temp,
                nodes[entries.last().0 as int].element,
            )
        }
    }

    /// The state with the edges of the first `upto` nodes of an
    /// interference graph.
    pub open spec fn build_nodes(self, nodes: Seq<graph::Node<Temp>>, upto: int) -> State
        decreases upto,
    {
        if upto <= 0 {
            self
        } else {
            let node = nodes[upto - 1];
            self.build_nodes(nodes, upto - 1).build_edges(
                nodes,
                node.element,
                node.predecessors@,
            ).build_edges(nodes, node.element, node.successors@)
        }
    }

    /// The state in which each of `nodes` has a degree that no lowering
    /// will make small.
    pub open spec fn unbounded_degrees(self, nodes: Seq<Temp>) -> State
        decreases nodes.len(),
    {
        if nodes.len() == 0 {
            self
        } else {
            let before = self.unbounded_degrees(nodes.drop_last());
            State {
                degree: before.degree.insert(nodes.last().num, usize::MAX as nat),
                ..before
            }
        }
    }

    /// The state with the edges of an interference graph, in which the
    /// pre-coloured temporaries have unbounded degree.
    pub open spec fn build(self, nodes: Seq<graph::Node<Temp>>) -> State {
        self.build_nodes(nodes, nodes.len() as int).unbounded_degrees(ordered(self.precolored))
    }

    /// Whether all worklists are empty.
    pub open spec fn done(self) -> bool {
        &&& self.simplify_worklist == Set::<Temp>::empty()
        &&& self.worklist_moves == Set::<Move>::empty()
        &&& self.freeze_worklist == Set::<Temp>::empty()
        &&& self.spill_worklist == Set::<Temp>::empty()
    }

    /// The state after one step of the allocator: simplify if that can be
    /// done, else coalesce, else freeze, else choose a node to spill.
    pub open spec fn step(self) -> State {
        if self.simplify_worklist != Set::<Temp>::empty() {
            self.simplify()
        } else if self.worklist_moves != Set::<Move>::empty() {
            self.coalesce()
        } else if self.freeze_worklist != Set::<Temp>::empty() {
            self.freeze()
        } else if self.spill_worklist != Set::<Temp>::empty() {
            self.select_spill()
        } else {
            self
        }
    }

    /// The state after `count` steps.
    pub open spec fn run(self, count: nat) -> State
        decreases count,
    {
        if count == 0 {
            self
        } else {
            self.run((count - 1) as nat).step()
        }
    }
}

impl State {
    /// Whether `self` came from `before` by steps that take no node out of
    /// the graph and add nothing to what the potential counts.
    pub open spec fn settles(self, before: State) -> bool {
        &&& self.wf()
        &&& self.same_nodes(before)
        &&& self.freeze_worklist.subset_of(before.freeze_worklist)
        &&& self.spill_worklist.subset_of(before.spill_worklist)
        &&& self.worklist_moves.subset_of(before.worklist_moves)
        &&& self.active_moves.subset_of(before.active_moves)
    }

    /// A state that settles from another has no more potential.
    pub proof fn lemma_settles(self, before: State)
        requires
            before.wf(),
            self.settles(before),
        ensures
            self.potential() <= before.potential(),
            self.removed() == before.removed(),
    {
        lemma_len_subset(self.freeze_worklist, before.freeze_worklist);
        lemma_len_subset(self.spill_worklist, before.spill_worklist);
        lemma_len_subset(self.worklist_moves, before.worklist_moves);
        lemma_len_subset(self.active_moves, before.active_moves);
    }

    /// Moving a node to the simplify worklist settles.
    pub proof fn lemma_add_worklist(self, u: Temp)
        requires
            self.wf(),
        ensures
            self.add_worklist(u).settles(self),
    {
    }

    /// Freezing a move settles.
    pub proof fn lemma_freeze_move(self, u: Temp, mov: Move)
        requires
            self.wf(),
        ensures
            self.freeze_move(u, mov).settles(self),
    {
    }

    /// Freezing moves settles.
    pub proof fn lemma_freeze_list(self, u: Temp, moves: Seq<Move>)
        requires
            self.wf(),
        ensures
            self.freeze_list(u, moves).settles(self),
        decreases moves.len(),
    {
        if moves.len() > 0 {
            self.lemma_freeze_list(u, moves.drop_last());
            self.freeze_list(u, moves.drop_last()).lemma_freeze_move(u, moves.last());
        }
    }

    /// Freezing takes a node out of the freeze worklist and settles
    /// otherwise: the potential falls.
    pub proof fn lemma_freeze(self)
        requires
            self.wf(),
            self.freeze_worklist != Set::<Temp>::empty(),
        ensures
            self.freeze().wf(),
            self.freeze().same_nodes(self),
            self.freeze().potential() < self.potential(),
    {
        lemma_ordered_exists(self.freeze_worklist);
        assert(self.freeze_worklist.len() > 0) by {
            if self.freeze_worklist.len() == 0 {
                assert(self.freeze_worklist =~= Set::<Temp>::empty());
            }
        }
        let u = ordered(self.freeze_worklist)[0];
        let moved = State {
            freeze_worklist: self.freeze_worklist.remove(u),
            simplify_worklist: self.simplify_worklist.insert(u),
            ..self
        };
        assert(moved.wf());
        moved.lemma_freeze_list(u, ordered(moved.node_moves(u)));
        self.freeze().lemma_settles(moved);
    }

    /// The node of highest degree among some is one of them.
    pub proof fn lemma_highest_degree(self, nodes: Seq<Temp>)
        requires
            nodes.len() > 0,
        ensures
            nodes.contains(self.highest_degree(nodes)),
        decreases nodes.len(),
    {
        if nodes.len() > 1 {
            self.lemma_highest_degree(nodes.drop_last());
            let best = self.highest_degree(nodes.drop_last());
            let index = choose|i: int| 0 <= i < nodes.drop_last().len() && nodes.drop_last()[i] == best;
            assert(nodes[index] == best);
            assert(nodes[nodes.len() - 1] == nodes.last());
        } else {
            assert(nodes[0] == self.highest_degree(nodes));
        }
    }

    /// Choosing a node to spill takes it out of the spill worklist and
    /// settles otherwise: the potential falls.
    pub proof fn lemma_select_spill(self)
        requires
            self.wf(),
            self.spill_worklist != Set::<Temp>::empty(),
        ensures
            self.select_spill().wf(),
            self.select_spill().same_nodes(self),
            self.select_spill().potential() < self.potential(),
    {
        lemma_ordered_exists(self.spill_worklist);
        assert(self.spill_worklist.len() > 0) by {
            if self.spill_worklist.len() == 0 {
                assert(self.spill_worklist =~= Set::<Temp>::empty());
            }
        }
        self.lemma_highest_degree(ordered(self.spill_worklist));
        let temp = self.highest_degree(ordered(self.spill_worklist));
        assert(ordered(self.spill_worklist).to_set().contains(temp));
        let moved = State {
            spill_worklist: self.spill_worklist.remove(temp),
            simplify_worklist: self.simplify_worklist.insert(temp),
            ..self
        };
        assert(moved.wf());
        moved.lemma_freeze_list(temp, ordered(moved.node_moves(temp)));
        self.select_spill().lemma_settles(moved);
    }

    /// Merging neighbours keeps the state well formed and the nodes where
    /// they were.
    pub proof fn lemma_merge_neighbors(self, u: Temp, nodes: Seq<Temp>)
        requires
            self.wf(),
        ensures
            self.merge_neighbors(u, nodes).wf(),
            self.merge_neighbors(u, nodes).same_nodes(self),
        decreases nodes.len(),
    {
        if nodes.len() > 0 {
            self.lemma_merge_neighbors(u, nodes.drop_last());
            let before = self.merge_neighbors(u, nodes.drop_last());
            before.lemma_add_edge(nodes.last(), u);
            before.add_edge(nodes.last(), u).lemma_decrement_degree(nodes.last());
        }
    }

    /// Combining takes one node out of the graph.
    pub proof fn lemma_combine(self, u: Temp, v: Temp)
        requires
            self.wf(),
            u != v,
            !self.coalesced_nodes.contains(u),
            !self.coalesced_nodes.contains(v),
            self.coalesced_nodes.len() < usize::MAX,
        ensures
            self.combine(u, v).wf(),
            self.combine(u, v).select_stack == self.select_stack,
            self.combine(u, v).coalesced_nodes == self.coalesced_nodes.insert(v),
            self.combine(u, v).removed() == self.removed() + 1,
            self.combine(u, v).precolored == self.precolored,
            self.combine(u, v).registers == self.registers,
            self.combine(u, v).register_count == self.register_count,
    {
        let taken = if self.freeze_worklist.contains(v) {
            State { freeze_worklist: self.freeze_worklist.remove(v), ..self }
        } else {
            State { spill_worklist: self.spill_worklist.remove(v), ..self }
        };
        let merged = State {
            coalesced_nodes: taken.coalesced_nodes.insert(v),
            alias: taken.alias.insert(v.num, u),
            rank: taken.rank.insert(v.num, (usize::MAX - taken.coalesced_nodes.len()) as nat),
            move_list: taken.move_list.insert(
                u.num,
                taken.move_list[u.num].union(taken.move_list[v.num]),
            ),
            ..taken
        };
        assert(merged.alias.dom() =~= Set::<u32>::full());
        assert(merged.move_list.dom() =~= Set::<u32>::full());
        assert(merged.alias_ok()) by {
            assert forall|node: Temp| #[trigger] merged.coalesced_nodes.contains(node) implies {
                &&& merged.rank[node.num] + merged.coalesced_nodes.len() > usize::MAX
                &&& merged.coalesced_nodes.contains(merged.alias[node.num])
                    ==> merged.rank[merged.alias[node.num].num] < merged.rank[node.num]
            } by {
                if node != v {
                    assert(self.coalesced_nodes.contains(node));
                    assert(node.num != v.num);
                    let next = self.alias[node.num];
                    if merged.coalesced_nodes.contains(next) && next != v {
                        assert(self.coalesced_nodes.contains(next));
                        assert(next.num != v.num);
                    }
                }
            }
        }
        assert(merged.wf());
        merged.lemma_enable_moves(seq![v]);
        let enabled = merged.enable_moves(seq![v]);
        enabled.lemma_merge_neighbors(u, ordered(enabled.adjacent(v)));
    }

    /// Looking at a move either takes a node out of the graph or lowers the
    /// potential.
    pub proof fn lemma_coalesce(self)
        requires
            self.wf(),
            self.worklist_moves != Set::<Move>::empty(),
            self.coalesce().coalesced_nodes.len() <= usize::MAX,
        ensures
            self.coalesce().wf(),
            self.coalesce().precolored == self.precolored,
            self.coalesce().registers == self.registers,
            self.coalesce().register_count == self.register_count,
            self.coalesce().removed() >= self.removed(),
            self.coalesce().removed() == self.removed() ==> self.coalesce().potential()
                < self.potential(),
    {
        lemma_ordered_exists(self.worklist_moves);
        assert(self.worklist_moves.len() > 0) by {
            if self.worklist_moves.len() == 0 {
                assert(self.worklist_moves =~= Set::<Move>::empty());
            }
        }
        let mov = ordered(self.worklist_moves)[0];
        let popped = State { worklist_moves: self.worklist_moves.remove(mov), ..self };
        assert(popped.wf());
        assert(popped.potential() + 2 == self.potential());
        let u = popped.target(mov);
        let v = popped.merged(mov);
        popped.lemma_alias_not_coalesced(mov.source);
        popped.lemma_alias_not_coalesced(mov.destination);
        if u == v {
            let marked = State { coalesced_moves: popped.coalesced_moves.insert(mov), ..popped };
            assert(marked.wf());
            marked.lemma_add_worklist(u);
            marked.add_worklist(u).lemma_settles(marked);
        } else if popped.precolored.contains(v) || popped.edges.contains(
            Edge { first: u, second: v },
        ) {
            let marked = State { constrained_moves: popped.constrained_moves.insert(mov), ..popped };
            assert(marked.wf());
            marked.lemma_add_worklist(u);
            marked.add_worklist(u).lemma_settles(marked);
            marked.add_worklist(u).lemma_add_worklist(v);
            marked.add_worklist(u).add_worklist(v).lemma_settles(marked.add_worklist(u));
        } else if popped.may_combine(u, v) {
            let marked = State { coalesced_moves: popped.coalesced_moves.insert(mov), ..popped };
            assert(marked.wf());
            let combined = marked.combine(u, v);
            assert(self.coalesce() == combined.add_worklist(u));
            assert(combined.add_worklist(u).coalesced_nodes == combined.coalesced_nodes);
            assert(combined.coalesced_nodes =~= marked.coalesced_nodes.insert(v)) by {
                marked.lemma_combine_nodes(u, v);
            }
            assert(marked.coalesced_nodes.len() < usize::MAX);
            marked.lemma_combine(u, v);
            combined.lemma_add_worklist(u);
        } else {
            let aside = State { active_moves: popped.active_moves.insert(mov), ..popped };
            assert(aside.wf());
        }
    }

    /// Combining adds the merged node to the coalesced ones, whatever else
    /// holds.
    pub proof fn lemma_combine_nodes(self, u: Temp, v: Temp)
        ensures
            self.combine(u, v).coalesced_nodes == self.coalesced_nodes.insert(v),
    {
        let taken = if self.freeze_worklist.contains(v) {
            State { freeze_worklist: self.freeze_worklist.remove(v), ..self }
        } else {
            State { spill_worklist: self.spill_worklist.remove(v), ..self }
        };
        let merged = State {
            coalesced_nodes: taken.coalesced_nodes.insert(v),
            alias: taken.alias.insert(v.num, u),
            rank: taken.rank.insert(v.num, (usize::MAX - taken.coalesced_nodes.len()) as nat),
            move_list: taken.move_list.insert(
                u.num,
                taken.move_list[u.num].union(taken.move_list[v.num]),
            ),
            ..taken
        };
        merged.lemma_enable_moves_nodes(seq![v]);
        let enabled = merged.enable_moves(seq![v]);
        enabled.lemma_merge_neighbors_nodes(u, ordered(enabled.adjacent(v)));
    }

    /// Enabling moves changes no set of nodes.
    pub proof fn lemma_enable_list_nodes(self, moves: Seq<Move>)
        ensures
            self.enable_list(moves).coalesced_nodes == self.coalesced_nodes,
        decreases moves.len(),
    {
        if moves.len() > 0 {
            self.lemma_enable_list_nodes(moves.drop_last());
        }
    }

    /// Enabling the moves of nodes changes no set of nodes.
    pub proof fn lemma_enable_moves_nodes(self, nodes: Seq<Temp>)
        ensures
            self.enable_moves(nodes).coalesced_nodes == self.coalesced_nodes,
        decreases nodes.len(),
    {
        if nodes.len() > 0 {
            self.lemma_enable_moves_nodes(nodes.drop_last());
            let before = self.enable_moves(nodes.drop_last());
            before.lemma_enable_list_nodes(ordered(before.node_moves(nodes.last())));
        }
    }

    /// Merging neighbours leaves the coalesced nodes as they are.
    pub proof fn lemma_merge_neighbors_nodes(self, u: Temp, nodes: Seq<Temp>)
        ensures
            self.merge_neighbors(u, nodes).coalesced_nodes == self.coalesced_nodes,
        decreases nodes.len(),
    {
        if nodes.len() > 0 {
            self.lemma_merge_neighbors_nodes(u, nodes.drop_last());
            let before = self.merge_neighbors(u, nodes.drop_last()).add_edge(nodes.last(), u);
            let temp = nodes.last();
            let degree = before.degree_of(temp);
            let lowered = State {
                degree: before.degree.insert(
                    temp.num,
                    if degree > 0 {
                        (degree - 1) as nat
                    } else {
                        0
                    },
                ),
                ..before
            };
            lowered.lemma_enable_moves_nodes(ordered(lowered.adjacent(temp).insert(temp)));
        }
    }

    /// A step keeps the state well formed, and either takes a node out of
    /// the graph or lowers the potential.
    pub proof fn lemma_step(self)
        requires
            self.wf(),
            !self.done(),
            self.step().coalesced_nodes.len() <= usize::MAX,
        ensures
            self.step().wf(),
            self.step().precolored == self.precolored,
            self.step().registers == self.registers,
            self.step().register_count == self.register_count,
            self.step().removed() >= self.removed(),
            self.step().removed() == self.removed() ==> self.step().potential() < self.potential(),
    {
        if self.simplify_worklist != Set::<Temp>::empty() {
            self.lemma_simplify();
        } else if self.worklist_moves != Set::<Move>::empty() {
            self.lemma_coalesce();
        } else if self.freeze_worklist != Set::<Temp>::empty() {
            self.lemma_freeze();
        } else {
            self.lemma_select_spill();
        }
    }
}

/// An assignment of colours with the state it was made in.
pub struct Painted {
    pub state: State,
    pub colors: Map<u32, Temp>,
}

/// The assignment in which each of `nodes` has itself as colour.
pub open spec fn own_colors(colors: Map<u32, Temp>, nodes: Seq<Temp>) -> Map<u32, Temp>
    decreases nodes.len(),
{
    if nodes.len() == 0 {
        colors
    } else {
        own_colors(colors, nodes.drop_last()).insert(nodes.last().num, nodes.last())
    }
}

impl State {
    /// What is left of the colours `free` once the colours of what stands
    /// for each of `neighbors`, where that is coloured, are taken away.
    pub open spec fn free_colors(
        self,
        colors: Map<u32, Temp>,
        free: Set<Temp>,
        neighbors: Seq<Temp>,
    ) -> Set<Temp>
        decreases neighbors.len(),
    {
        if neighbors.len() == 0 {
            free
        } else {
            let rest = self.free_colors(colors, free, neighbors.drop_last());
            let node = self.get_alias(neighbors.last());
            if (self.colored_nodes.contains(node) || self.precolored.contains(node))
                && colors.contains_key(node.num) {
                rest.remove(colors[node.num])
            } else {
                rest
            }
        }
    }

    /// The colours that the node on top of the stack may take.
    pub open spec fn colors_for_top(self, colors: Map<u32, Temp>) -> Set<Temp> {
        let temp = self.select_stack.last();
        State { select_stack: self.select_stack.drop_last(), ..self }.free_colors(
            colors,
            self.registers.to_set(),
            ordered(self.adjacency[temp.num]),
        )
    }

    /// The state and the colours after the node on top of the stack was
    /// given the first colour that none of its coloured neighbours has, or,
    /// if there is none, was put among the nodes to spill.
    pub open spec fn paint_top(self, colors: Map<u32, Temp>) -> Painted {
        let temp = self.select_stack.last();
        let popped = State { select_stack: self.select_stack.drop_last(), ..self };
        let free = self.colors_for_top(colors);
        if free != Set::<Temp>::empty() {
            Painted {
                state: State { colored_nodes: popped.colored_nodes.insert(temp), ..popped },
                colors: colors.insert(temp.num, ordered(free)[0]),
            }
        } else {
            Painted { state: State { spill_nodes: popped.spill_nodes.push(temp), ..popped }, colors }
        }
    }

    /// The state and the colours after every node of the stack, from the
    /// top down, was coloured or put among the nodes to spill.
    pub open spec fn paint_stack(self, colors: Map<u32, Temp>) -> Painted
        decreases self.select_stack.len(),
    {
        if self.select_stack.len() == 0 {
            Painted { state: self, colors }
        } else {
            let painted = self.paint_top(colors);
            painted.state.paint_stack(painted.colors)
        }
    }

    /// The colours after each of `nodes` took the colour of what stands
    /// for it, where that has one.
    pub open spec fn paint_coalesced(self, colors: Map<u32, Temp>, nodes: Seq<Temp>) -> Map<u32, Temp>
        decreases nodes.len(),
    {
        if nodes.len() == 0 {
            colors
        } else {
            let before = self.paint_coalesced(colors, nodes.drop_last());
            let alias = self.get_alias(nodes.last());
            if before.contains_key(alias.num) {
                before.insert(nodes.last().num, before[alias.num])
            } else {
                before
            }
        }
    }

    /// The state and the colours after the pre-coloured temporaries took
    /// their own colours, the nodes of the stack were coloured from the top
    /// down, and the coalesced nodes took the colours of their aliases.
    pub open spec fn assign_colors(self) -> Painted {
        let painted = self.paint_stack(own_colors(Map::empty(), ordered(self.precolored)));
        Painted {
            state: painted.state,
            colors: painted.state.paint_coalesced(
                painted.colors,
                ordered(painted.state.coalesced_nodes),
            ),
        }
    }

    /// The state in which `v` is coalesced with `u` as alias and `u` has
    /// taken over the moves of `v`.
    pub open spec fn merge_node(self, u: Temp, v: Temp) -> State {
        let taken = if self.freeze_worklist.contains(v) {
            State { freeze_worklist: self.freeze_worklist.remove(v), ..self }
        } else {
            State { spill_worklist: self.spill_worklist.remove(v), ..self }
        };
        State {
            coalesced_nodes: taken.coalesced_nodes.insert(v),
            alias: taken.alias.insert(v.num, u),
            rank: taken.rank.insert(v.num, (usize::MAX - taken.coalesced_nodes.len()) as nat),
            move_list: taken.move_list.insert(
                u.num,
                taken.move_list[u.num].union(taken.move_list[v.num]),
            ),
            ..taken
        }
    }

    /// Coalescing a node that is in the graph with another keeps the state
    /// well formed.
    pub proof fn lemma_merge_node(self, u: Temp, v: Temp)
        requires
            self.wf(),
            u != v,
            !self.coalesced_nodes.contains(u),
            !self.coalesced_nodes.contains(v),
            self.coalesced_nodes.len() < usize::MAX,
        ensures
            self.merge_node(u, v).wf(),
            self.combine(u, v) == {
                let enabled = self.merge_node(u, v).enable_moves(seq![v]);
                let joined = enabled.merge_neighbors(u, ordered(enabled.adjacent(v)));
                if joined.significant(u) && joined.freeze_worklist.contains(u) {
                    State {
                        freeze_worklist: joined.freeze_worklist.remove(u),
                        spill_worklist: joined.spill_worklist.insert(u),
                        ..joined
                    }
                } else {
                    joined
                }
            },
    {
        let merged = self.merge_node(u, v);
        assert(merged.alias.dom() =~= Set::<u32>::full());
        assert(merged.move_list.dom() =~= Set::<u32>::full());
        assert forall|node: Temp| #[trigger] merged.coalesced_nodes.contains(node) implies {
            &&& merged.rank[node.num] + merged.coalesced_nodes.len() > usize::MAX
            &&& merged.coalesced_nodes.contains(merged.alias[node.num])
                ==> merged.rank[merged.alias[node.num].num] < merged.rank[node.num]
        } by {
            if node != v {
                assert(self.coalesced_nodes.contains(node));
                assert(node.num != v.num);
                let next = self.alias[node.num];
                if merged.coalesced_nodes.contains(next) && next != v {
                    assert(self.coalesced_nodes.contains(next));
                    assert(next.num != v.num);
                }
            }
        }
    }
}

impl State {
    /// New edges keep the state well formed.
    pub proof fn lemma_build_edges(
        self,
        nodes: Seq<graph::Node<Temp>>,
        temp: Temp,
        entries: Seq<graph::Entry>,
    )
        requires
            self.wf(),
        ensures
            self.build_edges(nodes, temp, entries).wf(),
            self.build_edges(nodes, temp, entries).same_nodes(self),
        decreases entries.len(),
    {
        if entries.len() > 0 {
            self.lemma_build_edges(nodes, temp, entries.drop_last());
            self.build_edges(nodes, temp, entries.drop_last()).lemma_add_edge(
                temp,
                nodes[entries.last().0 as int].element,
            );
        }
    }

    /// The edges of a graph keep the state well formed.
    pub proof fn lemma_build_nodes(self, nodes: Seq<graph::Node<Temp>>, upto: int)
        requires
            self.wf(),
        ensures
            self.build_nodes(nodes, upto).wf(),
            self.build_nodes(nodes, upto).same_nodes(self),
        decreases upto,
    {
        if upto > 0 {
            self.lemma_build_nodes(nodes, upto - 1);
            let node = nodes[upto - 1];
            let before = self.build_nodes(nodes, upto - 1);
            before.lemma_build_edges(nodes, node.element, node.predecessors@);
            before.build_edges(nodes, node.element, node.predecessors@).lemma_build_edges(
                nodes,
                node.element,
                node.successors@,
            );
        }
    }

    /// Unbounded degrees for pre-coloured temporaries keep the state well
    /// formed.
    pub proof fn lemma_unbounded_degrees(self, nodes: Seq<Temp>)
        requires
            self.wf(),
            forall|k: int| 0 <= k < nodes.len() ==> self.precolored.contains(#[trigger] nodes[k]),
        ensures
            self.unbounded_degrees(nodes).wf(),
            self.unbounded_degrees(nodes).same_nodes(self),
        decreases nodes.len(),
    {
        if nodes.len() > 0 {
            self.lemma_unbounded_degrees(nodes.drop_last());
            let before = self.unbounded_degrees(nodes.drop_last());
            let after = State {
                degree: before.degree.insert(nodes.last().num, usize::MAX as nat),
                ..before
            };
            assert(after.degree.dom() =~= Set::<u32>::full());
            assert(self.precolored.contains(nodes[nodes.len() - 1]));
            assert forall|key: u32| !after.precolored.contains(Temp { num: key }) implies {
                &&& (#[trigger] after.adjacency[key]).finite()
                &&& after.degree[key] <= after.adjacency[key].len()
                &&& forall|other_temp: Temp|
                    after.adjacency[key].contains(other_temp) ==> after.edges.contains(
                        Edge { first: Temp { num: key }, second: other_temp },
                    )
            } by {
                assert(before.adjacency[key].finite());
                if key == nodes.last().num {
                    assert(Temp { num: key } == nodes.last());
                }
            }
        }
    }

    /// Classifying nodes keeps the state well formed.
    pub proof fn lemma_make_worklist(self, initial: Seq<Temp>)
        requires
            self.wf(),
        ensures
            self.make_worklist(initial).wf(),
            self.make_worklist(initial).same_nodes(self),
        decreases initial.len(),
    {
        if initial.len() > 0 {
            self.lemma_make_worklist(initial.drop_last());
        }
    }
}

/// The state of an allocator that has done nothing yet, for the machine of
/// the frame `F` and the moves of an interference graph.
pub open spec fn initial_state<F: Frame>(move_list: Map<u32, Set<Move>>, worklist_moves: Set<Move>) -> State {
    State {
        precolored: Set::new(|temp: Temp| F::spec_special_name(temp) is Some),
        registers: F::spec_registers(),
        register_count: F::spec_register_count() as usize,
        active_moves: Set::empty(),
        adjacency: Map::new(|key: u32| true, |key: u32| Set::<Temp>::empty()),
        edges: Set::empty(),
        alias: Map::new(|key: u32| true, |key: u32| Temp { num: key }),
        rank: Map::empty(),
        coalesced_moves: Set::empty(),
        coalesced_nodes: Set::empty(),
        colored_nodes: Set::empty(),
        constrained_moves: Set::empty(),
        degree: Map::new(|key: u32| true, |key: u32| 0nat),
        freeze_worklist: Set::empty(),
        frozen_moves: Set::empty(),
        move_list,
        select_stack: Seq::empty(),
        simplify_worklist: Set::empty(),
        spill_nodes: Seq::empty(),
        spill_worklist: Set::empty(),
        worklist_moves,
    }
}

/// What the allocator hands back: the colour of each temporary that has
/// one, the temporaries to spill, and the nodes that were coloured and
/// those that were coalesced.
pub open spec fn colored(
    ready: State,
    allocation: Map<u32, Temp>,
    spills: Seq<Temp>,
    colored_nodes: Set<Temp>,
    coalesced_nodes: Set<Temp>,
) -> bool {
    let painted = ready.assign_colors();
    &&& ready.done()
    &&& allocation == painted.colors
    &&& spills == painted.state.spill_nodes
    &&& colored_nodes == painted.state.colored_nodes
    &&& coalesced_nodes == painted.state.coalesced_nodes
}

impl State {
    /// Coalescing is safe: when looking at a move merges one node into
    /// another, the two passed the test of George, if the node merged into
    /// is pre-coloured, or the test of Briggs, if it is not, in the state
    /// in which the move had just left the worklist.
    pub proof fn lemma_coalescing_is_safe(self)
        requires
            self.wf(),
            self.worklist_moves != Set::<Move>::empty(),
            self.coalesce().coalesced_nodes != self.coalesced_nodes,
        ensures
            ({
                let mov = ordered(self.worklist_moves)[0];
                let popped = State { worklist_moves: self.worklist_moves.remove(mov), ..self };
                let u = popped.target(mov);
                let v = popped.merged(mov);
                &&& self.coalesce().coalesced_nodes == self.coalesced_nodes.insert(v)
                &&& u != v
                &&& !popped.precolored.contains(v)
                &&& !popped.edges.contains(Edge { first: u, second: v })
                &&& popped.precolored.contains(u) ==> popped.george(u, v)
                &&& !popped.precolored.contains(u) ==> popped.conservative(
                    popped.adjacent(u).union(popped.adjacent(v)),
                )
            }),
    {
        lemma_ordered_exists(self.worklist_moves);
        let mov = ordered(self.worklist_moves)[0];
        let popped = State { worklist_moves: self.worklist_moves.remove(mov), ..self };
        assert(popped.wf());
        let u = popped.target(mov);
        let v = popped.merged(mov);
        if u == v {
            let marked = State { coalesced_moves: popped.coalesced_moves.insert(mov), ..popped };
            assert(marked.wf());
            marked.lemma_add_worklist(u);
        } else if popped.precolored.contains(v) || popped.edges.contains(
            Edge { first: u, second: v },
        ) {
            let marked = State { constrained_moves: popped.constrained_moves.insert(mov), ..popped };
            assert(marked.wf());
            marked.lemma_add_worklist(u);
            marked.add_worklist(u).lemma_add_worklist(v);
        } else if popped.may_combine(u, v) {
            let marked = State { coalesced_moves: popped.coalesced_moves.insert(mov), ..popped };
            marked.lemma_combine_nodes(u, v);
        } else {
        }
    }

    /// The colours that are left hold none that what stands for a
    /// neighbour has, and only colours that were free.
    pub proof fn lemma_free_colors(
        self,
        colors: Map<u32, Temp>,
        free: Set<Temp>,
        neighbors: Seq<Temp>,
        index: int,
    )
        requires
            0 <= index < neighbors.len(),
        ensures
            self.free_colors(colors, free, neighbors).subset_of(free),
            ({
                let node = self.get_alias(neighbors[index]);
                (self.colored_nodes.contains(node) || self.precolored.contains(node))
                    && colors.contains_key(node.num) ==> !self.free_colors(
                    colors,
                    free,
                    neighbors,
                ).contains(colors[node.num])
            }),
        decreases neighbors.len(),
    {
        let shorter = neighbors.drop_last();
        let rest = self.free_colors(colors, free, shorter);
        if shorter.len() > 0 {
            self.lemma_free_colors(
                colors,
                free,
                shorter,
                if index < shorter.len() {
                    index
                } else {
                    0
                },
            );
        }
        assert(rest.subset_of(free));
        assert(self.free_colors(colors, free, neighbors).subset_of(rest));
        if index < shorter.len() {
            assert(shorter[index] == neighbors[index]);
        }
    }

    /// A node takes a colour of the machine that none of its neighbours
    /// has: when the node on top of the stack is coloured, its colour is a
    /// register, and differs from the colour of what stands for each of its
    /// neighbours, where that is coloured or pre-coloured and has a colour.
    pub proof fn lemma_colour_differs(self, colors: Map<u32, Temp>, neighbor: Temp)
        requires
            self.select_stack.len() > 0,
            self.adjacency[self.select_stack.last().num].finite(),
            self.adjacency[self.select_stack.last().num].contains(neighbor),
            self.colors_for_top(colors) != Set::<Temp>::empty(),
        ensures
            ({
                let temp = self.select_stack.last();
                let popped = State { select_stack: self.select_stack.drop_last(), ..self };
                let node = popped.get_alias(neighbor);
                let painted = self.paint_top(colors);
                &&& painted.colors.contains_key(temp.num)
                &&& self.registers.contains(painted.colors[temp.num])
                &&& painted.state.colored_nodes.contains(temp)
                &&& (popped.colored_nodes.contains(node) || popped.precolored.contains(node))
                    && colors.contains_key(node.num) ==> painted.colors[temp.num]
                    != colors[node.num]
            }),
    {
        let temp = self.select_stack.last();
        let popped = State { select_stack: self.select_stack.drop_last(), ..self };
        let neighbors = ordered(self.adjacency[temp.num]);
        lemma_ordered_exists(self.adjacency[temp.num]);
        assert(neighbors.to_set().contains(neighbor));
        let index = choose|index: int| 0 <= index < neighbors.len() && neighbors[index] == neighbor;
        popped.lemma_free_colors(colors, self.registers.to_set(), neighbors, index);
        let free = self.colors_for_top(colors);
        vstd::seq_lib::seq_to_set_is_finite(self.registers);
        lemma_len_subset(free, self.registers.to_set());
        lemma_ordered_exists(free);
        assert(free.len() > 0) by {
            if free.len() == 0 {
                assert(free =~= Set::<Temp>::empty());
            }
        }
        assert(free.contains(ordered(free)[0]));
        assert(self.registers.to_set().contains(ordered(free)[0]));
    }
}

/// The degrees as a function from every temporary's number.
pub open spec fn degree_view(degree: Map<u32, usize>) -> Map<u32, nat> {
    Map::new(
        |key: u32| true,
        |key: u32|
            if degree.contains_key(key) {
                degree[key] as nat
            } else {
                0
            },
    )
}

/// The aliases as a function from every temporary's number.
pub open spec fn alias_view(alias: Map<u32, Temp>) -> Map<u32, Temp> {
    Map::new(
        |key: u32| true,
        |key: u32|
            if alias.contains_key(key) {
                alias[key]
            } else {
                Temp { num: key }
            },
    )
}

/// The allocator.
pub struct Allocator {
    pub active_moves: OrdSet<Move>,
    pub adjacency_list: HashMap<u32, OrdSet<Temp>>,
    pub adjacency_set: OrdSet<Edge>,
    pub alias: HashMap<u32, Temp>,
    pub rank: Ghost<Map<u32, nat>>,
    pub coalesced_moves: OrdSet<Move>,
    pub coalesced_nodes: OrdSet<Temp>,
    pub colored_nodes: OrdSet<Temp>,
    pub constrained_moves: OrdSet<Move>,
    pub degree: HashMap<u32, usize>,
    pub freeze_worklist: OrdSet<Temp>,
    pub frozen_moves: OrdSet<Move>,
    pub move_list: HashMap<u32, OrdSet<Move>>,
    pub precolored: OrdSet<Temp>,
    pub registers: Vec<Temp>,
    pub register_count: usize,
    pub select_stack: Vec<Temp>,
    pub simplify_worklist: OrdSet<Temp>,
    pub spill_nodes: Vec<Temp>,
    pub spill_worklist: OrdSet<Temp>,
    pub worklist_moves: OrdSet<Move>,
}

impl View for Allocator {
    type V = State;

    open spec fn view(&self) -> State {
        State {
            precolored: self.precolored@,
            registers: self.registers@,
            register_count: self.register_count,
            active_moves: self.active_moves@,
            adjacency: table_view(self.adjacency_list@),
            edges: self.adjacency_set@,
            alias: alias_view(self.alias@),
            rank: self.rank@,
            coalesced_moves: self.coalesced_moves@,
            coalesced_nodes: self.coalesced_nodes@,
            colored_nodes: self.colored_nodes@,
            constrained_moves: self.constrained_moves@,
            degree: degree_view(self.degree@),
            freeze_worklist: self.freeze_worklist@,
            frozen_moves: self.frozen_moves@,
            move_list: table_view(self.move_list@),
            select_stack: self.select_stack@,
            simplify_worklist: self.simplify_worklist@,
            spill_nodes: self.spill_nodes@,
            spill_worklist: self.spill_worklist@,
            worklist_moves: self.worklist_moves@,
        }
    }
}

/// The set of the temporaries of a list.
fn stack_set(stack: &Vec<Temp>) -> (set: OrdSet<Temp>)
    ensures
        set@ == stack@.to_set(),
{
    OrdSet::from_vec(stack)
}

impl Allocator {
    /// The sets of the allocator are finite.
    pub proof fn lemma_finite_sets(&self)
        ensures
            self@.finite(),
    {
        self.active_moves.lemma_finite();
        self.worklist_moves.lemma_finite();
        self.freeze_worklist.lemma_finite();
        self.spill_worklist.lemma_finite();
        self.simplify_worklist.lemma_finite();
        self.coalesced_nodes.lemma_finite();
    }

    /// The stored degree of `temp`; zero if none is stored.
    pub fn degree_of(&self, temp: Temp) -> (degree: usize)
        ensures
            degree == self@.degree_of(temp),
    {
        match self.degree.get(&temp.num) {
            Some(degree) => *degree,
            None => 0,
        }
    }

    /// The neighbours of `temp` that are still in the graph.
    pub fn adjacent(&self, temp: Temp) -> (nodes: OrdSet<Temp>)
        ensures
            nodes@ == self@.adjacent(temp),
    {
        let mut nodes = table_get(&self.adjacency_list, temp.num);
        let removed = stack_set(&self.select_stack);
        nodes.subtract(&removed);
        nodes.subtract(&self.coalesced_nodes);
        assert(nodes@ =~= self@.adjacent(temp));
        nodes
    }

    /// The moves of `temp` that may still be coalesced.
    pub fn node_moves(&self, temp: Temp) -> (moves: OrdSet<Move>)
        ensures
            moves@ == self@.node_moves(temp),
    {
        let listed = table_get(&self.move_list, temp.num);
        let mut pending = self.active_moves.copy();
        pending.extend(&self.worklist_moves);
        listed.intersection(&pending)
    }

    /// Whether `temp` has a move that may still be coalesced.
    pub fn move_related(&self, temp: Temp) -> (related: bool)
        ensures
            related == self@.move_related(temp),
    {
        !self.node_moves(temp).is_empty()
    }

    /// The test of George for one neighbour.
    pub fn ok(&self, temp: Temp, u: Temp) -> (passes: bool)
        ensures
            passes == self@.ok(temp, u),
    {
        self.degree_of(temp) < self.register_count || self.precolored.contains(&temp)
            || self.adjacency_set.contains(&Edge { first: temp, second: u })
    }

    /// The test of Briggs.
    pub fn conservative(&self, nodes: &OrdSet<Temp>) -> (passes: bool)
        ensures
            passes == self@.conservative(nodes@),
    {
        let mut count: usize = 0;
        let mut index: usize = 0;
        let total = nodes.len();
        while index < total
            invariant
                total == nodes.seq().len(),
                index <= nodes.seq().len(),
                nodes.seq() == ordered(nodes@),
                count == self@.count_significant(nodes.seq().subrange(0, index as int)),
                count <= index,
            decreases nodes.seq().len() - index,
        {
            proof {
                let longer = nodes.seq().subrange(0, index + 1);
                assert(longer.drop_last() =~= nodes.seq().subrange(0, index as int));
                assert(longer.last() == nodes.seq()[index as int]);
            }
            if self.degree_of(nodes.get(index)) >= self.register_count {
                count = count + 1;
            }
            index = index + 1;
        }
        assert(nodes.seq().subrange(0, index as int) =~= nodes.seq());
        count < self.register_count
    }

    /// The node that stands for `node`.
    pub fn get_alias(&self, node: Temp) -> (alias: Temp)
        requires
            self@.alias_ok(),
        ensures
            alias == self@.get_alias(node),
            !self@.coalesced_nodes.contains(alias),
        decreases self@.height(node),
    {
        if self.coalesced_nodes.contains(&node) {
            let next = match self.alias.get(&node.num) {
                Some(next) => *next,
                None => node,
            };
            self.get_alias(next)
        } else {
            node
        }
    }

    /// Adds the edge between `u` and `v`, unless they are the same or the
    /// edge is there.
    pub fn add_edge(&mut self, u: Temp, v: Temp)
        requires
            old(self)@.wf(),
        ensures
            final(self)@ == old(self)@.add_edge(u, v),
            final(self)@.wf(),
    {
        proof {
            old(self)@.lemma_add_edge(u, v);
        }
        if !self.adjacency_set.contains(&Edge { first: u, second: v }) && u.num != v.num {
            proof {
                if self@.edges.contains(Edge { first: v, second: u }) {
                    assert(self@.edges.contains(Edge { first: u, second: v }));
                }
            }
            self.adjacency_set.insert(Edge { first: u, second: v });
            self.adjacency_set.insert(Edge { first: v, second: u });
            if !self.precolored.contains(&u) {
                proof {
                    assert(old(self)@.adjacency[u.num].finite());
                    assert(!old(self)@.adjacency[u.num].contains(v));
                }
                let degree = self.degree_of(u);
                table_insert(&mut self.adjacency_list, u.num, v);
                self.degree.insert(u.num, degree + 1);
            }
            if !self.precolored.contains(&v) {
                proof {
                    assert(old(self)@.adjacency[v.num].finite());
                    assert(!old(self)@.adjacency[v.num].contains(u));
                }
                let degree = self.degree_of(v);
                table_insert(&mut self.adjacency_list, v.num, u);
                self.degree.insert(v.num, degree + 1);
            }
            assert(self@.adjacency =~= old(self)@.add_edge(u, v).adjacency);
            assert(self@.degree =~= old(self)@.add_edge(u, v).degree);
            assert(self@.edges =~= old(self)@.add_edge(u, v).edges);
        }
    }

    /// Makes the moves of `node` that were set aside ready to be looked at
    /// again.
    pub fn enable_node(&mut self, node: Temp)
        ensures
            final(self)@ == old(self)@.enable_list(ordered(old(self)@.node_moves(node))),
    {
        let moves = self.node_moves(node);
        let total = moves.len();
        let mut index: usize = 0;
        while index < total
            invariant
                index <= total,
                total == moves.seq().len(),
                self@ == old(self)@.enable_list(moves.seq().subrange(0, index as int)),
            decreases total - index,
        {
            let mov = moves.get(index);
            proof {
                let longer = moves.seq().subrange(0, index + 1);
                assert(longer.drop_last() =~= moves.seq().subrange(0, index as int));
                assert(longer.last() == mov);
            }
            if self.active_moves.contains(&mov) {
                self.active_moves.remove(&mov);
                self.worklist_moves.insert(mov);
            }
            index = index + 1;
        }
        assert(moves.seq().subrange(0, index as int) =~= moves.seq());
    }

    /// Makes the moves of `nodes` that were set aside ready to be looked at
    /// again.
    pub fn enable_moves(&mut self, nodes: &OrdSet<Temp>)
        ensures
            final(self)@ == old(self)@.enable_moves(ordered(nodes@)),
    {
        let total = nodes.len();
        let mut index: usize = 0;
        while index < total
            invariant
                index <= total,
                total == nodes.seq().len(),
                nodes.seq() == ordered(nodes@),
                self@ == old(self)@.enable_moves(nodes.seq().subrange(0, index as int)),
            decreases total - index,
        {
            let node = nodes.get(index);
            proof {
                let longer = nodes.seq().subrange(0, index + 1);
                assert(longer.drop_last() =~= nodes.seq().subrange(0, index as int));
                assert(longer.last() == node);
            }
            self.enable_node(node);
            index = index + 1;
        }
        assert(nodes.seq().subrange(0, index as int) =~= nodes.seq());
    }

    /// Takes note that `temp` lost a neighbour.
    pub fn decrement_degree(&mut self, temp: Temp)
        ensures
            final(self)@ == old(self)@.decrement_degree(temp),
    {
        let degree = self.degree_of(temp);
        let lowered: usize = if degree > 0 {
            degree - 1
        } else {
            0
        };
        self.degree.insert(temp.num, lowered);
        assert(self@.degree =~= old(self)@.degree.insert(temp.num, lowered as nat));
        if degree == self.register_count {
            let mut nodes = self.adjacent(temp);
            nodes.insert(temp);
            self.enable_moves(&nodes);
            self.spill_worklist.remove(&temp);
            if self.move_related(temp) {
                self.freeze_worklist.insert(temp);
            } else {
                self.simplify_worklist.insert(temp);
            }
        }
    }

    /// Takes the first node of the simplify worklist out of the graph and
    /// onto the stack.
    pub fn simplify(&mut self)
        requires
            old(self)@.simplify_worklist != Set::<Temp>::empty(),
        ensures
            final(self)@ == old(self)@.simplify(),
    {
        let temp = match self.simplify_worklist.pop_first() {
            Some(temp) => temp,
            None => Temp { num: 0 },
        };
        self.select_stack.push(temp);
        let neighbors = self.adjacent(temp);
        let ghost pushed = self@;
        let total = neighbors.len();
        let mut index: usize = 0;
        while index < total
            invariant
                index <= total,
                total == neighbors.seq().len(),
                neighbors.seq() == ordered(neighbors@),
                self@ == pushed.decrement_all(neighbors.seq().subrange(0, index as int)),
            decreases total - index,
        {
            let neighbor = neighbors.get(index);
            proof {
                let longer = neighbors.seq().subrange(0, index + 1);
                assert(longer.drop_last() =~= neighbors.seq().subrange(0, index as int));
                assert(longer.last() == neighbor);
            }
            self.decrement_degree(neighbor);
            index = index + 1;
        }
        assert(neighbors.seq().subrange(0, index as int) =~= neighbors.seq());
    }

    /// Moves `u` from the freeze to the simplify worklist if it is not
    /// pre-coloured, has no moves left and is of low degree.
    pub fn add_worklist(&mut self, u: Temp)
        ensures
            final(self)@ == old(self)@.add_worklist(u),
    {
        if !self.precolored.contains(&u) && !self.move_related(u) && self.degree_of(u)
            < self.register_count {
            self.freeze_worklist.remove(&u);
            self.simplify_worklist.insert(u);
        }
    }

    /// Merges `v` into `u`.
    pub fn combine(&mut self, u: Temp, v: Temp)
        requires
            old(self)@.wf(),
            u != v,
            !old(self)@.coalesced_nodes.contains(u),
            !old(self)@.coalesced_nodes.contains(v),
        ensures
            final(self)@ == old(self)@.combine(u, v),
            final(self)@.wf(),
    {
        if self.freeze_worklist.contains(&v) {
            self.freeze_worklist.remove(&v);
        } else {
            self.spill_worklist.remove(&v);
        }
        let ghost count = self.coalesced_nodes@.len();
        self.coalesced_nodes.insert(v);
        self.alias.insert(v.num, u);
        proof {
            self.rank@ = self.rank@.insert(v.num, (usize::MAX - count) as nat);
        }
        let moves = table_get(&self.move_list, v.num);
        table_extend(&mut self.move_list, u.num, &moves);
        let size = self.coalesced_nodes.len();
        proof {
            assert(self@.alias =~= old(self)@.merge_node(u, v).alias);
            assert(self@ == old(self)@.merge_node(u, v));
            old(self)@.lemma_merge_node(u, v);
            old(self)@.lemma_combine(u, v);
        }
        let mut single: OrdSet<Temp> = OrdSet::new();
        single.insert(v);
        let one = single.len();
        let only = single.get(0);
        assert(ordered(single@) =~= seq![v]);
        self.enable_moves(&single);
        proof {
            old(self)@.merge_node(u, v).lemma_enable_moves(seq![v]);
        }
        let ghost enabled = self@;
        let nodes = self.adjacent(v);
        let total = nodes.len();
        let mut index: usize = 0;
        while index < total
            invariant
                index <= total,
                total == nodes.seq().len(),
                nodes.seq() == ordered(nodes@),
                enabled.wf(),
                self@ == enabled.merge_neighbors(u, nodes.seq().subrange(0, index as int)),
                self@.wf(),
            decreases total - index,
        {
            let temp = nodes.get(index);
            proof {
                let longer = nodes.seq().subrange(0, index + 1);
                assert(longer.drop_last() =~= nodes.seq().subrange(0, index as int));
                assert(longer.last() == temp);
                enabled.lemma_merge_neighbors(u, longer);
            }
            self.add_edge(temp, u);
            self.decrement_degree(temp);
            index = index + 1;
        }
        assert(nodes.seq().subrange(0, index as int) =~= nodes.seq());
        if self.degree_of(u) >= self.register_count && self.freeze_worklist.contains(&u) {
            self.freeze_worklist.remove(&u);
            self.spill_worklist.insert(u);
        }
    }

    /// The test of George for all the neighbours of `v`.
    pub fn george(&self, u: Temp, v: Temp) -> (passes: bool)
        ensures
            passes == self@.george(u, v),
    {
        let nodes = self.adjacent(v);
        let total = nodes.len();
        let mut index: usize = 0;
        proof {
            use_type_invariant(&nodes);
            nodes.lemma_seq();
        }
        while index < total
            invariant
                index <= total,
                total == nodes.seq().len(),
                nodes@ == self@.adjacent(v),
                nodes.seq().to_set() == nodes@,
                forall|k: int| 0 <= k < index ==> self@.ok(#[trigger] nodes.seq()[k], u),
            decreases total - index,
        {
            let temp = nodes.get(index);
            if !self.ok(temp, u) {
                assert(self@.adjacent(v).contains(temp));
                return false;
            }
            index = index + 1;
        }
        assert forall|temp: Temp| self@.adjacent(v).contains(temp) implies #[trigger] self@.ok(
            temp,
            u,
        ) by {
            let k = choose|k: int| 0 <= k < nodes.seq().len() && nodes.seq()[k] == temp;
            assert(self@.ok(nodes.seq()[k], u));
        }
        true
    }

    /// Looks at the first move of the worklist.
    pub fn coalesce(&mut self)
        requires
            old(self)@.wf(),
            old(self)@.worklist_moves != Set::<Move>::empty(),
        ensures
            final(self)@ == old(self)@.coalesce(),
    {
        let mov = match self.worklist_moves.pop_first() {
            Some(mov) => mov,
            None => Move { destination: Temp { num: 0 }, source: Temp { num: 0 } },
        };
        let ghost popped = self@;
        proof {
            self.lemma_finite_sets();
            popped.lemma_same_wf(old(self)@);
        }
        let x = self.get_alias(mov.destination);
        let y = self.get_alias(mov.source);
        let u = if self.precolored.contains(&y) {
            y
        } else {
            x
        };
        let v = if self.precolored.contains(&y) {
            x
        } else {
            y
        };
        assert(u == popped.target(mov) && v == popped.merged(mov));
        if u.num == v.num {
            self.coalesced_moves.insert(mov);
            self.add_worklist(u);
        } else if self.precolored.contains(&v) || self.adjacency_set.contains(
            &Edge { first: u, second: v },
        ) {
            self.constrained_moves.insert(mov);
            self.add_worklist(u);
            self.add_worklist(v);
        } else {
            let safe = if self.precolored.contains(&u) {
                self.george(u, v)
            } else {
                let mut nodes = self.adjacent(u);
                let others = self.adjacent(v);
                nodes.extend(&others);
                self.conservative(&nodes)
            };
            if safe {
                self.coalesced_moves.insert(mov);
                proof {
                    self.lemma_finite_sets();
                    self@.lemma_same_wf(old(self)@);
                }
                self.combine(u, v);
                self.add_worklist(u);
            } else {
                self.active_moves.insert(mov);
            }
        }
    }

    /// Gives up the moves of `u`.
    pub fn freeze_moves(&mut self, u: Temp)
        requires
            old(self)@.wf(),
        ensures
            final(self)@ == old(self)@.freeze_moves(u),
    {
        let moves = self.node_moves(u);
        let total = moves.len();
        let mut index: usize = 0;
        while index < total
            invariant
                index <= total,
                total == moves.seq().len(),
                moves.seq() == ordered(old(self)@.node_moves(u)),
                old(self)@.wf(),
                self@ == old(self)@.freeze_list(u, moves.seq().subrange(0, index as int)),
            decreases total - index,
        {
            let mov = moves.get(index);
            proof {
                let longer = moves.seq().subrange(0, index + 1);
                assert(longer.drop_last() =~= moves.seq().subrange(0, index as int));
                assert(longer.last() == mov);
                old(self)@.lemma_freeze_list(u, moves.seq().subrange(0, index as int));
            }
            let y = self.get_alias(mov.source);
            let own = self.get_alias(u);
            let v = if y.num == own.num {
                self.get_alias(mov.destination)
            } else {
                y
            };
            self.active_moves.remove(&mov);
            self.frozen_moves.insert(mov);
            if !self.move_related(v) && self.degree_of(v) < self.register_count {
                self.freeze_worklist.remove(&v);
                self.simplify_worklist.insert(v);
            }
            index = index + 1;
        }
        assert(moves.seq().subrange(0, index as int) =~= moves.seq());
    }

    /// Gives up the moves of the first node of the freeze worklist.
    pub fn freeze(&mut self)
        requires
            old(self)@.wf(),
            old(self)@.freeze_worklist != Set::<Temp>::empty(),
        ensures
            final(self)@ == old(self)@.freeze(),
    {
        let u = match self.freeze_worklist.pop_first() {
            Some(u) => u,
            None => Temp { num: 0 },
        };
        self.simplify_worklist.insert(u);
        proof {
            self.lemma_finite_sets();
            self@.lemma_same_wf(old(self)@);
        }
        self.freeze_moves(u);
    }

    /// What it costs to spill `node`: the more neighbours it has, the less.
    pub fn spill_cost(&self, node: Temp) -> (cost: i128)
        ensures
            cost == -(self@.degree_of(node) as int),
    {
        -(self.degree_of(node) as i128)
    }

    /// Chooses the node of the spill worklist that costs least to spill.
    pub fn select_spill(&mut self)
        requires
            old(self)@.wf(),
            old(self)@.spill_worklist != Set::<Temp>::empty(),
        ensures
            final(self)@ == old(self)@.select_spill(),
    {
        let total = self.spill_worklist.len();
        let empty = self.spill_worklist.is_empty();
        let mut best = self.spill_worklist.get(0);
        let mut index: usize = 1;
        assert(self.spill_worklist.seq().subrange(0, 1).drop_last().len() == 0);
        while index < total
            invariant
                1 <= index <= total,
                total == self.spill_worklist.seq().len(),
                self@ == old(self)@,
                self.spill_worklist.seq() == ordered(self@.spill_worklist),
                best == self@.highest_degree(self.spill_worklist.seq().subrange(0, index as int)),
            decreases total - index,
        {
            let node = self.spill_worklist.get(index);
            proof {
                let longer = self.spill_worklist.seq().subrange(0, index + 1);
                assert(longer.drop_last() =~= self.spill_worklist.seq().subrange(0, index as int));
                assert(longer.last() == node);
            }
            if self.spill_cost(node) < self.spill_cost(best) {
                best = node;
            }
            index = index + 1;
        }
        assert(self.spill_worklist.seq().subrange(0, index as int) =~= self.spill_worklist.seq());
        self.spill_worklist.remove(&best);
        self.simplify_worklist.insert(best);
        proof {
            self.lemma_finite_sets();
            self@.lemma_same_wf(old(self)@);
        }
        self.freeze_moves(best);
    }

    /// Puts each of `initial` in the worklist that its degree and its moves
    /// call for.
    pub fn make_worklist(&mut self, initial: &Vec<Temp>)
        ensures
            final(self)@ == old(self)@.make_worklist(initial@),
    {
        let mut index: usize = 0;
        while index < initial.len()
            invariant
                index <= initial@.len(),
                self@ == old(self)@.make_worklist(initial@.subrange(0, index as int)),
            decreases initial@.len() - index,
        {
            let node = initial[index];
            proof {
                let longer = initial@.subrange(0, index + 1);
                assert(longer.drop_last() =~= initial@.subrange(0, index as int));
                assert(longer.last() == node);
            }
            if self.degree_of(node) >= self.register_count {
                self.spill_worklist.insert(node);
            } else if self.move_related(node) {
                self.freeze_worklist.insert(node);
            } else {
                self.simplify_worklist.insert(node);
            }
            index = index + 1;
        }
        assert(initial@.subrange(0, index as int) =~= initial@);
    }

    /// An allocator that has done nothing yet.
    pub fn new<F: Frame>(move_list: HashMap<u32, OrdSet<Move>>, worklist_moves: OrdSet<Move>) -> (allocator:
        Allocator)
        ensures
            allocator@ == initial_state::<F>(table_view(move_list@), worklist_moves@),
            allocator@.wf(),
    {
        let map = F::temp_map();
        let mut precolored: OrdSet<Temp> = OrdSet::new();
        let mut index: usize = 0;
        while index < map.len()
            invariant
                index <= map@.len(),
                forall|temp: Temp|
                    precolored@.contains(temp) <==> exists|i: int|
                        0 <= i < index && (#[trigger] map@[i]).0 == temp,
            decreases map@.len() - index,
        {
            let pair = map[index];
            precolored.insert(pair.0);
            index = index + 1;
        }
        let allocator = Allocator {
            active_moves: OrdSet::new(),
            adjacency_list: HashMap::new(),
            adjacency_set: OrdSet::new(),
            alias: HashMap::new(),
            rank: Ghost(Map::empty()),
            coalesced_moves: OrdSet::new(),
            coalesced_nodes: OrdSet::new(),
            colored_nodes: OrdSet::new(),
            constrained_moves: OrdSet::new(),
            degree: HashMap::new(),
            freeze_worklist: OrdSet::new(),
            frozen_moves: OrdSet::new(),
            move_list,
            precolored,
            registers: F::registers(),
            register_count: F::register_count(),
            select_stack: Vec::new(),
            simplify_worklist: OrdSet::new(),
            spill_nodes: Vec::new(),
            spill_worklist: OrdSet::new(),
            worklist_moves,
        };
        proof {
            let state = initial_state::<F>(table_view(move_list@), worklist_moves@);
            assert(allocator@.precolored =~= state.precolored);
            assert(allocator@.adjacency =~= state.adjacency);
            assert(allocator@.alias =~= state.alias);
            assert(allocator@.degree =~= state.degree);
            allocator.lemma_finite_sets();
            assert(allocator@.move_list.dom() =~= Set::<u32>::full());
            assert(allocator@.wf());
        }
        allocator
    }

    /// Adds the edges between `temp` and the temporaries of the nodes at
    /// `entries`.
    fn build_edges(&mut self, nodes: &Vec<graph::Node<Temp>>, temp: Temp, entries: &Vec<graph::Entry>)
        requires
            old(self)@.wf(),
            forall|k: int| 0 <= k < entries@.len() ==> (#[trigger] entries@[k]).0 < nodes@.len(),
        ensures
            final(self)@ == old(self)@.build_edges(nodes@, temp, entries@),
            final(self)@.wf(),
    {
        let mut index: usize = 0;
        while index < entries.len()
            invariant
                index <= entries@.len(),
                forall|k: int| 0 <= k < entries@.len() ==> (#[trigger] entries@[k]).0 < nodes@.len(),
                self@ == old(self)@.build_edges(nodes@, temp, entries@.subrange(0, index as int)),
                self@.wf(),
            decreases entries@.len() - index,
        {
            let entry = entries[index];
            proof {
                let longer = entries@.subrange(0, index + 1);
                assert(longer.drop_last() =~= entries@.subrange(0, index as int));
                assert(longer.last() == entry);
            }
            let other = *nodes[entry.index()].get();
            self.add_edge(temp, other);
            index = index + 1;
        }
        assert(entries@.subrange(0, index as int) =~= entries@);
    }

    /// Takes over the edges of an interference graph and gives the
    /// pre-coloured temporaries a degree that no lowering will make small.
    pub fn build(&mut self, nodes: &Vec<graph::Node<Temp>>)
        requires
            old(self)@.wf(),
            forall|i: int, k: int|
                #![trigger nodes@[i].predecessors@[k]]
                0 <= i < nodes@.len() && 0 <= k < nodes@[i].predecessors@.len()
                    ==> nodes@[i].predecessors@[k].0 < nodes@.len(),
            forall|i: int, k: int|
                #![trigger nodes@[i].successors@[k]]
                0 <= i < nodes@.len() && 0 <= k < nodes@[i].successors@.len()
                    ==> nodes@[i].successors@[k].0 < nodes@.len(),
        ensures
            final(self)@ == old(self)@.build(nodes@),
            final(self)@.wf(),
    {
        let mut index: usize = 0;
        while index < nodes.len()
            invariant
                index <= nodes@.len(),
                forall|i: int, k: int|
                    #![trigger nodes@[i].predecessors@[k]]
                    0 <= i < nodes@.len() && 0 <= k < nodes@[i].predecessors@.len()
                        ==> nodes@[i].predecessors@[k].0 < nodes@.len(),
                forall|i: int, k: int|
                    #![trigger nodes@[i].successors@[k]]
                    0 <= i < nodes@.len() && 0 <= k < nodes@[i].successors@.len()
                        ==> nodes@[i].successors@[k].0 < nodes@.len(),
                self@ == old(self)@.build_nodes(nodes@, index as int),
                self@.wf(),
            decreases nodes@.len() - index,
        {
            let node = &nodes[index];
            let temp = *node.get();
            self.build_edges(nodes, temp, node.predecessors());
            self.build_edges(nodes, temp, node.successors());
            index = index + 1;
        }
        let ghost built = self@;
        proof {
            old(self)@.lemma_build_nodes(nodes@, nodes@.len() as int);
            use_type_invariant(&self.precolored);
            self.precolored.lemma_seq();
        }
        let total = self.precolored.len();
        let mut position: usize = 0;
        while position < total
            invariant
                position <= total,
                total == self.precolored.seq().len(),
                self.precolored.seq() == ordered(built.precolored),
                self@.precolored == built.precolored,
                self@ == built.unbounded_degrees(
                    self.precolored.seq().subrange(0, position as int),
                ),
            decreases total - position,
        {
            let node = self.precolored.get(position);
            proof {
                let longer = self.precolored.seq().subrange(0, position + 1);
                assert(longer.drop_last() =~= self.precolored.seq().subrange(0, position as int));
                assert(longer.last() == node);
            }
            let ghost before = self@;
            self.degree.insert(node.num, usize::MAX);
            assert(self@.degree =~= before.degree.insert(node.num, usize::MAX as nat));
            position = position + 1;
        }
        proof {
            assert(self.precolored.seq().subrange(0, position as int) =~= self.precolored.seq());
            built.lemma_unbounded_degrees(ordered(built.precolored));
        }
    }

    /// The colours that are left for the node that was on top of the stack.
    fn free_colors(&self, colors: &HashMap<u32, Temp>, temp: Temp) -> (free: OrdSet<Temp>)
        requires
            self@.wf(),
        ensures
            free@ == self@.free_colors(
                colors@,
                self@.registers.to_set(),
                ordered(self@.adjacency[temp.num]),
            ),
    {
        let mut free = OrdSet::from_vec(&self.registers);
        let neighbors = table_get(&self.adjacency_list, temp.num);
        let total = neighbors.len();
        let mut index: usize = 0;
        while index < total
            invariant
                index <= total,
                total == neighbors.seq().len(),
                neighbors.seq() == ordered(self@.adjacency[temp.num]),
                self@.wf(),
                free@ == self@.free_colors(
                    colors@,
                    self@.registers.to_set(),
                    neighbors.seq().subrange(0, index as int),
                ),
            decreases total - index,
        {
            let neighbor = neighbors.get(index);
            proof {
                let longer = neighbors.seq().subrange(0, index + 1);
                assert(longer.drop_last() =~= neighbors.seq().subrange(0, index as int));
                assert(longer.last() == neighbor);
            }
            let node = self.get_alias(neighbor);
            if self.colored_nodes.contains(&node) || self.precolored.contains(&node) {
                match colors.get(&node.num) {
                    Some(color) => {
                        free.remove(color);
                    },
                    None => {},
                }
            }
            index = index + 1;
        }
        assert(neighbors.seq().subrange(0, index as int) =~= neighbors.seq());
        free
    }

    /// Gives every node of the stack a colour or puts it among the nodes to
    /// spill, and gives the coalesced nodes the colours of their aliases.
    pub fn assign_colors(&mut self) -> (colors: HashMap<u32, Temp>)
        requires
            old(self)@.wf(),
        ensures
            final(self)@ == old(self)@.assign_colors().state,
            colors@ == old(self)@.assign_colors().colors,
    {
        let mut colors: HashMap<u32, Temp> = HashMap::new();
        let count = self.precolored.len();
        let mut index: usize = 0;
        assert(colors@ =~= Map::<u32, Temp>::empty());
        while index < count
            invariant
                index <= count,
                count == self.precolored.seq().len(),
                self.precolored.seq() == ordered(self@.precolored),
                self@ == old(self)@,
                colors@ == own_colors(
                    Map::empty(),
                    self.precolored.seq().subrange(0, index as int),
                ),
            decreases count - index,
        {
            let node = self.precolored.get(index);
            proof {
                let longer = self.precolored.seq().subrange(0, index + 1);
                assert(longer.drop_last() =~= self.precolored.seq().subrange(0, index as int));
                assert(longer.last() == node);
            }
            colors.insert(node.num, node);
            index = index + 1;
        }
        assert(self.precolored.seq().subrange(0, index as int) =~= self.precolored.seq());
        let ghost target = old(self)@.paint_stack(colors@);
        while self.select_stack.len() > 0
            invariant
                self@.wf(),
                self@.paint_stack(colors@) == target,
            decreases self.select_stack@.len(),
        {
            let ghost before = self@;
            let ghost colors_before = colors@;
            let temp = match self.select_stack.pop() {
                Some(temp) => temp,
                None => Temp { num: 0 },
            };
            proof {
                self.lemma_finite_sets();
                self@.lemma_same_wf(before);
                assert(self.select_stack@ =~= before.select_stack.drop_last());
            }
            let mut free = self.free_colors(&colors, temp);
            assert(free@ == before.colors_for_top(colors_before));
            match free.pop_first() {
                Some(color) => {
                    self.colored_nodes.insert(temp);
                    colors.insert(temp.num, color);
                },
                None => {
                    self.spill_nodes.push(temp);
                },
            }
            proof {
                self.lemma_finite_sets();
                self@.lemma_same_wf(before);
                assert(self@ == before.paint_top(colors_before).state);
                assert(colors@ == before.paint_top(colors_before).colors);
            }
        }
        let ghost painted = self@;
        let ghost painted_colors = colors@;
        let total = self.coalesced_nodes.len();
        let mut position: usize = 0;
        while position < total
            invariant
                position <= total,
                total == self.coalesced_nodes.seq().len(),
                self.coalesced_nodes.seq() == ordered(self@.coalesced_nodes),
                self@ == painted,
                self@.wf(),
                colors@ == painted.paint_coalesced(
                    painted_colors,
                    self.coalesced_nodes.seq().subrange(0, position as int),
                ),
            decreases total - position,
        {
            let node = self.coalesced_nodes.get(position);
            proof {
                let longer = self.coalesced_nodes.seq().subrange(0, position + 1);
                assert(longer.drop_last() =~= self.coalesced_nodes.seq().subrange(
                    0,
                    position as int,
                ));
                assert(longer.last() == node);
            }
            let alias = self.get_alias(node);
            let color = match colors.get(&alias.num) {
                Some(color) => Some(*color),
                None => None,
            };
            match color {
                Some(color) => {
                    colors.insert(node.num, color);
                },
                None => {},
            }
            position = position + 1;
        }
        assert(self.coalesced_nodes.seq().subrange(0, position as int)
            =~= self.coalesced_nodes.seq());
        colors
    }

    /// Whether all worklists are empty.
    pub fn done(&self) -> (done: bool)
        ensures
            done == self@.done(),
    {
        self.simplify_worklist.is_empty() && self.worklist_moves.is_empty()
            && self.freeze_worklist.is_empty() && self.spill_worklist.is_empty()
    }

    /// Colours the interference graph with the nodes `nodes` for the
    /// temporaries `initial`: builds the graph, fills the worklists, takes
    /// steps until all worklists are empty, and assigns the colours.
    pub fn allocate(&mut self, initial: &Vec<Temp>, nodes: &Vec<graph::Node<Temp>>) -> (colors:
        HashMap<u32, Temp>)
        requires
            old(self)@.wf(),
            forall|i: int, k: int|
                #![trigger nodes@[i].predecessors@[k]]
                0 <= i < nodes@.len() && 0 <= k < nodes@[i].predecessors@.len()
                    ==> nodes@[i].predecessors@[k].0 < nodes@.len(),
            forall|i: int, k: int|
                #![trigger nodes@[i].successors@[k]]
                0 <= i < nodes@.len() && 0 <= k < nodes@[i].successors@.len()
                    ==> nodes@[i].successors@[k].0 < nodes@.len(),
        ensures
            exists|count: nat|
                colored(
                    #[trigger] old(self)@.build(nodes@).make_worklist(initial@).run(count),
                    colors@,
                    final(self)@.spill_nodes,
                    final(self)@.colored_nodes,
                    final(self)@.coalesced_nodes,
                ),
    {
        self.build(nodes);
        proof {
            self@.lemma_make_worklist(initial@);
        }
        self.make_worklist(initial);
        let ghost start = self@;
        let ghost mut count: nat = 0;
        let mut size = self.coalesced_nodes.len();
        while !self.done()
            invariant
                self@ == start.run(count),
                self@.wf(),
                size == self@.coalesced_nodes.len(),
            decreases (2 * usize::MAX - self@.removed()) as nat, self@.potential(),
        {
            let ghost before = self@;
            if !self.simplify_worklist.is_empty() {
                self.simplify();
            } else if !self.worklist_moves.is_empty() {
                self.coalesce();
            } else if !self.freeze_worklist.is_empty() {
                self.freeze();
            } else {
                self.select_spill();
            }
            size = self.coalesced_nodes.len();
            proof {
                assert(self@ == before.step());
                before.lemma_step();
                count = count + 1;
                assert(self.select_stack.len() <= usize::MAX);
            }
        }
        let ghost ready = self@;
        let colors = self.assign_colors();
        proof {
            assert(colored(
                start.run(count),
                colors@,
                self@.spill_nodes,
                self@.colored_nodes,
                self@.coalesced_nodes,
            ));
        }
        colors
    }
}

/// Colours an interference graph for the temporaries `initial` on the
/// machine of the frame `F`. Gives the colour of each temporary that has
/// one, the temporaries to spill, the nodes that were coloured and the
/// nodes that were coalesced. Where the moves are listed under their ends
/// alone and none of `initial` has a register's name, no two temporaries
/// with an edge of the graph between them get the same colour.
pub fn color<F: Frame>(interference_graph: InterferenceGraph, initial: Vec<Temp>) -> (result: (
    HashMap<u32, Temp>,
    Vec<Temp>,
    OrdSet<Temp>,
    OrdSet<Temp>,
))
    requires
        interference_graph.graph.wf(),
    ensures
        exists|count: nat|
            colored(
                #[trigger] initial_state::<F>(
                    table_view(interference_graph.move_list@),
                    interference_graph.worklist_moves@,
                ).build(interference_graph.graph.nodes@).make_worklist(initial@).run(count),
                result.0@,
                result.1@,
                result.2@,
                result.3@,
            ),
        suits::<F>(
            table_view(interference_graph.move_list@),
            interference_graph.worklist_moves@,
            initial@,
        ) ==> proper(interference_graph.graph, result.0@),
{
    let ghost moves = table_view(interference_graph.move_list@);
    let ghost worklist = interference_graph.worklist_moves@;
    let graph = interference_graph.graph;
    let mut allocator = Allocator::new::<F>(
        interference_graph.move_list,
        interference_graph.worklist_moves,
    );
    let ghost start = allocator@;
    proof {
        allocator.precolored.lemma_finite();
        allocator.worklist_moves.lemma_finite();
    }
    let allocation = allocator.allocate(&initial, &graph.nodes);
    proof {
        if suits::<F>(moves, worklist, initial@) {
            let count = choose|count: nat|
                colored(
                    #[trigger] start.build(graph.nodes@).make_worklist(initial@).run(count),
                    allocation@,
                    allocator@.spill_nodes,
                    allocator@.colored_nodes,
                    allocator@.coalesced_nodes,
                );
            assert(moves.dom() =~= Set::<u32>::full());
            assert(start.precolored =~= Set::new(|temp: Temp| F::spec_special_name(temp) is Some));
            assert forall|first: Temp, second: Temp| #[trigger]
                has_edge(graph, first, second) && first != second implies apart(
                allocation@,
                first,
                second,
            ) by {
                lemma_colouring_is_sound::<F>(
                    moves,
                    worklist,
                    graph,
                    initial@,
                    count,
                    first,
                    second,
                );
            }
        }
    }
    (allocation, allocator.spill_nodes, allocator.colored_nodes, allocator.coalesced_nodes)
}

} // verus!
