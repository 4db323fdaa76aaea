//! Assigning the colours: a node of the stack takes a register that none
//! of the nodes has which its list of neighbours leads to and which were
//! coloured before it, and keeps it to the end.

use vstd::prelude::*;
use crate::color::{own_colors, State};
use crate::ordset::{lemma_ordered_exists, ordered};
use crate::temp::Temp;

verus! {

/// Whether `temp` is not among the first `upto` of `temps`.
pub open spec fn misses(temps: Seq<Temp>, upto: int, temp: Temp) -> bool {
    forall|k: int| 0 <= k < upto && k < temps.len() ==> #[trigger] temps[k] != temp
}

/// Whether the nodes of the stack are still to be coloured, each once: no
/// node stands twice on the stack, and none of them is pre-coloured,
/// coalesced or coloured.
pub open spec fn separate(state: State) -> bool {
    &&& state.select_stack.no_duplicates()
    &&& forall|k: int|
        0 <= k < state.select_stack.len() ==> {
            &&& !state.precolored.contains(#[trigger] state.select_stack[k])
            &&& !state.coalesced_nodes.contains(state.select_stack[k])
            &&& !state.colored_nodes.contains(state.select_stack[k])
        }
}

/// Whether no node of the stack has a colour yet.
pub open spec fn unpainted(state: State, colors: Map<u32, Temp>) -> bool {
    forall|k: int|
        0 <= k < state.select_stack.len() ==> !colors.contains_key(
            (#[trigger] state.select_stack[k]).num,
        )
}

impl State {
    /// Colouring the node on top of the stack leaves the rest of a stack
    /// whose nodes are still to be coloured as it was.
    pub proof fn lemma_paint_top_separate(self, colors: Map<u32, Temp>)
        requires
            separate(self),
            unpainted(self, colors),
            self.select_stack.len() > 0,
        ensures
            separate(self.paint_top(colors).state),
            unpainted(self.paint_top(colors).state, self.paint_top(colors).colors),
            self.paint_top(colors).state.select_stack == self.select_stack.drop_last(),
    {
        let top = self.paint_top(colors);
        let rest = self.select_stack.drop_last();
        let last = self.select_stack.len() - 1;
        assert forall|k: int| 0 <= k < rest.len() implies {
            &&& !top.state.precolored.contains(#[trigger] rest[k])
            &&& !top.state.coalesced_nodes.contains(rest[k])
            &&& !top.state.colored_nodes.contains(rest[k])
            &&& !top.colors.contains_key(rest[k].num)
        } by {
            assert(rest[k] == self.select_stack[k]);
            assert(self.select_stack[k] != self.select_stack[last]);
            assert(!colors.contains_key(self.select_stack[k].num));
        }
        assert(rest.no_duplicates()) by {
            assert forall|i: int, j: int| 0 <= i < rest.len() && 0 <= j < rest.len() && i != j implies rest[i]
                != rest[j] by {
                assert(rest[i] == self.select_stack[i]);
                assert(rest[j] == self.select_stack[j]);
            }
        }
    }

    /// Colouring the stack changes the colour of no temporary that is not
    /// on it, and colours only nodes of the stack.
    pub proof fn lemma_paint_stack_keeps(self, colors: Map<u32, Temp>, other: Temp)
        requires
            misses(self.select_stack, self.select_stack.len() as int, other),
        ensures
            self.paint_stack(colors).colors.contains_key(other.num) == colors.contains_key(other.num),
            colors.contains_key(other.num) ==> self.paint_stack(colors).colors[other.num]
                == colors[other.num],
            self.paint_stack(colors).state.colored_nodes.contains(other)
                == self.colored_nodes.contains(other),
        decreases self.select_stack.len(),
    {
        if self.select_stack.len() > 0 {
            let top = self.paint_top(colors);
            let last = self.select_stack.len() - 1;
            assert(self.select_stack[last] != other);
            assert(misses(top.state.select_stack, top.state.select_stack.len() as int, other)) by {
                assert forall|k: int|
                    0 <= k < top.state.select_stack.len() implies #[trigger] top.state.select_stack[k]
                    != other by {
                    assert(self.select_stack[k] != other);
                }
            }
            top.state.lemma_paint_stack_keeps(top.colors, other);
        }
    }

    /// A node of the stack that is coloured takes a register that none of
    /// the nodes has which its list of neighbours leads to and which were
    /// coloured before it: those that are pre-coloured, and those coloured
    /// in the end that do not stand at or below it on the stack.
    pub proof fn lemma_paint_stack_proper(self, colors: Map<u32, Temp>, index: int, neighbor: Temp)
        requires
            self.alias_ok(),
            separate(self),
            unpainted(self, colors),
            0 <= index < self.select_stack.len(),
            self.adjacency[self.select_stack[index].num].finite(),
            self.adjacency[self.select_stack[index].num].contains(neighbor),
            misses(self.select_stack, index + 1, self.get_alias(neighbor)),
        ensures
            ({
                let node = self.select_stack[index];
                let other = self.get_alias(neighbor);
                let painted = self.paint_stack(colors);
                painted.state.colored_nodes.contains(node) && (self.precolored.contains(other)
                    || painted.state.colored_nodes.contains(other)) && painted.colors.contains_key(
                    other.num,
                ) ==> painted.colors.contains_key(node.num) && painted.colors[node.num]
                    != painted.colors[other.num]
            }),
        decreases self.select_stack.len(),
    {
        let node = self.select_stack[index];
        let other = self.get_alias(neighbor);
        let last = self.select_stack.len() - 1;
        let top = self.paint_top(colors);
        let popped = State { select_stack: self.select_stack.drop_last(), ..self };
        let painted = self.paint_stack(colors);
        self.lemma_paint_top_separate(colors);
        if index == last {
            assert(misses(top.state.select_stack, top.state.select_stack.len() as int, other)) by {
                assert forall|k: int|
                    0 <= k < top.state.select_stack.len() implies #[trigger] top.state.select_stack[k]
                    != other by {
                    assert(self.select_stack[k] != other);
                }
            }
            assert(misses(top.state.select_stack, top.state.select_stack.len() as int, node)) by {
                assert forall|k: int|
                    0 <= k < top.state.select_stack.len() implies #[trigger] top.state.select_stack[k]
                    != node by {
                    assert(self.select_stack[k] != self.select_stack[last]);
                }
            }
            top.state.lemma_paint_stack_keeps(top.colors, other);
            top.state.lemma_paint_stack_keeps(top.colors, node);
            assert(self.select_stack[last] != other);
            assert(other.num != node.num);
            if self.colors_for_top(colors) != Set::<Temp>::empty() {
                self.lemma_colour_differs(colors, neighbor);
                self.lemma_same_alias(popped, neighbor);
            }
        } else {
            assert(top.state.select_stack[index] == node);
            assert(misses(top.state.select_stack, index + 1, other)) by {
                assert forall|k: int|
                    0 <= k < index + 1 && k < top.state.select_stack.len() implies #[trigger] top.state.select_stack[k]
                    != other by {
                    assert(self.select_stack[k] != other);
                }
            }
            self.lemma_same_alias(top.state, neighbor);
            top.state.lemma_paint_stack_proper(top.colors, index, neighbor);
        }
    }

    /// In the end a node of the stack that is coloured has a register that
    /// none of the nodes has which its list of neighbours leads to and
    /// which were coloured before it, if the nodes of the stack were still
    /// to be coloured, each once.
    pub proof fn lemma_colours_are_proper(self, index: int, neighbor: Temp)
        requires
            self.wf(),
            self.precolored.finite(),
            separate(self),
            0 <= index < self.select_stack.len(),
            self.adjacency[self.select_stack[index].num].contains(neighbor),
            misses(self.select_stack, index + 1, self.get_alias(neighbor)),
        ensures
            ({
                let node = self.select_stack[index];
                let other = self.get_alias(neighbor);
                let painted = self.assign_colors();
                painted.state.colored_nodes.contains(node) && (self.precolored.contains(other)
                    || painted.state.colored_nodes.contains(other)) && painted.colors.contains_key(
                    other.num,
                ) ==> painted.colors.contains_key(node.num) && painted.colors[node.num]
                    != painted.colors[other.num]
            }),
    {
        let node = self.select_stack[index];
        let other = self.get_alias(neighbor);
        let fixed = ordered(self.precolored);
        lemma_ordered_exists(self.precolored);
        let own = own_colors(Map::empty(), fixed);
        assert(unpainted(self, own)) by {
            assert forall|k: int| 0 <= k < self.select_stack.len() implies !own.contains_key(
                (#[trigger] self.select_stack[k]).num,
            ) by {
                lemma_own_keys(Map::empty(), fixed, self.select_stack[k]);
                if fixed.contains(self.select_stack[k]) {
                    assert(fixed.to_set().contains(self.select_stack[k]));
                }
            }
        }
        assert(self.adjacency[node.num].finite());
        self.lemma_paint_stack_proper(own, index, neighbor);
        let stacked = self.paint_stack(own);
        self.lemma_paint_stack(own, Set::new(|temp: Temp| true));
        let nodes = ordered(stacked.state.coalesced_nodes);
        lemma_ordered_exists(self.coalesced_nodes);
        self.lemma_alias_not_coalesced(neighbor);
        assert(!nodes.contains(other)) by {
            if nodes.contains(other) {
                assert(nodes.to_set().contains(other));
            }
        }
        assert(!nodes.contains(node)) by {
            if nodes.contains(node) {
                assert(nodes.to_set().contains(node));
            }
        }
        stacked.state.lemma_paint_coalesced_keeps(stacked.colors, nodes, other);
        stacked.state.lemma_paint_coalesced_keeps(stacked.colors, nodes, node);
    }
}

/// Giving temporaries their own colours gives a colour to none but them
/// and those that had one.
pub proof fn lemma_own_keys(colors: Map<u32, Temp>, nodes: Seq<Temp>, other: Temp)
    ensures
        own_colors(colors, nodes).contains_key(other.num) ==> colors.contains_key(other.num)
            || nodes.contains(other),
    decreases nodes.len(),
{
    if nodes.len() > 0 {
        lemma_own_keys(colors, nodes.drop_last(), other);
        if nodes.drop_last().contains(other) {
            let i = choose|i: int| 0 <= i < nodes.len() - 1 && nodes.drop_last()[i] == other;
            assert(nodes[i] == other);
        }
        if nodes.last().num == other.num {
            assert(nodes[nodes.len() - 1] == other);
        }
    }
}

/// Whether the colours of two temporaries differ, if both have one.
pub open spec fn apart(colors: Map<u32, Temp>, first: Temp, second: Temp) -> bool {
    colors.contains_key(first.num) && colors.contains_key(second.num) ==> colors[first.num]
        != colors[second.num]
}

impl State {
    /// Giving temporaries their own colours gives each of them itself.
    pub proof fn lemma_own_values(colors: Map<u32, Temp>, nodes: Seq<Temp>, index: int)
        requires
            nodes.no_duplicates(),
            0 <= index < nodes.len(),
        ensures
            own_colors(colors, nodes).contains_key(nodes[index].num),
            own_colors(colors, nodes)[nodes[index].num] == nodes[index],
        decreases nodes.len(),
    {
        if index < nodes.len() - 1 {
            assert(nodes.drop_last()[index] == nodes[index]);
            assert(nodes.drop_last().no_duplicates()) by {
                assert forall|i: int, j: int|
                    0 <= i < nodes.len() - 1 && 0 <= j < nodes.len() - 1 && i != j implies nodes.drop_last()[i]
                    != nodes.drop_last()[j] by {
                    assert(nodes.drop_last()[i] == nodes[i]);
                    assert(nodes.drop_last()[j] == nodes[j]);
                }
            }
            Self::lemma_own_values(colors, nodes.drop_last(), index);
            assert(nodes[nodes.len() - 1] != nodes[index]);
        }
    }

    /// Colouring the stack gives a colour only to temporaries that had one
    /// and to nodes of the stack that it colours.
    pub proof fn lemma_paint_stack_keys(self, colors: Map<u32, Temp>, other: Temp)
        requires
            self.paint_stack(colors).colors.contains_key(other.num),
        ensures
            colors.contains_key(other.num) || (self.select_stack.contains(other)
                && self.paint_stack(colors).state.colored_nodes.contains(other)),
        decreases self.select_stack.len(),
    {
        if self.select_stack.len() > 0 {
            let top = self.paint_top(colors);
            let last = self.select_stack.len() - 1;
            top.state.lemma_paint_stack_keys(top.colors, other);
            if top.state.select_stack.contains(other) {
                let k = choose|k: int|
                    0 <= k < top.state.select_stack.len() && top.state.select_stack[k] == other;
                assert(self.select_stack[k] == other);
            }
            if top.colors.contains_key(other.num) && !colors.contains_key(other.num) {
                assert(self.select_stack[last] == other);
                self.lemma_paint_stack_grows(colors, other);
            }
        }
    }

    /// Colouring the stack keeps the nodes coloured that the top of the
    /// stack leaves coloured.
    pub proof fn lemma_paint_stack_grows(self, colors: Map<u32, Temp>, other: Temp)
        requires
            self.select_stack.len() > 0,
            self.paint_top(colors).state.colored_nodes.contains(other),
        ensures
            self.paint_stack(colors).state.colored_nodes.contains(other),
    {
        let top = self.paint_top(colors);
        top.state.lemma_paint_stack(top.colors, Set::new(|temp: Temp| true));
    }
}

} // verus!
