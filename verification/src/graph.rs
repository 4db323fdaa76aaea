//! Directed graphs whose nodes are addressed by the order in which they were
//! put in.

use vstd::prelude::*;

verus! {

/// The address of a node in its graph.
#[derive(Clone, Copy, Debug, PartialEq, Eq, Structural, Hash)]
pub struct Entry(pub usize);

impl Entry {
    /// The position of the node in the graph's list of nodes.
    pub fn index(&self) -> (index: usize)
        ensures
            index == self.0,
    {
        self.0
    }
}

/// A node with what it carries and the nodes before and after it, each in
/// the order in which the edges were drawn.
pub struct Node<T> {
    pub element: T,
    pub predecessors: Vec<Entry>,
    pub successors: Vec<Entry>,
}

impl<T> Node<T> {
    /// A node without edges.
    pub fn new(element: T) -> (node: Self)
        ensures
            node.element == element,
            node.predecessors@ == Seq::<Entry>::empty(),
            node.successors@ == Seq::<Entry>::empty(),
    {
        Node { element, predecessors: Vec::new(), successors: Vec::new() }
    }

    /// What the node carries.
    pub fn get(&self) -> (element: &T)
        ensures
            *element == self.element,
    {
        &self.element
    }

    /// The nodes from which an edge leads here.
    pub fn predecessors(&self) -> (entries: &Vec<Entry>)
        ensures
            *entries == self.predecessors,
    {
        &self.predecessors
    }

    /// The nodes to which an edge leads from here.
    pub fn successors(&self) -> (entries: &Vec<Entry>)
        ensures
            *entries == self.successors,
    {
        &self.successors
    }
}

/// A directed graph.
pub struct Graph<T> {
    pub nodes: Vec<Node<T>>,
}

impl<T> Graph<T> {
    /// Every edge leads to a node of the graph.
    pub open spec fn wf(&self) -> bool {
        forall|i: int, k: int|
            #![trigger self.nodes@[i].successors@[k]]
            #![trigger self.nodes@[i].predecessors@[k]]
            0 <= i < self.nodes@.len() ==> {
                &&& (0 <= k < self.nodes@[i].successors@.len() ==> self.nodes@[i].successors@[k].0
                    < self.nodes@.len())
                &&& (0 <= k < self.nodes@[i].predecessors@.len()
                    ==> self.nodes@[i].predecessors@[k].0 < self.nodes@.len())
            }
    }

    /// The number of nodes.
    pub open spec fn size(&self) -> nat {
        self.nodes@.len()
    }

    /// What the node at `index` carries.
    pub open spec fn element(&self, index: int) -> T {
        self.nodes@[index].element
    }

    /// The addresses to which edges lead from the node at `index`, in the
    /// order in which they were drawn.
    pub open spec fn successors_of(&self, index: int) -> Seq<Entry> {
        self.nodes@[index].successors@
    }

    /// The addresses from which edges lead to the node at `index`, in the
    /// order in which they were drawn.
    pub open spec fn predecessors_of(&self, index: int) -> Seq<Entry> {
        self.nodes@[index].predecessors@
    }

    /// The graph without nodes.
    pub fn new() -> (graph: Self)
        ensures
            graph.size() == 0,
            graph.wf(),
    {
        Graph { nodes: Vec::new() }
    }

    /// Adds a node without edges and gives its address.
    pub fn insert(&mut self, node: T) -> (entry: Entry)
        ensures
            entry.0 == old(self).size(),
            final(self).size() == old(self).size() + 1,
            forall|i: int| 0 <= i < old(self).size() ==> final(self).nodes@[i] == old(self).nodes@[i],
            final(self).element(entry.0 as int) == node,
            final(self).successors_of(entry.0 as int) == Seq::<Entry>::empty(),
            final(self).predecessors_of(entry.0 as int) == Seq::<Entry>::empty(),
            old(self).wf() ==> final(self).wf(),
    {
        let index = self.nodes.len();
        self.nodes.push(Node::new(node));
        Entry(index)
    }

    /// Draws an edge from `node1` to `node2`.
    pub fn link(&mut self, node1: Entry, node2: Entry)
        requires
            node1.0 < old(self).size(),
            node2.0 < old(self).size(),
        ensures
            final(self).size() == old(self).size(),
            forall|i: int| 0 <= i < old(self).size() ==> final(self).element(i) == old(self).element(i),
            forall|i: int|
                0 <= i < old(self).size() ==> #[trigger] final(self).successors_of(i) == if i
                    == node1.0 {
                    old(self).successors_of(i).push(node2)
                } else {
                    old(self).successors_of(i)
                },
            forall|i: int|
                0 <= i < old(self).size() ==> #[trigger] final(self).predecessors_of(i) == if i
                    == node2.0 {
                    old(self).predecessors_of(i).push(node1)
                } else {
                    old(self).predecessors_of(i)
                },
            old(self).wf() ==> final(self).wf(),
    {
        self.nodes[node1.index()].successors.push(node2);
        self.nodes[node2.index()].predecessors.push(node1);
    }

    /// The nodes in the order in which they were put in.
    pub fn nodes(&self) -> (nodes: &Vec<Node<T>>)
        ensures
            *nodes == self.nodes,
    {
        &self.nodes
    }
}

} // verus!
