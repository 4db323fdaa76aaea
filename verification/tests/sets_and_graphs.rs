use tiger::graph::{Entry, Graph};
use tiger::ordset::{Edge, Move, OrdSet};
use tiger::temp::Temp;

fn t(num: u32) -> Temp {
    Temp { num }
}

#[test]
fn ordered_sets_keep_their_elements_in_order() {
    let mut set: OrdSet<Temp> = OrdSet::new();
    assert!(set.is_empty());
    assert!(set.insert(t(30)));
    assert!(set.insert(t(10)));
    assert!(set.insert(t(20)));
    assert!(!set.insert(t(10)));
    assert_eq!(set.len(), 3);
    assert_eq!(set.to_vec(), vec![t(10), t(20), t(30)]);
    assert_eq!(set.get(0), t(10));
    assert_eq!(set.get(2), t(30));
    assert!(set.contains(&t(20)));
    assert!(!set.contains(&t(25)));
}

#[test]
fn ordered_sets_hand_out_their_least_element_first() {
    let mut set = OrdSet::from_vec(&vec![t(5), t(3), t(9), t(3)]);
    assert_eq!(set.len(), 3);
    assert_eq!(set.pop_first(), Some(t(3)));
    assert_eq!(set.pop_first(), Some(t(5)));
    assert_eq!(set.pop_first(), Some(t(9)));
    assert_eq!(set.pop_first(), None);
    assert!(set.is_empty());
}

#[test]
fn ordered_sets_remove_what_they_hold() {
    let mut set = OrdSet::from_vec(&vec![t(1), t(2), t(3)]);
    assert!(set.remove(&t(2)));
    assert!(!set.remove(&t(2)));
    assert!(!set.remove(&t(7)));
    assert_eq!(set.to_vec(), vec![t(1), t(3)]);
}

#[test]
fn ordered_sets_combine() {
    let first = OrdSet::from_vec(&vec![t(1), t(2), t(3), t(4)]);
    let second = OrdSet::from_vec(&vec![t(3), t(4), t(5)]);
    let mut union = first.copy();
    union.extend(&second);
    assert_eq!(union.to_vec(), vec![t(1), t(2), t(3), t(4), t(5)]);
    let mut difference = first.copy();
    difference.subtract(&second);
    assert_eq!(difference.to_vec(), vec![t(1), t(2)]);
    assert_eq!(first.intersection(&second).to_vec(), vec![t(3), t(4)]);
    assert!(first.equals(&first.copy()));
    assert!(!first.equals(&second));
    assert!(!first.equals(&difference));
}

#[test]
fn moves_are_ordered_by_destination_then_source() {
    let mut moves: OrdSet<Move> = OrdSet::new();
    moves.insert(Move { destination: t(2), source: t(1) });
    moves.insert(Move { destination: t(1), source: t(9) });
    moves.insert(Move { destination: t(1), source: t(3) });
    assert_eq!(
        moves.to_vec(),
        vec![
            Move { destination: t(1), source: t(3) },
            Move { destination: t(1), source: t(9) },
            Move { destination: t(2), source: t(1) },
        ]
    );
    let mut edges: OrdSet<Edge> = OrdSet::new();
    edges.insert(Edge { first: t(4), second: t(1) });
    edges.insert(Edge { first: t(1), second: t(4) });
    assert_eq!(edges.pop_first(), Some(Edge { first: t(1), second: t(4) }));
}

#[test]
fn graphs_record_edges_at_both_ends() {
    let mut graph: Graph<u32> = Graph::new();
    let a = graph.insert(10);
    let b = graph.insert(20);
    let c = graph.insert(30);
    assert_eq!(a, Entry(0));
    assert_eq!(c.index(), 2);
    graph.link(a, b);
    graph.link(a, c);
    graph.link(c, a);
    graph.link(b, b);
    let nodes = graph.nodes();
    assert_eq!(nodes.len(), 3);
    assert_eq!(*nodes[0].get(), 10);
    assert_eq!(nodes[0].successors(), &vec![b, c]);
    assert_eq!(nodes[0].predecessors(), &vec![c]);
    assert_eq!(nodes[1].successors(), &vec![b]);
    assert_eq!(nodes[1].predecessors(), &vec![a, b]);
    assert_eq!(nodes[2].successors(), &vec![a]);
    assert_eq!(nodes[2].predecessors(), &vec![a]);
}
