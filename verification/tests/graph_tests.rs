use qtictac_ai::graph::BoardGraph;
use qtictac_ai::CycleStore;
use smallvec::SmallVec;

fn held(store: &CycleStore) -> SmallVec<[u8; 9]> {
    SmallVec::from_vec(store.to_vec())
}

#[test]
fn two_cycle() {
    let mut b = BoardGraph::new();
    let mut store = CycleStore::new();

    assert!(!b.has_cycle(0, &mut store));
    b.add_edge(0, 1);
    b.add_edge(1, 0);
    assert!(b.has_cycle(0, &mut store));
    assert!(b.has_cycle(1, &mut store));
    assert_eq!(held(&store), SmallVec::from_buf([1u8, 0u8]));

    b = BoardGraph::new();
    b.add_edge(2, 4);
    assert!(!b.has_cycle(2, &mut store));
    assert!(!b.has_cycle(7, &mut store));
    b.add_edge(2, 4);
    assert!(b.has_cycle(2, &mut store));
    assert!(b.has_cycle(4, &mut store));

    b = BoardGraph::new();
    b.add_edge(1, 8);
    assert!(!b.has_cycle(0, &mut store));
    assert!(!b.has_cycle(1, &mut store));
    b.add_edge(1, 8);
    assert!(b.has_cycle(8, &mut store));
    assert!(b.has_cycle(1, &mut store));
    assert_eq!(held(&store), SmallVec::from_buf([1u8, 8u8]));
}

#[test]
fn complex_cycle() {
    let mut b = BoardGraph::new();
    let mut store = CycleStore::new();
    assert!(!b.has_cycle(0, &mut store));
    b.add_edge(0, 1);
    b.add_edge(1, 4);
    b.add_edge(4, 3);
    b.add_edge(3, 6);
    b.add_edge(6, 7);
    assert!(!b.has_cycle(0, &mut store));
    assert!(!b.has_cycle(7, &mut store));
    assert!(!b.has_cycle(4, &mut store));
    b.add_edge(1, 2);
    b.add_edge(1, 5);
    assert!(!b.has_cycle(5, &mut store));
    b.add_edge(4, 8);
    assert!(!b.has_cycle(0, &mut store));
    b.add_edge(7, 1);
    assert!(b.has_cycle(0, &mut store));
    assert_eq!(held(&store), SmallVec::from_buf([1, 7, 6, 3, 4]));
    b.clear_vert(4);
    assert!(!b.has_cycle(0, &mut store));
}

#[test]
fn empty_graph_has_no_cycle() {
    let b = BoardGraph::new();
    let mut store = CycleStore::new();
    for start in 0..9 {
        assert!(!b.has_cycle(start, &mut store));
        assert!(store.is_empty());
        assert_eq!(store.len(), 0);
    }
}

#[test]
fn parallel_edges_are_a_cycle_of_two() {
    let mut b = BoardGraph::new();
    let mut store = CycleStore::new();
    b.add_edge(2, 4);
    b.add_edge(2, 4);
    assert!(b.has_cycle(2, &mut store));
    assert_eq!(store.to_vec(), vec![2u8, 4u8]);
    assert!(b.has_cycle(4, &mut store));
    assert_eq!(store.to_vec(), vec![4u8, 2u8]);
    assert_eq!(b.edges()[2][4], 2);
    assert_eq!(b.edges()[4][2], 2);
}

#[test]
fn parallel_edges_elsewhere_are_not_seen() {
    // the search leaves out the square it came from, so a doubled edge counts
    // only at the square the search starts from
    let mut b = BoardGraph::new();
    let mut store = CycleStore::new();
    b.add_edge(0, 1);
    b.add_edge(1, 2);
    b.add_edge(1, 2);
    assert!(!b.has_cycle(0, &mut store));
    assert!(store.is_empty());
    assert!(b.has_cycle(1, &mut store));
    assert_eq!(store.to_vec(), vec![1u8, 2u8]);
}

#[test]
fn last_of_the_busiest_neighbours_is_reported() {
    let mut b = BoardGraph::new();
    let mut store = CycleStore::new();
    b.add_edge(3, 1);
    b.add_edge(3, 1);
    b.add_edge(3, 7);
    b.add_edge(3, 7);
    assert!(b.has_cycle(3, &mut store));
    assert_eq!(store.to_vec(), vec![3u8, 7u8]);
}

#[test]
fn triangle_from_each_corner() {
    let mut b = BoardGraph::new();
    let mut store = CycleStore::new();
    b.add_edge(1, 0);
    b.add_edge(2, 1);
    assert!(!b.has_cycle(2, &mut store));
    b.add_edge(2, 0);
    assert!(b.has_cycle(2, &mut store));
    assert_eq!(store.to_vec(), vec![2u8, 1, 0]);
    assert!(b.has_cycle(0, &mut store));
    assert_eq!(store.to_vec(), vec![0u8, 2, 1]);
    assert!(b.has_cycle(1, &mut store));
    assert_eq!(store.to_vec(), vec![1u8, 2, 0]);
}

#[test]
fn store_is_emptied_first() {
    let mut b = BoardGraph::new();
    let mut store = CycleStore::new();
    b.add_edge(5, 6);
    b.add_edge(5, 6);
    assert!(b.has_cycle(5, &mut store));
    assert_eq!(store.len(), 2);
    assert!(!b.has_cycle(0, &mut store));
    assert_eq!(store.len(), 0);
}

#[test]
fn edges_are_counted_both_ways() {
    let mut b = BoardGraph::new();
    b.add_edge(0, 8);
    assert_eq!(b.edges()[0][8], 1);
    assert_eq!(b.edges()[8][0], 1);
    b.add_edge(8, 0);
    b.add_edge(0, 8);
    assert_eq!(b.edges()[0][8], 3);
    assert_eq!(b.edges()[8][0], 3);
    b.clear_edge(8, 0);
    assert_eq!(b.edges()[0][8], 0);
    assert_eq!(b.edges()[8][0], 0);
    assert_eq!(*b.edges(), [[0u8; 9]; 9]);
}

#[test]
fn clear_vert_removes_row_and_column() {
    let mut b = BoardGraph::new();
    b.add_edge(4, 0);
    b.add_edge(4, 8);
    b.add_edge(0, 8);
    b.clear_vert(4);
    for i in 0..9 {
        assert_eq!(b.edges()[4][i], 0);
        assert_eq!(b.edges()[i][4], 0);
    }
    assert_eq!(b.edges()[0][8], 1);
    assert_eq!(b.edges()[8][0], 1);
}

#[test]
fn cloned_store_holds_the_same_squares() {
    let mut b = BoardGraph::new();
    let mut store = CycleStore::new();
    b.add_edge(0, 1);
    b.add_edge(1, 2);
    b.add_edge(2, 0);
    assert!(b.has_cycle(0, &mut store));
    let copy = store.clone();
    assert_eq!(copy.to_vec(), store.to_vec());
    assert_eq!(copy.to_vec(), vec![0u8, 2, 1]);
}
