use std::rc::Rc;

use triejoin::{count_triangles, is_well_formed, join, triangles, Index};

fn graph() -> Rc<Vec<(u64, Vec<u64>)>> {
    Rc::new(vec![
        (1, vec![2, 3, 4]),
        (2, vec![4, 5]),
        (3, vec![4, 6, 7]),
        (4, vec![5, 7, 8]),
        (5, vec![8]),
        (6, vec![7]),
        (7, vec![8]),
    ])
}

#[test]
fn example_graph_has_seven_triangles() {
    assert_eq!(count_triangles(graph()), 7);
}

#[test]
fn example_graph_triangles_in_order() {
    let expected = vec![
        (1, 2, 4),
        (1, 3, 4),
        (2, 4, 5),
        (3, 4, 7),
        (3, 6, 7),
        (4, 5, 8),
        (4, 7, 8),
    ];
    assert_eq!(triangles(graph()), expected);
}

#[test]
fn two_runs_agree() {
    let data = graph();
    assert_eq!(triangles(data.clone()), triangles(data.clone()));
    assert_eq!(count_triangles(data.clone()), count_triangles(data));
}

#[test]
fn empty_relation_counts_zero() {
    let data: Rc<Vec<(u64, Vec<u64>)>> = Rc::new(vec![]);
    assert_eq!(count_triangles(data.clone()), 0);
    assert!(triangles(data).is_empty());
}

#[test]
fn single_key_without_values_counts_zero() {
    let data = Rc::new(vec![(1, vec![])]);
    assert_eq!(count_triangles(data), 0);
}

#[test]
fn join_of_distinct_relations() {
    let r = Rc::new(vec![(1, vec![2, 3]), (5, vec![6])]);
    let s = Rc::new(vec![(2, vec![10, 20]), (3, vec![20, 30]), (6, vec![40])]);
    let t = Rc::new(vec![(1, vec![20, 30]), (5, vec![41])]);
    assert_eq!(join(r, s, t), vec![(1, 2, 20), (1, 3, 20), (1, 3, 30)]);
}

#[test]
fn self_loops_and_cycles() {
    // 1 -> 2 -> 3 with chord 1 -> 3, and a 3-cycle 4 -> 5 -> 6 -> 4 without chords.
    let data = Rc::new(vec![(1, vec![2, 3]), (2, vec![3]), (4, vec![5]), (5, vec![6]), (6, vec![4])]);
    assert_eq!(triangles(data), vec![(1, 2, 3)]);
}

#[test]
fn new_cursor_starts_at_first_key() {
    let idx = Index::new(graph());
    assert_eq!(idx.value(), Some(1));
}

#[test]
fn seek_upper_lands_on_least_key_at_least_target() {
    let mut idx = Index::new(Rc::new(vec![(2, vec![1]), (5, vec![1]), (9, vec![1])]));
    idx.seek(3);
    assert_eq!(idx.value(), Some(5));
    idx.seek(5);
    assert_eq!(idx.value(), Some(5));
    idx.seek(9);
    assert_eq!(idx.value(), Some(9));
    idx.seek(10);
    assert_eq!(idx.value(), None);
}

#[test]
fn seek_lower_lands_on_least_value_at_least_target() {
    let mut idx = Index::new(graph());
    idx.seek(3);
    idx.down();
    assert_eq!(idx.value(), Some(4));
    idx.seek(5);
    assert_eq!(idx.value(), Some(6));
    idx.seek(7);
    assert_eq!(idx.value(), Some(7));
    idx.seek(8);
    assert_eq!(idx.value(), None);
    idx.up();
    assert_eq!(idx.value(), Some(3));
}

#[test]
fn down_then_up_restores_key() {
    let mut idx = Index::new(graph());
    idx.next();
    idx.next();
    assert_eq!(idx.value(), Some(3));
    idx.down();
    assert_eq!(idx.value(), Some(4));
    idx.up();
    assert_eq!(idx.value(), Some(3));
    idx.next();
    assert_eq!(idx.value(), Some(4));
}

#[test]
fn reset_upper_returns_to_first_key() {
    let mut idx = Index::new(graph());
    idx.seek(6);
    assert_eq!(idx.value(), Some(6));
    idx.reset();
    assert_eq!(idx.value(), Some(1));
}

#[test]
fn reset_lower_keeps_bound_key() {
    let mut idx = Index::new(graph());
    idx.seek(4);
    idx.down();
    idx.next();
    idx.next();
    assert_eq!(idx.value(), Some(8));
    idx.reset();
    assert_eq!(idx.value(), Some(5));
    idx.up();
    assert_eq!(idx.value(), Some(4));
}

#[test]
fn reset_twice_equals_once() {
    let mut once = Index::new(graph());
    let mut twice = Index::new(graph());
    for idx in [&mut once, &mut twice] {
        idx.seek(3);
        idx.down();
        idx.next();
    }
    once.reset();
    twice.reset();
    twice.reset();
    assert_eq!(once.value(), twice.value());
    once.next();
    twice.next();
    assert_eq!(once.value(), Some(6));
    assert_eq!(twice.value(), Some(6));
}

#[test]
fn next_stays_exhausted() {
    let mut idx = Index::new(Rc::new(vec![(1, vec![7])]));
    idx.down();
    assert_eq!(idx.value(), Some(7));
    idx.next();
    assert_eq!(idx.value(), None);
    idx.next();
    assert_eq!(idx.value(), None);
    idx.up();
    idx.next();
    assert_eq!(idx.value(), None);
    idx.next();
    assert_eq!(idx.value(), None);
    idx.reset();
    assert_eq!(idx.value(), Some(1));
}

#[test]
fn down_past_the_last_key_is_exhausted() {
    let mut idx = Index::new(Rc::new(vec![(1, vec![7])]));
    idx.seek(2);
    idx.down();
    assert_eq!(idx.value(), None);
    idx.up();
    assert_eq!(idx.value(), None);
}

#[test]
fn well_formed_relations_are_accepted() {
    assert!(is_well_formed(&graph()));
    assert!(is_well_formed(&vec![]));
    assert!(is_well_formed(&vec![(1, vec![])]));
}

#[test]
fn unsorted_keys_are_rejected() {
    assert!(!is_well_formed(&vec![(2, vec![1]), (1, vec![1])]));
    assert!(!is_well_formed(&vec![(1, vec![1]), (1, vec![2])]));
}

#[test]
fn unsorted_values_are_rejected() {
    assert!(!is_well_formed(&vec![(1, vec![3, 2])]));
    assert!(!is_well_formed(&vec![(1, vec![2]), (4, vec![5, 5])]));
}
