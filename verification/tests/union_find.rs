use cell_move_router::utilities::{UnionFind, UnionFindNode};

#[test]
fn new_forest_has_every_element_on_its_own() {
    let uf = UnionFind::new(4);
    assert_eq!(uf.len(), 4);
    for i in 0..4 {
        assert_eq!(uf.find(i), Some(i));
    }
    assert_eq!(uf.find(4), None);
    assert!(!uf.done());
}

#[test]
fn union_merges_two_singletons() {
    let mut uf = UnionFind::new(3);
    assert!(uf.union(0, 1));
    assert_eq!(uf.grouped(0, 1), Some(true));
    assert_eq!(uf.grouped(0, 2), Some(false));
    assert_eq!(uf.grouped(0, 3), None);
    assert!(!uf.done());
    assert!(uf.union(1, 2));
    assert!(uf.done());
}

#[test]
fn union_is_idempotent_after_the_first_call() {
    let mut uf = UnionFind::new(5);
    assert!(uf.union(1, 3));
    let before = uf.clone();
    assert!(!uf.union(1, 3));
    assert!(!uf.union(3, 1));
    for i in 0..5 {
        assert_eq!(uf.find(i), before.find(i));
    }
}

#[test]
fn find_of_find_is_find() {
    let mut uf = UnionFind::new(6);
    uf.union(0, 1);
    uf.union(2, 3);
    uf.union(1, 3);
    uf.union(4, 5);
    for i in 0..6 {
        let r = uf.find(i).unwrap();
        assert_eq!(uf.find(r), Some(r));
    }
}

#[test]
fn true_returns_count_the_components_lost() {
    let pairs = [(0, 1), (1, 2), (0, 2), (3, 4), (4, 3), (5, 5), (2, 3)];
    let n = 7;
    let mut uf = UnionFind::new(n);
    let mut merged = 0;
    for (a, b) in pairs {
        if uf.union(a, b) {
            merged += 1;
        }
    }
    let mut roots = Vec::new();
    for i in 0..n {
        let r = uf.find(i).unwrap();
        if !roots.contains(&r) {
            roots.push(r);
        }
    }
    assert_eq!(merged, 4);
    assert_eq!(merged, n - roots.len());
    assert_eq!(roots.len(), 3);
}

#[test]
fn done_holds_of_exactly_one_class() {
    assert!(!UnionFind::new(0).done());
    assert!(UnionFind::new(1).done());
    let mut uf = UnionFind::new(2);
    assert!(!uf.done());
    uf.union(0, 1);
    assert!(uf.done());
}

#[test]
fn find_mut_compresses_the_walk_and_keeps_the_classes() {
    let mut uf = UnionFind::new(8);
    uf.union(0, 1);
    uf.union(2, 3);
    uf.union(0, 2);
    uf.union(4, 5);
    uf.union(6, 7);
    uf.union(4, 6);
    uf.union(0, 4);
    let before: Vec<Option<usize>> = (0..8).map(|i| uf.find(i)).collect();
    let root = uf.find_mut(0);
    assert_eq!(root, before[0]);
    assert_eq!(uf.find_mut(8), None);
    let after: Vec<Option<usize>> = (0..8).map(|i| uf.find(i)).collect();
    assert_eq!(before, after);
    assert!(uf.done());
}

#[test]
fn union_checked_refuses_indices_out_of_bounds() {
    let mut uf = UnionFind::new(2);
    assert_eq!(uf.union_checked(0, 2), None);
    assert_eq!(uf.union_checked(2, 0), None);
    assert_eq!(uf.union_checked(0, 1), Some(true));
    assert_eq!(uf.union_checked(0, 1), Some(false));
}

#[test]
fn join_hangs_one_representative_under_the_other() {
    let mut uf = UnionFind::new(3);
    assert_eq!(uf.join(0, 3), None);
    assert_eq!(uf.join(0, 1), Some(()));
    assert_eq!(uf.find(0), Some(1));
    assert_eq!(uf.find(1), Some(1));
    assert_eq!(uf.join(2, 1), Some(()));
    assert_eq!(uf.find(2), Some(1));
    assert!(uf.done());
}

#[test]
fn get_and_get_mut_reach_the_nodes() {
    let mut uf = UnionFind::new(2);
    assert!(uf.get(0).is_some());
    assert!(uf.get(2).is_none());
    assert!(uf.get_mut(1).is_some());
    assert!(uf.get_mut(2).is_none());
    assert_eq!(UnionFindNode::new(), UnionFindNode::default());
    assert_eq!(uf.nodes.len(), 2);
}
