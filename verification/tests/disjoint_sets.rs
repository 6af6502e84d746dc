use dsu_graph::disjoint_sets::DisjointSets;

#[test]
fn new_makes_singletons() {
    let mut sets = DisjointSets::new(5);
    for i in 0..5 {
        assert_eq!(sets.find(i), i);
    }
}

#[test]
fn find_is_idempotent() {
    let mut sets = DisjointSets::new(6);
    sets.merge((0, 1));
    sets.merge((1, 2));
    sets.merge((4, 5));
    for e in 0..6 {
        let first = sets.find(e);
        let second = sets.find(e);
        assert_eq!(first, second);
    }
}

#[test]
fn merge_is_reflexive() {
    let mut sets = DisjointSets::new(4);
    assert!(!sets.merge((2, 2)));
    sets.merge((0, 1));
    assert!(!sets.merge((0, 0)));
    assert!(!sets.merge((1, 1)));
}

#[test]
fn merge_is_transitive() {
    let mut sets = DisjointSets::new(5);
    sets.merge((0, 1));
    sets.merge((1, 2));
    let root_a = sets.find(0);
    let root_b = sets.find(1);
    let root_c = sets.find(2);
    assert_eq!(root_a, root_b);
    assert_eq!(root_b, root_c);
}

#[test]
fn merge_reports_whether_sets_differed() {
    let mut sets = DisjointSets::new(4);
    assert!(sets.merge((0, 1)));
    assert!(!sets.merge((0, 1)));
    assert!(!sets.merge((1, 0)));
    assert!(sets.merge((2, 3)));
    assert!(sets.merge((0, 3)));
    assert!(!sets.merge((1, 2)));
}

#[test]
fn merge_attaches_first_root_under_second() {
    let mut sets = DisjointSets::new(3);
    assert!(sets.merge((0, 1)));
    assert_eq!(sets.find(0), 1);
    assert_eq!(sets.find(1), 1);
    assert!(sets.merge((1, 2)));
    assert_eq!(sets.find(0), 2);
    assert_eq!(sets.find(1), 2);
    assert_eq!(sets.find(2), 2);
}

#[test]
fn untouched_elements_stay_apart() {
    let mut sets = DisjointSets::new(5);
    sets.merge((0, 1));
    sets.merge((2, 3));
    assert_ne!(sets.find(0), sets.find(2));
    assert_ne!(sets.find(1), sets.find(4));
}
