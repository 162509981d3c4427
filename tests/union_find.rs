use simgo::uf::{UnionFind, DEFAULT_LIBERTIES};

#[test]
fn new_nodes_are_singletons_with_default_liberties() {
    let mut uf = UnionFind::new(3, 2);
    assert_eq!(uf.node_count(), 6);
    for i in 0..6 {
        assert_eq!(uf.find(i), i);
        assert_eq!(uf.get_liberties(i), DEFAULT_LIBERTIES);
    }
}

#[test]
fn empty_union_find_has_no_nodes() {
    let uf = UnionFind::new(0, 5);
    assert_eq!(uf.node_count(), 0);
}

#[test]
fn union_merges_groups_and_sums_liberties() {
    let mut uf = UnionFind::new(4, 1);
    uf.union(0, 1);
    assert_eq!(uf.find(0), uf.find(1));
    assert_eq!(uf.get_liberties(1), 8);
    assert_ne!(uf.find(0), uf.find(2));
    assert_eq!(uf.get_liberties(2), 4);
}

#[test]
fn union_tie_keeps_first_root() {
    let mut uf = UnionFind::new(2, 1);
    uf.union(1, 0);
    assert_eq!(uf.find(0), 1);
    assert_eq!(uf.find(1), 1);
}

#[test]
fn union_hangs_smaller_group_under_larger() {
    let mut uf = UnionFind::new(3, 1);
    uf.union(1, 2);
    let big = uf.find(1);
    uf.union(0, 1);
    assert_eq!(uf.find(0), big);
    assert_eq!(uf.get_liberties(0), 12);
}

#[test]
fn union_within_one_group_changes_nothing() {
    let mut uf = UnionFind::new(2, 1);
    uf.union(0, 1);
    uf.union(1, 0);
    assert_eq!(uf.get_liberties(0), 8);
}

#[test]
fn subtract_liberty_floors_at_zero() {
    let mut uf = UnionFind::new(1, 1);
    for _ in 0..6 {
        uf.subtract_liberty(0);
    }
    assert_eq!(uf.get_liberties(0), 0);
}

#[test]
fn subtract_liberty_hits_the_whole_group() {
    let mut uf = UnionFind::new(2, 1);
    uf.union(0, 1);
    uf.subtract_liberty(1);
    assert_eq!(uf.get_liberties(0), 7);
}

#[test]
fn add_liberty_moves_both_ways_and_saturates() {
    let mut uf = UnionFind::new(2, 1);
    uf.add_liberty(0, 3);
    assert_eq!(uf.get_liberties(0), 7);
    uf.add_liberty(0, -2);
    assert_eq!(uf.get_liberties(0), 5);
    uf.add_liberty(0, -100);
    assert_eq!(uf.get_liberties(0), 0);
    uf.add_liberty(1, isize::MAX);
    uf.add_liberty(1, isize::MAX);
    uf.add_liberty(1, isize::MAX);
    assert_eq!(uf.get_liberties(1), usize::MAX);
    uf.add_liberty(1, isize::MIN);
    assert_eq!(uf.get_liberties(1), usize::MAX - (isize::MAX as usize) - 1);
}

#[test]
fn add_liberty_targets_the_group_root() {
    let mut uf = UnionFind::new(2, 1);
    uf.union(0, 1);
    uf.add_liberty(1, 2);
    assert_eq!(uf.get_liberties(0), 10);
}

#[test]
fn reset_node_makes_a_fresh_singleton() {
    let mut uf = UnionFind::new(3, 1);
    uf.union(0, 1);
    uf.subtract_liberty(0);
    let root = uf.find(0);
    let other = if root == 0 { 1 } else { 0 };
    uf.reset_node(other);
    assert_eq!(uf.find(other), other);
    assert_eq!(uf.get_liberties(other), DEFAULT_LIBERTIES);
    assert_eq!(uf.get_liberties(root), 7);
}

#[test]
fn find_after_chain_of_unions_compresses_consistently() {
    let mut uf = UnionFind::new(8, 1);
    for i in 0..7 {
        uf.union(i, i + 1);
    }
    let r = uf.find(7);
    for i in 0..8 {
        assert_eq!(uf.find(i), r);
    }
    assert_eq!(uf.get_liberties(3), 32);
}
