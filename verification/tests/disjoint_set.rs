use cdl::disjoint_set::DisjointSet;

#[test]
fn new_set_has_every_element_alone() {
    let mut sets = DisjointSet::new(5);
    assert_eq!(sets.len(), 5);
    assert_eq!(sets.count_sets(), 5);
    for i in 0..5 {
        assert_eq!(sets.get(i), i);
    }
}

#[test]
fn empty_set_has_no_sets() {
    let sets = DisjointSet::new(0);
    assert_eq!(sets.count_sets(), 0);
}

#[test]
fn merge_joins_whole_sets() {
    let mut sets = DisjointSet::new(6);
    sets.merge(0, 1);
    sets.merge(2, 3);
    assert_eq!(sets.count_sets(), 4);
    assert_eq!(sets.get(0), sets.get(1));
    assert_ne!(sets.get(1), sets.get(2));
    // Joining by members that are no names joins the sets they are in.
    sets.merge(0, 3);
    assert_eq!(sets.count_sets(), 3);
    assert_eq!(sets.get(1), sets.get(2));
    assert_eq!(sets.get(0), sets.get(3));
    assert_ne!(sets.get(4), sets.get(0));
    assert_ne!(sets.get(4), sets.get(5));
}

#[test]
fn merge_names_the_set_after_the_second() {
    let mut sets = DisjointSet::new(3);
    sets.merge(0, 2);
    assert_eq!(sets.get(0), 2);
    assert_eq!(sets.get(2), 2);
    sets.merge(2, 1);
    assert_eq!(sets.get(0), 1);
}

#[test]
fn merge_of_one_set_changes_nothing() {
    let mut sets = DisjointSet::new(3);
    sets.merge(0, 1);
    sets.merge(1, 0);
    sets.merge(2, 2);
    assert_eq!(sets.count_sets(), 2);
    assert_eq!(sets.get(0), sets.get(1));
}

#[test]
fn get_keeps_the_partition() {
    let mut sets = DisjointSet::new(8);
    for i in 0..7 {
        sets.merge(i, i + 1);
    }
    assert_eq!(sets.count_sets(), 1);
    let name = sets.get(0);
    for i in 0..8 {
        assert_eq!(sets.get(i), name);
    }
    assert_eq!(sets.count_sets(), 1);
}
