use hexgame::DisjointSet;
use hexgame::Error;

fn roots(ds: &mut DisjointSet, n: usize) -> Vec<usize> {
    let mut v: Vec<usize> = Vec::new();
    for i in 0..n {
        v.push(ds.find(i).unwrap());
    }
    v
}

#[test]
fn new_engine_has_singleton_sets() {
    let mut ds = DisjointSet::new(5);
    for i in 0..5 {
        assert_eq!(ds.find(i), Ok(i));
        assert_eq!(ds.size_of_set(i), Ok(1));
    }
}

#[test]
fn zero_universe_is_allowed_but_accepts_no_operations() {
    // `new(0)` is accepted by choice: the engine exists but rejects every
    // operation, since no index is inside the universe.
    let mut ds = DisjointSet::new(0);
    assert_eq!(ds.find(0), Err(Error::IndexOutOfRange));
    assert_eq!(ds.union(0, 0), Err(Error::IndexOutOfRange));
    assert_eq!(ds.size_of_set(0), Err(Error::IndexOutOfRange));
}

#[test]
fn out_of_range_indices_are_rejected() {
    let mut ds = DisjointSet::new(4);
    assert_eq!(ds.find(4), Err(Error::IndexOutOfRange));
    assert_eq!(ds.union(0, 4), Err(Error::IndexOutOfRange));
    assert_eq!(ds.union(7, 1), Err(Error::IndexOutOfRange));
    // the failed calls changed nothing
    for i in 0..4 {
        assert_eq!(ds.find(i), Ok(i));
    }
}

#[test]
fn union_joins_both_elements_to_one_root() {
    let mut ds = DisjointSet::new(6);
    ds.union(0, 1).unwrap();
    assert_eq!(ds.find(0).unwrap(), ds.find(1).unwrap());
    ds.union(1, 2).unwrap();
    assert_eq!(ds.find(0).unwrap(), ds.find(2).unwrap());
    // 3, 4, 5 are untouched
    assert_eq!(ds.find(3), Ok(3));
    assert_ne!(ds.find(0).unwrap(), ds.find(4).unwrap());
}

#[test]
fn find_is_stable_between_unions() {
    let mut ds = DisjointSet::new(8);
    ds.union(0, 1).unwrap();
    ds.union(2, 3).unwrap();
    ds.union(1, 3).unwrap();
    let first = roots(&mut ds, 8);
    // repeated finds (which also compress paths) keep reporting the same
    // roots as long as no new union happens
    for _ in 0..3 {
        assert_eq!(roots(&mut ds, 8), first);
    }
}

#[test]
fn union_is_idempotent() {
    let mut ds = DisjointSet::new(6);
    ds.union(4, 4).unwrap();
    assert_eq!(roots(&mut ds, 6), vec![0, 1, 2, 3, 4, 5]);
    ds.union(0, 1).unwrap();
    let after_first = roots(&mut ds, 6);
    ds.union(0, 1).unwrap();
    assert_eq!(roots(&mut ds, 6), after_first);
    ds.union(1, 0).unwrap();
    assert_eq!(roots(&mut ds, 6), after_first);
    assert_eq!(ds.size_of_set(0), Ok(2));
}

#[test]
fn equal_sizes_second_arguments_root_absorbs() {
    let mut ds = DisjointSet::new(4);
    ds.union(0, 1).unwrap();
    // both sets had size 1: the second argument's root, 1, absorbs
    assert_eq!(ds.find(0), Ok(1));
    assert_eq!(ds.find(1), Ok(1));
}

#[test]
fn larger_set_absorbs_smaller() {
    let mut ds = DisjointSet::new(5);
    ds.union(0, 1).unwrap();
    // {0, 1} (root 1) is larger than {2}: root 1 absorbs element 2 even
    // though 2 came second
    ds.union(2, 0).unwrap();
    assert_eq!(ds.find(2), Ok(1));
    ds.union(3, 4).unwrap();
    // {0, 1, 2} is larger than {3, 4}: its root 1 absorbs
    ds.union(3, 0).unwrap();
    assert_eq!(ds.find(3), Ok(1));
    assert_eq!(ds.find(4), Ok(1));
}

#[test]
fn stored_sizes_match_find_results() {
    let mut ds = DisjointSet::new(8);
    ds.union(0, 1).unwrap();
    ds.union(2, 3).unwrap();
    ds.union(0, 3).unwrap();
    ds.union(5, 6).unwrap();
    let rs = roots(&mut ds, 8);
    for i in 0..8 {
        let expected = rs.iter().filter(|r| **r == rs[i]).count();
        assert_eq!(ds.size_of_set(i), Ok(expected));
    }
}
