use persistence::union_find::UnionFind;

#[test]
fn union_find_test_union_find() {
    let mut uf = UnionFind::new(5);
    assert_eq!(uf.clone().len(), 5);
    uf.merge(0, 4);
    uf.merge(2, 3);
    uf.merge(1, 2);
    let expected = vec![4, 3, 3, 3, 4];
    assert_eq!(uf.subsets.clone(), expected);
    for ix in 0..uf.len() {
        assert_eq!(uf.find(ix), expected[ix]);
    }
}

#[test]
fn union_find_merge_is_idempotent_on_roots() {
    let mut uf = UnionFind::new(3);
    uf.merge(0, 1);
    uf.merge(0, 1);
    assert_eq!(uf.find(0), 1);
    assert_eq!(uf.find(1), 1);
    assert_eq!(uf.find(2), 2);
}
