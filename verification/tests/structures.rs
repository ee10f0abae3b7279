use procon::disjoint_set::DisjointSet;

#[test]
fn dsu_test() {
    let mut uf = DisjointSet::new(4);
    uf.unite(0, 1);
    assert!(uf.same(0, 1));
    uf.unite(1, 2);
    assert!(uf.same(0, 2));
    assert_eq!(uf.size(0), 3);
    assert!(!uf.same(0, 3));
    assert_eq!(uf.num_trees(), 2);
    assert_eq!(uf.size(1), 3);
    assert_eq!(uf.size(3), 1);
}

#[test]
fn kruscal_test() {
    let mut edges = vec![(2, 1, 0), (1, 2, 1), (1, 2, 3), (1, 3, 0), (3, 0, 2), (5, 1, 3)];
    edges.sort();
    let mut uf = DisjointSet::new(4);
    let mut ans = 0;
    for (cost, v1, v2) in edges {
        if !uf.same(v1, v2) {
            ans += cost;
            uf.unite(v1, v2);
        }
    }
    assert_eq!(ans, 3);

    let mut edges = vec![
        (1, 1, 0),
        (3, 2, 0),
        (1, 2, 1),
        (7, 3, 1),
        (1, 4, 2),
        (3, 1, 4),
        (1, 3, 4),
        (1, 3, 5),
        (6, 4, 5),
    ];
    edges.sort();
    let mut uf = DisjointSet::new(6);
    let mut ans = 0;
    for (cost, v1, v2) in edges {
        if !uf.same(v1, v2) {
            ans += cost;
            uf.unite(v1, v2);
        }
    }
    assert_eq!(ans, 5);
}
