use grph::algorithms::union_find::UnionFind;
use grph::graph::index::NodeId;

fn id(raw: usize) -> NodeId {
    NodeId::new_unchecked(raw)
}

#[test]
fn union_find() {
    let count = 8;

    // Create a UnionFind with 5 elements
    let mut union_find = UnionFind::with_node_ids((0..count).map(NodeId::new_unchecked).collect());

    // Initially, each element is in its own set
    assert_eq!(union_find.count(), count);
    for i in 0..count {
        let i = NodeId::new_unchecked(i);
        assert_eq!(union_find.find(i), i);
        assert_eq!(union_find.rank(i), 1);
    }

    // Perform some union operations
    assert_eq!(union_find.union(id(0), id(1)), id(0));
    assert_eq!(union_find.union(id(2), id(3)), id(2));
    assert_eq!(union_find.union(id(3), id(4)), id(2));

    // Check the root and rank of each element
    assert_eq!(union_find.find(id(0)), id(0));
    assert_eq!(union_find.rank(id(0)), 2);
    assert_eq!(union_find.find(id(1)), id(0));
    assert_eq!(union_find.rank(id(1)), 1);
    assert_eq!(union_find.find(id(2)), id(2));
    assert_eq!(union_find.rank(id(2)), 3);
    assert_eq!(union_find.find(id(3)), id(2));
    assert_eq!(union_find.rank(id(3)), 1);
    assert_eq!(union_find.find(id(4)), id(2));
    assert_eq!(union_find.rank(id(4)), 1);

    assert_eq!(union_find.union(id(3), id(5)), id(2));
    assert_eq!(union_find.union(id(6), id(0)), id(0));

    assert_eq!(union_find.find(id(0)), id(0));
    assert_eq!(union_find.rank(id(0)), 3);
    assert_eq!(union_find.find(id(2)), id(2));
    assert_eq!(union_find.rank(id(2)), 4);
    assert_eq!(union_find.find(id(6)), id(0));
    assert_eq!(union_find.rank(id(6)), 1);
}
