use grph::graph::index::NodeId;
use grph::structures::parents::Parents;

fn id(raw: usize) -> NodeId {
    NodeId::new_unchecked(raw)
}

// Helper function to create a Parents struct from a given list of parent nodes
fn create_parents(parents: Vec<Option<usize>>) -> Parents {
    Parents::new(parents.into_iter().map(|opt| opt.map(id)).collect())
}

#[test]
fn parents_find_cycle_no_cycle() {
    let parents = create_parents(vec![Some(1), Some(2), Some(3), Some(4), None]);
    let start = 0;
    let cycle = parents.find_cycle(id(start));

    assert_eq!(cycle.count(), 0); // No cycle should be found
}

#[test]
fn parents_find_cycle_self_cycle() {
    let parents = create_parents(vec![Some(0), Some(2), Some(0), Some(3), Some(4)]);
    let start = 0;
    let cycle = parents.find_cycle(id(start));

    assert_eq!(cycle.count(), 1); // Self cycle should be found
    assert_eq!(cycle.into_raw(), vec![id(0)]);
}

#[test]
fn parents_find_cycle_single_cycle() {
    let parents = create_parents(vec![Some(1), Some(2), Some(3), Some(0), Some(4)]);
    let start = 0;
    let cycle = parents.find_cycle(id(start));

    assert_eq!(cycle.count(), 4); // Cycle with 4 nodes should be found
    assert_eq!(cycle.into_raw(), vec![id(0), id(3), id(2), id(1)]);
}

#[test]
fn parents_find_cycle_multiple_cycles() {
    let parents = create_parents(vec![Some(1), Some(2), Some(3), Some(0), Some(5), Some(4)]);
    let start = 0;
    let cycle = parents.find_cycle(id(start));

    assert_eq!(cycle.count(), 4); // Cycle with 4 nodes should be found
    assert_eq!(cycle.into_raw(), vec![id(0), id(3), id(2), id(1)]);
}
