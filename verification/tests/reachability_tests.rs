use nonogram::assumption::Assumption;
use nonogram::common::CellValue;
use nonogram::reachability_graph::ReachabilityGraph;
use std::collections::HashSet;

#[test]
// A -> B ------> C -> E -> F
//      ^        /     ^   /
//       \      /       \-/
//        - D <-
fn reachability() {
    let mut g = ReachabilityGraph::new();
    let a = "A".to_string();
    let b = "B".to_string();
    let c = "C".to_string();
    let d = "D".to_string();
    let e = "E".to_string();
    let f = "F".to_string();
    g.set_reachable(a.clone(), b.clone());
    g.set_reachable(b.clone(), c.clone());
    g.set_reachable(c.clone(), d.clone());
    g.set_reachable(d.clone(), b.clone());
    g.set_reachable(c.clone(), e.clone());
    g.set_reachable(e.clone(), f.clone());
    g.set_reachable(f.clone(), e.clone());
    let a_reachable: HashSet<&String> = g.get_reachable(&a).unwrap().into_iter().collect();
    assert_eq!(a_reachable, HashSet::from([&a, &b, &c, &d, &e, &f]));
    let b_reachable: HashSet<&String> = g.get_reachable(&b).unwrap().into_iter().collect();
    assert_eq!(b_reachable, HashSet::from([&b, &c, &d, &e, &f]));
    let d_reachable: HashSet<&String> = g.get_reachable(&d).unwrap().into_iter().collect();
    assert_eq!(d_reachable, HashSet::from([&b, &c, &d, &e, &f]));
    let e_reachable: HashSet<&String> = g.get_reachable(&e).unwrap().into_iter().collect();
    assert_eq!(e_reachable, HashSet::from([&e, &f]));

    if let Some(_) = g.get_reachable(&"G".to_string()) {
        panic!("G exists");
    };

    assert!(g.is_reachable(&a, &e));
    assert!(!g.is_reachable(&e, &a));

    let mut sccs = g.strongly_connected_components();
    for scc in sccs.iter_mut() {
        scc.sort();
    }
    sccs.sort();
    assert_eq!(sccs, vec![vec![&a], vec![&b, &c, &d], vec![&e, &f]])
}

#[test]
fn impossible_assumptions_are_detected() {
    // An assumption that reaches both values of one cell is impossible; one
    // that does not is kept.
    let x = Assumption { coords: (0, 0), val: CellValue::Filled };
    let y = Assumption { coords: (1, 1), val: CellValue::Filled };
    let y_inv = Assumption { coords: (1, 1), val: CellValue::Empty };
    let z = Assumption { coords: (2, 2), val: CellValue::Filled };
    let mut g = ReachabilityGraph::new();
    g.set_reachable(x, y);
    g.set_reachable(x, y_inv);
    g.set_reachable(y, z);
    assert!(g.is_impossible(&x));
    assert!(!g.is_impossible(&y));
    let impossible = g.get_impossible();
    assert_eq!(impossible, vec![x]);
}
