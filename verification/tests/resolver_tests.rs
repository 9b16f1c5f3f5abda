use quiz_engine::resolver::{topsort, ResolveError};

fn node(name: &str, deps: &[&str]) -> (String, Vec<String>) {
    (name.to_string(), deps.iter().map(|d| d.to_string()).collect())
}

#[test]
fn union_set_comes_after_its_parts() {
    // U depends on X and Y; X and Y are leaves
    let nodes = vec![node("U", &["X", "Y"]), node("X", &[]), node("Y", &[])];
    let order = topsort(&nodes).unwrap();
    assert_eq!(order.len(), 3);
    let pos = |n: &str| order.iter().position(|s| s == n).unwrap();
    assert!(pos("X") < pos("U"));
    assert!(pos("Y") < pos("U"));
}

#[test]
fn chain_resolves_dependency_first() {
    let nodes = vec![node("c", &["b"]), node("b", &["a"]), node("a", &[])];
    let order = topsort(&nodes).unwrap();
    assert_eq!(order, vec!["a".to_string(), "b".to_string(), "c".to_string()]);
}

#[test]
fn every_dependency_precedes_its_consumer() {
    let nodes = vec![
        node("top", &["mid1", "mid2"]),
        node("mid1", &["leaf1", "leaf2"]),
        node("mid2", &["leaf2"]),
        node("leaf1", &[]),
        node("leaf2", &[]),
    ];
    let order = topsort(&nodes).unwrap();
    assert_eq!(order.len(), 5);
    let pos = |n: &str| order.iter().position(|s| s == n).unwrap();
    for (name, deps) in &nodes {
        for d in deps {
            assert!(pos(d) < pos(name));
        }
    }
}

#[test]
fn cycle_is_detected() {
    let nodes = vec![node("a", &["b"]), node("b", &["a"]), node("c", &[])];
    assert_eq!(topsort(&nodes), Err(ResolveError::CycleDetected));
}

#[test]
fn self_cycle_is_detected() {
    let nodes = vec![node("a", &["a"])];
    assert_eq!(topsort(&nodes), Err(ResolveError::CycleDetected));
}

#[test]
fn empty_input_resolves_to_empty_order() {
    let nodes: Vec<(String, Vec<String>)> = Vec::new();
    assert_eq!(topsort(&nodes).unwrap().len(), 0);
}
