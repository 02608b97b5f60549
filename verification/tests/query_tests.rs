use code_indexing::CodeIndex;

fn edge(idx: &mut CodeIndex, from: &str, to: &str) {
    idx.add_edge(&from.to_string(), &to.to_string());
}

#[test]
fn zero_depth_has_no_result_even_with_edges() {
    let mut idx = CodeIndex::new();
    edge(&mut idx, "f", "g");
    assert!(idx.serde_tree(&"f".to_string(), 0).is_none());
}

#[test]
fn negative_depth_has_no_result() {
    let mut idx = CodeIndex::new();
    edge(&mut idx, "f", "g");
    assert!(idx.serde_tree(&"f".to_string(), -3).is_none());
}

#[test]
fn unknown_name_is_interned_and_answered() {
    let mut idx = CodeIndex::new();
    let tree = idx.serde_tree(&"unknown".to_string(), 3).expect("positive depth yields a node");
    assert_eq!(tree.name, "unknown".to_string());
    assert_eq!(tree.value, 0);
    assert_eq!(tree.children.len(), 0);
}

#[test]
fn value_reports_full_degree_at_every_positive_depth() {
    let mut idx = CodeIndex::new();
    edge(&mut idx, "f", "g");
    edge(&mut idx, "f", "g");
    let shallow = idx.serde_tree(&"f".to_string(), 1).expect("depth 1 yields a node");
    assert_eq!(shallow.value, 2);
    assert_eq!(shallow.children.len(), 0);
    let deep = idx.serde_tree(&"f".to_string(), 9).expect("depth 9 yields a node");
    assert_eq!(deep.value, 2);
    assert_eq!(deep.children.len(), 2);
}

#[test]
fn cyclic_graph_unrolls_within_the_budget() {
    let mut idx = CodeIndex::new();
    edge(&mut idx, "a", "b");
    edge(&mut idx, "b", "a");
    let tree = idx.serde_tree(&"a".to_string(), 3).expect("positive depth yields a node");
    assert_eq!(tree.name, "a".to_string());
    assert_eq!(tree.children.len(), 1);
    let b = &tree.children[0];
    assert_eq!(b.name, "b".to_string());
    assert_eq!(b.children.len(), 1);
    let a_again = &b.children[0];
    assert_eq!(a_again.name, "a".to_string());
    assert_eq!(a_again.value, 1);
    assert_eq!(a_again.children.len(), 0);
}

#[test]
fn self_loop_terminates() {
    let mut idx = CodeIndex::new();
    edge(&mut idx, "x", "x");
    let tree = idx.serde_tree(&"x".to_string(), 2).expect("positive depth yields a node");
    assert_eq!(tree.name, "x".to_string());
    assert_eq!(tree.value, 1);
    assert_eq!(tree.children.len(), 1);
    assert_eq!(tree.children[0].children.len(), 0);
}
