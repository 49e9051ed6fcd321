use scene_graph::{NodeIndex, SceneGraph};

fn collect<T: Clone>(sg: &SceneGraph<T>, from: NodeIndex) -> Vec<(NodeIndex, T)> {
    let mut iter = sg
        .iter_from_node_with_index(from)
        .expect("Expected iterator to be successfully returned");
    let mut out = Vec::new();
    while let Some((node_idx, value)) = iter.next() {
        out.push((node_idx, value.clone()));
    }
    out
}

#[test]
fn iter_with_index_scene_graph_returns_nothing_on_empty_iteration() {
    let scene_graph = SceneGraph::new("Root");

    assert!(scene_graph
        .iter_from_node_with_index(NodeIndex::Root)
        .expect("Expected iterator to be successfully returned")
        .next()
        .is_none());

    let mut scene_graph = SceneGraph::new("Root");
    let child_idx = scene_graph.attach(NodeIndex::Root, "First Child").unwrap();

    assert!(scene_graph
        .iter_from_node_with_index(child_idx)
        .expect("Expected iterator to be successfully returned")
        .next()
        .is_none());
}

#[test]
fn iter_with_index_normal_iteration() {
    let mut sg = SceneGraph::new("Root");
    let child_1 = sg.attach(NodeIndex::Root, "First Child").unwrap();

    let child_2 = sg.attach(NodeIndex::Root, "Second Child").unwrap();
    let grandchild = sg.attach(child_2, "First Grandchild").unwrap();

    assert_eq!(
        collect(&sg, NodeIndex::Root),
        vec![(child_1, "First Child"), (child_2, "Second Child"), (grandchild, "First Grandchild")]
    );
}

#[test]
fn iter_with_index_stagger_iteration() {
    let mut sg = SceneGraph::new("Root");
    let child = sg.attach(NodeIndex::Root, "First Child").unwrap();
    let child_2 = sg.attach(child, "Second Child").unwrap();

    assert_eq!(
        collect(&sg, NodeIndex::Root),
        vec![(child, "First Child"), (child_2, "Second Child")]
    );
}

#[test]
fn stagger_iteration_from_branch() {
    let mut sg = SceneGraph::new("Root");
    let root_idx = NodeIndex::Root;
    let child = sg.attach(root_idx, "First Child").unwrap();
    let grandchild_1 = sg.attach(child, "Child 1-1").unwrap();
    let grandchild_2 = sg.attach(child, "Child 1-2").unwrap();

    assert_eq!(
        collect(&sg, child),
        vec![(grandchild_1, "Child 1-1"), (grandchild_2, "Child 1-2")]
    );
}

#[test]
fn iter_with_index_single_iteration() {
    let mut sg = SceneGraph::new("Root");
    let child_idx = sg.attach(NodeIndex::Root, "First Child").unwrap();

    assert_eq!(collect(&sg, NodeIndex::Root), vec![(child_idx, "First Child")]);
}
