use scene_graph::{NodeIndex, SceneGraph};

#[derive(PartialEq, Clone)]
struct ConditionalNode {
    pub name: &'static str,
    pub condition: bool,
}

impl ConditionalNode {
    pub fn new(name: &'static str, condition: bool) -> Self {
        ConditionalNode { name, condition }
    }
}

fn values_of_all(sg: &mut SceneGraph<&'static str>) -> Vec<&'static str> {
    let mut iter = sg.iter_mut_predicate(|_node| true);
    let mut out = Vec::new();
    while let Some((_parent, value)) = iter.next() {
        out.push(*value);
    }
    out
}

fn names_of_matching(sg: &mut SceneGraph<ConditionalNode>) -> Vec<&'static str> {
    let mut iter = sg.iter_mut_predicate(|node| node.condition);
    let mut out = Vec::new();
    while let Some((_parent, value)) = iter.next() {
        out.push(value.name);
    }
    out
}

#[test]
fn iter_mut_predicate_scene_graph_returns_nothing_on_empty_iteration() {
    let mut scene_graph = SceneGraph::new("Root");

    assert!(scene_graph.iter_mut_predicate(|_node| true).next().is_none());
}

#[test]
fn iter_mut_predicate_normal_iteration() {
    let mut sg = SceneGraph::new("Root");
    let root_idx = NodeIndex::Root;
    sg.attach(root_idx, "First Child").unwrap();

    let second_child = sg.attach(root_idx, "Second Child").unwrap();
    sg.attach(second_child, "First Grandchild").unwrap();

    assert_eq!(
        values_of_all(&mut sg),
        vec!["First Child", "Second Child", "First Grandchild"]
    );
}

#[test]
fn iter_mut_predicate_stagger_iteration() {
    let mut sg = SceneGraph::new("Root");
    let root_idx = NodeIndex::Root;
    let child = sg.attach(root_idx, "First Child").unwrap();
    sg.attach(child, "Second Child").unwrap();

    assert_eq!(values_of_all(&mut sg), vec!["First Child", "Second Child"]);
}

#[test]
fn iter_mut_predicate_single_iteration() {
    let mut sg = SceneGraph::new("Root");
    let root_idx = NodeIndex::Root;
    sg.attach(root_idx, "First Child").unwrap();

    assert_eq!(values_of_all(&mut sg), vec!["First Child",]);
}

#[test]
fn visits_none_when_root_does_not_match() {
    let mut sg = SceneGraph::new(ConditionalNode::new("Root", false));
    let root_idx = NodeIndex::Root;
    sg.attach(root_idx, ConditionalNode::new("Child 1", true)).unwrap();

    assert_eq!(0, names_of_matching(&mut sg).len());
}

#[test]
fn visits_only_matching_nodes() {
    let mut sg = SceneGraph::new(ConditionalNode::new("Root", true));
    let root_idx = NodeIndex::Root;
    let c1 = sg.attach(root_idx, ConditionalNode::new("Child 1", true)).unwrap();
    let c2 = sg.attach(root_idx, ConditionalNode::new("Child 2", false)).unwrap();
    sg.attach(root_idx, ConditionalNode::new("Child 3", true)).unwrap();
    sg.attach(c1, ConditionalNode::new("Child of child 1", true)).unwrap();
    // Should be skipped due to c2 being set to false
    sg.attach(c2, ConditionalNode::new("Child of child 2", true)).unwrap();

    assert_eq!(
        names_of_matching(&mut sg),
        vec!["Child 1", "Child of child 1", "Child 3"]
    );
}
