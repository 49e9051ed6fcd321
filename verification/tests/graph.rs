use scene_graph::{NodeIndex, NodeNotFound, SceneGraph};

fn walk<T: Clone>(sg: &SceneGraph<T>, from: NodeIndex) -> Vec<(NodeIndex, T)> {
    let mut iter = sg.iter_from_node_with_index(from).unwrap();
    let mut out = Vec::new();
    while let Some((id, value)) = iter.next() {
        out.push((id, value.clone()));
    }
    out
}

fn admitted(sg: &mut SceneGraph<i64>, keep: fn(&i64) -> bool) -> Vec<(i64, i64)> {
    let mut iter = sg.iter_mut_predicate(keep);
    let mut out = Vec::new();
    while let Some((parent, child)) = iter.next() {
        out.push((*parent, *child));
    }
    out
}

/// root 0
///   1
///     11
///       111
///     12
///   2
///   3
///     31
fn sample() -> (SceneGraph<i64>, Vec<NodeIndex>) {
    let mut sg = SceneGraph::new(0);
    let n1 = sg.attach(NodeIndex::Root, 1).unwrap();
    let n2 = sg.attach(NodeIndex::Root, 2).unwrap();
    let n3 = sg.attach(NodeIndex::Root, 3).unwrap();
    let n11 = sg.attach(n1, 11).unwrap();
    let n31 = sg.attach(n3, 31).unwrap();
    let n12 = sg.attach(n1, 12).unwrap();
    let n111 = sg.attach(n11, 111).unwrap();
    (sg, vec![n1, n11, n111, n12, n2, n3, n31])
}

#[test]
fn new_graph_holds_only_its_root() {
    let sg = SceneGraph::new("Root");
    assert_eq!(sg.len(), 0);
    assert_eq!(sg.get(NodeIndex::Root), Some(&"Root"));
    assert!(walk(&sg, NodeIndex::Root).is_empty());
}

#[test]
fn attach_counts_and_stores() {
    let mut sg = SceneGraph::new(0);
    let a = sg.attach(NodeIndex::Root, 10).unwrap();
    let b = sg.attach(a, 20).unwrap();
    let c = sg.attach(NodeIndex::Root, 30).unwrap();
    assert_eq!(sg.len(), 3);
    assert_ne!(a, b);
    assert_ne!(b, c);
    assert_ne!(a, c);
    assert_ne!(a, NodeIndex::Root);
    assert_eq!(sg.get(a), Some(&10));
    assert_eq!(sg.get(b), Some(&20));
    assert_eq!(sg.get(c), Some(&30));
    assert_eq!(sg.get(NodeIndex::Root), Some(&0));
}

#[test]
fn stale_identifier_is_rejected_everywhere() {
    let mut small = SceneGraph::new(0);
    small.attach(NodeIndex::Root, 1).unwrap();
    let mut large = SceneGraph::new(0);
    large.attach(NodeIndex::Root, 1).unwrap();
    let stranger = large.attach(NodeIndex::Root, 2).unwrap();

    assert_eq!(small.get(stranger), None);
    assert!(matches!(small.iter_from_node_with_index(stranger), Err(NodeNotFound)));
    assert_eq!(small.attach(stranger, 3), Err(NodeNotFound));
    // the failed attach left the graph as it was
    assert_eq!(small.len(), 1);
    assert_eq!(walk(&small, NodeIndex::Root).len(), 1);
}

#[test]
fn read_traversal_visits_every_node_once_in_preorder() {
    let (sg, order) = sample();
    let seen = walk(&sg, NodeIndex::Root);
    assert_eq!(
        seen,
        vec![
            (order[0], 1),
            (order[1], 11),
            (order[2], 111),
            (order[3], 12),
            (order[4], 2),
            (order[5], 3),
            (order[6], 31),
        ]
    );
    assert_eq!(seen.len(), sg.len());
    for (k, (id, _)) in seen.iter().enumerate() {
        for (other, _) in seen.iter().skip(k + 1) {
            assert_ne!(id, other);
        }
    }
}

#[test]
fn read_traversal_from_a_branch_stays_below_it() {
    let (sg, order) = sample();
    assert_eq!(
        walk(&sg, order[0]),
        vec![(order[1], 11), (order[2], 111), (order[3], 12)]
    );
    assert_eq!(walk(&sg, order[5]), vec![(order[6], 31)]);
}

#[test]
fn read_traversal_from_a_leaf_is_empty() {
    let (sg, order) = sample();
    assert!(walk(&sg, order[2]).is_empty());
    assert!(walk(&sg, order[4]).is_empty());
}

#[test]
fn two_read_traversals_agree() {
    let (sg, _) = sample();
    let first = walk(&sg, NodeIndex::Root);
    let second = walk(&sg, NodeIndex::Root);
    assert_eq!(first, second);

    let mut a = sg.iter_from_node_with_index(NodeIndex::Root).unwrap();
    let mut b = sg.iter_from_node_with_index(NodeIndex::Root).unwrap();
    a.next();
    a.next();
    // advancing one traversal does not move the other
    assert_eq!(b.next().map(|(_, v)| *v), Some(1));
    assert_eq!(a.next().map(|(_, v)| *v), Some(111));
}

#[test]
fn exhausted_read_traversal_stays_exhausted() {
    let mut sg = SceneGraph::new(0);
    sg.attach(NodeIndex::Root, 1).unwrap();
    let mut iter = sg.iter_from_node_with_index(NodeIndex::Root).unwrap();
    assert!(iter.next().is_some());
    assert!(iter.next().is_none());
    assert!(iter.next().is_none());
}

#[test]
fn admitting_everything_matches_the_read_traversal() {
    let (mut sg, _) = sample();
    let read: Vec<i64> = walk(&sg, NodeIndex::Root).into_iter().map(|(_, v)| v).collect();
    let pairs = admitted(&mut sg, |_| true);
    let children: Vec<i64> = pairs.iter().map(|(_, c)| *c).collect();
    assert_eq!(children, read);
    assert_eq!(
        pairs,
        vec![(0, 1), (1, 11), (11, 111), (1, 12), (0, 2), (0, 3), (3, 31)]
    );
}

#[test]
fn rejected_root_yields_nothing() {
    let (mut sg, _) = sample();
    assert!(admitted(&mut sg, |v| *v != 0).is_empty());
}

#[test]
fn rejected_node_hides_its_subtree_but_not_its_siblings() {
    let (mut sg, _) = sample();
    assert_eq!(
        admitted(&mut sg, |v| *v != 1),
        vec![(0, 2), (0, 3), (3, 31)]
    );
    let (mut sg, _) = sample();
    assert_eq!(
        admitted(&mut sg, |v| *v != 11),
        vec![(0, 1), (1, 12), (0, 2), (0, 3), (3, 31)]
    );
    let (mut sg, _) = sample();
    assert_eq!(
        admitted(&mut sg, |v| *v != 31 && *v != 2),
        vec![(0, 1), (1, 11), (11, 111), (1, 12), (0, 3)]
    );
}

#[test]
fn pruning_traversal_of_a_bare_root_is_empty() {
    let mut sg = SceneGraph::new(5i64);
    assert!(admitted(&mut sg, |_| true).is_empty());
    assert!(admitted(&mut sg, |_| false).is_empty());
}

#[test]
fn writes_through_the_pair_reach_the_graph() {
    let (mut sg, order) = sample();
    {
        let mut iter = sg.iter_mut_predicate(|_| true);
        while let Some((parent, child)) = iter.next() {
            *child += 1000;
            *parent += 1;
        }
    }
    // every branch node was a child once; a node gained one for each child it has
    assert_eq!(sg.get(NodeIndex::Root), Some(&3));
    assert_eq!(sg.get(order[0]), Some(&1003));
    assert_eq!(sg.get(order[1]), Some(&1012));
    assert_eq!(sg.get(order[2]), Some(&1111));
    assert_eq!(sg.get(order[3]), Some(&1012));
    assert_eq!(sg.get(order[4]), Some(&1002));
    assert_eq!(sg.get(order[5]), Some(&1004));
    assert_eq!(sg.get(order[6]), Some(&1031));
    assert_eq!(sg.len(), 7);
}

#[test]
fn parent_and_child_of_a_pair_are_different_places() {
    let mut sg = SceneGraph::new(0i64);
    let a = sg.attach(NodeIndex::Root, 1).unwrap();
    let b = sg.attach(a, 2).unwrap();
    {
        let mut iter = sg.iter_mut_predicate(|_| true);
        let (root, first) = iter.next().unwrap();
        assert_eq!((*root, *first), (0, 1));
        *root = 10;
        *first = 11;
        let (parent, child) = iter.next().unwrap();
        assert_eq!((*parent, *child), (11, 2));
        *parent = 21;
        *child = 22;
        assert!(iter.next().is_none());
    }
    assert_eq!(sg.get(NodeIndex::Root), Some(&10));
    assert_eq!(sg.get(a), Some(&21));
    assert_eq!(sg.get(b), Some(&22));
}

#[test]
fn rejection_is_decided_when_a_node_is_reached() {
    let mut sg = SceneGraph::new(0i64);
    let a = sg.attach(NodeIndex::Root, 1).unwrap();
    sg.attach(a, 2).unwrap();
    sg.attach(NodeIndex::Root, 3).unwrap();
    let mut seen = Vec::new();
    {
        let mut iter = sg.iter_mut_predicate(|v| *v >= 0);
        while let Some((_parent, child)) = iter.next() {
            seen.push(*child);
            if *child == 1 {
                // what is below was queued when this node was admitted
                *child = -1;
            }
        }
    }
    assert_eq!(seen, vec![1, 2, 3]);
    assert_eq!(admitted(&mut sg, |v| *v >= 0), vec![(0, 3)]);
}

#[test]
fn children_keep_the_order_of_attachment() {
    let mut sg = SceneGraph::new(0);
    let mut expected = Vec::new();
    for v in 1..=20 {
        let id = sg.attach(NodeIndex::Root, v).unwrap();
        expected.push((id, v));
    }
    assert_eq!(walk(&sg, NodeIndex::Root), expected);
}

#[test]
fn deep_chain_is_walked_top_down() {
    let mut sg = SceneGraph::new(0);
    let mut parent = NodeIndex::Root;
    let mut expected = Vec::new();
    for v in 1..=200 {
        parent = sg.attach(parent, v).unwrap();
        expected.push((parent, v));
    }
    assert_eq!(walk(&sg, NodeIndex::Root), expected);
    let values: Vec<i64> = admitted(&mut sg, |v| *v < 50).into_iter().map(|(_, c)| c).collect();
    assert_eq!(values, (1..50).collect::<Vec<i64>>());
}
