use diomanim::scene::{NodeId, SceneError, SceneGraph};

#[test]
fn test_scene_graph_hierarchy() {
    let mut graph = SceneGraph::new();

    // Create nodes
    let root = graph.create_node("Root".to_string());
    let child1 = graph.create_node("Child1".to_string());
    let child2 = graph.create_node("Child2".to_string());

    // Parent nodes
    graph.parent(child1, root).unwrap();
    graph.parent(child2, root).unwrap();

    // Verify hierarchy
    let root_node = graph.get_node(root).unwrap();
    assert_eq!(root_node.children.len(), 2);

    let child1_node = graph.get_node(child1).unwrap();
    assert_eq!(child1_node.parent, Some(root));
}

#[test]
fn ids_start_at_one_and_increase() {
    let mut graph = SceneGraph::new();
    let a = graph.create_node("A".to_string());
    let b = graph.create_node("B".to_string());
    assert_eq!(a, NodeId::new(1));
    assert_eq!(b, NodeId(2));
    let node = graph.get_node(a).unwrap();
    assert_eq!(node.name, "A");
    assert_eq!(node.id, a);
    assert!(node.visible);
    assert!(node.parent.is_none());
    assert!(node.children.is_empty());
    assert!(graph.get_node(NodeId(0)).is_none());
    assert!(graph.get_node(NodeId(3)).is_none());
}

#[test]
fn parenting_under_a_descendant_is_refused() {
    let mut graph = SceneGraph::new();
    let a = graph.create_node("A".to_string());
    let b = graph.create_node("B".to_string());
    let c = graph.create_node("C".to_string());
    graph.parent(b, a).unwrap();
    graph.parent(c, b).unwrap();
    assert_eq!(graph.parent(a, c), Err(SceneError::CycleDetected));
    assert_eq!(graph.get_node(a).unwrap().parent, None);
    assert_eq!(graph.get_node(b).unwrap().parent, Some(a));
    assert_eq!(graph.get_node(c).unwrap().parent, Some(b));
    assert_eq!(graph.get_node(a).unwrap().children, vec![b]);
    assert_eq!(graph.get_node(b).unwrap().children, vec![c]);
    assert_eq!(graph.topdown_order(), vec![a, b, c]);
}

#[test]
fn parenting_a_node_under_itself_is_refused() {
    let mut graph = SceneGraph::new();
    let a = graph.create_node("A".to_string());
    assert_eq!(graph.parent(a, a), Err(SceneError::CycleDetected));
    assert_eq!(graph.topdown_order(), vec![a]);
}

#[test]
fn parenting_a_missing_node_is_refused() {
    let mut graph = SceneGraph::new();
    let a = graph.create_node("A".to_string());
    assert_eq!(graph.parent(NodeId(9), a), Err(SceneError::NodeNotFound));
    assert_eq!(graph.parent(a, NodeId(9)), Err(SceneError::NodeNotFound));
    assert!(graph.get_node(a).unwrap().parent.is_none());
}

#[test]
fn reparenting_moves_the_child() {
    let mut graph = SceneGraph::new();
    let p1 = graph.create_node("P1".to_string());
    let p2 = graph.create_node("P2".to_string());
    let c = graph.create_node("C".to_string());
    graph.parent(c, p1).unwrap();
    graph.parent(c, p1).unwrap();
    assert_eq!(graph.get_node(p1).unwrap().children, vec![c]);
    graph.parent(c, p2).unwrap();
    assert!(graph.get_node(p1).unwrap().children.is_empty());
    assert_eq!(graph.get_node(p2).unwrap().children, vec![c]);
    assert_eq!(graph.get_node(c).unwrap().parent, Some(p2));
    assert_eq!(graph.topdown_order(), vec![p1, p2, c]);
}

#[test]
fn removal_cascades() {
    let mut graph = SceneGraph::new();
    let keep = graph.create_node("Keep".to_string());
    let p = graph.create_node("P".to_string());
    let c1 = graph.create_node("C1".to_string());
    let c2 = graph.create_node("C2".to_string());
    let g = graph.create_node("G".to_string());
    graph.parent(p, keep).unwrap();
    graph.parent(c1, p).unwrap();
    graph.parent(c2, p).unwrap();
    graph.parent(g, c2).unwrap();
    let removed = graph.remove_node(p).unwrap();
    assert_eq!(removed.id, p);
    assert_eq!(removed.children, vec![c1, c2]);
    assert!(graph.get_node(p).is_none());
    assert!(graph.get_node(c1).is_none());
    assert!(graph.get_node(c2).is_none());
    assert!(graph.get_node(g).is_none());
    assert!(graph.get_node(keep).unwrap().children.is_empty());
    assert_eq!(graph.topdown_order(), vec![keep]);
    assert!(graph.remove_node(p).is_none());
}

#[test]
fn removing_a_root_leaves_other_roots() {
    let mut graph = SceneGraph::new();
    let a = graph.create_node("A".to_string());
    let b = graph.create_node("B".to_string());
    assert_eq!(graph.remove_node(a).unwrap().name, "A");
    assert_eq!(graph.topdown_order(), vec![b]);
    let c = graph.create_node("C".to_string());
    assert_eq!(c, NodeId(3));
}

#[test]
fn hidden_parent_hides_its_subtree() {
    let mut graph = SceneGraph::new();
    let parent = graph.create_node("Parent".to_string());
    let child = graph.create_node("Child".to_string());
    graph.parent(child, parent).unwrap();
    assert!(graph.set_visible(parent, false));
    assert!(graph.visible_nodes(&vec![]).is_empty());
    assert_eq!(graph.topdown_order(), vec![parent, child]);
    assert!(!graph.set_visible(NodeId(7), false));
}

#[test]
fn listed_nodes_are_pruned_with_their_subtrees() {
    let mut graph = SceneGraph::new();
    let a = graph.create_node("A".to_string());
    let b = graph.create_node("B".to_string());
    let c = graph.create_node("C".to_string());
    let d = graph.create_node("D".to_string());
    graph.parent(b, a).unwrap();
    graph.parent(c, b).unwrap();
    graph.parent(d, a).unwrap();
    assert_eq!(graph.visible_nodes(&vec![]), vec![a, b, c, d]);
    assert_eq!(graph.visible_nodes(&vec![b]), vec![a, d]);
    assert_eq!(graph.visible_nodes(&vec![a]), Vec::<NodeId>::new());
    graph.set_visible(c, false);
    assert_eq!(graph.visible_nodes(&vec![]), vec![a, b, d]);
}

#[test]
fn walk_follows_roots_then_children_in_order() {
    let mut graph = SceneGraph::new();
    let r1 = graph.create_node("R1".to_string());
    let r2 = graph.create_node("R2".to_string());
    let x = graph.create_node("X".to_string());
    let y = graph.create_node("Y".to_string());
    graph.parent(y, r1).unwrap();
    graph.parent(x, r1).unwrap();
    assert_eq!(graph.topdown_order(), vec![r1, y, x, r2]);
    assert!(graph.has_node(x));
    assert!(graph.is_descendant(x, r1));
    assert!(!graph.is_descendant(r1, x));
    assert!(!graph.is_descendant(x, r2));
}
