use scene_converter::scene::{traverse, NodeView, SceneGraph, SourceNode};
use scene_converter::transform::Transform;

#[test]
fn a_new_graph_is_empty() {
    let graph = SceneGraph::new();
    assert_eq!(graph.node_count(), 0);
    assert!(graph.resources.is_empty());
    assert!(traverse(&graph).is_empty());
    assert_eq!(graph.node(0), None);
}

#[test]
fn nodes_get_their_indices_in_the_order_they_are_added() {
    let mut graph = SceneGraph::new();
    assert_eq!(graph.add_node("Root".to_string(), Transform::identity(), None), 0);
    assert_eq!(graph.add_node("Child".to_string(), Transform::identity(), Some(0)), 1);
    assert_eq!(graph.add_node("Other".to_string(), Transform::identity(), Some(5)), 2);
    assert_eq!(graph.node_count(), 3);
    assert_eq!(
        graph.nodes[1],
        SourceNode { name: "Child".to_string(), transform: Transform::identity(), parent: Some(0) }
    );
}

#[test]
fn traversal_lists_every_node_under_its_index() {
    let mut graph = SceneGraph::new();
    let scaled = Transform::from_bits([0; 3], [0, 0, 0, 1.0f32.to_bits()], [2.0f32.to_bits(); 3]);
    graph.add_node("Root".to_string(), Transform::identity(), None);
    graph.add_node("Child".to_string(), scaled, Some(0));
    let views = traverse(&graph);
    assert_eq!(
        views,
        vec![
            NodeView { index: 0, name: "Root".to_string(), transform: Transform::identity(), parent: None },
            NodeView { index: 1, name: "Child".to_string(), transform: scaled, parent: Some(0) },
        ]
    );
}

#[test]
fn a_node_is_read_by_its_index() {
    let mut graph = SceneGraph::new();
    graph.add_node("Root".to_string(), Transform::identity(), None);
    graph.add_node("Child".to_string(), Transform::identity(), Some(0));
    assert_eq!(
        graph.node(1),
        Some(NodeView { index: 1, name: "Child".to_string(), transform: Transform::identity(), parent: Some(0) })
    );
    assert_eq!(graph.node(2), None);
    assert_eq!(graph.node(usize::MAX), None);
}

#[test]
fn resources_are_kept_in_the_order_of_their_discovery() {
    let mut graph = SceneGraph::new();
    graph.add_resource("b.png".to_string());
    graph.add_resource("a.png".to_string());
    graph.add_resource("b.png".to_string());
    assert_eq!(graph.resources, vec!["b.png".to_string(), "a.png".to_string(), "b.png".to_string()]);
    assert_eq!(graph.node_count(), 0);
}
