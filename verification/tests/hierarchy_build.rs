use scene_converter::hierarchy::{build_hierarchy, StructureError};
use scene_converter::record::NodeRecord;
use scene_converter::scene::NodeView;
use scene_converter::transform::Transform;

fn view(index: usize, name: &str, parent: Option<usize>) -> NodeView {
    NodeView { index, name: name.to_string(), transform: Transform::identity(), parent }
}

fn count(records: &Vec<NodeRecord>) -> usize {
    records.iter().map(|r| 1 + count(&r.children)).sum()
}

fn outline(records: &Vec<NodeRecord>) -> String {
    let mut text = String::new();
    for r in records {
        text.push_str(&r.name);
        if !r.children.is_empty() {
            text.push('(');
            text.push_str(&outline(&r.children));
            text.push(')');
        }
        text.push(' ');
    }
    text.trim_end().to_string()
}

#[test]
fn root_with_one_child_nests_the_child() {
    let views = vec![view(0, "Root", None), view(1, "Child", Some(0))];
    let roots = build_hierarchy(&views).expect("a forest");
    assert_eq!(roots.len(), 1);
    assert_eq!(roots[0].name, "Root");
    assert_eq!(roots[0].transform, Transform::identity());
    assert_eq!(roots[0].children.len(), 1);
    assert_eq!(roots[0].children[0].name, "Child");
    assert!(roots[0].children[0].children.is_empty());
}

#[test]
fn no_views_give_no_roots() {
    let roots = build_hierarchy(&Vec::new()).expect("a forest");
    assert!(roots.is_empty());
}

#[test]
fn every_view_becomes_exactly_one_record() {
    let views = vec![
        view(0, "d", Some(3)),
        view(1, "r2", None),
        view(2, "a", Some(5)),
        view(3, "c", Some(2)),
        view(4, "b", Some(5)),
        view(5, "r1", None),
        view(6, "e", Some(1)),
        view(7, "f", Some(0)),
    ];
    let roots = build_hierarchy(&views).expect("a forest");
    assert_eq!(count(&roots), views.len());
    assert_eq!(outline(&roots), "r2(e) r1(a(c(d(f))) b)");
}

#[test]
fn the_index_order_need_not_follow_the_hierarchy() {
    let views = vec![view(0, "leaf", Some(1)), view(1, "middle", Some(2)), view(2, "top", None)];
    let roots = build_hierarchy(&views).expect("a forest");
    assert_eq!(outline(&roots), "top(middle(leaf))");
}

#[test]
fn siblings_and_roots_keep_the_order_of_their_views() {
    let views = vec![
        view(0, "x", None),
        view(1, "x3", Some(0)),
        view(2, "y", None),
        view(3, "x1", Some(0)),
        view(4, "y1", Some(2)),
        view(5, "x2", Some(0)),
        view(6, "z", None),
    ];
    let roots = build_hierarchy(&views).expect("a forest");
    assert_eq!(outline(&roots), "x(x3 x1 x2) y(y1) z");
}

#[test]
fn names_need_not_be_unique() {
    let views = vec![view(0, "node", None), view(1, "node", Some(0)), view(2, "node", Some(0))];
    let roots = build_hierarchy(&views).expect("a forest");
    assert_eq!(outline(&roots), "node(node node)");
}

#[test]
fn transforms_are_carried_over_unchanged() {
    let moved = Transform::from_bits(
        [1.5f32.to_bits(), (-2.0f32).to_bits(), 0.25f32.to_bits()],
        [0.0f32.to_bits(), 0.70710677f32.to_bits(), 0.0f32.to_bits(), 0.70710677f32.to_bits()],
        [2.0f32.to_bits(), 2.0f32.to_bits(), 2.0f32.to_bits()],
    );
    let views = vec![
        view(0, "Root", None),
        NodeView { index: 1, name: "Moved".to_string(), transform: moved, parent: Some(0) },
    ];
    let roots = build_hierarchy(&views).expect("a forest");
    assert_eq!(roots[0].transform, Transform::identity());
    assert_eq!(roots[0].children[0].transform, moved);
}

#[test]
fn rotations_of_unit_length_stay_of_unit_length() {
    let turned = Transform::from_bits(
        [0.0f32.to_bits(); 3],
        [0.5f32.to_bits(), 0.5f32.to_bits(), 0.5f32.to_bits(), 0.5f32.to_bits()],
        [1.0f32.to_bits(); 3],
    );
    let views = vec![
        view(0, "Root", None),
        NodeView { index: 1, name: "Turned".to_string(), transform: turned, parent: Some(0) },
    ];
    let roots = build_hierarchy(&views).expect("a forest");
    let mut pending: Vec<&NodeRecord> = roots.iter().collect();
    let mut seen = 0;
    while let Some(record) = pending.pop() {
        let q: Vec<f32> = record.transform.rotation.iter().map(|s| f32::from_bits(s.bits)).collect();
        let length = (q[0] * q[0] + q[1] * q[1] + q[2] * q[2] + q[3] * q[3]).sqrt();
        assert!((length - 1.0).abs() <= 1e-5);
        pending.extend(record.children.iter());
        seen += 1;
    }
    assert_eq!(seen, 2);
}

#[test]
fn a_cycle_of_three_is_a_structure_error() {
    let views = vec![view(0, "A", Some(1)), view(1, "B", Some(2)), view(2, "C", Some(0))];
    let result = build_hierarchy(&views);
    assert_eq!(result.err(), Some(StructureError::Cycle { node: 0 }));
}

#[test]
fn a_node_that_is_its_own_parent_is_a_cycle() {
    let views = vec![view(0, "Root", None), view(1, "Loop", Some(1))];
    assert_eq!(build_hierarchy(&views).err(), Some(StructureError::Cycle { node: 1 }));
}

#[test]
fn what_hangs_below_a_cycle_is_rejected_too() {
    let views = vec![
        view(0, "Root", None),
        view(1, "Below", Some(2)),
        view(2, "A", Some(3)),
        view(3, "B", Some(2)),
    ];
    assert_eq!(build_hierarchy(&views).err(), Some(StructureError::Cycle { node: 1 }));
}

#[test]
fn a_long_chain_is_no_cycle() {
    let mut views = vec![view(0, "n0", None)];
    for i in 1..500 {
        views.push(view(i, "n", Some(i - 1)));
    }
    let roots = build_hierarchy(&views).expect("a forest");
    assert_eq!(roots.len(), 1);
    assert_eq!(count(&roots), 500);
}

#[test]
fn a_long_cycle_is_found() {
    let mut views = Vec::new();
    for i in 0..500 {
        views.push(view(i, "n", Some((i + 1) % 500)));
    }
    assert_eq!(build_hierarchy(&views).err(), Some(StructureError::Cycle { node: 0 }));
}

#[test]
fn a_parent_that_is_not_there_is_a_structure_error() {
    let views = vec![view(0, "Root", None), view(1, "Orphan", Some(7))];
    let result = build_hierarchy(&views);
    assert_eq!(result.err(), Some(StructureError::DanglingParent { node: 1, parent: 7 }));
}

#[test]
fn the_first_missing_parent_is_reported() {
    let views = vec![
        view(0, "Root", None),
        view(1, "Fine", Some(0)),
        view(2, "Lost", Some(9)),
        view(3, "AlsoLost", Some(8)),
    ];
    assert_eq!(
        build_hierarchy(&views).err(),
        Some(StructureError::DanglingParent { node: 2, parent: 9 })
    );
}

#[test]
fn a_missing_parent_is_reported_before_a_cycle() {
    let views = vec![view(0, "A", Some(1)), view(1, "B", Some(0)), view(2, "Lost", Some(5))];
    assert_eq!(
        build_hierarchy(&views).err(),
        Some(StructureError::DanglingParent { node: 2, parent: 5 })
    );
}

#[test]
fn identifiers_need_not_be_positions() {
    let views = vec![view(40, "child", Some(10)), view(10, "root", None), view(30, "other", Some(40))];
    let roots = build_hierarchy(&views).expect("a forest");
    assert_eq!(outline(&roots), "root(child(other))");
}

#[test]
fn an_identifier_carried_twice_stands_for_the_last_view() {
    let views = vec![
        view(1, "first", None),
        view(1, "second", None),
        view(2, "child", Some(1)),
    ];
    let roots = build_hierarchy(&views).expect("a forest");
    assert_eq!(outline(&roots), "first second(child)");
    assert_eq!(count(&roots), 3);
}
