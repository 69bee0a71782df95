use scene_converter::document::{convert, flag_degenerate, SceneDocument};
use scene_converter::driver::{convert_scene, exit_code, FileError, RunStatus, RunSummary};
use scene_converter::hierarchy::StructureError;
use scene_converter::record::NodeRecord;
use scene_converter::scene::{traverse, SceneGraph};
use scene_converter::serialize::{serialize, SerializationError};
use scene_converter::transform::Transform;

const ROOT_AND_CHILD: &str = r#"{
  "nodes": [
    {
      "name": "Root",
      "position": [
        0.0,
        0.0,
        0.0
      ],
      "rotation": [
        0.0,
        0.0,
        0.0,
        1.0
      ],
      "scale": [
        1.0,
        1.0,
        1.0
      ],
      "children": [
        {
          "name": "Child",
          "position": [
            0.0,
            0.0,
            0.0
          ],
          "rotation": [
            0.0,
            0.0,
            0.0,
            1.0
          ],
          "scale": [
            1.0,
            1.0,
            1.0
          ],
          "children": []
        }
      ]
    }
  ],
  "assets": []
}"#;

fn root_and_child() -> SceneGraph {
    let mut graph = SceneGraph::new();
    graph.add_node("Root".to_string(), Transform::identity(), None);
    graph.add_node("Child".to_string(), Transform::identity(), Some(0));
    graph
}

fn count(records: &Vec<NodeRecord>) -> usize {
    records.iter().map(|r| 1 + count(&r.children)).sum()
}

fn leaf(name: &str, transform: Transform) -> NodeRecord {
    NodeRecord::new(name.to_string(), transform, Vec::new())
}

#[test]
fn root_and_child_convert_to_one_nested_tree_and_no_assets() {
    let done = convert_scene(&root_and_child()).expect("converted");
    let nodes = done.document.nodes();
    assert_eq!(nodes.len(), 1);
    assert_eq!(nodes[0].name, "Root");
    assert_eq!(nodes[0].children.len(), 1);
    assert_eq!(nodes[0].children[0].name, "Child");
    assert!(nodes[0].children[0].children.is_empty());
    assert!(done.document.assets().is_empty());
    assert!(done.degenerate.is_empty());
    assert_eq!(String::from_utf8(done.text).expect("utf-8"), ROOT_AND_CHILD);
}

#[test]
fn an_empty_graph_converts_to_an_empty_document() {
    let done = convert_scene(&SceneGraph::new()).expect("converted");
    assert!(done.document.nodes().is_empty());
    assert!(done.document.assets().is_empty());
    assert_eq!(String::from_utf8(done.text).expect("utf-8"), "{\n  \"nodes\": [],\n  \"assets\": []\n}");
}

#[test]
fn the_document_has_as_many_records_as_the_graph_has_nodes() {
    let mut graph = SceneGraph::new();
    graph.add_node("a".to_string(), Transform::identity(), Some(2));
    graph.add_node("b".to_string(), Transform::identity(), None);
    graph.add_node("c".to_string(), Transform::identity(), Some(1));
    graph.add_node("d".to_string(), Transform::identity(), Some(1));
    graph.add_node("e".to_string(), Transform::identity(), None);
    let done = convert(&graph).expect("converted");
    assert_eq!(count(done.document.nodes()), graph.node_count());
}

#[test]
fn the_asset_list_of_a_document_is_sorted_and_without_duplicates() {
    let mut graph = root_and_child();
    for name in ["tex/b.png", "mesh/a.fbx", "tex/b.png", "anim/c.fbx", "mesh/a.fbx"] {
        graph.add_resource(name.to_string());
    }
    let done = convert_scene(&graph).expect("converted");
    let expected = vec!["anim/c.fbx".to_string(), "mesh/a.fbx".to_string(), "tex/b.png".to_string()];
    assert_eq!(done.document.assets(), &expected);
    let text = String::from_utf8(done.text).expect("utf-8");
    assert!(text.ends_with(
        "  \"assets\": [\n    \"anim/c.fbx\",\n    \"mesh/a.fbx\",\n    \"tex/b.png\"\n  ]\n}"
    ));
}

#[test]
fn a_document_made_by_hand_orders_its_assets() {
    let found = vec!["z".to_string(), "a".to_string(), "z".to_string()];
    let doc = SceneDocument::new(vec![leaf("only", Transform::identity())], &found);
    assert_eq!(doc.assets(), &vec!["a".to_string(), "z".to_string()]);
    assert_eq!(doc.nodes().len(), 1);
}

#[test]
fn the_same_document_gives_the_same_bytes() {
    let mut graph = root_and_child();
    graph.add_resource("tex/b.png".to_string());
    let one = convert_scene(&graph).expect("converted");
    let two = convert_scene(&graph).expect("converted");
    assert_eq!(one.text, two.text);
    assert_eq!(serialize(&one.document), serialize(&one.document));
    assert_eq!(serialize(&one.document), Ok(two.text));
}

#[test]
fn names_are_written_as_json_string_literals() {
    let name = "a \"quoted\" \\ name\n\twith\u{1}controls\u{1f}\u{8}\u{c}\r/ é 日本 \u{7f}";
    let doc = SceneDocument::new(vec![leaf(name, Transform::identity())], &Vec::new());
    let text = String::from_utf8(serialize(&doc).expect("text")).expect("utf-8");
    let expected =
        "\"name\": \"a \\\"quoted\\\" \\\\ name\\n\\twith\\u0001controls\\u001f\\b\\f\\r/ é 日本 \u{7f}\",";
    assert!(text.contains(expected), "{}", text);
}

#[test]
fn asset_identifiers_are_written_as_json_string_literals() {
    let found = vec!["dir\\file \"x\".png".to_string()];
    let doc = SceneDocument::new(Vec::new(), &found);
    let text = String::from_utf8(serialize(&doc).expect("text")).expect("utf-8");
    assert_eq!(text, "{\n  \"nodes\": [],\n  \"assets\": [\n    \"dir\\\\file \\\"x\\\".png\"\n  ]\n}");
}

#[test]
fn numbers_are_written_exactly() {
    let t = Transform::from_bits(
        [0.1f32.to_bits(), (-2.5f32).to_bits(), 16777216.0f32.to_bits()],
        [0.0f32.to_bits(), 0.70710677f32.to_bits(), (-0.0f32).to_bits(), 0.70710677f32.to_bits()],
        [1.0f32.to_bits(), 0.5f32.to_bits(), 3.0f32.to_bits()],
    );
    let doc = SceneDocument::new(vec![leaf("n", t)], &Vec::new());
    let text = String::from_utf8(serialize(&doc).expect("text")).expect("utf-8");
    let expected = r#"{
  "nodes": [
    {
      "name": "n",
      "position": [
        0.100000001490116119384765625,
        -2.5,
        16777216.0
      ],
      "rotation": [
        0.0,
        0.707106769084930419921875,
        -0.0,
        0.707106769084930419921875
      ],
      "scale": [
        1.0,
        0.5,
        3.0
      ],
      "children": []
    }
  ],
  "assets": []
}"#;
    assert_eq!(text, expected);
}

#[test]
fn the_text_reads_back_as_the_same_document() {
    let mut graph = SceneGraph::new();
    let t = Transform::from_bits(
        [0.1f32.to_bits(), (-2.5f32).to_bits(), 1e-20f32.to_bits()],
        [0.5f32.to_bits(); 4],
        [1.0f32.to_bits(), 0.5f32.to_bits(), 3e20f32.to_bits()],
    );
    graph.add_node("Root \"one\"".to_string(), t, None);
    graph.add_node("Child\n".to_string(), Transform::identity(), Some(0));
    graph.add_node("Second".to_string(), t, None);
    graph.add_resource("b".to_string());
    graph.add_resource("a\\b".to_string());
    let done = convert_scene(&graph).expect("converted");
    let value: serde_json::Value = serde_json::from_slice(&done.text).expect("json");
    let nodes = value["nodes"].as_array().expect("nodes");
    assert_eq!(nodes.len(), 2);
    assert_eq!(nodes[0]["name"].as_str(), Some("Root \"one\""));
    assert_eq!(nodes[1]["name"].as_str(), Some("Second"));
    let children = nodes[0]["children"].as_array().expect("children");
    assert_eq!(children.len(), 1);
    assert_eq!(children[0]["name"].as_str(), Some("Child\n"));
    assert_eq!(children[0]["children"].as_array().map(|c| c.len()), Some(0));
    for (key, bits) in [("position", &t.position[..]), ("rotation", &t.rotation[..]), ("scale", &t.scale[..])] {
        let numbers = nodes[0][key].as_array().expect("numbers");
        assert_eq!(numbers.len(), bits.len());
        for (number, scalar) in numbers.iter().zip(bits.iter()) {
            let read = number.as_f64().expect("a number") as f32;
            assert_eq!(read.to_bits(), scalar.bits);
        }
    }
    let assets: Vec<&str> = value["assets"].as_array().expect("assets").iter().map(|a| a.as_str().expect("text")).collect();
    assert_eq!(assets, vec!["a\\b", "b"]);
}

#[test]
fn a_number_that_is_not_finite_is_a_serialization_error() {
    for bad in [f32::NAN, f32::INFINITY, f32::NEG_INFINITY] {
        let t = Transform::from_bits([0; 3], [0, 0, 0, 1.0f32.to_bits()], [1.0f32.to_bits(), bad.to_bits(), 1.0f32.to_bits()]);
        let deep = NodeRecord::new("Root".to_string(), Transform::identity(), vec![leaf("bad", t)]);
        let doc = SceneDocument::new(vec![leaf("fine", Transform::identity()), deep], &Vec::new());
        assert_eq!(serialize(&doc), Err(SerializationError::NonFiniteNumber));
    }
}

#[test]
fn converting_a_scene_with_a_number_that_is_not_finite_fails() {
    let mut graph = root_and_child();
    let t = Transform::from_bits([f32::NAN.to_bits(), 0, 0], [0, 0, 0, 1.0f32.to_bits()], [1.0f32.to_bits(); 3]);
    graph.add_node("Bad".to_string(), t, Some(1));
    let result = convert_scene(&graph);
    assert_eq!(result.err(), Some(FileError::Serialization(SerializationError::NonFiniteNumber)));
}

#[test]
fn converting_a_scene_with_a_cycle_fails() {
    let mut graph = SceneGraph::new();
    graph.add_node("A".to_string(), Transform::identity(), Some(1));
    graph.add_node("B".to_string(), Transform::identity(), Some(2));
    graph.add_node("C".to_string(), Transform::identity(), Some(0));
    assert_eq!(convert(&graph).err(), Some(StructureError::Cycle { node: 0 }));
    assert_eq!(convert_scene(&graph).err(), Some(FileError::Structure(StructureError::Cycle { node: 0 })));
}

#[test]
fn converting_a_scene_with_a_missing_parent_fails() {
    let mut graph = root_and_child();
    graph.add_node("Orphan".to_string(), Transform::identity(), Some(3));
    assert_eq!(convert(&graph).err(), Some(StructureError::DanglingParent { node: 2, parent: 3 }));
    assert_eq!(
        convert_scene(&graph).err(),
        Some(FileError::Structure(StructureError::DanglingParent { node: 2, parent: 3 }))
    );
}

#[test]
fn a_structure_error_comes_before_a_serialization_error() {
    let mut graph = SceneGraph::new();
    let t = Transform::from_bits([f32::NAN.to_bits(), 0, 0], [0, 0, 0, 1.0f32.to_bits()], [1.0f32.to_bits(); 3]);
    graph.add_node("Bad".to_string(), t, Some(0));
    assert_eq!(convert_scene(&graph).err(), Some(FileError::Structure(StructureError::Cycle { node: 0 })));
}

#[test]
fn nodes_with_a_zero_scale_are_flagged() {
    let mut graph = SceneGraph::new();
    let flat = Transform::from_bits([0; 3], [0, 0, 0, 1.0f32.to_bits()], [1.0f32.to_bits(), 0, 1.0f32.to_bits()]);
    graph.add_node("Root".to_string(), Transform::identity(), None);
    graph.add_node("Flat".to_string(), flat, Some(0));
    graph.add_node("Fine".to_string(), Transform::identity(), Some(0));
    graph.add_node("FlatToo".to_string(), flat, Some(1));
    assert_eq!(flag_degenerate(&traverse(&graph)), vec![1, 3]);
    let done = convert_scene(&graph).expect("converted");
    assert_eq!(done.degenerate, vec![1, 3]);
    assert_eq!(done.document.nodes()[0].children[0].transform, flat);
}

#[test]
fn a_run_without_files_succeeds() {
    let summary = RunSummary::new();
    assert_eq!(summary.converted, 0);
    assert_eq!(summary.failed, 0);
    assert_eq!(summary.status(), RunStatus::AllConverted);
    assert_eq!(exit_code(summary.status()), 0);
}

#[test]
fn one_failed_file_among_converted_ones_is_a_failure_that_is_not_fatal() {
    let mut summary = RunSummary::new();
    summary.record(false);
    summary.record(true);
    assert_eq!(summary.converted, 1);
    assert_eq!(summary.failed, 1);
    assert_eq!(summary.status(), RunStatus::SomeFailed);
    let code = exit_code(summary.status());
    assert_eq!(code, 1);
    assert_ne!(code, 0);
    assert_ne!(code, exit_code(RunStatus::Fatal));
}

#[test]
fn a_run_of_converted_files_succeeds() {
    let mut summary = RunSummary::new();
    for _ in 0..5 {
        summary.record(true);
    }
    assert_eq!(summary, RunSummary { converted: 5, failed: 0 });
    assert_eq!(exit_code(summary.status()), 0);
}

#[test]
fn the_exit_codes_are_zero_one_and_two() {
    assert_eq!(exit_code(RunStatus::AllConverted), 0);
    assert_eq!(exit_code(RunStatus::SomeFailed), 1);
    assert_eq!(exit_code(RunStatus::Fatal), 2);
}

#[test]
fn counts_stay_at_the_largest_number() {
    let mut summary = RunSummary { converted: u64::MAX, failed: u64::MAX - 1 };
    summary.record(true);
    summary.record(false);
    summary.record(false);
    assert_eq!(summary, RunSummary { converted: u64::MAX, failed: u64::MAX });
    assert_eq!(summary.status(), RunStatus::SomeFailed);
}
