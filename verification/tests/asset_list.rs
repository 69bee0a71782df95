use scene_converter::assets::{collect_assets, place_of, Place};

fn strings(items: &[&str]) -> Vec<String> {
    items.iter().map(|s| s.to_string()).collect()
}

#[test]
fn assets_are_sorted_and_without_duplicates() {
    let found = strings(&["textures/wood.png", "meshes/chair.fbx", "textures/wood.png", "anim/walk.fbx", "meshes/chair.fbx"]);
    let assets = collect_assets(&found);
    assert_eq!(assets, strings(&["anim/walk.fbx", "meshes/chair.fbx", "textures/wood.png"]));
}

#[test]
fn no_identifiers_give_an_empty_list() {
    let assets = collect_assets(&Vec::new());
    assert!(assets.is_empty());
}

#[test]
fn the_order_of_discovery_does_not_matter() {
    let one = collect_assets(&strings(&["c", "a", "b", "a"]));
    let other = collect_assets(&strings(&["b", "b", "c", "a", "c"]));
    assert_eq!(one, other);
    assert_eq!(one, strings(&["a", "b", "c"]));
}

#[test]
fn upper_and_lower_case_are_different_identifiers() {
    let assets = collect_assets(&strings(&["wood.png", "Wood.png", "WOOD.PNG", "wood.png"]));
    assert_eq!(assets, strings(&["WOOD.PNG", "Wood.png", "wood.png"]));
}

#[test]
fn a_prefix_comes_before_what_continues_it() {
    let assets = collect_assets(&strings(&["ab", "a", "", "abc", "b"]));
    assert_eq!(assets, strings(&["", "a", "ab", "abc", "b"]));
}

#[test]
fn identifiers_are_ordered_by_their_bytes() {
    let found = strings(&["é", "z", "日本", "~", "e", "\u{10348}"]);
    let assets = collect_assets(&found);
    let mut expected = found.clone();
    expected.sort();
    expected.dedup();
    assert_eq!(assets, expected);
    assert_eq!(assets, strings(&["e", "z", "~", "é", "日本", "\u{10348}"]));
}

#[test]
fn the_list_agrees_with_sort_and_dedup() {
    let mut found: Vec<String> = Vec::new();
    let mut seed: u32 = 7;
    for _ in 0..300 {
        seed = seed.wrapping_mul(1103515245).wrapping_add(12345);
        found.push(format!("asset_{}", (seed >> 16) % 40));
    }
    let assets = collect_assets(&found);
    let mut expected = found.clone();
    expected.sort();
    expected.dedup();
    assert_eq!(assets, expected);
    for pair in assets.windows(2) {
        assert!(pair[0] < pair[1]);
    }
}

#[test]
fn place_of_tells_before_same_and_after() {
    assert_eq!(place_of("a", "b"), Place::Before);
    assert_eq!(place_of("b", "a"), Place::After);
    assert_eq!(place_of("same", "same"), Place::Same);
    assert_eq!(place_of("", ""), Place::Same);
    assert_eq!(place_of("", "a"), Place::Before);
    assert_eq!(place_of("abc", "ab"), Place::After);
    assert_eq!(place_of("B", "a"), Place::Before);
    assert_eq!(place_of("é", "z"), Place::After);
}
