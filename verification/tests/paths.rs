use esp_tools::assets::AssetPath;
use esp_tools::paths::{join_path, normalized_path, path_component_list};

#[test]
fn normalized_path_drops_repeated_separators_and_dots() {
    assert_eq!(normalized_path("a//b"), "a/b");
    assert_eq!(normalized_path("a/./b"), "a/b");
    assert_eq!(normalized_path("a/b/"), "a/b");
    assert_eq!(normalized_path("a/b/./"), "a/b");
    assert_eq!(normalized_path("meshes///x/./y.nif//"), "meshes/x/y.nif");
}

#[test]
fn normalized_path_keeps_a_leading_dot_and_the_root() {
    assert_eq!(normalized_path("./a"), "./a");
    assert_eq!(normalized_path("/a/"), "/a");
    assert_eq!(normalized_path("//a"), "/a");
    assert_eq!(normalized_path("/./a"), "/a");
    assert_eq!(normalized_path("."), ".");
    assert_eq!(normalized_path("/"), "/");
    assert_eq!(normalized_path(""), "");
}

#[test]
fn normalized_path_keeps_parent_components() {
    assert_eq!(normalized_path("a/../b"), "a/../b");
    assert_eq!(normalized_path("a/.b/c."), "a/.b/c.");
}

#[test]
fn join_path_puts_one_separator_between() {
    assert_eq!(join_path("base", "rel"), "base/rel");
    assert_eq!(join_path("base/", "rel"), "base/rel");
    assert_eq!(join_path("", "rel"), "rel");
    assert_eq!(join_path("base", "/abs"), "/abs");
}

#[test]
fn path_component_list_names_the_root_and_the_parts() {
    assert_eq!(path_component_list("/a//b/./c/"), vec!["/", "a", "b", "c"]);
    assert_eq!(path_component_list("./a/../b"), vec![".", "a", "..", "b"]);
    assert_eq!(path_component_list(""), Vec::<String>::new());
}

#[test]
fn make_full_then_strip_the_base_gives_the_relative_path() {
    let full = AssetPath::new("meshes/a.nif".to_string()).make_full("data");
    assert_eq!(full, "data/meshes/a.nif");
    let full_parts = path_component_list(&full);
    let base_parts = path_component_list("data");
    assert_eq!(&full_parts[..base_parts.len()], &base_parts[..]);
    assert_eq!(&full_parts[base_parts.len()..], &path_component_list("meshes/a.nif")[..]);
    let from_root = path_component_list(&AssetPath::new("x//y.dds".to_string()).make_full("/data/"));
    assert_eq!(from_root, vec!["/", "data", "x", "y.dds"]);
}
