use esp_tools::assets::{add_dependency, Asset, AssetGraph, AssetNode, AssetPath, AssetRef, Type};
use std::collections::HashSet;

fn path(p: &str) -> AssetPath {
    AssetPath::new(p.to_string())
}

fn set(items: &[usize]) -> HashSet<usize> {
    items.iter().copied().collect()
}

fn chain() -> AssetGraph {
    // plugin -> mesh -> texture
    let (mut graph, root) = AssetGraph::new_with_root(&Asset::new(Type::Plugin, path("mod.esp")));
    let mesh = graph.add_asset(Type::Mesh, &path("meshes/a.nif"), Some(root));
    graph.add_asset(Type::Texture, &path("a.dds"), Some(mesh));
    graph
}

#[test]
fn make_full_joins_onto_base() {
    assert_eq!(path("meshes/a.nif").make_full("Data Files"), "Data Files/meshes/a.nif");
    assert_eq!(path("a.dds").make_full("data/"), "data/a.dds");
    assert_eq!(path("a.dds").make_full(""), "a.dds");
    assert_eq!(path("/abs/a.dds").make_full("data"), "/abs/a.dds");
}

#[test]
fn exists_at_asks_the_file_system() {
    assert!(path(".").exists_at("/"));
    assert!(path("").exists_at("."));
    assert!(!path("no-such-asset-here.nif").exists_at("/"));
}

#[test]
fn add_asset_assigns_indices_in_order() {
    let mut graph = AssetGraph::new();
    let a = graph.add_asset(Type::Plugin, &path("a.esp"), None);
    let b = graph.add_asset(Type::Mesh, &path("b.nif"), None);
    assert_eq!(a.index, 0);
    assert_eq!(b.index, 1);
    assert_eq!(graph.nodes_by_index.len(), 2);
}

#[test]
fn add_asset_twice_gives_the_same_reference() {
    let mut graph = AssetGraph::new();
    let first = graph.add_asset(Type::Mesh, &path("b.nif"), None);
    let second = graph.add_asset(Type::Mesh, &path("b.nif"), None);
    assert_eq!(first, second);
    assert_eq!(graph.nodes_by_index.len(), 1);
}

#[test]
fn lookup_after_add_finds_the_asset() {
    let mut graph = AssetGraph::new();
    graph.add_asset(Type::Plugin, &path("a.esp"), None);
    let b = graph.add_asset(Type::Texture, &path("b.dds"), None);
    assert_eq!(graph.lookup_asset(&path("b.dds")), Some(b));
    assert_eq!(graph.lookup_asset(&path("c.dds")), None);
}

#[test]
fn remove_then_lookup_finds_nothing() {
    let mut graph = AssetGraph::new();
    graph.add_asset(Type::Texture, &path("b.dds"), None);
    assert!(graph.remove_asset(&path("b.dds")));
    assert!(!graph.remove_asset(&path("b.dds")));
    assert_eq!(graph.lookup_asset(&path("b.dds")), None);
    assert_eq!(graph.nodes_by_index.len(), 1);
}

#[test]
fn try_add_asset_refuses_another_kind() {
    let mut graph = AssetGraph::new();
    graph.add_asset(Type::Texture, &path("b.dds"), None);
    assert_eq!(graph.try_add_asset(Type::Mesh, &path("b.dds"), None), None);
    assert_eq!(graph.try_add_asset(Type::Texture, &path("b.dds"), None), Some(AssetRef::new(0)));
}

#[test]
fn dependency_links_both_ways() {
    let graph = chain();
    let root = AssetRef::new(0);
    let mesh = AssetRef::new(1);
    assert_eq!(root.children(&graph, false), set(&[1]));
    assert_eq!(mesh.parents(&graph, false), set(&[0]));
    assert_eq!(mesh.children(&graph, false), set(&[2]));
    assert!(graph.links_valid());
    graph.assert_valid();
}

#[test]
fn descendants_and_ancestors_follow_every_level() {
    let graph = chain();
    assert_eq!(AssetRef::new(0).children(&graph, true), set(&[1, 2]));
    assert_eq!(AssetRef::new(2).parents(&graph, true), set(&[1, 0]));
    assert_eq!(AssetRef::new(2).children(&graph, true), set(&[]));
    assert_eq!(AssetRef::new(7).children(&graph, true), set(&[]));
}

#[test]
fn descendant_iff_ancestor() {
    let graph = chain();
    for x in 0..3 {
        for y in 0..3 {
            let down = AssetRef::new(x).children(&graph, true).contains(&y);
            let up = AssetRef::new(y).parents(&graph, true).contains(&x);
            assert_eq!(down, up);
        }
    }
}

#[test]
fn direct_children_are_descendants() {
    let graph = chain();
    let direct = AssetRef::new(0).children(&graph, false);
    let all = AssetRef::new(0).children(&graph, true);
    assert!(direct.is_subset(&all));
}

#[test]
fn cycles_end_the_walk() {
    let mut graph = AssetGraph::new();
    let a = graph.add_asset(Type::Plugin, &path("a.esp"), None);
    let b = graph.add_asset(Type::Plugin, &path("b.esp"), Some(a));
    graph.add_asset(Type::Plugin, &path("a.esp"), Some(b));
    assert_eq!(a.children(&graph, true), set(&[0, 1]));
    assert_eq!(a.parents(&graph, true), set(&[0, 1]));
    assert!(graph.links_valid());
    graph.assert_valid();
}

#[test]
fn node_children_with_descendants() {
    let graph = chain();
    let node = AssetRef::new(0).get_copy(&graph).unwrap();
    assert_eq!(node.children(&graph, false), set(&[1]));
    assert_eq!(node.children(&graph, true), set(&[1, 2]));
    assert_eq!(node.parents(&graph, true), set(&[]));
    assert_eq!(node.asset.path.relative_path, "mod.esp");
}

#[test]
fn dependency_on_missing_child_is_half_recorded() {
    let mut graph = AssetGraph::new();
    let a = graph.add_asset(Type::Plugin, &path("a.esp"), None);
    add_dependency(&mut graph, &a, &AssetRef::new(5));
    assert_eq!(a.children(&graph, false), set(&[5]));
    assert!(!graph.links_valid());
}

#[test]
fn dependency_on_missing_parent_changes_nothing() {
    let mut graph = AssetGraph::new();
    let a = graph.add_asset(Type::Plugin, &path("a.esp"), None);
    add_dependency(&mut graph, &AssetRef::new(9), &a);
    assert_eq!(a.parents(&graph, false), set(&[]));
    assert!(graph.links_valid());
    graph.assert_valid();
}

#[test]
fn get_copy_and_map_read() {
    let graph = chain();
    assert!(AssetRef::new(3).get_copy(&graph).is_none());
    assert_eq!(AssetRef::new(1).map_read(&graph, |n: &AssetNode| n.asset.kind), Some(Type::Mesh));
    assert_eq!(AssetRef::new(3).map_read(&graph, |n: &AssetNode| n.asset.kind), None);
}

#[test]
fn ptr_eq_compares_indices() {
    assert!(AssetRef::new(2).ptr_eq(&AssetRef::new(2)));
    assert!(!AssetRef::new(2).ptr_eq(&AssetRef::new(3)));
}

#[test]
fn assets_are_the_same_by_path() {
    let a = Asset::new(Type::Mesh, path("x"));
    let b = Asset::new(Type::Texture, path("x"));
    let c = Asset::new(Type::Mesh, path("y"));
    assert!(a == b);
    assert!(a != c);
    let node_a = AssetNode::new(a);
    let node_b = AssetNode::new(b);
    assert!(node_a == node_b);
}

#[test]
fn duplicate_keeps_links() {
    let graph = chain();
    let node = &graph.nodes_by_index[1];
    let copy = node.duplicate();
    assert_eq!(copy.children(&graph, false), set(&[2]));
    assert_eq!(copy.parents(&graph, false), set(&[0]));
}

#[test]
fn links_only_grow() {
    let mut graph = chain();
    let before_children = AssetRef::new(0).children(&graph, false);
    let before_parents = AssetRef::new(2).parents(&graph, false);
    add_dependency(&mut graph, &AssetRef::new(0), &AssetRef::new(2));
    assert!(before_children.is_subset(&AssetRef::new(0).children(&graph, false)));
    assert!(before_parents.is_subset(&AssetRef::new(2).parents(&graph, false)));
    assert_eq!(AssetRef::new(2).parents(&graph, false), set(&[0, 1]));
    assert!(graph.links_valid());
    graph.assert_valid();
}

#[test]
fn removing_a_path_keeps_the_graph_valid() {
    let mut graph = chain();
    assert!(graph.remove_asset(&path("meshes/a.nif")));
    assert!(graph.links_valid());
    graph.assert_valid();
    assert_eq!(AssetRef::new(0).children(&graph, true), set(&[1, 2]));
}

#[test]
fn paths_with_the_same_components_are_one_asset() {
    let mut graph = AssetGraph::new();
    let a = graph.add_asset(Type::Mesh, &path("meshes/a.nif"), None);
    assert_eq!(graph.lookup_asset(&path("meshes//a.nif")), Some(a));
    assert_eq!(graph.lookup_asset(&path("meshes/./a.nif")), Some(a));
    assert_eq!(graph.lookup_asset(&path("meshes/a.nif/")), Some(a));
    assert_eq!(graph.lookup_asset(&path("./meshes/a.nif")), None);
    assert_eq!(graph.lookup_asset(&path("/meshes/a.nif")), None);
    let again = graph.add_asset(Type::Mesh, &path("meshes//./a.nif"), None);
    assert_eq!(again, a);
    assert_eq!(graph.nodes_by_index.len(), 1);
    assert_eq!(graph.nodes_by_index[0].asset.path.relative_path, "meshes/a.nif");
}

#[test]
fn remove_by_another_spelling_of_the_path() {
    let mut graph = chain();
    assert!(graph.remove_asset(&path("meshes//a.nif/")));
    assert_eq!(graph.lookup_asset(&path("meshes/a.nif")), None);
    assert!(!graph.remove_asset(&path("meshes/a.nif")));
}

#[test]
fn try_add_asset_sees_another_spelling_of_a_path() {
    let mut graph = AssetGraph::new();
    graph.add_asset(Type::Mesh, &path("meshes/a.nif"), None);
    assert_eq!(graph.try_add_asset(Type::Texture, &path("meshes/./a.nif"), None), None);
    assert_eq!(graph.nodes_by_index.len(), 1);
}

#[test]
fn assets_compare_by_components() {
    assert!(Asset::new(Type::Mesh, path("a//b.nif")) == Asset::new(Type::Mesh, path("a/b.nif")));
    assert!(Asset::new(Type::Mesh, path("a/b.nif/")) == Asset::new(Type::Texture, path("a/./b.nif")));
    assert!(Asset::new(Type::Mesh, path("./a/b.nif")) != Asset::new(Type::Mesh, path("a/b.nif")));
    assert!(Asset::new(Type::Mesh, path("a/../b.nif")) != Asset::new(Type::Mesh, path("b.nif")));
}

#[test]
fn graphs_built_by_adds_and_removes_stay_valid() {
    let mut graph = AssetGraph::new();
    let p = graph.add_asset(Type::Plugin, &path("p.esp"), None);
    let m = graph.add_asset(Type::Mesh, &path("meshes/m.nif"), Some(p));
    graph.add_asset(Type::Texture, &path("t.dds"), Some(m));
    graph.add_asset(Type::Texture, &path("t.dds"), Some(p));
    assert!(graph.remove_asset(&path("meshes/m.nif")));
    let again = graph.add_asset(Type::Mesh, &path("meshes/m.nif"), Some(p));
    assert_eq!(again.index, 3);
    graph.add_asset(Type::Mesh, &path("other.nif"), Some(AssetRef::new(99)));
    assert!(graph.links_valid());
    graph.assert_valid();
}

#[test]
fn links_valid_answers_false_for_a_one_sided_link() {
    let mut graph = AssetGraph::new();
    graph.add_asset(Type::Plugin, &path("p.esp"), None);
    let b = graph.add_asset(Type::Mesh, &path("m.nif"), None);
    add_dependency(&mut graph, &AssetRef::new(0), &AssetRef::new(7));
    assert!(!graph.links_valid());
    assert_eq!(b.index, 1);
}
