use esp_tools::assets::{Asset, AssetGraph, AssetPath, AssetRef, Type};
use esp_tools::gui::{
    finish_loading_step, flat_file_names, sort_texts, tree_children, LoadAction, LoadEvent, LoadState,
};
use esp_tools::tree::print_children;

fn path(p: &str) -> AssetPath {
    AssetPath::new(p.to_string())
}

fn strings(items: &[&str]) -> Vec<String> {
    items.iter().map(|s| s.to_string()).collect()
}

fn sample() -> (AssetGraph, AssetRef) {
    let (mut graph, plugin) = AssetGraph::new_with_root(&Asset::new(Type::Plugin, path("mod.esp")));
    let rock = graph.add_asset(Type::Mesh, &path("meshes/rock.nif"), Some(plugin));
    graph.add_asset(Type::Texture, &path("rock.dds"), Some(rock));
    let tree = graph.add_asset(Type::Mesh, &path("meshes/tree.nif"), Some(plugin));
    graph.add_asset(Type::Texture, &path("rock.dds"), Some(tree));
    graph.add_asset(Type::Plugin, &path("Morrowind.esm"), Some(plugin));
    (graph, plugin)
}

#[test]
fn print_children_lists_the_tree_in_index_order() {
    let (graph, plugin) = sample();
    let lines = print_children(&plugin, 0, &graph);
    assert_eq!(
        lines,
        strings(&[
            "- mod.esp (Plugin)",
            "  - meshes/rock.nif (Mesh)",
            "    - rock.dds (Texture)",
            "  - meshes/tree.nif (Mesh)",
            "    - rock.dds (Texture)",
            "  - Morrowind.esm (Plugin)",
        ])
    );
}

#[test]
fn print_children_indents_from_the_given_depth() {
    let (graph, _) = sample();
    let lines = print_children(&AssetRef::new(2), 3, &graph);
    assert_eq!(lines, strings(&["      - rock.dds (Texture)"]));
}

#[test]
fn sort_texts_orders_character_by_character() {
    let sorted = sort_texts(strings(&["b", "a.dds", "a", "B", "a.dds"]));
    assert_eq!(sorted, strings(&["B", "a", "a.dds", "a.dds", "b"]));
}

#[test]
fn flat_file_names_are_sorted_and_leave_out_masters() {
    let (graph, plugin) = sample();
    let names = flat_file_names(&plugin, &graph);
    assert_eq!(names, strings(&["meshes/rock.nif", "meshes/tree.nif", "mod.esp", "rock.dds"]));
}

#[test]
fn layout_of_a_full_window() {
    let layout = esp_tools::gui::control_layout(900, 650, false);
    assert_eq!((layout.tree.x, layout.tree.y, layout.tree.width, layout.tree.height), (8, 8, 884, 602));
    assert_eq!(layout.file_list, layout.tree);
    assert_eq!((layout.loading_label.width, layout.loading_label.height), (884, 20));
    assert_eq!((layout.loading_progress.x, layout.loading_progress.y), (8, 32));
    assert_eq!(layout.tree_view_button, (8, 610));
    assert_eq!(layout.flat_file_view_button, (96, 610));
    assert_eq!(layout.cancel_button, (772, 610));
    assert_eq!(layout.package_button, (644, 610));
}

#[test]
fn layout_while_loading_leaves_room_for_the_bar() {
    let layout = esp_tools::gui::control_layout(900, 650, true);
    assert_eq!((layout.tree.y, layout.tree.height), (56, 554));
}

#[test]
fn layout_of_a_tiny_window_stays_at_zero() {
    let layout = esp_tools::gui::control_layout(10, 10, true);
    assert_eq!((layout.tree.width, layout.tree.height), (0, 0));
    assert_eq!(layout.cancel_button, (0, 0));
    assert_eq!(layout.package_button, (0, 0));
    assert_eq!(layout.tree_view_button, (8, 0));
}

#[test]
fn references_are_written_with_their_assets() {
    let (graph, plugin) = sample();
    assert_eq!(
        plugin.to_text(&graph),
        "AssetRef(AssetNode(asset: Asset { kind: Plugin, path: \"mod.esp\" }))"
    );
    assert_eq!(AssetRef::new(40).to_text(&graph), "AssetRef(Dropped)");
    assert_eq!(path("a b.dds").to_text(), "\"a b.dds\"");
    assert_eq!(
        Asset::new(Type::Texture, path("rock.dds")).to_text(),
        "Asset { kind: Texture, path: \"rock.dds\" }"
    );
}

#[test]
fn tree_children_leave_out_masters_at_the_root() {
    let (graph, plugin) = sample();
    // meshes/rock.nif (1), meshes/tree.nif (3); Morrowind.esm (4) is left out
    assert_eq!(tree_children(&plugin, &graph, true), vec![1, 3]);
    assert_eq!(tree_children(&plugin, &graph, false), vec![4, 1, 3]);
    assert_eq!(tree_children(&AssetRef::new(1), &graph, false), vec![2]);
    assert_eq!(tree_children(&AssetRef::new(2), &graph, false), Vec::<usize>::new());
    assert_eq!(tree_children(&AssetRef::new(9), &graph, false), Vec::<usize>::new());
}

#[test]
fn tree_children_follow_the_order_of_path_components() {
    let (mut graph, plugin) = AssetGraph::new_with_root(&Asset::new(Type::Plugin, path("mod.esp")));
    for name in ["a-b.dds", "a/b.dds", "-x.dds", "../up.dds", "./here.dds", "/abs.dds", "B.dds", "a.dds"] {
        graph.add_asset(Type::Texture, &path(name), Some(plugin));
    }
    let order: Vec<String> = tree_children(&plugin, &graph, true)
        .into_iter()
        .map(|i| graph.nodes_by_index[i].asset.path.relative_path.clone())
        .collect();
    assert_eq!(
        order,
        strings(&["/abs.dds", "./here.dds", "../up.dds", "-x.dds", "B.dds", "a/b.dds", "a-b.dds", "a.dds"])
    );
}

#[test]
fn finish_loading_waits_then_shows_the_graph() {
    let loading = LoadState { is_loading: true, show_loading: true, has_result: false, package_enabled: false };
    let (same, action) = finish_loading_step(loading, LoadEvent::Pending);
    assert_eq!(same, loading);
    assert_eq!(action, LoadAction::Nothing);
    let (done, action) = finish_loading_step(loading, LoadEvent::Finished(Ok(())));
    assert_eq!(
        done,
        LoadState { is_loading: false, show_loading: false, has_result: true, package_enabled: true }
    );
    assert_eq!(action, LoadAction::ShowResult);
}

#[test]
fn finish_loading_shows_the_error() {
    let loading = LoadState { is_loading: true, show_loading: true, has_result: false, package_enabled: false };
    let (done, action) = finish_loading_step(loading, LoadEvent::Finished(Err("no such file".to_string())));
    assert_eq!(
        done,
        LoadState { is_loading: false, show_loading: false, has_result: false, package_enabled: false }
    );
    assert_eq!(action, LoadAction::ShowError("no such file".to_string()));
}
