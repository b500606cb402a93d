use esp_tools::args::GuiAction;
use esp_tools::assets::{Asset, AssetGraph, AssetPath, AssetRef, Type};
use esp_tools::collect::ReferenceCollector;
use esp_tools::export::{file_assets, package_file_list};
use esp_tools::loading::{mesh_children, plugin_children, FileContents};
use esp_tools::package::{get_esp_file_assets, remove_master_file_assets, EspFileGraph};
use esp_tools::paths::normalized_path;
use std::collections::HashSet;

fn path(p: &str) -> AssetPath {
    AssetPath::new(p.to_string())
}

fn set(items: &[usize]) -> HashSet<usize> {
    items.iter().copied().collect()
}

fn strings(items: &[&str]) -> Vec<String> {
    items.iter().map(|s| s.to_string()).collect()
}

/// mod.esp (0) -> meshes/a.nif (1) -> a.dds (2); mod.esp -> master.esm (3) -> meshes/m.nif (4)
fn scanned() -> EspFileGraph {
    let (mut graph, plugin) = AssetGraph::new_with_root(&Asset::new(Type::Plugin, path("mod.esp")));
    let mesh = graph.add_asset(Type::Mesh, &path("meshes/a.nif"), Some(plugin));
    graph.add_asset(Type::Texture, &path("a.dds"), Some(mesh));
    let master = graph.add_asset(Type::Plugin, &path("master.esm"), Some(plugin));
    graph.add_asset(Type::Mesh, &path("meshes/m.nif"), Some(master));
    EspFileGraph { plugin, graph, plugin_path: "data".to_string() }
}

#[test]
fn esp_file_assets_leave_out_what_masters_bring() {
    let scan = scanned();
    assert_eq!(get_esp_file_assets(&scan.plugin, &scan.graph), set(&[0, 1, 2]));
}

#[test]
fn esp_file_assets_of_a_missing_plugin_is_the_plugin_alone() {
    let scan = scanned();
    assert_eq!(get_esp_file_assets(&AssetRef::new(42), &scan.graph), set(&[42]));
}

#[test]
fn remove_master_file_assets_splits_the_set() {
    let scan = scanned();
    let mut assets = set(&[0, 1, 2, 3, 4]);
    let removed = remove_master_file_assets(&mut assets, &scan.graph);
    assert_eq!(removed, set(&[0, 3]));
    assert_eq!(assets, set(&[1, 2, 4]));
}

#[test]
fn file_assets_lists_each_asset_once() {
    let scan = scanned();
    let listing = file_assets(&scan).unwrap();
    assert_eq!(listing.root_index, 0);
    let mut indices: Vec<usize> = listing.assets.iter().map(|e| e.index).collect();
    indices.sort();
    assert_eq!(indices, vec![0, 1, 2]);
    for entry in &listing.assets {
        match entry.index {
            0 => {
                assert_eq!(entry.name, "mod.esp");
                assert!(entry.export);
                let mut c = entry.children.clone();
                c.sort();
                assert_eq!(c, vec![1, 3]);
            }
            1 => {
                assert_eq!(entry.name, "meshes/a.nif");
                assert!(entry.export);
                assert_eq!(entry.children, vec![2]);
            }
            2 => {
                assert_eq!(entry.name, "a.dds");
                assert!(entry.export);
                assert!(entry.children.is_empty());
            }
            _ => unreachable!(),
        }
    }
}

#[test]
fn file_assets_of_a_missing_plugin_is_none() {
    let mut scan = scanned();
    scan.plugin = AssetRef::new(99);
    assert!(file_assets(&scan).is_none());
    assert!(package_file_list(&scan, false).is_none());
}

#[test]
fn package_holds_the_plugin_its_meshes_and_textures() {
    let scan = scanned();
    let mut files = package_file_list(&scan, false).unwrap();
    files.sort();
    assert_eq!(files, strings(&["a.dds", "meshes/a.nif", "mod.esp"]));
    let mut with_masters = package_file_list(&scan, true).unwrap();
    with_masters.sort();
    assert_eq!(with_masters, files);
}

#[test]
fn a_master_below_a_mesh_is_not_packaged() {
    let (mut graph, plugin) = AssetGraph::new_with_root(&Asset::new(Type::Plugin, path("mod.esp")));
    let mesh = graph.add_asset(Type::Mesh, &path("meshes/a.nif"), Some(plugin));
    graph.add_asset(Type::Plugin, &path("odd.esm"), Some(mesh));
    let scan = EspFileGraph { plugin, graph, plugin_path: String::new() };
    let listing = file_assets(&scan).unwrap();
    let odd = listing.assets.iter().find(|e| e.name == "odd.esm").unwrap();
    assert!(!odd.export);
    let mut files = package_file_list(&scan, false).unwrap();
    files.sort();
    assert_eq!(files, strings(&["meshes/a.nif", "mod.esp"]));
}

#[test]
fn mesh_children_are_textures_once_each() {
    let children = mesh_children(&strings(&["a.dds", "b.dds", "a.dds"]));
    let got: Vec<(Type, String)> = children.iter().map(|a| (a.kind, a.path.relative_path.clone())).collect();
    assert_eq!(got, vec![(Type::Texture, "a.dds".to_string()), (Type::Texture, "b.dds".to_string())]);
}

#[test]
fn plugin_children_are_meshes_then_masters() {
    let children = plugin_children(&strings(&["x\\rock.nif", "tree.nif", "tree.nif"]), &strings(&["Morrowind.esm"]));
    let got: Vec<(Type, String)> = children.iter().map(|a| (a.kind, a.path.relative_path.clone())).collect();
    assert_eq!(
        got,
        vec![
            (Type::Mesh, "meshes/x\\rock.nif".to_string()),
            (Type::Mesh, "meshes/tree.nif".to_string()),
            (Type::Plugin, "Morrowind.esm".to_string()),
        ]
    );
}

#[test]
fn plugin_children_keep_the_first_of_a_path() {
    let children = plugin_children(&strings(&["a.nif"]), &strings(&["meshes/a.nif"]));
    assert_eq!(children.len(), 1);
    assert_eq!(children[0].kind, Type::Mesh);
}

#[test]
fn collector_walks_every_new_asset_once() {
    let mut collector = ReferenceCollector::new(&Asset::new(Type::Plugin, path("mod.esp")));
    let (root, asset) = collector.next_to_load().unwrap();
    assert_eq!(root.index, 0);
    assert_eq!(asset.path.relative_path, "mod.esp");
    let kids = vec![Asset::new(Type::Mesh, path("meshes/a.nif")), Asset::new(Type::Plugin, path("m.esm"))];
    assert_eq!(collector.record_children(root, &kids), Ok(()));
    let mut loaded = Vec::new();
    while let Some((r, a)) = collector.next_to_load() {
        loaded.push(a.path.relative_path.clone());
        if a.kind == Type::Mesh {
            let tex = vec![Asset::new(Type::Texture, path("a.dds"))];
            assert_eq!(collector.record_children(r, &tex), Ok(()));
        }
        if a.kind == Type::Plugin {
            let again = vec![Asset::new(Type::Mesh, path("meshes/a.nif"))];
            assert_eq!(collector.record_children(r, &again), Ok(()));
        }
    }
    loaded.sort();
    assert_eq!(loaded, strings(&["a.dds", "m.esm", "meshes/a.nif"]));
    let (graph, plugin) = collector.finish();
    assert_eq!(plugin.index, 0);
    assert_eq!(graph.nodes_by_index.len(), 4);
    assert!(graph.links_valid());
    graph.assert_valid();
    let mesh = graph.lookup_asset(&path("meshes/a.nif")).unwrap();
    assert_eq!(mesh.parents(&graph, false), set(&[0, 2]));
}

#[test]
fn collector_stops_at_a_kind_conflict() {
    let mut collector = ReferenceCollector::new(&Asset::new(Type::Plugin, path("mod.esp")));
    let (root, _) = collector.next_to_load().unwrap();
    let kids = vec![
        Asset::new(Type::Mesh, path("a.nif")),
        Asset::new(Type::Texture, path("a.nif")),
        Asset::new(Type::Texture, path("b.dds")),
    ];
    assert_eq!(collector.record_children(root, &kids), Err(1));
    let (graph, _) = collector.finish();
    assert_eq!(graph.nodes_by_index.len(), 2);
    assert_eq!(graph.lookup_asset(&path("b.dds")), None);
}

#[test]
fn gui_action_defaults_to_cancel() {
    assert_eq!(GuiAction::default(), GuiAction::Cancel);
}

#[test]
fn assets_a_master_also_references_stay_out_unless_asked_for() {
    let mut scan = scanned();
    let master = scan.graph.lookup_asset(&path("master.esm")).unwrap();
    scan.graph.add_asset(Type::Mesh, &path("meshes/a.nif"), Some(master));
    let mut files = package_file_list(&scan, false).unwrap();
    files.sort();
    assert_eq!(files, strings(&["mod.esp"]));
    let mut with_masters = package_file_list(&scan, true).unwrap();
    with_masters.sort();
    assert_eq!(with_masters, strings(&["a.dds", "meshes/a.nif", "mod.esp"]));
}

#[test]
fn direct_children_split_by_masterhood() {
    let scan = scanned();
    let mut masters = esp_tools::package::direct_children_of(&scan.plugin, &scan.graph, true);
    masters.sort();
    assert_eq!(masters, vec![3]);
    assert_eq!(esp_tools::package::direct_children_of(&scan.plugin, &scan.graph, false), vec![1]);
}

fn child_paths(children: &[Asset]) -> Vec<(Type, String)> {
    children.iter().map(|a| (a.kind, a.path.relative_path.clone())).collect()
}

#[test]
fn children_from_contents_by_kind() {
    let mesh = Asset::new(Type::Mesh, path("meshes/a.nif"));
    let plugin = Asset::new(Type::Plugin, path("mod.esp"));
    let texture = Asset::new(Type::Texture, path("a.dds"));
    let read_mesh = FileContents::Mesh { textures: strings(&["a.dds", "b.dds", "a.dds"]) };
    assert_eq!(
        child_paths(&mesh.children_from_contents(&read_mesh)),
        vec![(Type::Texture, "a.dds".to_string()), (Type::Texture, "b.dds".to_string())]
    );
    let read_plugin = FileContents::Plugin {
        static_meshes: strings(&["x.nif"]),
        masters: Some(strings(&["Morrowind.esm"])),
    };
    assert_eq!(
        child_paths(&plugin.children_from_contents(&read_plugin)),
        vec![(Type::Mesh, "meshes/x.nif".to_string()), (Type::Plugin, "Morrowind.esm".to_string())]
    );
    let headless = FileContents::Plugin { static_meshes: strings(&["x.nif"]), masters: None };
    assert_eq!(
        child_paths(&plugin.children_from_contents(&headless)),
        vec![(Type::Mesh, "meshes/x.nif".to_string())]
    );
    assert!(texture.children_from_contents(&read_mesh).is_empty());
    assert!(mesh.children_from_contents(&FileContents::Unreadable).is_empty());
    assert!(plugin.children_from_contents(&read_mesh).is_empty());
    assert!(mesh.children_from_contents(&read_plugin).is_empty());
}

#[test]
fn mesh_children_keep_one_of_each_spelling() {
    let children = mesh_children(&strings(&["tx/a.dds", "tx//a.dds", "tx/./b.dds"]));
    assert_eq!(
        child_paths(&children),
        vec![(Type::Texture, "tx/a.dds".to_string()), (Type::Texture, "tx/./b.dds".to_string())]
    );
}

#[test]
fn collector_reads_every_asset_of_the_finished_graph_once_per_path() {
    let mut collector = ReferenceCollector::new(&Asset::new(Type::Plugin, path("mod.esp")));
    let mut handed_out: Vec<usize> = Vec::new();
    while let Some((r, a)) = collector.next_to_load() {
        handed_out.push(r.index);
        let kids = match a.kind {
            Type::Plugin => vec![
                Asset::new(Type::Mesh, path("meshes/a.nif")),
                Asset::new(Type::Mesh, path("meshes//a.nif")),
                Asset::new(Type::Mesh, path("meshes/b.nif")),
            ],
            Type::Mesh => vec![Asset::new(Type::Texture, path("tx/./a.dds")), Asset::new(Type::Texture, path("tx/a.dds"))],
            Type::Texture => vec![],
        };
        assert_eq!(collector.record_children(r, &kids), Ok(()));
    }
    let (graph, plugin) = collector.finish();
    let n = graph.nodes_by_index.len();
    assert_eq!(n, 4);
    handed_out.sort();
    handed_out.dedup();
    assert_eq!(handed_out, (0..n).collect::<Vec<usize>>());
    let mut below = plugin.children(&graph, true);
    below.insert(plugin.index);
    assert_eq!(below, (0..n).collect::<HashSet<usize>>());
    let mut keys: Vec<String> =
        graph.nodes_by_index.iter().map(|node| normalized_path(&node.asset.path.relative_path)).collect();
    keys.sort();
    keys.dedup();
    assert_eq!(keys.len(), n);
}
