//! The listing of a scanned plugin's assets that is handed to other programs,
//! and the files that its package holds.
use crate::assets::{GraphView, Type};
use crate::dash::index_set_to_vec;
use crate::package::{
    direct_children_of, esp_file_assets, get_esp_file_assets, hash_set_items, master_assets,
    remove_master_file_assets, EspFileGraph,
};
use crate::reach::index_set_of;
use std::collections::HashSet;
use vstd::prelude::*;

verus! {

broadcast use {vstd::std_specs::hash::group_hash_axioms, vstd::seq_lib::group_seq_properties};

/// One asset of the listing: its index, its relative path, whether it goes
/// into the package, and the indices of its children.
pub struct AssetEntry {
    pub index: usize,
    pub name: String,
    pub export: bool,
    pub children: Vec<usize>,
}

/// The listing of a plugin's assets, with the index of the plugin itself.
pub struct FileAssets {
    pub root_index: usize,
    pub assets: Vec<AssetEntry>,
}

/// Whether asset `x` goes into the package of `plugin`: the plugin itself
/// does, and so does every asset that is not a master file.
pub open spec fn goes_into_package(g: GraphView, plugin: usize, x: usize) -> bool {
    x == plugin || g.nodes[x as int].kind != Type::Plugin
}

/// `e` tells the truth about its asset.
pub open spec fn entry_describes(g: GraphView, plugin: usize, e: AssetEntry) -> bool {
    &&& e.index < g.nodes.len()
    &&& e.name@ == g.nodes[e.index as int].path
    &&& e.export == goes_into_package(g, plugin, e.index)
    &&& e.children@.to_set() == g.nodes[e.index as int].children
    &&& e.children@.no_duplicates()
}

/// The indices of the entries of `entries`.
pub open spec fn entry_indices(entries: Seq<AssetEntry>) -> Seq<usize> {
    entries.map_values(|e: AssetEntry| e.index)
}

/// Whether some asset of the plugin has no node.
pub open spec fn has_missing_node(g: GraphView, plugin: usize) -> bool {
    exists|x: usize| #[trigger] esp_file_assets(g, plugin).contains(x) && x >= g.nodes.len()
}

/// The listing of the assets of the scanned plugin: one entry for each of
/// its assets (in no particular order), or `None` when one of them has no
/// node to describe.
pub fn file_assets(scan: &EspFileGraph) -> (listing: Option<FileAssets>)
    requires
        scan.graph@.links_finite(),
    ensures
        match listing {
            None => has_missing_node(scan.graph@, scan.plugin.index),
            Some(fa) => {
                &&& !has_missing_node(scan.graph@, scan.plugin.index)
                &&& fa.root_index == scan.plugin.index
                &&& entry_indices(fa.assets@).to_set() == esp_file_assets(scan.graph@, scan.plugin.index)
                &&& entry_indices(fa.assets@).no_duplicates()
                &&& forall|j: int| 0 <= j < fa.assets@.len() ==>
                    entry_describes(scan.graph@, scan.plugin.index, #[trigger] fa.assets@[j])
            },
        },
{
    let ghost g = scan.graph@;
    let plugin = scan.plugin.index;
        let n = scan.graph.nodes_by_index.len();
    let assets = get_esp_file_assets(&scan.plugin, &scan.graph);
    let items = hash_set_items(&assets);
    let mut i: usize = 0;
    while i < items.len()
        invariant
            i <= items.len(),
            n == g.nodes.len(),
            scan.graph@ == g,
            plugin == scan.plugin.index,
            items@.to_set() == esp_file_assets(g, plugin),
            forall|j: int| 0 <= j < i ==> #[trigger] items@[j] < n,
        decreases items.len() - i,
    {
        if items[i] >= n {
            assert(items@.to_set().contains(items@[i as int]));
            assert(esp_file_assets(g, plugin).contains(items@[i as int]));
            return None;
        }
        i += 1;
    }
    assert(!has_missing_node(g, plugin)) by {
        if has_missing_node(g, plugin) {
            let x = choose|x: usize| #[trigger] esp_file_assets(g, plugin).contains(x) && x >= g.nodes.len();
            assert(items@.to_set().contains(x));
            let j = choose|j: int| 0 <= j < items@.len() && items@[j] == x;
        }
    }
    let mut masters_pool = index_set_of(&items);
    proof {
        assert forall|x: usize| #[trigger] masters_pool@.contains(x) implies x < n by {
            assert(items@.to_set().contains(x));
            let j = choose|j: int| 0 <= j < items@.len() && items@[j] == x;
        }
    }
    let removed: HashSet<usize> = remove_master_file_assets(&mut masters_pool, &scan.graph);
    let mut entries: Vec<AssetEntry> = Vec::new();
    let mut i: usize = 0;
    while i < items.len()
        invariant
            scan.graph@ == g,
            n == g.nodes.len(),
            scan.graph.nodes_by_index@.len() == n,
            plugin == scan.plugin.index,
            i <= items.len(),
            entries@.len() == i,
            items@.to_set() == esp_file_assets(g, plugin),
            forall|j: int| 0 <= j < items@.len() ==> #[trigger] items@[j] < n,
            forall|x: usize| #[trigger] removed@.contains(x) <==> items@.to_set().contains(x)
                && x < n && g.nodes[x as int].kind == Type::Plugin,
            entry_indices(entries@) == items@.take(i as int),
            forall|j: int| 0 <= j < entries@.len() ==> entry_describes(g, plugin, #[trigger] entries@[j]),
        decreases items.len() - i,
    {
        let x = items[i];
        let node = &scan.graph.nodes_by_index[x];
        let export = x == plugin || !removed.contains(&x);
        assert(items@.to_set().contains(x));
        let entry = AssetEntry {
            index: x,
            name: node.asset.path.relative_path.clone(),
            export,
            children: index_set_to_vec(&node.children),
        };
        proof {
            assert(scan.graph.nodes_by_index@[x as int]@ == g.nodes[x as int]);
            assert(entry.name@ == g.nodes[x as int].path);
            assert(entry.children@.to_set() == g.nodes[x as int].children);
            assert(removed@.contains(x) <==> g.nodes[x as int].kind == Type::Plugin);
            assert(entry.export == goes_into_package(g, plugin, x));
            assert(entry_describes(g, plugin, entry));
        }
        let ghost prev = entries@;
        entries.push(entry);
        assert(entry_indices(entries@) =~= items@.take(i + 1)) by {
            assert forall|k: int| 0 <= k < entries@.len() implies entry_indices(entries@)[k] == items@.take(i + 1)[k] by {
                if k < i {
                    assert(entries@[k] == prev[k]);
                    assert(entry_indices(prev)[k] == items@.take(i as int)[k]);
                } else {
                    assert(entries@[k] == entry);
                }
            }
        }
        assert forall|j: int| 0 <= j < entries@.len() implies entry_describes(g, plugin, #[trigger] entries@[j]) by {
            if j < i {
                assert(entries@[j] == prev[j]);
            }
        }
        i += 1;
    }
    assert(items@.take(items.len() as int) =~= items@);
    Some(FileAssets { root_index: plugin, assets: entries })
}

/// The strings as plain values.
pub open spec fn strings_view(s: Seq<String>) -> Seq<Seq<char>> {
    s.map_values(|t: String| t@)
}

/// The paths of the assets of `idx`, in order.
pub open spec fn paths_of(g: GraphView, idx: Seq<usize>) -> Seq<Seq<char>> {
    idx.map_values(|x: usize| g.nodes[x as int].path)
}

/// Whether asset `x` of the plugin is zipped into its package: the plugin
/// itself always, a master file never, and any other asset unless one of
/// the plugin's master files references it (directly or through other
/// assets) and `include_master_files` is off.
pub open spec fn zipped(g: GraphView, plugin: usize, include_master_files: bool, x: usize) -> bool {
    &&& goes_into_package(g, plugin, x)
    &&& (x == plugin || include_master_files || !master_assets(g, plugin).contains(x))
}

/// The assets of the plugin that are zipped into its package.
pub open spec fn package_assets(g: GraphView, plugin: usize, include_master_files: bool) -> Set<usize> {
    esp_file_assets(g, plugin).filter(|x: usize| zipped(g, plugin, include_master_files, x))
}

/// The relative paths of the files that are zipped into the package of the
/// scanned plugin, one for each such asset, in no particular order; or
/// `None` when one of its assets has no node.
pub fn package_file_list(scan: &EspFileGraph, include_master_files: bool) -> (files: Option<Vec<String>>)
    requires
        scan.graph@.links_finite(),
    ensures
        match files {
            None => has_missing_node(scan.graph@, scan.plugin.index),
            Some(files) => {
                &&& !has_missing_node(scan.graph@, scan.plugin.index)
                &&& exists|idx: Seq<usize>| {
                    &&& idx.no_duplicates()
                    &&& #[trigger] idx.to_set() == package_assets(
                        scan.graph@,
                        scan.plugin.index,
                        include_master_files,
                    )
                    &&& strings_view(files@) == paths_of(scan.graph@, idx)
                }
            },
        },
{
    let ghost g = scan.graph@;
    let ghost plugin = scan.plugin.index;
    let listing = match file_assets(scan) {
        None => return None,
        Some(listing) => listing,
    };
    let ghost entries = listing.assets@;
    let masters: HashSet<usize> = if include_master_files {
        HashSet::new()
    } else {
        let seeds = direct_children_of(&scan.plugin, &scan.graph, true);
        scan.graph.reachable(&seeds, false)
    };
    let mut files: Vec<String> = Vec::new();
    let ghost mut idx: Seq<usize> = Seq::empty();
    let mut i: usize = 0;
    while i < listing.assets.len()
        invariant
            i <= listing.assets.len(),
            entries == listing.assets@,
            scan.graph@ == g,
            plugin == scan.plugin.index,
            entry_indices(entries).no_duplicates(),
            forall|j: int| 0 <= j < entries.len() ==> entry_describes(g, plugin, #[trigger] entries[j]),
            idx.len() == files@.len(),
            idx.no_duplicates(),
            !include_master_files ==> masters@ == master_assets(g, plugin),
            idx.to_set() == entry_indices(entries.take(i as int)).to_set().filter(
                |x: usize| zipped(g, plugin, include_master_files, x),
            ),
            strings_view(files@) == paths_of(g, idx),
        decreases listing.assets.len() - i,
    {
        let entry = &listing.assets[i];
        assert(entry_describes(g, plugin, entries[i as int]));
        let ghost x = entry.index;
        assert(entry_indices(entries.take(i + 1)) =~= entry_indices(entries.take(i as int)).push(x));
        proof {
            entry_indices(entries.take(i as int)).lemma_push_to_set_commute(x);
        }
        if entry.export && (entry.index == scan.plugin.index || include_master_files || !masters.contains(&entry.index)) {
            let ghost files_before = files@;
            let ghost idx_before = idx;
            let name = entry.name.clone();
            files.push(name);
            proof {
                assert(!idx.contains(x)) by {
                    if idx.contains(x) {
                        assert(idx.to_set().contains(x));
                        let k = choose|k: int| 0 <= k < i && entry_indices(entries.take(i as int))[k] == x;
                        assert(entry_indices(entries)[k] == entry_indices(entries)[i as int]);
                    }
                }
                idx.lemma_push_to_set_commute(x);
                idx = idx.push(x);
            }
            assert forall|k: int| 0 <= k < files@.len() implies strings_view(files@)[k] == paths_of(g, idx)[k] by {
                if k < files_before.len() {
                    assert(files@[k] == files_before[k]);
                    assert(strings_view(files_before)[k] == paths_of(g, idx_before)[k]);
                    assert(idx[k] == idx_before[k]);
                } else {
                    assert(files@[k] == name);
                }
            }
            assert(strings_view(files@) =~= paths_of(g, idx));
        }
        assert(idx.to_set() =~= entry_indices(entries.take(i + 1)).to_set().filter(
            |x: usize| zipped(g, plugin, include_master_files, x),
        ));
        i += 1;
    }
    assert(entries.take(entries.len() as int) =~= entries);
    assert(idx.to_set() =~= package_assets(g, plugin, include_master_files));
    Some(files)
}

} // verus!
