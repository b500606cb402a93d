//! Which assets of a scanned plugin go into its package.
use crate::assets::{AssetGraph, AssetRef, GraphView, Type};
use crate::dash::index_set_to_vec;
use std::collections::HashSet;
use vstd::std_specs::iter::IteratorSpec;
use vstd::prelude::*;

verus! {

broadcast use {vstd::std_specs::hash::group_hash_axioms, vstd::seq_lib::group_seq_properties};

/// A scanned plugin: the graph of its assets, the reference to the plugin
/// itself, and the directory that the relative paths start from.
pub struct EspFileGraph {
    pub plugin: AssetRef,
    pub graph: AssetGraph,
    pub plugin_path: String,
}

/// The direct children of `plugin` that have a node and are master files
/// (`masters`), or that have a node and are no master files (`!masters`).
pub open spec fn direct_children(g: GraphView, plugin: usize, masters: bool) -> Set<usize> {
    g.step(plugin, false).filter(
        |c: usize| c < g.nodes.len() && (g.nodes[c as int].kind == Type::Plugin) == masters,
    )
}

/// The direct children of `plugin` that have a node and are no plugins.
pub open spec fn own_children(g: GraphView, plugin: usize) -> Set<usize> {
    direct_children(g, plugin, false)
}

/// Everything that the master files of `plugin` are or reference.
pub open spec fn master_assets(g: GraphView, plugin: usize) -> Set<usize> {
    g.reach(direct_children(g, plugin, true), false)
}

/// The assets of a plugin: the plugin itself, each direct child that is not
/// a plugin (a master), and everything below those children.
pub open spec fn esp_file_assets(g: GraphView, plugin: usize) -> Set<usize> {
    g.reach(own_children(g, plugin), false).insert(plugin)
}

/// Whether `x` is an asset with a node whose kind is `Plugin`.
pub open spec fn is_plugin_node(g: GraphView, x: usize) -> bool {
    x < g.nodes.len() && g.nodes[x as int].kind == Type::Plugin
}

/// The indices that `s` holds, each once.
pub fn hash_set_items(s: &HashSet<usize>) -> (items: Vec<usize>)
    ensures
        items@.to_set() == s@,
        items@.no_duplicates(),
{
    let mut items: Vec<usize> = Vec::new();
    let ghost all = vstd::std_specs::hash::spec_hash_keys_iter(s).remaining();
    assert(all.unref().to_set() == s@ && all.no_duplicates() && all.len() == s@.len());
    for x in it: s.iter()
        invariant
            it.seq() == all,
            items@ == all.take(it.index()).unref(),
    {
        items.push(*x);
        assert(all.take(it.index() + 1) =~= all.take(it.index()).push(all[it.index()]));
    }
    assert(items@ =~= all.unref());
    proof {
        assert forall|a: int, b: int| 0 <= a < b < items@.len() implies items@[a] != items@[b] by {
            assert(items@[a] == *all[a] && items@[b] == *all[b]);
        }
    }
    items
}

/// The direct children of `plugin` that have a node and are (`masters`) or
/// are not (`!masters`) master files, each once.
pub fn direct_children_of(plugin: &AssetRef, graph: &AssetGraph, masters: bool) -> (found: Vec<usize>)
    requires
        graph@.links_finite(),
    ensures
        found@.to_set() == direct_children(graph@, plugin.index, masters),
{
    let ghost g = graph@;
    let mut found: Vec<usize> = Vec::new();
    let n = graph.nodes_by_index.len();
    if plugin.index < n {
        let children = index_set_to_vec(&graph.nodes_by_index[plugin.index].children);
        let mut i: usize = 0;
        while i < children.len()
            invariant
                graph@ == g,
                n == g.nodes.len(),
                plugin.index < n,
                children@.to_set() == g.step(plugin.index, false),
                i <= children.len(),
                found@.to_set() == children@.take(i as int).to_set().filter(
                    |c: usize| c < g.nodes.len() && (g.nodes[c as int].kind == Type::Plugin) == masters,
                ),
            decreases children.len() - i,
        {
            let c = children[i];
            assert(children@.take(i + 1) =~= children@.take(i as int).push(c));
            proof {
                children@.take(i as int).lemma_push_to_set_commute(c);
                found@.lemma_push_to_set_commute(c);
            }
            if c < n && (graph.nodes_by_index[c].asset.kind == Type::Plugin) == masters {
                found.push(c);
            }
            assert(found@.to_set() =~= children@.take(i + 1).to_set().filter(
                |c: usize| c < g.nodes.len() && (g.nodes[c as int].kind == Type::Plugin) == masters,
            ));
            i += 1;
        }
        assert(children@.take(children.len() as int) =~= children@);
    }
    assert(found@.to_set() =~= direct_children(g, plugin.index, masters));
    found
}

/// The assets of the plugin that `plugin` refers to: the plugin, and each of
/// its direct children that is not a plugin together with everything below it.
pub fn get_esp_file_assets(plugin: &AssetRef, graph: &AssetGraph) -> (assets: HashSet<usize>)
    requires
        graph@.links_finite(),
    ensures
        assets@ == esp_file_assets(graph@, plugin.index),
{
    let seeds = direct_children_of(plugin, graph, false);
    let mut assets = graph.reachable(&seeds, false);
    assets.insert(plugin.index);
    assets
}

/// Removes the master files (the assets whose kind is `Plugin`) from
/// `assets`, and answers the set of those removed.
pub fn remove_master_file_assets(assets: &mut HashSet<usize>, graph: &AssetGraph) -> (removed: HashSet<usize>)
    requires
        forall|x: usize| #[trigger] old(assets)@.contains(x) ==> x < graph@.nodes.len(),
    ensures
        final(assets)@ == old(assets)@.filter(|x: usize| !is_plugin_node(graph@, x)),
        removed@ == old(assets)@.filter(|x: usize| is_plugin_node(graph@, x)),
{
    let ghost g = graph@;
    let items = hash_set_items(assets);
    let mut kept: HashSet<usize> = HashSet::new();
    let mut removed: HashSet<usize> = HashSet::new();
    let mut i: usize = 0;
    while i < items.len()
        invariant
            graph@ == g,
            items@.to_set() == old(assets)@,
            forall|x: usize| #[trigger] old(assets)@.contains(x) ==> x < g.nodes.len(),
            i <= items.len(),
            kept@ == items@.take(i as int).to_set().filter(|x: usize| !is_plugin_node(g, x)),
            removed@ == items@.take(i as int).to_set().filter(|x: usize| is_plugin_node(g, x)),
        decreases items.len() - i,
    {
        let x = items[i];
        assert(items@.take(i + 1) =~= items@.take(i as int).push(x));
        proof {
            items@.take(i as int).lemma_push_to_set_commute(x);
        }
        assert(old(assets)@.contains(x));
        if graph.nodes_by_index[x].asset.kind == Type::Plugin {
            removed.insert(x);
        } else {
            kept.insert(x);
        }
        assert(kept@ =~= items@.take(i + 1).to_set().filter(|x: usize| !is_plugin_node(g, x)));
        assert(removed@ =~= items@.take(i + 1).to_set().filter(|x: usize| is_plugin_node(g, x)));
        i += 1;
    }
    assert(items@.take(items.len() as int) =~= items@);
    *assets = kept;
    removed
}

} // verus!
