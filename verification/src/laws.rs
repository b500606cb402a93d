//! What holds of the asset graph across its operations.
use crate::assets::{fresh_node, GraphView, Type};
use crate::paths::path_key;
use crate::export::{goes_into_package, package_assets};
use crate::package::{direct_children, esp_file_assets, is_plugin_node, master_assets, own_children};
use crate::reach::lemma_seed_reached;
use vstd::prelude::*;

verus! {

/// A graph without nodes has consistent links.
pub proof fn law_empty_graph_consistent(g: GraphView)
    requires
        g.nodes.len() == 0,
    ensures
        g.links_consistent(),
{
}

/// Adding an asset keeps the links of a consistent graph consistent.
pub proof fn law_add_asset_keeps_links_consistent(g: GraphView, kind: Type, path: Seq<char>)
    requires
        g.wf(),
        g.nodes.len() < usize::MAX,
        g.links_consistent(),
    ensures
        g.with_asset(kind, path).wf(),
        g.with_asset(kind, path).links_consistent(),
{
    let h = g.with_asset(kind, path);
    if !g.contains_path(path) {
        assert forall|i: int| 0 <= i < h.nodes.len() implies #[trigger] h.node_links_mirrored(i) by {
            if i < g.nodes.len() {
                assert(g.node_links_mirrored(i));
                assert(h.nodes[i] == g.nodes[i]);
            } else {
                assert(h.nodes[i] == fresh_node(kind, path));
            }
        }
    }
}

/// Recording a dependency on an asset that has a node keeps the links of a
/// consistent graph consistent; so does one whose parent has no node.
pub proof fn law_add_dependency_keeps_links_consistent(g: GraphView, parent: usize, child: usize)
    requires
        g.wf(),
        g.links_consistent(),
        child < g.nodes.len() || parent >= g.nodes.len(),
    ensures
        g.with_link(parent, child).wf(),
        g.with_link(parent, child).links_consistent(),
{
    let h = g.with_link(parent, child);
    if parent < g.nodes.len() {
        assert forall|i: int| 0 <= i < h.nodes.len() implies #[trigger] h.node_links_mirrored(i) by {
            assert(g.node_links_mirrored(i));
            assert forall|c: usize| #[trigger] h.nodes[i].children.contains(c) implies
                c < h.nodes.len() && h.nodes[c as int].parents.contains(i as usize) by {
                if i != parent || c != child {
                    assert(g.nodes[i].children.contains(c));
                    assert(g.node_links_mirrored(i));
                }
            }
            assert forall|p: usize| #[trigger] h.nodes[i].parents.contains(p) implies
                p < h.nodes.len() && h.nodes[p as int].children.contains(i as usize) by {
                if i != child || p != parent {
                    assert(g.nodes[i].parents.contains(p));
                }
            }
        }
        assert forall|i: int| 0 <= i < h.nodes.len() implies
            (#[trigger] h.nodes[i]).children.finite() && h.nodes[i].parents.finite() by {
            assert(g.nodes[i].children.finite() && g.nodes[i].parents.finite());
        }
    }
}

/// Taking a path out of the index keeps the nodes, and so their links, as
/// they were; no path with the same components is found afterwards.
pub proof fn law_remove_keeps_links_consistent(g: GraphView, path: Seq<char>)
    requires
        g.wf(),
        g.links_consistent(),
    ensures
        (GraphView { paths: g.paths.remove(path_key(path)), nodes: g.nodes }).wf(),
        (GraphView { paths: g.paths.remove(path_key(path)), nodes: g.nodes }).links_consistent(),
        forall|q: Seq<char>| path_key(q) == path_key(path) ==>
            !(GraphView { paths: g.paths.remove(path_key(path)), nodes: g.nodes }).contains_path(q),
{
    let h = GraphView { paths: g.paths.remove(path_key(path)), nodes: g.nodes };
    assert forall|i: int| 0 <= i < h.nodes.len() implies #[trigger] h.node_links_mirrored(i) by {
        assert(g.node_links_mirrored(i));
    }
}

/// In a graph with consistent links every indexed asset has mirrored links:
/// `links_valid` answers true, and `assert_valid` may be called.
pub proof fn law_consistent_graph_is_valid(g: GraphView)
    requires
        g.wf(),
        g.links_consistent(),
    ensures
        g.indexed_links_consistent(),
{
    assert forall|k: Seq<char>| #[trigger] g.paths.dom().contains(k) implies
        g.node_links_mirrored(g.paths[k] as int) by {
        assert(g.node_links_mirrored(g.paths[k] as int));
    }
}

/// After an asset is added, its path (and every path with the same
/// components) leads to the reference that the add handed back; a path that
/// was there keeps its index, and no node is created for it.
pub proof fn law_add_then_lookup(g: GraphView, kind: Type, path: Seq<char>)
    ensures
        forall|q: Seq<char>| path_key(q) == path_key(path) ==>
            g.with_asset(kind, path).contains_path(q)
            && g.with_asset(kind, path).index_of(q) == g.with_asset(kind, path).index_of(path),
        g.contains_path(path) ==> g.with_asset(kind, path) == g,
        !g.contains_path(path) && g.nodes.len() < usize::MAX ==>
            g.with_asset(kind, path).index_of(path) == g.nodes.len()
            && g.with_asset(kind, path).nodes.len() == g.nodes.len() + 1,
        forall|q: Seq<char>| #[trigger] g.contains_path(q) ==>
            g.with_asset(kind, path).contains_path(q)
            && g.with_asset(kind, path).index_of(q) == g.index_of(q),
        forall|p: usize, c: usize| #[trigger] g.with_asset(kind, path).with_link(p, c).paths
            == g.with_asset(kind, path).paths,
{
}

/// Adding the same asset twice leaves the graph as the first add left it.
pub proof fn law_add_asset_idempotent(g: GraphView, kind: Type, path: Seq<char>)
    ensures
        g.with_asset(kind, path).with_asset(kind, path) == g.with_asset(kind, path),
{
}

/// A dependency only adds links: every link that was there stays, and the
/// nodes keep their assets.
pub proof fn law_links_only_grow(g: GraphView, parent: usize, child: usize)
    ensures
        g.with_link(parent, child).nodes.len() == g.nodes.len(),
        forall|i: int| 0 <= i < g.nodes.len() ==> {
            &&& (#[trigger] g.with_link(parent, child).nodes[i]).kind == g.nodes[i].kind
            &&& g.with_link(parent, child).nodes[i].path == g.nodes[i].path
            &&& g.nodes[i].children.subset_of(g.with_link(parent, child).nodes[i].children)
            &&& g.nodes[i].parents.subset_of(g.with_link(parent, child).nodes[i].parents)
        },
{
}

/// With consistent links, `b` is a neighbour of `a` one way exactly when `a`
/// is a neighbour of `b` the other way.
pub proof fn lemma_step_mirrored(g: GraphView, a: usize, b: usize, up: bool)
    requires
        g.links_consistent(),
    ensures
        g.step(a, up).contains(b) <==> g.step(b, !up).contains(a),
{
    if a < g.nodes.len() {
        assert(g.node_links_mirrored(a as int));
    }
    if b < g.nodes.len() {
        assert(g.node_links_mirrored(b as int));
    }
}

/// One direction of `law_descendant_iff_ancestor`: a walk from `x` to `y`
/// read backwards is a walk from `y` to `x` the other way.
proof fn lemma_reverse_reach(g: GraphView, x: usize, y: usize, up: bool)
    requires
        g.links_consistent(),
        g.reach(g.step(x, up), up).contains(y),
    ensures
        g.reach(g.step(y, !up), !up).contains(x),
{
    let p = choose|p: Seq<usize>| g.is_walk(p, up) && g.step(x, up).contains(p[0]) && p.last() == y;
    let full = seq![x] + p;
    let len = full.len() as int;
    assert(full[0] == x);
    assert(full[len - 1] == y);
    assert forall|k: int| 0 <= k < len - 1 implies #[trigger] g.step(full[k], up).contains(full[k + 1]) by {
        if k == 0 {
            assert(full[1] == p[0]);
        } else {
            assert(full[k] == p[k - 1] && full[k + 1] == p[k]);
            let j = k - 1;
            assert(g.step(p[j], up).contains(p[j + 1]));
        }
    }
    let q = Seq::new((len - 1) as nat, |k: int| full[len - 2 - k]);
    let back = !up;
    assert forall|k: int| 0 <= k < q.len() - 1 implies #[trigger] g.step(q[k], back).contains(q[k + 1]) by {
        let j = len - 3 - k;
        assert(g.step(full[j], up).contains(full[j + 1]));
        assert(q[k] == full[j + 1] && q[k + 1] == full[j]);
        lemma_step_mirrored(g, full[j], full[j + 1], up);
    }
    assert(g.is_walk(q, back));
    assert(q[0] == full[len - 2]);
    let last_edge = len - 2;
    assert(g.step(full[last_edge], up).contains(full[last_edge + 1]));
    lemma_step_mirrored(g, full[len - 2], y, up);
    assert(g.step(y, !up).contains(q[0]));
    assert(q.last() == x);
}

/// In a graph with consistent links, `y` is among the descendants of `x`
/// exactly when `x` is among the ancestors of `y`.
pub proof fn law_descendant_iff_ancestor(g: GraphView, x: usize, y: usize)
    requires
        g.links_consistent(),
    ensures
        g.reach(g.step(x, false), false).contains(y) <==> g.reach(g.step(y, true), true).contains(x),
{
    if g.reach(g.step(x, false), false).contains(y) {
        lemma_reverse_reach(g, x, y, false);
    }
    if g.reach(g.step(y, true), true).contains(x) {
        lemma_reverse_reach(g, y, x, true);
    }
}

/// The direct children of an asset are among its descendants, and the
/// direct parents among its ancestors.
pub proof fn law_direct_links_are_reached(g: GraphView, x: usize, up: bool)
    ensures
        g.step(x, up).subset_of(g.reach(g.step(x, up), up)),
{
    assert forall|y: usize| g.step(x, up).contains(y) implies g.reach(g.step(x, up), up).contains(y) by {
        lemma_seed_reached(g, g.step(x, up), up, y);
    }
}

/// Taking the master files out of a set of assets splits it in two: the
/// kept and the removed assets are disjoint and together make up the set.
pub proof fn law_master_split_partitions(g: GraphView, assets: Set<usize>)
    ensures
        assets.filter(|x: usize| !is_plugin_node(g, x)) + assets.filter(|x: usize| is_plugin_node(g, x))
            == assets,
        assets.filter(|x: usize| !is_plugin_node(g, x)).disjoint(assets.filter(|x: usize| is_plugin_node(g, x))),
{
    assert(assets.filter(|x: usize| !is_plugin_node(g, x)) + assets.filter(|x: usize| is_plugin_node(g, x))
        =~= assets);
}

/// A plugin is always among its own assets, and is zipped into its own
/// package, with or without the assets of its masters.
pub proof fn law_plugin_in_own_package(g: GraphView, plugin: usize, include_master_files: bool)
    ensures
        esp_file_assets(g, plugin).contains(plugin),
        package_assets(g, plugin, include_master_files).contains(plugin),
{
}

/// No master file other than the plugin itself is zipped into the package.
pub proof fn law_package_has_no_masters(g: GraphView, plugin: usize, include_master_files: bool, x: usize)
    requires
        package_assets(g, plugin, include_master_files).contains(x),
        x != plugin,
    ensures
        !is_plugin_node(g, x),
{
}

/// Without `include_master_files`, nothing that a master file of the plugin
/// references is zipped (but the plugin itself); with it, the package holds
/// every asset of the plugin that is not a master file.
pub proof fn law_master_assets_left_out(g: GraphView, plugin: usize, x: usize)
    ensures
        x != plugin && master_assets(g, plugin).contains(x) ==> !package_assets(g, plugin, false).contains(x),
        package_assets(g, plugin, true) == esp_file_assets(g, plugin).filter(
            |y: usize| goes_into_package(g, plugin, y),
        ),
        package_assets(g, plugin, false).subset_of(package_assets(g, plugin, true)),
{
    assert(package_assets(g, plugin, true) =~= esp_file_assets(g, plugin).filter(
        |y: usize| goes_into_package(g, plugin, y),
    ));
}

/// One call that changes a graph: `add_asset` of an asset with an optional
/// parent, or `remove_asset` of a path.
pub ghost enum GraphStep {
    Add { kind: Type, path: Seq<char>, parent: Option<usize> },
    Remove { path: Seq<char> },
}

/// The graph of `AssetGraph::new`.
pub open spec fn empty_graph() -> GraphView {
    GraphView { paths: Map::empty(), nodes: Seq::empty() }
}

/// The graph once `step` has been made on `g`, as the contracts of
/// `add_asset` and `remove_asset` state it.
pub open spec fn after_step(g: GraphView, step: GraphStep) -> GraphView {
    match step {
        GraphStep::Add { kind, path, parent } => {
            let added = g.with_asset(kind, path);
            match parent {
                Some(p) => added.with_link(p, added.index_of(path)),
                None => added,
            }
        },
        GraphStep::Remove { path } => GraphView { paths: g.paths.remove(path_key(path)), nodes: g.nodes },
    }
}

/// The graph once each of `steps` has been made on `g`, in order.
pub open spec fn after_steps(g: GraphView, steps: Seq<GraphStep>) -> GraphView
    decreases steps.len(),
{
    if steps.len() == 0 {
        g
    } else {
        after_step(after_steps(g, steps.drop_last()), steps.last())
    }
}

proof fn lemma_steps_keep_links(steps: Seq<GraphStep>)
    requires
        steps.len() <= usize::MAX,
    ensures
        after_steps(empty_graph(), steps).wf(),
        after_steps(empty_graph(), steps).links_consistent(),
        after_steps(empty_graph(), steps).nodes.len() <= steps.len(),
    decreases steps.len(),
{
    if steps.len() == 0 {
        assert(empty_graph().paths.dom() =~= Set::<Seq<char>>::empty());
    } else {
        let g = after_steps(empty_graph(), steps.drop_last());
        lemma_steps_keep_links(steps.drop_last());
        match steps.last() {
            GraphStep::Add { kind, path, parent } => {
                law_add_asset_keeps_links_consistent(g, kind, path);
                law_add_then_lookup(g, kind, path);
                let added = g.with_asset(kind, path);
                assert(added.index_of(path) < added.nodes.len());
                match parent {
                    Some(p) => {
                        law_add_dependency_keeps_links_consistent(added, p, added.index_of(path));
                    },
                    None => {},
                }
            },
            GraphStep::Remove { path } => {
                law_remove_keeps_links_consistent(g, path);
            },
        }
    }
}

/// Every graph that `AssetGraph::new` starts and only `add_asset` and
/// `remove_asset` change (each with any asset, path and parent) stays well
/// formed with mirrored links, so `assert_valid` may always be called on it.
pub proof fn law_built_graphs_stay_valid(steps: Seq<GraphStep>)
    requires
        steps.len() <= usize::MAX,
    ensures
        after_steps(empty_graph(), steps).wf(),
        after_steps(empty_graph(), steps).links_consistent(),
        after_steps(empty_graph(), steps).indexed_links_consistent(),
{
    lemma_steps_keep_links(steps);
    law_consistent_graph_is_valid(after_steps(empty_graph(), steps));
}

/// Adding an asset keeps one node per path key: the new node (if any) is
/// the one its key leads to, and every other key leads where it did.
pub proof fn law_add_keeps_one_node_per_key(g: GraphView, kind: Type, path: Seq<char>)
    requires
        g.wf(),
        g.one_node_per_key(),
        g.nodes.len() < usize::MAX,
    ensures
        g.with_asset(kind, path).one_node_per_key(),
{
    let h = g.with_asset(kind, path);
    if !g.contains_path(path) {
        assert forall|i: int| 0 <= i < h.nodes.len() implies h.contains_path(#[trigger] h.nodes[i].path)
            && h.index_of(h.nodes[i].path) == i by {
            if i < g.nodes.len() {
                assert(g.contains_path(g.nodes[i].path) && g.index_of(g.nodes[i].path) == i);
                assert(h.nodes[i] == g.nodes[i]);
            } else {
                assert(h.nodes[i] == fresh_node(kind, path));
            }
        }
    }
}

/// Recording a dependency changes neither the index nor the paths of the
/// nodes, so it keeps one node per path key.
pub proof fn law_link_keeps_one_node_per_key(g: GraphView, parent: usize, child: usize)
    requires
        g.one_node_per_key(),
    ensures
        g.with_link(parent, child).one_node_per_key(),
{
    let h = g.with_link(parent, child);
    assert forall|i: int| 0 <= i < h.nodes.len() implies h.contains_path(#[trigger] h.nodes[i].path)
        && h.index_of(h.nodes[i].path) == i by {
        assert(h.nodes[i].path == g.nodes[i].path);
        assert(g.contains_path(g.nodes[i].path));
    }
}

/// With one node per path key, two different nodes have paths with
/// different components.
pub proof fn law_distinct_nodes_distinct_keys(g: GraphView, i: int, j: int)
    requires
        g.one_node_per_key(),
        0 <= i < g.nodes.len(),
        0 <= j < g.nodes.len(),
        i != j,
    ensures
        path_key(g.nodes[i].path) != path_key(g.nodes[j].path),
{
    assert(g.contains_path(g.nodes[i].path) && g.index_of(g.nodes[i].path) == i);
    assert(g.contains_path(g.nodes[j].path) && g.index_of(g.nodes[j].path) == j);
}

proof fn lemma_adds_keep_one_node_per_key(steps: Seq<GraphStep>)
    requires
        steps.len() <= usize::MAX,
        forall|k: int| 0 <= k < steps.len() ==> #[trigger] steps[k] is Add,
    ensures
        after_steps(empty_graph(), steps).one_node_per_key(),
    decreases steps.len(),
{
    if steps.len() > 0 {
        let front = steps.drop_last();
        assert forall|k: int| 0 <= k < front.len() implies #[trigger] front[k] is Add by {
            assert(front[k] == steps[k]);
        }
        lemma_adds_keep_one_node_per_key(front);
        lemma_steps_keep_links(front);
        let g = after_steps(empty_graph(), front);
        assert(steps[steps.len() - 1] is Add);
        match steps.last() {
            GraphStep::Add { kind, path, parent } => {
                law_add_keeps_one_node_per_key(g, kind, path);
                let added = g.with_asset(kind, path);
                match parent {
                    Some(p) => {
                        law_link_keeps_one_node_per_key(added, p, added.index_of(path));
                    },
                    None => {},
                }
            },
            GraphStep::Remove { .. } => {},
        }
    }
}

/// Every graph that `AssetGraph::new` starts and only `add_asset` changes
/// (each with any asset, path and parent) has one node per path key: no two
/// of its nodes have paths with the same components.  (After a
/// `remove_asset`, adding the same path again makes a second node.)
pub proof fn law_added_graphs_have_one_node_per_key(steps: Seq<GraphStep>)
    requires
        steps.len() <= usize::MAX,
        forall|k: int| 0 <= k < steps.len() ==> #[trigger] steps[k] is Add,
    ensures
        after_steps(empty_graph(), steps).one_node_per_key(),
{
    lemma_adds_keep_one_node_per_key(steps);
}

/// What the package of a plugin holds, in terms of the graph alone: the
/// plugin itself, and every asset that is no plugin and lies below a direct
/// child of the plugin that is no plugin (however many parents it has);
/// without `include_master_files`, an asset that lies below a master file
/// of the plugin stays out.
pub proof fn law_package_contents(g: GraphView, plugin: usize, include_master_files: bool, x: usize)
    ensures
        package_assets(g, plugin, include_master_files).contains(x) <==> (x == plugin || {
            &&& g.reach(
                g.step(plugin, false).filter(|c: usize| c < g.nodes.len() && g.nodes[c as int].kind != Type::Plugin),
                false,
            ).contains(x)
            &&& g.nodes[x as int].kind != Type::Plugin
            &&& (include_master_files || !g.reach(
                g.step(plugin, false).filter(|c: usize| c < g.nodes.len() && g.nodes[c as int].kind == Type::Plugin),
                false,
            ).contains(x))
        }),
{
    let own = g.step(plugin, false).filter(|c: usize| c < g.nodes.len() && g.nodes[c as int].kind != Type::Plugin);
    let masters = g.step(plugin, false).filter(|c: usize| c < g.nodes.len() && g.nodes[c as int].kind == Type::Plugin);
    assert(own_children(g, plugin) =~= own);
    assert(direct_children(g, plugin, true) =~= masters);
}

} // verus!
