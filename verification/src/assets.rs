//! Assets and the graph of references between them.
//!
//! Every asset of a scan is a node of an `AssetGraph`, found again by its
//! relative path or by its index.  Paths are compared by their components
//! (`paths::path_key`): `a/b.nif`, `a//b.nif`, `a/./b.nif` and `a/b.nif/` name
//! one asset.  A node records the indices of the assets
//! it references (its children) and of the assets that reference it (its
//! parents).  An `AssetRef` names a node by its index.
use crate::dash::{
    index_set_clone, index_set_insert, index_set_items, index_set_new, path_index_entries,
    index_set_contains, index_set_to_vec, path_map_get, path_map_insert, path_map_new,
    path_map_remove, path_map_values, PathIndex,
};
use crate::laws::{law_add_asset_keeps_links_consistent, law_add_dependency_keeps_links_consistent};
use crate::paths::{join_path, joined, normalized_path, path_key};
use dashmap::DashSet;
use vstd::prelude::*;

verus! {

/// The kind of an asset.
#[derive(Clone, Copy, PartialEq, Eq, Debug, Structural)]
pub enum Type {
    Mesh,
    Texture,
    Plugin,
}

/// Asset path, always relative to a base path (usually the plugin directory).
#[derive(Debug)]
pub struct AssetPath {
    pub relative_path: String,
}

impl View for AssetPath {
    type V = Seq<char>;

    open spec fn view(&self) -> Seq<char> {
        self.relative_path@
    }
}

impl Clone for AssetPath {
    fn clone(&self) -> (copy: Self)
        ensures
            copy@ == self@,
    {
        AssetPath { relative_path: self.relative_path.clone() }
    }
}

/// `std::path::Path::exists`: asks the file system whether `path` names an
/// existing entry.  What comes back depends on the disk at the moment of the
/// call, so nothing is stated of it.
#[verifier::external_body]
fn path_exists_on_disk(path: &str) -> bool {
    std::path::Path::new(path).exists()
}

impl AssetPath {
    pub fn new(relative_path: String) -> (p: AssetPath)
        ensures
            p@ == relative_path@,
    {
        AssetPath { relative_path }
    }

    /// The full path of the asset below `base_path`; taking `base_path` off
    /// its components again gives the asset's own (`law_join_then_strip`).
    pub fn make_full(&self, base_path: &str) -> (full: String)
        ensures
            full@ == joined(base_path@, self@),
    {
        join_path(base_path, self.relative_path.as_str())
    }

    /// Whether the asset exists below `base_path`; the answer is the file
    /// system's for the path that `make_full` gives.
    pub fn exists_at(&self, base_path: &str) -> bool {
        let full = self.make_full(base_path);
        path_exists_on_disk(full.as_str())
    }
}

/// An asset: its kind and its relative path.  Two assets are the same asset
/// when their paths have the same components, whatever their kinds.
#[derive(Debug)]
pub struct Asset {
    pub kind: Type,
    pub path: AssetPath,
}

impl Clone for Asset {
    fn clone(&self) -> (copy: Self)
        ensures
            copy.kind == self.kind,
            copy.path@ == self.path@,
    {
        Asset { kind: self.kind, path: self.path.clone() }
    }
}

impl PartialEq for Asset {
    fn eq(&self, other: &Asset) -> (same: bool) {
        normalized_path(self.path.relative_path.as_str()) == normalized_path(other.path.relative_path.as_str())
    }
}

impl Eq for Asset {
}

impl vstd::std_specs::cmp::PartialEqSpecImpl for Asset {
    open spec fn obeys_eq_spec() -> bool {
        true
    }

    open spec fn eq_spec(&self, other: &Asset) -> bool {
        path_key(self.path@) == path_key(other.path@)
    }
}

impl Asset {
    pub fn new(kind: Type, path: AssetPath) -> (asset: Asset)
        ensures
            asset.kind == kind,
            asset.path@ == path@,
    {
        Asset { kind, path }
    }
}

/// What a node of the graph holds, as plain values.
#[verifier::ext_equal]
pub struct NodeView {
    pub kind: Type,
    pub path: Seq<char>,
    pub children: Set<usize>,
    pub parents: Set<usize>,
}

/// A node in the asset graph, representing an asset and its relationships to
/// other assets.
pub struct AssetNode {
    pub asset: Asset,
    pub children: DashSet<usize>,
    pub parents: DashSet<usize>,
}

impl View for AssetNode {
    type V = NodeView;

    open spec fn view(&self) -> NodeView {
        NodeView {
            kind: self.asset.kind,
            path: self.asset.path@,
            children: index_set_items(self.children),
            parents: index_set_items(self.parents),
        }
    }
}

/// The node of a fresh asset: no children, no parents.
pub open spec fn fresh_node(kind: Type, path: Seq<char>) -> NodeView {
    NodeView { kind, path, children: Set::empty(), parents: Set::empty() }
}

impl PartialEq for AssetNode {
    fn eq(&self, other: &AssetNode) -> (same: bool) {
        self.asset == other.asset
    }
}

impl Eq for AssetNode {
}

impl vstd::std_specs::cmp::PartialEqSpecImpl for AssetNode {
    open spec fn obeys_eq_spec() -> bool {
        true
    }

    open spec fn eq_spec(&self, other: &AssetNode) -> bool {
        path_key(self.asset.path@) == path_key(other.asset.path@)
    }
}

impl AssetNode {
    pub fn new(asset: Asset) -> (node: AssetNode)
        ensures
            node@ == fresh_node(asset.kind, asset.path@),
    {
        AssetNode { asset, children: index_set_new(), parents: index_set_new() }
    }

    /// A copy of the node that holds the same asset and the same links.
    pub fn duplicate(&self) -> (copy: AssetNode)
        ensures
            copy@ == self@,
    {
        AssetNode {
            asset: self.asset.clone(),
            children: index_set_clone(&self.children),
            parents: index_set_clone(&self.parents),
        }
    }
}

/// The graph as plain values: the node that each path key leads to, and the
/// nodes in order of their indices.
#[verifier::ext_equal]
pub struct GraphView {
    pub paths: Map<Seq<char>, usize>,
    pub nodes: Seq<NodeView>,
}

impl GraphView {
    /// Each key of the index leads to a node whose path has that key, and
    /// each node holds finitely many links.
    pub open spec fn wf(self) -> bool {
        &&& forall|k: Seq<char>| #[trigger] self.paths.dom().contains(k) ==>
            self.paths[k] < self.nodes.len() && path_key(self.nodes[self.paths[k] as int].path) == k
        &&& self.links_finite()
    }

    /// Each node holds finitely many links.
    pub open spec fn links_finite(self) -> bool {
        forall|i: int| 0 <= i < self.nodes.len() ==>
            (#[trigger] self.nodes[i]).children.finite() && self.nodes[i].parents.finite()
    }

    /// The links of node `i` are mirrored: each child of `i` is a node that
    /// has `i` among its parents, and each parent of `i` is a node that has
    /// `i` among its children.
    pub open spec fn node_links_mirrored(self, i: int) -> bool {
        &&& forall|c: usize| #[trigger] self.nodes[i].children.contains(c) ==>
            c < self.nodes.len() && self.nodes[c as int].parents.contains(i as usize)
        &&& forall|p: usize| #[trigger] self.nodes[i].parents.contains(p) ==>
            p < self.nodes.len() && self.nodes[p as int].children.contains(i as usize)
    }

    /// Every node has mirrored links.
    pub open spec fn links_consistent(self) -> bool {
        forall|i: int| 0 <= i < self.nodes.len() ==> #[trigger] self.node_links_mirrored(i)
    }

    /// Every node that the path index leads to has mirrored links.
    pub open spec fn indexed_links_consistent(self) -> bool {
        forall|k: Seq<char>| #[trigger] self.paths.dom().contains(k) ==>
            self.node_links_mirrored(self.paths[k] as int)
    }

    /// Each node is the one that the key of its path leads to, so no two
    /// nodes have paths with the same components.
    pub open spec fn one_node_per_key(self) -> bool {
        forall|i: int| 0 <= i < self.nodes.len() ==> self.contains_path(#[trigger] self.nodes[i].path)
            && self.index_of(self.nodes[i].path) == i
    }

    /// The neighbours of `x`: its parents when `up`, else its children; an
    /// index without a node has none.
    pub open spec fn step(self, x: usize, up: bool) -> Set<usize> {
        if x < self.nodes.len() {
            if up {
                self.nodes[x as int].parents
            } else {
                self.nodes[x as int].children
            }
        } else {
            Set::empty()
        }
    }

    /// `p` is a walk that follows links, downward or (when `up`) upward.
    pub open spec fn is_walk(self, p: Seq<usize>, up: bool) -> bool {
        &&& p.len() >= 1
        &&& forall|k: int| 0 <= k < p.len() - 1 ==> #[trigger] self.step(p[k], up).contains(p[k + 1])
    }

    /// What a walk that starts in `seeds` can reach: the seeds themselves and
    /// everything linked from them, directly or through other nodes.
    pub open spec fn reach(self, seeds: Set<usize>, up: bool) -> Set<usize> {
        Set::new(|y: usize| exists|p: Seq<usize>|
            #![trigger self.is_walk(p, up), seeds.contains(p[0])]
            self.is_walk(p, up) && seeds.contains(p[0]) && p.last() == y)
    }

    /// Whether the index holds the key of `path`.
    pub open spec fn contains_path(self, path: Seq<char>) -> bool {
        self.paths.dom().contains(path_key(path))
    }

    /// The index of the node that the key of `path` leads to.
    pub open spec fn index_of(self, path: Seq<char>) -> usize {
        self.paths[path_key(path)]
    }

    /// The graph once the asset `(kind, path)` has been added, if the key of
    /// its path is new.
    pub open spec fn with_asset(self, kind: Type, path: Seq<char>) -> GraphView {
        if self.contains_path(path) {
            self
        } else {
            GraphView {
                paths: self.paths.insert(path_key(path), self.nodes.len() as usize),
                nodes: self.nodes.push(fresh_node(kind, path)),
            }
        }
    }

    /// The graph once `child` has been recorded among the children of
    /// `parent`, and then `parent` among the parents of `child`; each step
    /// happens only where its node exists.
    pub open spec fn with_link(self, parent: usize, child: usize) -> GraphView {
        if parent < self.nodes.len() {
            let pn = self.nodes[parent as int];
            let g1 = GraphView {
                paths: self.paths,
                nodes: self.nodes.update(
                    parent as int,
                    NodeView { children: pn.children.insert(child), ..pn },
                ),
            };
            if child < g1.nodes.len() {
                let cn = g1.nodes[child as int];
                GraphView {
                    paths: g1.paths,
                    nodes: g1.nodes.update(
                        child as int,
                        NodeView { parents: cn.parents.insert(parent), ..cn },
                    ),
                }
            } else {
                g1
            }
        } else {
            self
        }
    }
}

/// A reference to an asset of a graph: the index of its node.  A reference
/// is read together with the graph it came from, which every operation takes
/// alongside it; two references are the same when their indices are.
#[derive(Clone, Copy, PartialEq, Eq, Hash, Debug, Structural)]
pub struct AssetRef {
    pub index: usize,
}

/// A graph of assets, where each asset can have multiple children and parents.
pub struct AssetGraph {
    pub nodes: PathIndex,
    pub nodes_by_index: Vec<AssetNode>,
}

impl View for AssetGraph {
    type V = GraphView;

    open spec fn view(&self) -> GraphView {
        GraphView {
            paths: path_index_entries(self.nodes),
            nodes: self.nodes_by_index@.map_values(|n: AssetNode| n@),
        }
    }
}

/// Adds a parent/child dependency between assets: `child` joins the
/// children of `parent` and then `parent` joins the parents of `child`.  A
/// reference without a node stops the change there.
pub fn add_dependency(graph: &mut AssetGraph, parent: &AssetRef, child: &AssetRef)
    requires
        old(graph)@.wf(),
    ensures
        final(graph)@ == old(graph)@.with_link(parent.index, child.index),
        final(graph)@.wf(),
        old(graph)@.links_consistent() && (child.index < old(graph)@.nodes.len()
            || parent.index >= old(graph)@.nodes.len()) ==> final(graph)@.links_consistent(),
{
    let ghost g = graph@;
    let n = graph.nodes_by_index.len();
    if parent.index >= n {
        assert(graph@ =~= g.with_link(parent.index, child.index));
        return;
    }
    index_set_insert(&mut graph.nodes_by_index[parent.index].children, child.index);
    if child.index >= n {
        assert(graph@ =~= g.with_link(parent.index, child.index));
        return;
    }
    index_set_insert(&mut graph.nodes_by_index[child.index].parents, parent.index);
    assert(graph@ =~= g.with_link(parent.index, child.index));
    proof {
        if g.links_consistent() {
            law_add_dependency_keeps_links_consistent(g, parent.index, child.index);
        }
    }
}

impl AssetGraph {
    pub fn new() -> (graph: AssetGraph)
        ensures
            graph@.paths.dom() == Set::<Seq<char>>::empty(),
            graph@.nodes == Seq::<NodeView>::empty(),
            graph@.wf(),
    {
        let graph = AssetGraph { nodes: path_map_new(), nodes_by_index: Vec::new() };
        assert(graph@.nodes =~= Seq::<NodeView>::empty());
        graph
    }

    /// Finds the asset of `path`: the one whose path has the same components.
    pub fn lookup_asset(&self, path: &AssetPath) -> (found: Option<AssetRef>)
        ensures
            found == (if self@.contains_path(path@) {
                Some(AssetRef { index: self@.index_of(path@) })
            } else {
                None::<AssetRef>
            }),
    {
        let key = normalized_path(path.relative_path.as_str());
        match path_map_get(&self.nodes, key.as_str()) {
            Some(index) => Some(AssetRef { index }),
            None => None,
        }
    }

    /// Takes the key of `path` out of the index.  Its node stays, and so do
    /// references to it; answers whether the key was indexed.
    pub fn remove_asset(&mut self, path: &AssetPath) -> (was_present: bool)
        requires
            old(self)@.wf(),
        ensures
            was_present == old(self)@.contains_path(path@),
            final(self)@.paths == old(self)@.paths.remove(path_key(path@)),
            final(self)@.nodes == old(self)@.nodes,
            final(self)@.wf(),
    {
        let key = normalized_path(path.relative_path.as_str());
        path_map_remove(&mut self.nodes, key.as_str()).is_some()
    }

    /// Adds the asset `(kind, path)` unless an asset of the same path is
    /// already in the graph, records the dependency on `parent` if one is
    /// given, and answers the reference of the asset of `path`.  The path
    /// must not already be in the graph with another kind: one asset has one
    /// kind (`try_add_asset` answers `None` in that case).
    pub fn add_asset(&mut self, kind: Type, path: &AssetPath, parent: Option<AssetRef>) -> (added: AssetRef)
        requires
            old(self)@.wf(),
            old(self)@.contains_path(path@) ==>
                old(self)@.nodes[old(self)@.index_of(path@) as int].kind == kind,
        ensures
            added.index == old(self)@.with_asset(kind, path@).index_of(path@),
            final(self)@ == (match parent {
                Some(p) => old(self)@.with_asset(kind, path@).with_link(p.index, added.index),
                None => old(self)@.with_asset(kind, path@),
            }),
            final(self)@.wf(),
            old(self)@.links_consistent() ==> final(self)@.links_consistent(),
            added.index < final(self)@.nodes.len(),
    {
        let ghost g = self@;
        let key = normalized_path(path.relative_path.as_str());
        let index = match path_map_get(&self.nodes, key.as_str()) {
            Some(index) => index,
            None => {
                let index = self.nodes_by_index.len();
                let node = AssetNode::new(Asset::new(kind, path.clone()));
                self.nodes_by_index.push(node);
                path_map_insert(&mut self.nodes, key, index);
                assert(self@ =~= g.with_asset(kind, path@));
                proof {
                    assert(self.nodes_by_index.len() == self.nodes_by_index@.len());
                    if g.links_consistent() {
                        law_add_asset_keeps_links_consistent(g, kind, path@);
                    }
                }
                index
            },
        };
        let added = AssetRef { index };
        if let Some(p) = parent {
            add_dependency(self, &p, &added);
        }
        added
    }

    /// `add_asset` where the path may already be in the graph with another
    /// kind: then nothing changes and the answer is `None`.
    pub fn try_add_asset(&mut self, kind: Type, path: &AssetPath, parent: Option<AssetRef>) -> (added: Option<AssetRef>)
        requires
            old(self)@.wf(),
        ensures
            final(self)@.wf(),
            old(self)@.links_consistent() ==> final(self)@.links_consistent(),
            match added {
                Some(r) => {
                    &&& !(old(self)@.contains_path(path@)
                        && old(self)@.nodes[old(self)@.index_of(path@) as int].kind != kind)
                    &&& r.index == old(self)@.with_asset(kind, path@).index_of(path@)
                    &&& r.index < final(self)@.nodes.len()
                    &&& final(self)@ == (match parent {
                        Some(p) => old(self)@.with_asset(kind, path@).with_link(p.index, r.index),
                        None => old(self)@.with_asset(kind, path@),
                    })
                },
                None => {
                    &&& old(self)@.contains_path(path@)
                    &&& old(self)@.nodes[old(self)@.index_of(path@) as int].kind != kind
                    &&& final(self)@ == old(self)@
                },
            },
    {
        let key = normalized_path(path.relative_path.as_str());
        if let Some(index) = path_map_get(&self.nodes, key.as_str()) {
            if self.nodes_by_index[index].asset.kind != kind {
                return None;
            }
        }
        Some(self.add_asset(kind, path, parent))
    }

    /// A new graph that holds `root_asset` alone, and the reference to it.
    pub fn new_with_root(root_asset: &Asset) -> (made: (AssetGraph, AssetRef))
        ensures
            made.0@.paths.dom() == set![path_key(root_asset.path@)],
            made.0@.index_of(root_asset.path@) == 0,
            made.0@.nodes == seq![fresh_node(root_asset.kind, root_asset.path@)],
            made.1.index == 0,
            made.0@.wf(),
    {
        let mut graph = AssetGraph::new();
        let root = graph.add_asset(root_asset.kind, &root_asset.path, None);
        assert(graph@.paths.dom() =~= set![path_key(root_asset.path@)]);
        assert(graph@.nodes =~= seq![fresh_node(root_asset.kind, root_asset.path@)]);
        (graph, root)
    }
}


impl AssetRef {
    pub fn new(index: usize) -> (r: AssetRef)
        ensures
            r.index == index,
    {
        AssetRef { index }
    }

    /// A copy of the referenced node, if there is one.
    pub fn get_copy(&self, graph: &AssetGraph) -> (copy: Option<AssetNode>)
        ensures
            match copy {
                Some(node) => self.index < graph@.nodes.len() && node@ == graph@.nodes[self.index as int],
                None => self.index >= graph@.nodes.len(),
            },
    {
        if self.index < graph.nodes_by_index.len() {
            Some(graph.nodes_by_index[self.index].duplicate())
        } else {
            None
        }
    }

    /// `f` applied to the referenced node, if there is one.
    pub fn map_read<F, R>(&self, graph: &AssetGraph, f: F) -> (read: Option<R>) where F: FnOnce(&AssetNode) -> R
        requires
            self.index < graph.nodes_by_index@.len() ==> f.requires((&graph.nodes_by_index@[self.index as int],)),
        ensures
            match read {
                Some(r) => self.index < graph.nodes_by_index@.len()
                    && f.ensures((&graph.nodes_by_index@[self.index as int],), r),
                None => self.index >= graph.nodes_by_index@.len(),
            },
    {
        if self.index < graph.nodes_by_index.len() {
            Some(f(&graph.nodes_by_index[self.index]))
        } else {
            None
        }
    }

    /// Whether both refer to the same node.
    pub fn ptr_eq(&self, other: &AssetRef) -> (same: bool)
        ensures
            same == (self.index == other.index),
    {
        self.index == other.index
    }
}

impl AssetGraph {
    /// Whether the links of node `index` are mirrored.
    fn node_links_valid(&self, index: usize) -> (valid: bool)
        requires
            self@.wf(),
            index < self@.nodes.len(),
        ensures
            valid == self@.node_links_mirrored(index as int),
    {
        let ghost g = self@;
        let n = self.nodes_by_index.len();
        let children = index_set_to_vec(&self.nodes_by_index[index].children);
        let mut i: usize = 0;
        while i < children.len()
            invariant
                self@ == g,
                n == g.nodes.len(),
                index < n,
                children@.to_set() == g.nodes[index as int].children,
                i <= children.len(),
                forall|j: int| 0 <= j < i ==> (#[trigger] children@[j]) < n
                    && g.nodes[children@[j] as int].parents.contains(index),
            decreases children.len() - i,
        {
            let c = children[i];
            if c >= n || !index_set_contains(&self.nodes_by_index[c].parents, index) {
                assert(children@.to_set().contains(children@[i as int]));
                return false;
            }
            i += 1;
        }
        let parents = index_set_to_vec(&self.nodes_by_index[index].parents);
        let mut i: usize = 0;
        while i < parents.len()
            invariant
                self@ == g,
                n == g.nodes.len(),
                index < n,
                parents@.to_set() == g.nodes[index as int].parents,
                i <= parents.len(),
                forall|j: int| 0 <= j < i ==> (#[trigger] parents@[j]) < n
                    && g.nodes[parents@[j] as int].children.contains(index),
            decreases parents.len() - i,
        {
            let p = parents[i];
            if p >= n || !index_set_contains(&self.nodes_by_index[p].children, index) {
                assert(parents@.to_set().contains(parents@[i as int]));
                return false;
            }
            i += 1;
        }
        assert forall|c: usize| #[trigger] g.nodes[index as int].children.contains(c) implies
            c < n && g.nodes[c as int].parents.contains(index) by {
            assert(children@.to_set().contains(c));
            let j = choose|j: int| 0 <= j < children@.len() && children@[j] == c;
        }
        assert forall|p: usize| #[trigger] g.nodes[index as int].parents.contains(p) implies
            p < n && g.nodes[p as int].children.contains(index) by {
            assert(parents@.to_set().contains(p));
            let j = choose|j: int| 0 <= j < parents@.len() && parents@[j] == p;
        }
        true
    }

    /// Checks that every asset the path index leads to has mirrored links:
    /// all of its children have it as a parent and all of its parents have it
    /// as a child.  A graph without that property is a broken graph, which
    /// the caller must not hand in; `links_valid` answers the question for
    /// any graph.
    pub fn assert_valid(&self)
        requires
            self@.wf(),
            self@.indexed_links_consistent(),
    {
        let valid = self.links_valid();
        assert(valid);
    }

    /// Whether every asset the path index leads to has mirrored links: all of
    /// its children have it as a parent and all of its parents have it as a
    /// child.
    pub fn links_valid(&self) -> (valid: bool)
        requires
            self@.wf(),
        ensures
            valid == self@.indexed_links_consistent(),
    {
        let ghost g = self@;
        let values = path_map_values(&self.nodes);
        let mut i: usize = 0;
        while i < values.len()
            invariant
                self@ == g,
                g.wf(),
                i <= values.len(),
                forall|j: int| 0 <= j < values@.len() ==> #[trigger] g.paths.values().contains(values@[j]),
                forall|j: int| 0 <= j < i ==> g.node_links_mirrored(#[trigger] values@[j] as int),
            decreases values.len() - i,
        {
            let index = values[i];
            assert(g.paths.values().contains(values@[i as int]));
            let ghost k = choose|k: Seq<char>| g.paths.dom().contains(k) && g.paths[k] == index;
            assert(g.paths.dom().contains(k));
            if !self.node_links_valid(index) {
                return false;
            }
            i += 1;
        }
        assert forall|k: Seq<char>| #[trigger] g.paths.dom().contains(k) implies
            g.node_links_mirrored(g.paths[k] as int) by {
            assert(values@.contains(g.paths[k]));
            let j = choose|j: int| 0 <= j < values@.len() && values@[j] == g.paths[k];
        }
        true
    }
}

} // verus!
