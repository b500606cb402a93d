//! Collecting the references of a plugin into an asset graph.
//!
//! Collection alternates between reading an asset file, which the caller
//! does, and recording what it references, which is done here: each asset
//! that a file references is added to the graph as a child of the asset that
//! was read, and an asset seen for the first time is queued to be read in
//! turn.  The caller repeats `next_to_load`, reads the asset it names, and
//! hands the references to `record_children`, until nothing is left to read.
use crate::assets::{Asset, AssetGraph, AssetRef, GraphView, Type};
use crate::dash::{index_set_insert, index_set_items, index_set_new};
use crate::laws::{
    law_add_keeps_one_node_per_key, law_add_then_lookup, law_link_keeps_one_node_per_key, law_links_only_grow,
};
use crate::reach::{lemma_reach_monotone, lemma_reach_step, lemma_seed_reached};
use crate::loading::views;
use dashmap::DashSet;
use vstd::prelude::*;

verus! {

/// The graph once each asset of `kids` has been added in order, each with
/// `parent` as its parent.
pub open spec fn with_children(g: GraphView, parent: usize, kids: Seq<(Type, Seq<char>)>) -> GraphView
    decreases kids.len(),
{
    if kids.len() == 0 {
        g
    } else {
        let before = with_children(g, parent, kids.drop_last());
        let added = before.with_asset(kids.last().0, kids.last().1);
        added.with_link(parent, added.index_of(kids.last().1))
    }
}

/// Whether `path` is already in `g` with a kind other than `kind`.
pub open spec fn conflicts(g: GraphView, kind: Type, path: Seq<char>) -> bool {
    g.contains_path(path) && g.nodes[g.index_of(path) as int].kind != kind
}

/// The indices that the paths of `kids` lead to in `g`.
pub open spec fn indices_of(g: GraphView, kids: Seq<(Type, Seq<char>)>) -> Set<usize> {
    Set::new(|x: usize| exists|j: int| 0 <= j < kids.len() && #[trigger] g.index_of(kids[j].1) == x)
}

/// `x` is the plugin `root` itself or lies below it.
pub open spec fn reached_from(g: GraphView, root: usize, x: usize) -> bool {
    x == root || g.reach(g.step(root, false), false).contains(x)
}

/// Adding a child asset and its link keeps every link that was there.
proof fn lemma_child_keeps_steps(g: GraphView, kind: Type, path: Seq<char>, parent: usize, child: usize)
    ensures
        forall|x: usize| #[trigger] g.step(x, false).subset_of(
            g.with_asset(kind, path).with_link(parent, child).step(x, false),
        ),
{
    let a = g.with_asset(kind, path);
    law_links_only_grow(a, parent, child);
    assert forall|x: usize| #[trigger] g.step(x, false).subset_of(a.with_link(parent, child).step(x, false)) by {
        if x < g.nodes.len() {
            assert(a.nodes[x as int] == g.nodes[x as int]);
            assert(a.with_link(parent, child).nodes[x as int].children.subset_of(
                a.with_link(parent, child).nodes[x as int].children,
            ));
        }
    }
}

/// Whether asset `x` has been handed out to be read (`loaded`) or waits to
/// be (`pending`).
pub open spec fn accounted(loaded: Set<usize>, pending: Seq<usize>, x: usize) -> bool {
    loaded.contains(x) || pending.contains(x)
}

/// The state of a collection: the graph so far, the plugin it started from,
/// the assets seen as a reference at least once, the assets still to be
/// read (the next one last), and the assets already handed out to be read.
pub struct ReferenceCollector {
    pub graph: AssetGraph,
    pub root: AssetRef,
    pub scanned: DashSet<usize>,
    pub pending: Vec<usize>,
    pub loaded: Ghost<Set<usize>>,
}

impl ReferenceCollector {
    /// The graph is well formed with consistent links and one node per path
    /// key; every index that the collector holds has a node; and every node
    /// lies below the plugin and has been handed out to be read or waits to
    /// be.
    pub open spec fn wf(&self) -> bool {
        &&& self.graph@.wf()
        &&& self.graph@.links_consistent()
        &&& self.graph@.one_node_per_key()
        &&& self.root.index < self.graph@.nodes.len()
        &&& forall|j: int| 0 <= j < self.pending@.len() ==> #[trigger] self.pending@[j] < self.graph@.nodes.len()
        &&& forall|x: usize| #[trigger] index_set_items(self.scanned).contains(x) ==> x < self.graph@.nodes.len()
        &&& forall|x: usize| #[trigger] self.loaded@.contains(x) ==> x < self.graph@.nodes.len()
        &&& forall|x: usize| x < self.graph@.nodes.len() ==> #[trigger] reached_from(self.graph@, self.root.index, x)
        &&& forall|x: usize| x < self.graph@.nodes.len() ==> #[trigger] accounted(self.loaded@, self.pending@, x)
    }

    /// A collection that starts from the plugin `root_asset`: the graph holds
    /// it alone, and it is the one asset to be read.
    pub fn new(root_asset: &Asset) -> (collector: ReferenceCollector)
        ensures
            collector.wf(),
            collector.graph@.paths.dom() == set![crate::paths::path_key(root_asset.path@)],
            collector.graph@.index_of(root_asset.path@) == 0,
            collector.graph@.nodes == seq![crate::assets::fresh_node(root_asset.kind, root_asset.path@)],
            collector.root.index == 0,
            collector.pending@ == seq![0usize],
            index_set_items(collector.scanned) == Set::<usize>::empty(),
            collector.loaded@ == Set::<usize>::empty(),
    {
        let (graph, root) = AssetGraph::new_with_root(root_asset);
        let mut pending: Vec<usize> = Vec::new();
        pending.push(root.index);
        proof {
            assert(graph@.node_links_mirrored(0));
            assert(pending@[0] == 0);
        }
        let collector = ReferenceCollector { graph, root, scanned: index_set_new(), pending, loaded: Ghost(Set::empty()) };
        assert(accounted(collector.loaded@, collector.pending@, 0));
        collector
    }

    /// The next asset to read, taken off the queue, or `None` when nothing
    /// is left to read.
    pub fn next_to_load(&mut self) -> (next: Option<(AssetRef, Asset)>)
        requires
            old(self).wf(),
        ensures
            final(self).wf(),
            final(self).graph@ == old(self).graph@,
            final(self).root == old(self).root,
            index_set_items(final(self).scanned) == index_set_items(old(self).scanned),
            final(self).loaded@ == (match next {
                Some((r, _)) => old(self).loaded@.insert(r.index),
                None => old(self).loaded@,
            }),
            match next {
                None => old(self).pending@.len() == 0 && final(self).pending@ == old(self).pending@,
                Some((r, asset)) => {
                    &&& old(self).pending@.len() > 0
                    &&& r.index == old(self).pending@.last()
                    &&& final(self).pending@ == old(self).pending@.drop_last()
                    &&& asset.kind == old(self).graph@.nodes[r.index as int].kind
                    &&& asset.path@ == old(self).graph@.nodes[r.index as int].path
                },
            },
    {
        let ghost before = self.pending@;
        let ghost loaded_before = self.loaded@;
        match self.pending.pop() {
            None => None,
            Some(index) => {
                assert(before.contains(before[before.len() - 1]));
                proof {
                    self.loaded@ = self.loaded@.insert(index);
                }
                assert forall|x: usize| x < self.graph@.nodes.len() implies #[trigger] accounted(self.loaded@, self.pending@, x) by {
                    assert(accounted(loaded_before, before, x));
                    if x != index && before.contains(x) {
                        let j = choose|j: int| 0 <= j < before.len() && before[j] == x;
                        assert(j < before.len() - 1);
                        assert(self.pending@[j] == x);
                    }
                }
                let asset = self.graph.nodes_by_index[index].asset.clone();
                Some((AssetRef { index }, asset))
            },
        }
    }

    /// Records the assets `children` that the file of `parent` references:
    /// each is added to the graph as a child of `parent`, and each seen for
    /// the first time is queued to be read.  Stops at the first child whose
    /// path is already in the graph with another kind, and answers its
    /// position; the children before it stay recorded.
    pub fn record_children(&mut self, parent: AssetRef, children: &Vec<Asset>) -> (outcome: Result<(), usize>)
        requires
            old(self).wf(),
            parent.index < old(self).graph@.nodes.len(),
        ensures
            final(self).wf(),
            final(self).root == old(self).root,
            final(self).loaded@ == old(self).loaded@,
            ({
                let kids = views(children@);
                let m = match outcome {
                    Ok(_) => kids.len() as int,
                    Err(j) => j as int,
                };
                &&& 0 <= m <= kids.len()
                &&& final(self).graph@ == with_children(old(self).graph@, parent.index, kids.take(m))
                &&& forall|j: int| 0 <= j < m ==> !conflicts(
                    #[trigger] with_children(old(self).graph@, parent.index, kids.take(j)),
                    kids[j].0,
                    kids[j].1,
                )
                &&& outcome matches Err(j) ==> j < kids.len() && conflicts(
                    with_children(old(self).graph@, parent.index, kids.take(j as int)),
                    kids[j as int].0,
                    kids[j as int].1,
                )
                &&& forall|j: int| 0 <= j < m ==> final(self).graph@.nodes[parent.index as int].children.contains(
                    #[trigger] final(self).graph@.index_of(kids[j].1),
                )
                &&& index_set_items(final(self).scanned) == index_set_items(old(self).scanned)
                    + indices_of(final(self).graph@, kids.take(m))
                &&& final(self).pending@.take(old(self).pending@.len() as int) == old(self).pending@
                &&& final(self).pending@.skip(old(self).pending@.len() as int).no_duplicates()
                &&& final(self).pending@.skip(old(self).pending@.len() as int).to_set()
                    == indices_of(final(self).graph@, kids.take(m)) - index_set_items(old(self).scanned)
            }),
    {
        let ghost g0 = self.graph@;
        let ghost kids = views(children@);
        let ghost s0 = index_set_items(self.scanned);
        let ghost p0 = self.pending@;
        let mut i: usize = 0;
        assert(kids.take(0) =~= Seq::<(Type, Seq<char>)>::empty());
        assert(indices_of(self.graph@, kids.take(0)) =~= Set::<usize>::empty());
        assert(self.pending@.take(p0.len() as int) =~= p0);
        assert(self.pending@.skip(p0.len() as int) =~= Seq::<usize>::empty());
        assert(index_set_items(self.scanned) =~= s0 + Set::<usize>::empty());
        while i < children.len()
            invariant
                self.wf(),
                self.root == old(self).root,
                self.loaded@ == old(self).loaded@,
                parent.index < self.graph@.nodes.len(),
                kids == views(children@),
                g0 == old(self).graph@,
                s0 == index_set_items(old(self).scanned),
                p0 == old(self).pending@,
                i <= children.len(),
                self.graph@ == with_children(g0, parent.index, kids.take(i as int)),
                forall|j: int| 0 <= j < i ==> !conflicts(
                    #[trigger] with_children(g0, parent.index, kids.take(j)),
                    kids[j].0,
                    kids[j].1,
                ),
                forall|j: int| 0 <= j < i ==> #[trigger] self.graph@.contains_path(kids[j].1),
                forall|j: int| 0 <= j < i ==> self.graph@.nodes[parent.index as int].children.contains(
                    #[trigger] self.graph@.index_of(kids[j].1),
                ),
                index_set_items(self.scanned) == s0 + indices_of(self.graph@, kids.take(i as int)),
                self.pending@.len() >= p0.len(),
                self.pending@.take(p0.len() as int) == p0,
                self.pending@.skip(p0.len() as int).no_duplicates(),
                self.pending@.skip(p0.len() as int).to_set() == indices_of(self.graph@, kids.take(i as int)) - s0,
            decreases children.len() - i,
        {
            let ghost gi = self.graph@;
            let ghost scanned_i = index_set_items(self.scanned);
            let ghost pending_i = self.pending@;
            let child = &children[i];
            assert(kids[i as int] == (child.kind, child.path@));
            assert(kids.take(i + 1).drop_last() =~= kids.take(i as int));
            assert(kids.take(i + 1).last() == kids[i as int]);
            match self.graph.try_add_asset(child.kind, &child.path, Some(parent)) {
                None => {
                    assert(conflicts(gi, kids[i as int].0, kids[i as int].1));
                    assert(self.graph@ == with_children(g0, parent.index, kids.take(i as int)));
                    assert(index_set_items(self.scanned) == s0 + indices_of(self.graph@, kids.take(i as int)));
                    return Err(i);
                },
                Some(r) => {
                    let n_now = self.graph.nodes_by_index.len();
                    proof {
                        law_add_then_lookup(gi, child.kind, child.path@);
                        lemma_child_keeps_steps(gi, child.kind, child.path@, parent.index, r.index);
                        law_links_only_grow(gi.with_asset(child.kind, child.path@), parent.index, r.index);
                    }
                    let ghost g1 = self.graph@;
                    assert(g1.nodes.len() == n_now);
                    assert(g1.nodes.len() == gi.nodes.len() || (g1.nodes.len() == gi.nodes.len() + 1
                        && r.index == gi.nodes.len()));
                    proof {
                        if !gi.contains_path(child.path@) {
                            law_add_keeps_one_node_per_key(gi, child.kind, child.path@);
                        }
                        law_link_keeps_one_node_per_key(gi.with_asset(child.kind, child.path@), parent.index, r.index);
                        lemma_reach_monotone(gi, g1, gi.step(self.root.index, false), g1.step(self.root.index, false), false);
                        assert(g1.step(parent.index, false).contains(r.index));
                        assert forall|x: usize| x < g1.nodes.len() implies #[trigger] reached_from(g1, self.root.index, x) by {
                            if x < gi.nodes.len() {
                                assert(reached_from(gi, self.root.index, x));
                            } else {
                                assert(reached_from(gi, self.root.index, parent.index));
                                if parent.index == self.root.index {
                                    lemma_seed_reached(g1, g1.step(self.root.index, false), false, x);
                                } else {
                                    lemma_reach_step(g1, g1.step(self.root.index, false), false, parent.index, x);
                                }
                            }
                        }
                    }
                    assert(g1 == with_children(g0, parent.index, kids.take(i + 1)));
                    assert forall|j: int| 0 <= j < i + 1 implies #[trigger] g1.contains_path(kids[j].1) by {
                        if j < i {
                            assert(gi.contains_path(kids[j].1));
                        }
                    }
                    assert forall|j: int| 0 <= j < i + 1 implies g1.nodes[parent.index as int].children.contains(
                        #[trigger] g1.index_of(kids[j].1),
                    ) by {
                        if j < i {
                            assert(gi.contains_path(kids[j].1));
                            assert(gi.nodes[parent.index as int].children.contains(gi.index_of(kids[j].1)));
                        }
                    }
                    assert(indices_of(g1, kids.take(i + 1)) =~= indices_of(gi, kids.take(i as int)).insert(r.index)) by {
                        assert forall|x: usize| indices_of(g1, kids.take(i + 1)).contains(x) implies
                            indices_of(gi, kids.take(i as int)).insert(r.index).contains(x) by {
                            let j = choose|j: int| 0 <= j < i + 1 && #[trigger] g1.index_of(kids.take(i + 1)[j].1) == x;
                            if j < i {
                                assert(kids.take(i + 1)[j] == kids.take(i as int)[j]);
                                assert(gi.contains_path(kids[j].1));
                                assert(gi.index_of(kids.take(i as int)[j].1) == x);
                            }
                        }
                        assert forall|x: usize| indices_of(gi, kids.take(i as int)).insert(r.index).contains(x) implies
                            indices_of(g1, kids.take(i + 1)).contains(x) by {
                            if x == r.index {
                                assert(g1.index_of(kids.take(i + 1)[i as int].1) == x);
                            } else {
                                let j = choose|j: int| 0 <= j < i && #[trigger] gi.index_of(kids.take(i as int)[j].1) == x;
                                assert(kids.take(i + 1)[j] == kids.take(i as int)[j]);
                                assert(gi.contains_path(kids[j].1));
                                assert(g1.index_of(kids.take(i + 1)[j].1) == x);
                            }
                        }
                    }
                    let fresh = index_set_insert(&mut self.scanned, r.index);
                    if fresh {
                        self.pending.push(r.index);
                        assert(self.pending@.take(p0.len() as int) =~= p0);
                        assert(self.pending@.skip(p0.len() as int) =~= pending_i.skip(p0.len() as int).push(r.index));
                        assert(!pending_i.skip(p0.len() as int).contains(r.index)) by {
                            if pending_i.skip(p0.len() as int).contains(r.index) {
                                assert(pending_i.skip(p0.len() as int).to_set().contains(r.index));
                            }
                        }
                        proof {
                            pending_i.skip(p0.len() as int).lemma_push_to_set_commute(r.index);
                        }
                    }
                    assert(self.pending@.skip(p0.len() as int).to_set() =~= indices_of(g1, kids.take(i + 1)) - s0) by {
                        if self.pending@ != pending_i {
                            assert(self.pending@.skip(p0.len() as int).to_set()
                                == pending_i.skip(p0.len() as int).to_set().insert(r.index));
                        } else {
                            assert(scanned_i.contains(r.index));
                        }
                    }
                    assert(index_set_items(self.scanned) =~= s0 + indices_of(g1, kids.take(i + 1)));
                    assert forall|x: usize| x < g1.nodes.len() implies #[trigger] accounted(self.loaded@, self.pending@, x) by {
                        if x < gi.nodes.len() {
                            assert(accounted(self.loaded@, pending_i, x));
                            if pending_i.contains(x) {
                                let j = choose|j: int| 0 <= j < pending_i.len() && pending_i[j] == x;
                                assert(self.pending@[j] == x);
                            }
                        } else if fresh {
                            assert(self.pending@[self.pending@.len() - 1] == x);
                        } else {
                            assert(scanned_i.contains(x));
                        }
                    }
                },
            }
            assert forall|j: int| 0 <= j < i + 1 implies !conflicts(
                #[trigger] with_children(g0, parent.index, kids.take(j)),
                kids[j].0,
                kids[j].1,
            ) by {
                if j == i {
                    assert(with_children(g0, parent.index, kids.take(j)) == gi);
                }
            }
            i += 1;
        }
        assert(kids.take(children.len() as int) =~= kids);
        Ok(())
    }

    /// The graph that the collection built, and the reference to its plugin.
    /// Every asset of it lies below the plugin, no two have paths with the
    /// same components, and, once nothing is left to read, every one of them
    /// has been handed out to be read.
    pub fn finish(self) -> (done: (AssetGraph, AssetRef))
        requires
            self.wf(),
        ensures
            done.0@ == self.graph@,
            done.1 == self.root,
            done.0@.one_node_per_key(),
            forall|x: usize| x < done.0@.nodes.len() ==> #[trigger] reached_from(done.0@, done.1.index, x),
            self.pending@.len() == 0 ==> forall|x: usize| x < done.0@.nodes.len() ==> #[trigger] self.loaded@.contains(
                x,
            ),
    {
        assert forall|x: usize| self.pending@.len() == 0 && x < self.graph@.nodes.len() implies #[trigger] self.loaded@.contains(x) by {
            assert(accounted(self.loaded@, self.pending@, x));
        }
        (self.graph, self.root)
    }
}

} // verus!
