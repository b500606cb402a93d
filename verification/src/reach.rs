//! Following links through the asset graph: the descendants and ancestors of
//! an asset, found with a work list that visits each node once.
use crate::assets::{AssetGraph, AssetNode, AssetRef, GraphView};
use crate::dash::index_set_to_vec;
use std::collections::HashSet;
use vstd::prelude::*;

verus! {

broadcast use {vstd::std_specs::hash::group_hash_axioms, vstd::seq_lib::group_seq_properties};

/// Every index that a node below `n` links to, in the direction `up`.
pub open spec fn linked_below(g: GraphView, n: nat, up: bool) -> Set<usize>
    decreases n,
{
    if n == 0 {
        Set::empty()
    } else {
        linked_below(g, (n - 1) as nat, up) + g.step((n - 1) as usize, up)
    }
}

pub proof fn lemma_linked_below(g: GraphView, n: nat, up: bool)
    requires
        g.links_finite(),
        n <= g.nodes.len(),
        n <= usize::MAX,
    ensures
        linked_below(g, n, up).finite(),
        forall|i: usize| i < n ==> #[trigger] g.step(i, up).subset_of(linked_below(g, n, up)),
    decreases n,
{
    if n > 0 {
        let m = (n - 1) as nat;
        lemma_linked_below(g, m, up);
        let last = m as usize;
        assert(g.nodes[last as int].children.finite() && g.nodes[last as int].parents.finite());
        assert(g.step(last, up).finite());
        assert forall|i: usize| i < n implies #[trigger] g.step(i, up).subset_of(linked_below(g, n, up)) by {
            if i < m {
                assert(g.step(i, up).subset_of(linked_below(g, m, up)));
            }
        }
    }
}

/// A walk of one node stands at its seed.
pub proof fn lemma_seed_reached(g: GraphView, seeds: Set<usize>, up: bool, s: usize)
    requires
        seeds.contains(s),
    ensures
        g.reach(seeds, up).contains(s),
{
    let p = seq![s];
    assert(g.is_walk(p, up));
    assert(seeds.contains(p[0]));
}

/// What a reached node links to is reached too.
pub proof fn lemma_reach_step(g: GraphView, seeds: Set<usize>, up: bool, x: usize, y: usize)
    requires
        g.reach(seeds, up).contains(x),
        g.step(x, up).contains(y),
    ensures
        g.reach(seeds, up).contains(y),
{
    let p = choose|p: Seq<usize>| g.is_walk(p, up) && seeds.contains(p[0]) && p.last() == x;
    let q = p.push(y);
    assert forall|k: int| 0 <= k < q.len() - 1 implies #[trigger] g.step(q[k], up).contains(q[k + 1]) by {
        if k < p.len() - 1 {
            assert(q[k] == p[k] && q[k + 1] == p[k + 1]);
            assert(g.step(p[k], up).contains(p[k + 1]));
        } else {
            assert(q[k] == x && q[k + 1] == y);
        }
    }
    assert(g.is_walk(q, up));
    assert(q[0] == p[0]);
}

/// Every node of a walk that starts in `s` lies in `s` when `s` is closed
/// under the links.
proof fn lemma_walk_stays(g: GraphView, p: Seq<usize>, up: bool, s: Set<usize>, k: int)
    requires
        g.is_walk(p, up),
        s.contains(p[0]),
        forall|x: usize| #[trigger] s.contains(x) ==> g.step(x, up).subset_of(s),
        0 <= k < p.len(),
    ensures
        s.contains(p[k]),
    decreases k,
{
    if k > 0 {
        let j = k - 1;
        lemma_walk_stays(g, p, up, s, j);
        assert(g.step(p[j], up).contains(p[j + 1]));
    }
}

/// A set that holds the seeds and is closed under the links holds all that
/// they reach.
pub proof fn lemma_reach_within_closed(g: GraphView, seeds: Set<usize>, up: bool, s: Set<usize>)
    requires
        seeds.subset_of(s),
        forall|x: usize| #[trigger] s.contains(x) ==> g.step(x, up).subset_of(s),
    ensures
        g.reach(seeds, up).subset_of(s),
{
    assert forall|y: usize| g.reach(seeds, up).contains(y) implies s.contains(y) by {
        let p = choose|p: Seq<usize>| g.is_walk(p, up) && seeds.contains(p[0]) && p.last() == y;
        lemma_walk_stays(g, p, up, s, p.len() - 1);
    }
}

impl AssetGraph {
    /// Everything that a walk from one of `seeds` reaches, following the
    /// parents of each node when `up` and its children otherwise.
    pub fn reachable(&self, seeds: &Vec<usize>, up: bool) -> (found: HashSet<usize>)
        requires
            self@.links_finite(),
        ensures
            found@ == self@.reach(seeds@.to_set(), up),
    {
        let ghost g = self@;
        let ghost seed_set = seeds@.to_set();
        let n = self.nodes_by_index.len();
        let ghost universe = seed_set + linked_below(g, n as nat, up);
        proof {
            lemma_linked_below(g, n as nat, up);
            vstd::seq_lib::seq_to_set_is_finite(seeds@);
        }
        let mut found: HashSet<usize> = HashSet::new();
        let mut work: Vec<usize> = Vec::new();
        let mut i: usize = 0;
        while i < seeds.len()
            invariant
                i <= seeds.len(),
                seed_set == seeds@.to_set(),
                found@.subset_of(seed_set),
                forall|j: int| 0 <= j < i ==> found@.contains(#[trigger] seeds@[j]),
                work@.no_duplicates(),
                forall|x: usize| #[trigger] work@.contains(x) <==> found@.contains(x),
            decreases seeds.len() - i,
        {
            let s = seeds[i];
            assert(seeds@[i as int] == s);
            assert(seeds@.contains(s));
            assert(seed_set.contains(s));
            let ghost work_mid = work@;
            if found.insert(s) {
                work.push(s);
                assert(work@.no_duplicates()) by {
                    assert forall|a: int, b: int| 0 <= a < b < work@.len() implies work@[a] != work@[b] by {
                        assert(work@[a] == work_mid[a]);
                        if b < work@.len() - 1 {
                            assert(work@[b] == work_mid[b]);
                        } else {
                            assert(work_mid.contains(work_mid[a]));
                        }
                    }
                }
            }
            i += 1;
        }
        assert forall|x: usize| #[trigger] found@.contains(x) implies g.reach(seed_set, up).contains(x) by {
            lemma_seed_reached(g, seed_set, up, x);
        }
        assert(seed_set.subset_of(found@)) by {
            assert forall|x: usize| seed_set.contains(x) implies found@.contains(x) by {
                let j = choose|j: int| 0 <= j < seeds@.len() && seeds@[j] == x;
            }
        }
        proof {
            vstd::set_lib::lemma_len_subset(found@, universe);
        }
        while work.len() > 0
            invariant
                self@ == g,
                n == g.nodes.len(),
                g.links_finite(),
                universe == seed_set + linked_below(g, n as nat, up),
                universe.finite(),
                forall|i: usize| i < n ==> #[trigger] g.step(i, up).subset_of(linked_below(g, n as nat, up)),
                found@.subset_of(universe),
                found@.subset_of(g.reach(seed_set, up)),
                seed_set.subset_of(found@),
                work@.no_duplicates(),
                forall|x: usize| #[trigger] work@.contains(x) ==> found@.contains(x),
                forall|x: usize| #[trigger] found@.contains(x) && !work@.contains(x) ==>
                    g.step(x, up).subset_of(found@),
            decreases universe.len() - found@.len(), work.len(),
        {
            let ghost found_before = found@;
            let ghost work_before = work@;
            let x = work.pop().unwrap();
            assert(work_before.last() == x);
            assert(work@ =~= work_before.drop_last());
            assert(!work@.contains(x)) by {
                if work@.contains(x) {
                    let k = choose|k: int| 0 <= k < work@.len() && work@[k] == x;
                    assert(work_before[k] == work_before[work_before.len() - 1]);
                }
            }
            assert(work_before.contains(work_before[work_before.len() - 1]));
            assert(found_before.contains(x));
            assert forall|z: usize| #[trigger] work@.contains(z) implies found@.contains(z) by {
                let k = choose|k: int| 0 <= k < work@.len() && work@[k] == z;
                assert(work_before[k] == work@[k]);
                assert(work_before.contains(work_before[k]));
            }
            if x < n {
                let next = if up {
                    index_set_to_vec(&self.nodes_by_index[x].parents)
                } else {
                    index_set_to_vec(&self.nodes_by_index[x].children)
                };
                assert(next@.to_set() == g.step(x, up));
                let mut j: usize = 0;
                while j < next.len()
                    invariant
                        self@ == g,
                        n == g.nodes.len(),
                        x < n,
                        g.reach(seed_set, up).contains(x),
                        next@.to_set() == g.step(x, up),
                        g.step(x, up).subset_of(linked_below(g, n as nat, up)),
                        universe == seed_set + linked_below(g, n as nat, up),
                        universe.finite(),
                        j <= next.len(),
                        found_before.subset_of(found@),
                        found@.subset_of(universe),
                        found@.subset_of(g.reach(seed_set, up)),
                        found@.contains(x),
                        !work@.contains(x),
                        forall|k: int| 0 <= k < j ==> found@.contains(#[trigger] next@[k]),
                        work@.no_duplicates(),
                        forall|z: usize| #[trigger] work@.contains(z) ==> found@.contains(z),
                        forall|z: usize| #[trigger] found@.contains(z) && !work@.contains(z) && z != x ==>
                            g.step(z, up).subset_of(found@),
                        work_before.len() > 0,
                        found@ =~= found_before ==> work@ =~= work_before.drop_last(),
                        found@.len() >= found_before.len(),
                    decreases next.len() - j,
                {
                    let y = next[j];
                    assert(next@.to_set().contains(y));
                    let ghost work_mid = work@;
                    let ghost found_mid = found@;
                    if found.insert(y) {
                        proof {
                            lemma_reach_step(g, seed_set, up, x, y);
                            vstd::set_lib::lemma_len_subset(found_mid, universe);
                        }
                        work.push(y);
                        assert(work@.no_duplicates()) by {
                            assert forall|a: int, b: int| 0 <= a < b < work@.len() implies work@[a] != work@[b] by {
                                if b == work@.len() - 1 {
                                    assert(work@[a] == work_mid[a]);
                                    assert(work_mid.contains(work_mid[a]));
                                } else {
                                    assert(work@[a] == work_mid[a] && work@[b] == work_mid[b]);
                                }
                            }
                        }
                        assert(!(found@ =~= found_before)) by {
                            assert(found@.contains(y) && !found_mid.contains(y));
                        }
                    }
                    j += 1;
                }
                assert(g.step(x, up).subset_of(found@)) by {
                    assert forall|y: usize| g.step(x, up).contains(y) implies found@.contains(y) by {
                        assert(next@.to_set().contains(y));
                        let k = choose|k: int| 0 <= k < next@.len() && next@[k] == y;
                    }
                }
            } else {
                assert(g.step(x, up) =~= Set::<usize>::empty());
            }
            proof {
                vstd::set_lib::lemma_len_subset(found@, universe);
                vstd::set_lib::lemma_len_subset(found_before, found@);
                if found@.len() == found_before.len() {
                    assert(found@ =~= found_before) by {
                        if !(found@ =~= found_before) {
                            let w = choose|w: usize| found@.contains(w) && !found_before.contains(w);
                            vstd::set_lib::lemma_len_subset(found_before, found@.remove(w));
                        }
                    }
                }
            }
        }
        proof {
            lemma_reach_within_closed(g, seed_set, up, found@);
        }
        assert(found@ =~= g.reach(seed_set, up));
        found
    }
}


/// The set of the indices in `items`.
pub(crate) fn index_set_of(items: &Vec<usize>) -> (set: HashSet<usize>)
    ensures
        set@ == items@.to_set(),
{
    let mut set: HashSet<usize> = HashSet::new();
    let mut i: usize = 0;
    while i < items.len()
        invariant
            i <= items.len(),
            set@ == items@.subrange(0, i as int).to_set(),
        decreases items.len() - i,
    {
        set.insert(items[i]);
        assert(items@.subrange(0, i + 1) =~= items@.subrange(0, i as int).push(items@[i as int]));
        assert(set@ =~= items@.subrange(0, i + 1).to_set());
        i += 1;
    }
    assert(items@.subrange(0, items.len() as int) =~= items@);
    set
}

impl AssetNode {
    /// The child assets of this node; with `include_descendents`, also
    /// everything below them, however deep.
    pub fn children(&self, graph: &AssetGraph, include_descendents: bool) -> (found: HashSet<usize>)
        requires
            graph@.links_finite(),
        ensures
            found@ == (if include_descendents {
                graph@.reach(self@.children, false)
            } else {
                self@.children
            }),
    {
        let items = index_set_to_vec(&self.children);
        if include_descendents {
            graph.reachable(&items, false)
        } else {
            index_set_of(&items)
        }
    }

    /// The parent assets of this node; with `include_ancestors`, also
    /// everything above them, however high.
    pub fn parents(&self, graph: &AssetGraph, include_ancestors: bool) -> (found: HashSet<usize>)
        requires
            graph@.links_finite(),
        ensures
            found@ == (if include_ancestors {
                graph@.reach(self@.parents, true)
            } else {
                self@.parents
            }),
    {
        let items = index_set_to_vec(&self.parents);
        if include_ancestors {
            graph.reachable(&items, true)
        } else {
            index_set_of(&items)
        }
    }
}

impl AssetRef {
    /// The child assets of the referenced asset (none if it has no node);
    /// with `include_descendents`, also everything below them.
    pub fn children(&self, graph: &AssetGraph, include_descendents: bool) -> (found: HashSet<usize>)
        requires
            graph@.links_finite(),
        ensures
            found@ == (if include_descendents {
                graph@.reach(graph@.step(self.index, false), false)
            } else {
                graph@.step(self.index, false)
            }),
    {
        if self.index < graph.nodes_by_index.len() {
            graph.nodes_by_index[self.index].children(graph, include_descendents)
        } else {
            let found: HashSet<usize> = HashSet::new();
            proof {
                let g = graph@;
                assert(g.reach(Set::empty(), false) =~= Set::<usize>::empty());
            }
            found
        }
    }

    /// The parent assets of the referenced asset (none if it has no node);
    /// with `include_ancestors`, also everything above them.
    pub fn parents(&self, graph: &AssetGraph, include_ancestors: bool) -> (found: HashSet<usize>)
        requires
            graph@.links_finite(),
        ensures
            found@ == (if include_ancestors {
                graph@.reach(graph@.step(self.index, true), true)
            } else {
                graph@.step(self.index, true)
            }),
    {
        if self.index < graph.nodes_by_index.len() {
            graph.nodes_by_index[self.index].parents(graph, include_ancestors)
        } else {
            let found: HashSet<usize> = HashSet::new();
            proof {
                let g = graph@;
                assert(g.reach(Set::empty(), true) =~= Set::<usize>::empty());
            }
            found
        }
    }
}

/// Where every node's neighbours in `g` are among its neighbours in `h`,
/// whatever a walk in `g` reaches from `seeds`, a walk in `h` reaches from
/// any larger set of seeds.
pub proof fn lemma_reach_monotone(g: GraphView, h: GraphView, seeds: Set<usize>, more: Set<usize>, up: bool)
    requires
        seeds.subset_of(more),
        forall|x: usize| #[trigger] g.step(x, up).subset_of(h.step(x, up)),
    ensures
        g.reach(seeds, up).subset_of(h.reach(more, up)),
{
    assert forall|y: usize| g.reach(seeds, up).contains(y) implies h.reach(more, up).contains(y) by {
        let p = choose|p: Seq<usize>| g.is_walk(p, up) && seeds.contains(p[0]) && p.last() == y;
        assert forall|k: int| 0 <= k < p.len() - 1 implies #[trigger] h.step(p[k], up).contains(p[k + 1]) by {
            assert(g.step(p[k], up).contains(p[k + 1]));
            assert(g.step(p[k], up).subset_of(h.step(p[k], up)));
        }
        assert(h.is_walk(p, up));
        assert(more.contains(p[0]));
    }
}

} // verus!
