//! The asset tree below an asset, as lines of text: one line per asset,
//! indented two spaces per level, naming its path and its kind.  The
//! children of an asset come in the order of their indices.
use crate::assets::{AssetGraph, AssetRef, GraphView, Type};
use crate::dash::index_set_contains;
use crate::reach::{lemma_linked_below, lemma_reach_within_closed, lemma_seed_reached, linked_below};
use vstd::prelude::*;
use vstd::string::*;

verus! {

/// How many assets lie below `x`, counted once each.
pub open spec fn below_count(g: GraphView, x: usize) -> nat {
    g.reach(g.step(x, false), false).len()
}

/// `x` and everything below it have a node, and none of them lies below
/// itself: the tree below `x` is finite.
pub open spec fn acyclic_below(g: GraphView, x: usize) -> bool {
    &&& x < g.nodes.len()
    &&& !g.reach(g.step(x, false), false).contains(x)
    &&& forall|y: usize| #[trigger] g.reach(g.step(x, false), false).contains(y) ==> {
        &&& y < g.nodes.len()
        &&& !g.reach(g.step(y, false), false).contains(y)
    }
}

/// Two spaces per level.
pub open spec fn indent(depth: nat) -> Seq<char>
    decreases depth,
{
    if depth == 0 {
        Seq::empty()
    } else {
        indent((depth - 1) as nat) + seq![' ', ' ']
    }
}

/// The name of a kind.
pub open spec fn kind_name(kind: Type) -> Seq<char> {
    match kind {
        Type::Mesh => seq!['M', 'e', 's', 'h'],
        Type::Texture => seq!['T', 'e', 'x', 't', 'u', 'r', 'e'],
        Type::Plugin => seq!['P', 'l', 'u', 'g', 'i', 'n'],
    }
}

/// The line of asset `x` at `depth`: `<indent>- <path> (<kind>)`.
pub open spec fn tree_line(g: GraphView, x: usize, depth: nat) -> Seq<char> {
    indent(depth) + seq!['-', ' '] + g.nodes[x as int].path + seq![' ', '('] + kind_name(
        g.nodes[x as int].kind,
    ) + seq![')']
}

/// Everything below `x` is below its parent, and lies there at fewer places.
pub proof fn lemma_child_below(g: GraphView, x: usize, c: usize)
    requires
        g.links_finite(),
        acyclic_below(g, x),
        g.nodes.len() <= usize::MAX,
        g.step(x, false).contains(c),
    ensures
        acyclic_below(g, c),
        below_count(g, c) < below_count(g, x),
{
    let above = g.reach(g.step(x, false), false);
    let below = g.reach(g.step(c, false), false);
    lemma_seed_reached(g, g.step(x, false), false, c);
    assert(above.contains(c));
    // every walk below `c` continues one from `x`
    assert(forall|z: usize| #[trigger] above.contains(z) ==> g.step(z, false).subset_of(above)) by {
        assert forall|z: usize, w: usize| above.contains(z) && #[trigger] g.step(z, false).contains(w) implies above.contains(w) by {
            crate::reach::lemma_reach_step(g, g.step(x, false), false, z, w);
        }
    }
    assert(g.step(c, false).subset_of(above));
    lemma_reach_within_closed(g, g.step(c, false), false, above);
    assert(below.subset_of(above));
    assert(!below.contains(c));
    // the set above is finite
    let n = g.nodes.len();
    let linked = linked_below(g, n, false);
    assert(x < n);
    lemma_linked_below(g, n, false);
    assert forall|z: usize| #[trigger] linked.contains(z) implies g.step(z, false).subset_of(linked) by {
        if z < n {
        }
    }
    assert(g.step(x, false).subset_of(linked));
    lemma_reach_within_closed(g, g.step(x, false), false, linked);
    vstd::set_lib::lemma_len_subset(below, above.remove(c));
    vstd::set_lib::lemma_len_subset(above, linked);
    assert forall|y: usize| #[trigger] below.contains(y) implies {
            &&& y < g.nodes.len()
            &&& !g.reach(g.step(y, false), false).contains(y)
        } by {
        assert(above.contains(y));
    }
}

/// The lines of the tree below `x` at `depth`: the line of `x`, then the
/// lines of each child's tree one level deeper.
pub open spec fn tree_lines(g: GraphView, x: usize, depth: nat) -> Seq<Seq<char>>
    decreases below_count(g, x), g.nodes.len() + 1,
    when g.links_finite() && g.nodes.len() <= usize::MAX && acyclic_below(g, x)
{
    seq![tree_line(g, x, depth)] + child_lines(g, x, depth, 0)
}

/// The lines of the trees of the children of `x` from index `from` on.
pub open spec fn child_lines(g: GraphView, x: usize, depth: nat, from: nat) -> Seq<Seq<char>>
    decreases below_count(g, x), g.nodes.len() - from,
    when g.links_finite() && g.nodes.len() <= usize::MAX && acyclic_below(g, x)
{
    if from >= g.nodes.len() {
        Seq::empty()
    } else if g.step(x, false).contains(from as usize) {
        proof {
            lemma_child_below(g, x, from as usize);
        }
        tree_lines(g, from as usize, depth + 1) + child_lines(g, x, depth, from + 1)
    } else {
        child_lines(g, x, depth, from + 1)
    }
}

/// The line of the asset of `node` at `depth`.
fn line_of(graph: &AssetGraph, index: usize, depth: usize) -> (line: String)
    requires
        index < graph@.nodes.len(),
    ensures
        line@ == tree_line(graph@, index, depth as nat),
{
    let node = &graph.nodes_by_index[index];
    let mut line = String::new();
    let mut d: usize = 0;
    proof {
        reveal_strlit("  ");
        reveal_strlit("- ");
        reveal_strlit(" (");
        reveal_strlit(")");
    }
    while d < depth
        invariant
            d <= depth,
            line@ == indent(d as nat),
        decreases depth - d,
    {
        proof {
            reveal_strlit("  ");
        }
        line.append("  ");
        d += 1;
    }
    line.append("- ");
    line.append(node.asset.path.relative_path.as_str());
    line.append(" (");
    let name = match node.asset.kind {
        Type::Mesh => "Mesh",
        Type::Texture => "Texture",
        Type::Plugin => "Plugin",
    };
    proof {
        reveal_strlit("Mesh");
        reveal_strlit("Texture");
        reveal_strlit("Plugin");
    }
    assert(name@ == kind_name(graph@.nodes[index as int].kind));
    line.append(name);
    line.append(")");
    line
}

/// The lines that show the tree below `asset`, starting at `depth`.
pub fn print_children(asset: &AssetRef, depth: usize, graph: &AssetGraph) -> (lines: Vec<String>)
    requires
        graph@.links_finite(),
        acyclic_below(graph@, asset.index),
        depth + below_count(graph@, asset.index) <= usize::MAX,
    ensures
        lines@.map_values(|l: String| l@) == tree_lines(graph@, asset.index, depth as nat),
    decreases below_count(graph@, asset.index),
{
    let ghost g = graph@;
    let x = asset.index;
    let n = graph.nodes_by_index.len();
    assert(x < n);
    let mut lines: Vec<String> = Vec::new();
    lines.push(line_of(graph, x, depth));
    let mut c: usize = 0;
    assert(lines@.map_values(|l: String| l@) =~= seq![tree_line(g, x, depth as nat)]);
    while c < n
        invariant
            graph@ == g,
            g.links_finite(),
            x == asset.index,
            n == g.nodes.len(),
            acyclic_below(g, x),
            depth + below_count(g, x) <= usize::MAX,
            c <= n,
            lines@.map_values(|l: String| l@) + child_lines(g, x, depth as nat, c as nat)
                == tree_lines(g, x, depth as nat),
        decreases n - c,
    {
        let ghost before = lines@.map_values(|l: String| l@);
        if index_set_contains(&graph.nodes_by_index[x].children, c) {
            proof {
                lemma_child_below(g, x, c);
            }
            let mut sub = print_children(&AssetRef { index: c }, depth + 1, graph);
            let ghost sub_view = sub@.map_values(|l: String| l@);
            lines.append(&mut sub);
            assert(lines@.map_values(|l: String| l@) =~= before + sub_view);
            assert(child_lines(g, x, depth as nat, c as nat) == tree_lines(g, c, (depth + 1) as nat)
                + child_lines(g, x, depth as nat, (c + 1) as nat));
            assert(before + sub_view + child_lines(g, x, depth as nat, (c + 1) as nat)
                =~= before + child_lines(g, x, depth as nat, c as nat));
        } else {
            assert(child_lines(g, x, depth as nat, c as nat) == child_lines(g, x, depth as nat, (c + 1) as nat));
        }
        c += 1;
    }
    assert(child_lines(g, x, depth as nat, n as nat) == Seq::<Seq<char>>::empty());
    assert(lines@.map_values(|l: String| l@) =~= tree_lines(g, x, depth as nat));
    lines
}

} // verus!
