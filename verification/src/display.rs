//! How assets, nodes and references are written in messages.
use crate::assets::{Asset, AssetGraph, AssetNode, AssetPath, AssetRef, GraphView};
use crate::tree::kind_name;
use vstd::prelude::*;
use vstd::string::*;

verus! {

/// A path in double quotes.
pub open spec fn quoted_path(path: Seq<char>) -> Seq<char> {
    seq!['"'] + path + seq!['"']
}

/// `Asset { kind: <kind>, path: "<path>" }`.
pub open spec fn asset_text(kind: crate::assets::Type, path: Seq<char>) -> Seq<char> {
    seq!['A', 's', 's', 'e', 't', ' ', '{', ' ', 'k', 'i', 'n', 'd', ':', ' '] + kind_name(kind)
        + seq![',', ' ', 'p', 'a', 't', 'h', ':', ' '] + quoted_path(path) + seq![' ', '}']
}

/// `AssetNode(asset: <asset>)`.
pub open spec fn node_text(kind: crate::assets::Type, path: Seq<char>) -> Seq<char> {
    seq!['A', 's', 's', 'e', 't', 'N', 'o', 'd', 'e', '(', 'a', 's', 's', 'e', 't', ':', ' ']
        + asset_text(kind, path) + seq![')']
}

/// `AssetRef(<node>)`, or `AssetRef(Dropped)` for a reference without a node.
pub open spec fn ref_text(g: GraphView, index: usize) -> Seq<char> {
    if index < g.nodes.len() {
        seq!['A', 's', 's', 'e', 't', 'R', 'e', 'f', '('] + node_text(
            g.nodes[index as int].kind,
            g.nodes[index as int].path,
        ) + seq![')']
    } else {
        seq!['A', 's', 's', 'e', 't', 'R', 'e', 'f', '(', 'D', 'r', 'o', 'p', 'p', 'e', 'd', ')']
    }
}

impl AssetPath {
    /// The path in double quotes.
    pub fn to_text(&self) -> (text: String)
        ensures
            text@ == quoted_path(self@),
    {
        let mut text = String::new();
        proof {
            reveal_strlit("\"");
        }
        text.append("\"");
        text.append(self.relative_path.as_str());
        text.append("\"");
        assert(text@ =~= quoted_path(self@));
        text
    }
}

impl Asset {
    /// The asset as `Asset { kind: <kind>, path: "<path>" }`.
    pub fn to_text(&self) -> (text: String)
        ensures
            text@ == asset_text(self.kind, self.path@),
    {
        let mut text = String::new();
        proof {
            reveal_strlit("Asset { kind: ");
            reveal_strlit(", path: ");
            reveal_strlit(" }");
            reveal_strlit("Mesh");
            reveal_strlit("Texture");
            reveal_strlit("Plugin");
        }
        text.append("Asset { kind: ");
        let name = match self.kind {
            crate::assets::Type::Mesh => "Mesh",
            crate::assets::Type::Texture => "Texture",
            crate::assets::Type::Plugin => "Plugin",
        };
        text.append(name);
        text.append(", path: ");
        let path = self.path.to_text();
        text.append(path.as_str());
        text.append(" }");
        assert(text@ =~= asset_text(self.kind, self.path@));
        text
    }
}

impl AssetNode {
    /// The node as `AssetNode(asset: <asset>)`.
    pub fn to_text(&self) -> (text: String)
        ensures
            text@ == node_text(self@.kind, self@.path),
    {
        let mut text = String::new();
        proof {
            reveal_strlit("AssetNode(asset: ");
            reveal_strlit(")");
        }
        text.append("AssetNode(asset: ");
        let asset = self.asset.to_text();
        text.append(asset.as_str());
        text.append(")");
        assert(text@ =~= node_text(self@.kind, self@.path));
        text
    }
}

impl AssetRef {
    /// The reference as `AssetRef(<node>)`, or `AssetRef(Dropped)` when it
    /// has no node.
    pub fn to_text(&self, graph: &AssetGraph) -> (text: String)
        ensures
            text@ == ref_text(graph@, self.index),
    {
        proof {
            reveal_strlit("AssetRef(");
            reveal_strlit(")");
            reveal_strlit("AssetRef(Dropped)");
        }
        if self.index < graph.nodes_by_index.len() {
            let mut text = String::new();
            text.append("AssetRef(");
            let node = graph.nodes_by_index[self.index].to_text();
            text.append(node.as_str());
            text.append(")");
            assert(text@ =~= ref_text(graph@, self.index));
            text
        } else {
            let text = String::from_str("AssetRef(Dropped)");
            assert(text@ =~= ref_text(graph@, self.index));
            text
        }
    }
}

} // verus!
