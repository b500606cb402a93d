//! The assets that an asset file references, from what was read out of it.
//!
//! A mesh references the textures that its source-texture records name as
//! external files; a plugin references the mesh of each of its statics
//! (below the `meshes` directory) and each of its master files; a texture
//! references nothing.  The references form a set of assets, so a path that
//! comes twice (or with the same components) is kept once, as it came first.
use crate::assets::{Asset, AssetPath, Type};
use crate::dash::{path_index_entries, path_map_get, path_map_insert, path_map_new, PathIndex};
use crate::paths::{join_path, joined, normalized_path, path_key};
use vstd::prelude::*;

verus! {

/// An asset as plain values: its kind and its path.
pub open spec fn asset_view(a: Asset) -> (Type, Seq<char>) {
    (a.kind, a.path@)
}

/// The assets of `s` as plain values.
pub open spec fn views(s: Seq<Asset>) -> Seq<(Type, Seq<char>)> {
    s.map_values(|a: Asset| asset_view(a))
}

/// Whether some asset of `s` has a path with the components of `path`.
pub open spec fn has_path(s: Seq<(Type, Seq<char>)>, path: Seq<char>) -> bool {
    exists|j: int| 0 <= j < s.len() && path_key((#[trigger] s[j]).1) == path_key(path)
}

/// `s` with each asset whose path came before left out.
pub open spec fn first_of_each_path(s: Seq<(Type, Seq<char>)>) -> Seq<(Type, Seq<char>)>
    decreases s.len(),
{
    if s.len() == 0 {
        Seq::empty()
    } else {
        let rest = first_of_each_path(s.drop_last());
        if has_path(rest, s.last().1) {
            rest
        } else {
            rest.push(s.last())
        }
    }
}

/// The directory below which the meshes of a plugin lie.
pub open spec fn meshes_dir() -> Seq<char> {
    seq!['m', 'e', 's', 'h', 'e', 's']
}

/// The assets that a mesh references, given the external texture file
/// names of its source-texture records.
pub open spec fn mesh_references(textures: Seq<Seq<char>>) -> Seq<(Type, Seq<char>)> {
    first_of_each_path(as_textures(textures))
}

/// Each name as a texture.
pub open spec fn as_textures(names: Seq<Seq<char>>) -> Seq<(Type, Seq<char>)> {
    names.map_values(|t: Seq<char>| (Type::Texture, t))
}

/// The assets that a plugin references, given the mesh names of its statics
/// and the names of its master files.
pub open spec fn plugin_references(meshes: Seq<Seq<char>>, masters: Seq<Seq<char>>) -> Seq<(Type, Seq<char>)> {
    first_of_each_path(
        meshes.map_values(|m: Seq<char>| (Type::Mesh, joined(meshes_dir(), m)))
            + masters.map_values(|m: Seq<char>| (Type::Plugin, m)),
    )
}

/// An asset of `s.push(v)` has the components of `q` exactly when one of
/// `s` has them or `v` has them.
proof fn lemma_has_path_push(s: Seq<(Type, Seq<char>)>, v: (Type, Seq<char>), q: Seq<char>)
    ensures
        has_path(s.push(v), q) == (has_path(s, q) || path_key(v.1) == path_key(q)),
{
    let t = s.push(v);
    if has_path(s, q) {
        let j = choose|j: int| 0 <= j < s.len() && path_key((#[trigger] s[j]).1) == path_key(q);
        assert(t[j] == s[j]);
    }
    if path_key(v.1) == path_key(q) {
        assert(t[s.len() as int] == v);
    }
    if has_path(t, q) {
        let j = choose|j: int| 0 <= j < t.len() && path_key((#[trigger] t[j]).1) == path_key(q);
        if j < s.len() {
            assert(t[j] == s[j]);
        }
    }
}

/// The assets of `items`, each path kept once, as it came first; the paths
/// seen so far are kept in a map keyed by their components.
fn unique_by_path(items: &Vec<Asset>) -> (out: Vec<Asset>)
    ensures
        views(out@) == first_of_each_path(
            views(items@),
        ),
{
    let ghost all = views(items@);
    let mut out: Vec<Asset> = Vec::new();
    let mut seen: PathIndex = path_map_new();
    let mut i: usize = 0;
    assert(all.take(0) =~= Seq::<(Type, Seq<char>)>::empty());
    assert(views(out@) =~= Seq::<(Type, Seq<char>)>::empty());
    while i < items.len()
        invariant
            i <= items.len(),
            all == views(items@),
            views(out@) == first_of_each_path(all.take(i as int)),
            forall|q: Seq<char>| #[trigger] has_path(views(out@), q) == path_index_entries(seen).dom().contains(
                path_key(q),
            ),
        decreases items.len() - i,
    {
        let a = items[i].clone();
        assert(asset_view(a) == all[i as int]);
        assert(all.take(i + 1).drop_last() =~= all.take(i as int));
        assert(all.take(i + 1).last() == all[i as int]);
        let ghost before = views(out@);
        let key = normalized_path(a.path.relative_path.as_str());
        assert(has_path(before, a.path@) == path_index_entries(seen).dom().contains(key@));
        if path_map_get(&seen, key.as_str()).is_none() {
            let ghost seen_before = path_index_entries(seen).dom();
            path_map_insert(&mut seen, key, i);
            out.push(a);
            assert(views(out@) =~= before.push(asset_view(a)));
            assert forall|q: Seq<char>| #[trigger] has_path(views(out@), q) == path_index_entries(seen).dom().contains(
                path_key(q),
            ) by {
                lemma_has_path_push(before, asset_view(a), q);
                assert(has_path(before, q) == seen_before.contains(path_key(q)));
            }
        }
        i += 1;
    }
    assert(all.take(items.len() as int) =~= all);
    out
}

/// No asset before the `k`-th of `s` has a path with the components of the
/// `k`-th's path: the `k`-th is the first of its path.
pub open spec fn first_in(s: Seq<(Type, Seq<char>)>, k: int) -> bool {
    forall|i: int| 0 <= i < k ==> path_key((#[trigger] s[i]).1) != path_key(s[k].1)
}

/// `f` is taken from `s` at the increasing positions `idx`, each the first
/// of its path.
pub open spec fn picked_in_order(s: Seq<(Type, Seq<char>)>, f: Seq<(Type, Seq<char>)>, idx: Seq<int>) -> bool {
    &&& idx.len() == f.len()
    &&& forall|j: int| 0 <= j < f.len() ==> 0 <= #[trigger] idx[j] < s.len() && f[j] == s[idx[j]] && first_in(s, idx[j])
    &&& forall|a: int, b: int| 0 <= a < b < idx.len() ==> #[trigger] idx[a] < #[trigger] idx[b]
}

proof fn lemma_first_in_prefix(s: Seq<(Type, Seq<char>)>, k: int)
    requires
        0 <= k < s.len() - 1,
    ensures
        first_in(s, k) == first_in(s.drop_last(), k),
{
    let t = s.drop_last();
    assert forall|i: int| 0 <= i < k implies #[trigger] s[i] == t[i] by {}
    assert(s[k] == t[k]);
    if first_in(t, k) {
        assert forall|i: int| 0 <= i < k implies path_key((#[trigger] s[i]).1) != path_key(s[k].1) by {
            assert(s[i] == t[i]);
        }
    }
    if first_in(s, k) {
        assert forall|i: int| 0 <= i < k implies path_key((#[trigger] t[i]).1) != path_key(t[k].1) by {
            assert(s[i] == t[i]);
        }
    }
}

/// What `first_of_each_path` keeps: the first asset of each path of `s`, in
/// the order of `s`, and nothing else.
proof fn lemma_first_of_each(s: Seq<(Type, Seq<char>)>)
    ensures
        exists|idx: Seq<int>| picked_in_order(s, first_of_each_path(s), idx),
        forall|k: int| 0 <= k < s.len() && first_in(s, k) ==> exists|j: int|
            0 <= j < first_of_each_path(s).len() && #[trigger] first_of_each_path(s)[j] == s[k],
        forall|k: int| #![trigger s[k]] 0 <= k < s.len() ==> exists|j: int|
            0 <= j < first_of_each_path(s).len() && path_key((#[trigger] first_of_each_path(s)[j]).1) == path_key(s[k].1),
        forall|a: int, b: int| 0 <= a < b < first_of_each_path(s).len() ==>
            path_key((#[trigger] first_of_each_path(s)[a]).1) != path_key((#[trigger] first_of_each_path(s)[b]).1),
    decreases s.len(),
{
    let f = first_of_each_path(s);
    if s.len() == 0 {
        assert(picked_in_order(s, f, Seq::<int>::empty()));
    } else {
        let t = s.drop_last();
        let n = t.len() as int;
        let v = s.last();
        let r = first_of_each_path(t);
        lemma_first_of_each(t);
        let idx = choose|idx: Seq<int>| picked_in_order(t, r, idx);
        assert forall|i: int| 0 <= i < n implies #[trigger] s[i] == t[i] by {}
        assert(s[n] == v);
        if has_path(r, v.1) {
            assert(f == r);
            let j0 = choose|j: int| 0 <= j < r.len() && path_key((#[trigger] r[j]).1) == path_key(v.1);
            assert(idx[j0] < n && r[j0] == t[idx[j0]]);
            assert(!first_in(s, n)) by {
                assert(s[idx[j0]] == t[idx[j0]]);
            }
            assert forall|j: int| 0 <= j < f.len() implies 0 <= #[trigger] idx[j] < s.len() && f[j] == s[idx[j]]
                && first_in(s, idx[j]) by {
                lemma_first_in_prefix(s, idx[j]);
            }
            assert(picked_in_order(s, f, idx));
            assert forall|k: int| 0 <= k < s.len() && first_in(s, k) implies exists|j: int|
                0 <= j < f.len() && #[trigger] f[j] == s[k] by {
                lemma_first_in_prefix(s, k);
                assert(first_in(t, k));
            }
            assert forall|k: int| #![trigger s[k]] 0 <= k < s.len() implies exists|j: int|
                0 <= j < f.len() && path_key((#[trigger] f[j]).1) == path_key(s[k].1) by {
                if k == n {
                    assert(f[j0] == r[j0]);
                } else {
                    assert(s[k] == t[k]);
                }
            }
        } else {
            assert(f == r.push(v));
            let idx2 = idx.push(n);
            assert(first_in(s, n)) by {
                assert forall|i: int| 0 <= i < n implies path_key((#[trigger] s[i]).1) != path_key(s[n].1) by {
                    assert(s[i] == t[i]);
                    let j = choose|j: int| 0 <= j < r.len() && path_key((#[trigger] r[j]).1) == path_key(t[i].1);
                    if path_key(t[i].1) == path_key(v.1) {
                        assert(has_path(r, v.1));
                    }
                }
            }
            assert forall|j: int| 0 <= j < f.len() implies 0 <= #[trigger] idx2[j] < s.len() && f[j] == s[idx2[j]]
                && first_in(s, idx2[j]) by {
                if j < r.len() {
                    assert(idx2[j] == idx[j]);
                    assert(f[j] == r[j]);
                    lemma_first_in_prefix(s, idx[j]);
                }
            }
            assert forall|a: int, b: int| 0 <= a < b < idx2.len() implies #[trigger] idx2[a] < #[trigger] idx2[b] by {
                assert(idx2[a] == idx[a]);
                if b < idx.len() {
                    assert(idx2[b] == idx[b]);
                }
            }
            assert(picked_in_order(s, f, idx2));
            assert forall|k: int| 0 <= k < s.len() && first_in(s, k) implies exists|j: int|
                0 <= j < f.len() && #[trigger] f[j] == s[k] by {
                if k == n {
                    assert(f[r.len() as int] == v);
                } else {
                    lemma_first_in_prefix(s, k);
                    let j = choose|j: int| 0 <= j < r.len() && #[trigger] r[j] == t[k];
                    assert(f[j] == r[j]);
                }
            }
            assert forall|k: int| #![trigger s[k]] 0 <= k < s.len() implies exists|j: int|
                0 <= j < f.len() && path_key((#[trigger] f[j]).1) == path_key(s[k].1) by {
                if k == n {
                    assert(f[r.len() as int] == v);
                } else {
                    let j = choose|j: int| 0 <= j < r.len() && path_key((#[trigger] r[j]).1) == path_key(t[k].1);
                    assert(f[j] == r[j]);
                }
            }
            assert forall|a: int, b: int| 0 <= a < b < f.len() implies
                path_key((#[trigger] f[a]).1) != path_key((#[trigger] f[b]).1) by {
                assert(f[a] == r[a]);
                if b < r.len() {
                    assert(f[b] == r[b]);
                } else {
                    assert(f[b] == v);
                    if path_key(r[a].1) == path_key(v.1) {
                        assert(has_path(r, v.1));
                    }
                }
            }
        }
    }
}

/// No name before the `k`-th of `names` has the components of the `k`-th.
pub open spec fn first_spelling(names: Seq<Seq<char>>, k: int) -> bool {
    forall|i: int| 0 <= i < k ==> path_key(#[trigger] names[i]) != path_key(names[k])
}

/// `refs` are the names of `names` at the increasing positions `idx`, each
/// the first of its path, as assets of kind `kind`.
pub open spec fn named_in_order(names: Seq<Seq<char>>, kind: Type, refs: Seq<(Type, Seq<char>)>, idx: Seq<int>) -> bool {
    &&& idx.len() == refs.len()
    &&& forall|j: int| 0 <= j < idx.len() ==> 0 <= #[trigger] idx[j] < names.len() && refs[j] == (kind, names[idx[j]])
        && first_spelling(names, idx[j])
    &&& forall|a: int, b: int| 0 <= a < b < idx.len() ==> #[trigger] idx[a] < #[trigger] idx[b]
}

/// A mesh references each texture that it names, once per path: every name
/// has a texture among the references with the same components; the
/// references are, in the order of the names, exactly the textures of the
/// names that are the first of their path; and no two have the same
/// components.
pub proof fn law_mesh_references(textures: Seq<Seq<char>>)
    ensures
        forall|k: int| #![trigger textures[k]] 0 <= k < textures.len() ==> exists|j: int|
            0 <= j < mesh_references(textures).len()
            && (#[trigger] mesh_references(textures)[j]).0 == Type::Texture
            && path_key(mesh_references(textures)[j].1) == path_key(textures[k]),
        forall|k: int| 0 <= k < textures.len() && #[trigger] first_spelling(textures, k) ==> exists|j: int|
            0 <= j < mesh_references(textures).len() && #[trigger] mesh_references(textures)[j] == (
            Type::Texture,
            textures[k],
        ),
        exists|idx: Seq<int>| #[trigger] named_in_order(textures, Type::Texture, mesh_references(textures), idx),
        forall|a: int, b: int| 0 <= a < b < mesh_references(textures).len() ==> path_key(
            (#[trigger] mesh_references(textures)[a]).1,
        ) != path_key((#[trigger] mesh_references(textures)[b]).1),
{
    let s = as_textures(textures);
    let f = mesh_references(textures);
    lemma_first_of_each(s);
    assert forall|k: int| 0 <= k < textures.len() implies #[trigger] s[k] == (Type::Texture, textures[k])
        && (first_in(s, k) == first_spelling(textures, k)) by {
        if first_in(s, k) {
            assert forall|i: int| 0 <= i < k implies path_key(#[trigger] textures[i]) != path_key(textures[k]) by {
                assert(s[i].1 == textures[i]);
            }
        }
        if first_spelling(textures, k) {
            assert forall|i: int| 0 <= i < k implies path_key((#[trigger] s[i]).1) != path_key(s[k].1) by {
                assert(s[i].1 == textures[i]);
            }
        }
    }
    let idx = choose|idx: Seq<int>| picked_in_order(s, f, idx);
    assert forall|j: int| 0 <= j < f.len() implies (#[trigger] f[j]).0 == Type::Texture by {
        assert(f[j] == s[idx[j]]);
    }
    assert forall|k: int| #![trigger textures[k]] 0 <= k < textures.len() implies exists|j: int|
        0 <= j < f.len() && (#[trigger] f[j]).0 == Type::Texture && path_key(f[j].1) == path_key(textures[k]) by {
        assert(s[k] == (Type::Texture, textures[k]));
    }
    assert forall|k: int| 0 <= k < textures.len() && #[trigger] first_spelling(textures, k) implies exists|j: int|
        0 <= j < f.len() && #[trigger] f[j] == (Type::Texture, textures[k]) by {
        assert(s[k] == (Type::Texture, textures[k]));
    }
    assert forall|j: int| 0 <= j < idx.len() implies 0 <= #[trigger] idx[j] < textures.len()
        && f[j] == (Type::Texture, textures[idx[j]]) && first_spelling(textures, idx[j]) by {
        assert(s[idx[j]] == (Type::Texture, textures[idx[j]]));
    }
    assert(named_in_order(textures, Type::Texture, f, idx));
}

/// The path of the mesh `m` below the `meshes` directory.
pub open spec fn mesh_path(m: Seq<char>) -> Seq<char> {
    joined(seq!['m', 'e', 's', 'h', 'e', 's'], m)
}

/// A plugin references the mesh of each of its statics and each master file
/// of its header, once per path: every mesh and every master has a
/// reference with the same components (a master whose path is no mesh's is
/// referenced as a plugin); a master that is the first of its path is
/// itself among the references; every reference is one of the meshes or
/// one of the masters; and no two have the same components.
pub proof fn law_plugin_references(meshes: Seq<Seq<char>>, masters: Seq<Seq<char>>)
    ensures
        forall|k: int| #![trigger meshes[k]] 0 <= k < meshes.len() ==> exists|j: int|
            0 <= j < plugin_references(meshes, masters).len()
            && (#[trigger] plugin_references(meshes, masters)[j]).0 == Type::Mesh
            && path_key(plugin_references(meshes, masters)[j].1) == path_key(mesh_path(meshes[k])),
        forall|k: int| #![trigger masters[k]] 0 <= k < masters.len() ==> exists|j: int|
            0 <= j < plugin_references(meshes, masters).len()
            && path_key((#[trigger] plugin_references(meshes, masters)[j]).1) == path_key(masters[k])
            && ((forall|i: int| 0 <= i < meshes.len() ==> path_key(mesh_path(#[trigger] meshes[i])) != path_key(
                masters[k],
            )) ==> plugin_references(meshes, masters)[j].0 == Type::Plugin),
        forall|k: int| 0 <= k < masters.len() && #[trigger] first_spelling(masters, k) && (forall|i: int|
            0 <= i < meshes.len() ==> path_key(mesh_path(#[trigger] meshes[i])) != path_key(masters[k])) ==> exists|j: int|
            0 <= j < plugin_references(meshes, masters).len()
            && #[trigger] plugin_references(meshes, masters)[j] == (Type::Plugin, masters[k]),
        forall|j: int| 0 <= j < plugin_references(meshes, masters).len() ==> {
            ||| (#[trigger] plugin_references(meshes, masters)[j]).0 == Type::Mesh && exists|k: int|
                0 <= k < meshes.len() && plugin_references(meshes, masters)[j].1 == mesh_path(#[trigger] meshes[k])
            ||| plugin_references(meshes, masters)[j].0 == Type::Plugin && exists|k: int|
                0 <= k < masters.len() && plugin_references(meshes, masters)[j].1 == #[trigger] masters[k]
        },
        forall|a: int, b: int| 0 <= a < b < plugin_references(meshes, masters).len() ==> path_key(
            (#[trigger] plugin_references(meshes, masters)[a]).1,
        ) != path_key((#[trigger] plugin_references(meshes, masters)[b]).1),
{
    let mp = meshes.map_values(|m: Seq<char>| (Type::Mesh, joined(meshes_dir(), m)));
    let pp = masters.map_values(|m: Seq<char>| (Type::Plugin, m));
    let s = mp + pp;
    let n = meshes.len() as int;
    let f = plugin_references(meshes, masters);
    assert(f == first_of_each_path(s));
    lemma_first_of_each(s);
    assert forall|i: int| 0 <= i < n implies #[trigger] s[i] == (Type::Mesh, mesh_path(meshes[i])) by {
        assert(s[i] == mp[i]);
    }
    assert forall|k: int| 0 <= k < masters.len() implies #[trigger] s[n + k] == (Type::Plugin, masters[k]) by {
        assert(s[n + k] == pp[k]);
    }
    let idx = choose|idx: Seq<int>| picked_in_order(s, f, idx);
    // where a reference comes from
    assert forall|j: int| 0 <= j < f.len() implies {
        ||| (#[trigger] f[j]).0 == Type::Mesh && exists|k: int| 0 <= k < meshes.len() && f[j].1 == mesh_path(#[trigger] meshes[k])
        ||| f[j].0 == Type::Plugin && exists|k: int| 0 <= k < masters.len() && f[j].1 == #[trigger] masters[k]
    } by {
        let x = idx[j];
        assert(0 <= x < s.len() && f[j] == s[x]);
        if x < n {
            assert(s[x] == (Type::Mesh, mesh_path(meshes[x])));
        } else {
            assert(s[n + (x - n)] == (Type::Plugin, masters[x - n]));
        }
    }
    assert forall|k: int| #![trigger meshes[k]] 0 <= k < meshes.len() implies exists|j: int|
        0 <= j < f.len() && (#[trigger] f[j]).0 == Type::Mesh && path_key(f[j].1) == path_key(mesh_path(meshes[k])) by {
        assert(s[k] == (Type::Mesh, mesh_path(meshes[k])));
        let j = choose|j: int| 0 <= j < f.len() && path_key((#[trigger] f[j]).1) == path_key(s[k].1);
        let x = idx[j];
        assert(f[j] == s[x] && first_in(s, x));
        if x >= n {
            assert(path_key(s[k].1) != path_key(s[x].1));
        }
        assert(s[x] == (Type::Mesh, mesh_path(meshes[x])));
    }
    assert forall|k: int| #![trigger masters[k]] 0 <= k < masters.len() implies exists|j: int|
        0 <= j < f.len() && path_key((#[trigger] f[j]).1) == path_key(masters[k])
        && ((forall|i: int| 0 <= i < meshes.len() ==> path_key(mesh_path(#[trigger] meshes[i])) != path_key(masters[k]))
            ==> f[j].0 == Type::Plugin) by {
        assert(s[n + k] == (Type::Plugin, masters[k]));
        let j = choose|j: int| 0 <= j < f.len() && path_key((#[trigger] f[j]).1) == path_key(s[n + k].1);
        let x = idx[j];
        assert(f[j] == s[x]);
        if x < n {
            assert(s[x] == (Type::Mesh, mesh_path(meshes[x])));
        } else {
            assert(s[n + (x - n)] == (Type::Plugin, masters[x - n]));
        }
    }
    assert forall|k: int| 0 <= k < masters.len() && #[trigger] first_spelling(masters, k) && (forall|i: int|
        0 <= i < meshes.len() ==> path_key(mesh_path(#[trigger] meshes[i])) != path_key(masters[k])) implies exists|j: int|
        0 <= j < f.len() && #[trigger] f[j] == (Type::Plugin, masters[k]) by {
        assert(s[n + k] == (Type::Plugin, masters[k]));
        assert forall|i: int| 0 <= i < n + k implies path_key((#[trigger] s[i]).1) != path_key(s[n + k].1) by {
            if i < n {
                assert(s[i] == (Type::Mesh, mesh_path(meshes[i])));
            } else {
                assert(s[n + (i - n)] == (Type::Plugin, masters[i - n]));
                assert(path_key(masters[i - n]) != path_key(masters[k]));
            }
        }
        assert(first_in(s, n + k));
    }
}

/// The names as plain values.
pub open spec fn names_view(names: Seq<String>) -> Seq<Seq<char>> {
    names.map_values(|n: String| n@)
}

/// The assets that a mesh references, given the external texture file
/// names of its source-texture records.
pub fn mesh_children(textures: &Vec<String>) -> (children: Vec<Asset>)
    ensures
        views(children@) == mesh_references(names_view(textures@)),
{
    let mut items: Vec<Asset> = Vec::new();
    let mut i: usize = 0;
    while i < textures.len()
        invariant
            i <= textures.len(),
            items.len() == i,
            views(items@) == as_textures(names_view(textures@).take(i as int)),
        decreases textures.len() - i,
    {
        let asset = Asset::new(Type::Texture, AssetPath::new(textures[i].clone()));
        let ghost prev = items@;
        items.push(asset);
        assert(items@ == prev.push(asset));
        assert(asset_view(asset) == (Type::Texture, names_view(textures@)[i as int]));
        assert forall|k: int| 0 <= k < items@.len() implies views(items@)[k] == as_textures(names_view(textures@).take(i + 1))[k] by {
            let names = names_view(textures@);
            if k < i {
                assert(items@[k] == prev[k]);
                assert(views(prev)[k] == as_textures(names.take(i as int))[k]);
                assert(as_textures(names.take(i as int))[k] == (Type::Texture, names[k]));
                assert(as_textures(names.take(i + 1))[k] == (Type::Texture, names[k]));
            } else {
                assert(items@[k] == asset);
                assert(views(items@)[k] == asset_view(asset));
                assert(as_textures(names.take(i + 1))[k] == (Type::Texture, names[k]));
            }
        }
        assert(views(items@) =~= as_textures(names_view(textures@).take(i + 1)));
        i += 1;
    }
    assert(names_view(textures@).take(textures.len() as int) =~= names_view(textures@));
    unique_by_path(&items)
}

/// The assets that a plugin references, given the mesh names of its statics
/// and the names of its master files.
pub fn plugin_children(static_meshes: &Vec<String>, masters: &Vec<String>) -> (children: Vec<Asset>)
    ensures
        views(children@) == plugin_references(
            names_view(static_meshes@),
            names_view(masters@),
        ),
{
    let ghost mesh_part = names_view(static_meshes@).map_values(
        |m: Seq<char>| (Type::Mesh, joined(meshes_dir(), m)),
    );
    let ghost master_part = names_view(masters@).map_values(|m: Seq<char>| (Type::Plugin, m));
    let mut items: Vec<Asset> = Vec::new();
    let mut i: usize = 0;
    while i < static_meshes.len()
        invariant
            i <= static_meshes.len(),
            items.len() == i,
            mesh_part.len() == static_meshes.len(),
            mesh_part == names_view(static_meshes@).map_values(
                |m: Seq<char>| (Type::Mesh, joined(meshes_dir(), m)),
            ),
            views(items@) == mesh_part.take(i as int),
        decreases static_meshes.len() - i,
    {
        let dir = "meshes";
        proof {
            reveal_strlit("meshes");
        }
        assert(dir@ =~= meshes_dir());
        let full = join_path(dir, static_meshes[i].as_str());
        let asset = Asset::new(Type::Mesh, AssetPath::new(full));
        let ghost prev = items@;
        items.push(asset);
        assert(items@ == prev.push(asset));
        assert(asset_view(asset) == mesh_part[i as int]);
        assert forall|k: int| 0 <= k < i implies views(items@)[k] == views(prev)[k] by {
            assert(items@[k] == prev[k]);
        }
        assert(views(items@) =~= mesh_part.take(i + 1));
        i += 1;
    }
    assert(mesh_part.take(static_meshes.len() as int) =~= mesh_part);
    let mut j: usize = 0;
    while j < masters.len()
        invariant
            j <= masters.len(),
            items.len() == mesh_part.len() + j,
            master_part.len() == masters.len(),
            mesh_part.len() == static_meshes.len(),
            master_part == names_view(masters@).map_values(|m: Seq<char>| (Type::Plugin, m)),
            views(items@) == mesh_part + master_part.take(j as int),
        decreases masters.len() - j,
    {
        let asset = Asset::new(Type::Plugin, AssetPath::new(masters[j].clone()));
        let ghost prev = items@;
        items.push(asset);
        assert(items@ == prev.push(asset));
        assert(asset_view(asset) == master_part[j as int]);
        assert forall|k: int| 0 <= k < items@.len() implies views(items@)[k] == (mesh_part + master_part.take(j + 1))[k] by {
            if k < prev.len() {
                assert(items@[k] == prev[k]);
                assert(views(items@)[k] == views(prev)[k]);
            } else {
                assert(items@[k] == asset);
                assert(views(items@)[k] == asset_view(asset));
                assert((mesh_part + master_part.take(j + 1))[k] == master_part[j as int]);
            }
        }
        assert(views(items@) =~= mesh_part + master_part.take(j + 1));
        j += 1;
    }
    assert(master_part.take(masters.len() as int) =~= master_part);
    unique_by_path(&items)
}

/// What reading an asset file gave: nothing (the file could not be read),
/// the external texture file names of a mesh, or the mesh names of a
/// plugin's statics with the names of its master files (`None` when the
/// plugin has no header).
pub enum FileContents {
    Unreadable,
    Mesh { textures: Vec<String> },
    Plugin { static_meshes: Vec<String>, masters: Option<Vec<String>> },
}

/// The assets that an asset of `kind` references, given what reading its
/// file gave: a texture references nothing, a file that could not be read
/// (or that was read as another kind) references nothing, and a plugin
/// without a header references only the meshes of its statics.
pub open spec fn references_of(kind: Type, contents: FileContents) -> Seq<(Type, Seq<char>)> {
    match (kind, contents) {
        (Type::Mesh, FileContents::Mesh { textures }) => mesh_references(names_view(textures@)),
        (Type::Plugin, FileContents::Plugin { static_meshes, masters }) => plugin_references(
            names_view(static_meshes@),
            match masters {
                Some(m) => names_view(m@),
                None => Seq::empty(),
            },
        ),
        _ => Seq::empty(),
    }
}

impl Asset {
    /// The assets that this asset references, given what reading its file gave.
    pub fn children_from_contents(&self, contents: &FileContents) -> (children: Vec<Asset>)
        ensures
            views(children@) == references_of(self.kind, *contents),
    {
        match (self.kind, contents) {
            (Type::Mesh, FileContents::Mesh { textures }) => mesh_children(textures),
            (Type::Plugin, FileContents::Plugin { static_meshes, masters }) => {
                match masters {
                    Some(m) => plugin_children(static_meshes, m),
                    None => {
                        let none: Vec<String> = Vec::new();
                        assert(names_view(none@) =~= Seq::<Seq<char>>::empty());
                        plugin_children(static_meshes, &none)
                    },
                }
            },
            _ => {
                let children: Vec<Asset> = Vec::new();
                assert(views(children@) =~= Seq::<(Type, Seq<char>)>::empty());
                children
            },
        }
    }
}

/// What each kind of asset file references: a texture, a file that could not
/// be read, or a file read as another kind than the asset's references
/// nothing; a mesh references each texture it names; a plugin each mesh of
/// its statics, and each master of its header (none without a header, so
/// then only meshes).
pub proof fn law_references_by_kind(kind: Type, contents: FileContents)
    ensures
        kind == Type::Texture ==> references_of(kind, contents).len() == 0,
        contents is Unreadable ==> references_of(kind, contents).len() == 0,
        kind == Type::Mesh && !(contents is Mesh) ==> references_of(kind, contents).len() == 0,
        kind == Type::Plugin && !(contents is Plugin) ==> references_of(kind, contents).len() == 0,
        (kind == Type::Mesh && contents is Mesh) ==> forall|k: int|
            #![trigger contents->textures@[k]] 0 <= k < contents->textures@.len() ==> exists|j: int|
                0 <= j < references_of(kind, contents).len()
                && (#[trigger] references_of(kind, contents)[j]).0 == Type::Texture
                && path_key(references_of(kind, contents)[j].1) == path_key(contents->textures@[k]@),
        (kind == Type::Plugin && contents is Plugin) ==> forall|k: int|
            #![trigger contents->static_meshes@[k]] 0 <= k < contents->static_meshes@.len() ==> exists|j: int|
                0 <= j < references_of(kind, contents).len()
                && (#[trigger] references_of(kind, contents)[j]).0 == Type::Mesh
                && path_key(references_of(kind, contents)[j].1) == path_key(mesh_path(contents->static_meshes@[k]@)),
        (kind == Type::Plugin && contents is Plugin) ==> forall|m: Vec<String>, k: int|
            #![trigger m@[k]] contents->masters == Some(m) && 0 <= k < m@.len() ==> exists|j: int|
                0 <= j < references_of(kind, contents).len()
                && path_key((#[trigger] references_of(kind, contents)[j]).1) == path_key(m@[k]@),
        (kind == Type::Plugin && contents is Plugin && contents->masters is None) ==> forall|j: int|
            0 <= j < references_of(kind, contents).len() ==> (#[trigger] references_of(kind, contents)[j]).0
                == Type::Mesh,
{
    match (kind, contents) {
        (Type::Mesh, FileContents::Mesh { textures }) => {
            law_mesh_references(names_view(textures@));
            assert forall|k: int| #![trigger textures@[k]] 0 <= k < textures@.len() implies exists|j: int|
                0 <= j < references_of(kind, contents).len()
                && (#[trigger] references_of(kind, contents)[j]).0 == Type::Texture
                && path_key(references_of(kind, contents)[j].1) == path_key(textures@[k]@) by {
                assert(names_view(textures@)[k] == textures@[k]@);
            }
        },
        (Type::Plugin, FileContents::Plugin { static_meshes, masters }) => {
            let ms = match masters {
                Some(m) => names_view(m@),
                None => Seq::empty(),
            };
            law_plugin_references(names_view(static_meshes@), ms);
            assert forall|k: int| #![trigger static_meshes@[k]] 0 <= k < static_meshes@.len() implies exists|j: int|
                0 <= j < references_of(kind, contents).len()
                && (#[trigger] references_of(kind, contents)[j]).0 == Type::Mesh
                && path_key(references_of(kind, contents)[j].1) == path_key(mesh_path(static_meshes@[k]@)) by {
                assert(names_view(static_meshes@)[k] == static_meshes@[k]@);
            }
            assert forall|m: Vec<String>, k: int| #![trigger m@[k]] masters == Some(m) && 0 <= k < m@.len() implies exists|j: int|
                0 <= j < references_of(kind, contents).len()
                && path_key((#[trigger] references_of(kind, contents)[j]).1) == path_key(m@[k]@) by {
                assert(ms[k] == m@[k]@);
            }
        },
        _ => {},
    }
}

} // verus!
