//! Relative asset paths and how they are joined onto a base directory.
//!
//! Paths are strings with `/` as the separator, as `std::path` reads them
//! on Unix; any other character, `\` included, belongs to a component.
//! Joining follows the rule of `PathBuf::push` on Unix: an absolute path
//! replaces the base, and otherwise one separator is put between the two
//! parts unless the base is empty or already ends in one.
//!
//! Two paths name the same file when they have the same components, as
//! `Path::components` documents them: repeated separators are ignored, a `.`
//! is dropped except at the beginning of a relative path, and a trailing
//! separator is dropped.  `path_key` writes the components of a path in one
//! canonical form, so that two paths have the same key exactly when they
//! have the same components (`law_same_key_same_components`).
use vstd::prelude::*;
use vstd::string::*;

verus! {

/// The separator between the components of a path.
pub open spec fn is_separator(c: char) -> bool {
    c == '/'
}

/// `rel` joined onto `base`.
pub open spec fn joined(base: Seq<char>, rel: Seq<char>) -> Seq<char> {
    if rel.len() > 0 && is_separator(rel[0]) {
        rel
    } else if base.len() == 0 || is_separator(base.last()) {
        base + rel
    } else {
        base + seq!['/'] + rel
    }
}

/// Joins the relative path `rel` onto the directory `base`.
pub fn join_path(base: &str, rel: &str) -> (full: String)
    ensures
        full@ == joined(base@, rel@),
{
    let rel_len = rel.unicode_len();
    if rel_len > 0 && rel.get_char(0) == '/' {
        return rel.to_owned();
    }
    let base_len = base.unicode_len();
    let mut full = base.to_owned();
    if base_len > 0 && base.get_char(base_len - 1) != '/' {
        full.append("/");
        proof {
            reveal_strlit("/");
        }
    }
    full.append(rel);
    assert(full@ =~= joined(base@, rel@));
    full
}

/// The parts of `s` between its separators, in order; empty parts included.
pub open spec fn split_parts(s: Seq<char>) -> Seq<Seq<char>>
    decreases s.len(),
{
    if s.len() == 0 {
        seq![Seq::empty()]
    } else {
        let r = split_parts(s.drop_last());
        if is_separator(s.last()) {
            r.push(Seq::empty())
        } else {
            r.update(r.len() - 1, r.last().push(s.last()))
        }
    }
}

/// The path `.`.
pub open spec fn dot() -> Seq<char> {
    seq!['.']
}

/// Whether `s` starts with a separator: an absolute path.
pub open spec fn rooted(s: Seq<char>) -> bool {
    s.len() > 0 && is_separator(s[0])
}

/// Whether the part `p`, the `index`-th of a path, is one of its components.
pub open spec fn is_component(p: Seq<char>, index: int, is_rooted: bool) -> bool {
    (p.len() > 0 && p != dot()) || (index == 0 && !is_rooted && p == dot())
}

/// The components among `parts`, the first parts of a path.
pub open spec fn components_of(parts: Seq<Seq<char>>, is_rooted: bool) -> Seq<Seq<char>>
    decreases parts.len(),
{
    if parts.len() == 0 {
        Seq::empty()
    } else {
        let before = components_of(parts.drop_last(), is_rooted);
        if is_component(parts.last(), parts.len() - 1, is_rooted) {
            before.push(parts.last())
        } else {
            before
        }
    }
}

/// The components of `s` after its root, if it has one.
pub open spec fn path_components(s: Seq<char>) -> Seq<Seq<char>> {
    components_of(split_parts(s), rooted(s))
}

/// `parts` with a separator between each two.
pub open spec fn join_parts(parts: Seq<Seq<char>>) -> Seq<char>
    decreases parts.len(),
{
    if parts.len() == 0 {
        Seq::empty()
    } else if parts.len() == 1 {
        parts[0]
    } else {
        join_parts(parts.drop_last()) + seq!['/'] + parts.last()
    }
}

/// The canonical form of `s`: its root, then its components, each two
/// separated by one separator.
pub open spec fn path_key(s: Seq<char>) -> Seq<char> {
    if rooted(s) {
        seq!['/'] + join_parts(path_components(s))
    } else {
        join_parts(path_components(s))
    }
}

proof fn lemma_split_parts_len(s: Seq<char>)
    ensures
        split_parts(s).len() >= 1,
    decreases s.len(),
{
    if s.len() > 0 {
        lemma_split_parts_len(s.drop_last());
    }
}

/// Appends `part` to `key` when it is a component of its path (`first`: it
/// is the path's first part), with a separator when `key` already holds
/// components (`count` of them); answers whether it did.
fn add_component(key: &mut String, part: &str, count: usize, first: bool, is_rooted: bool) -> (added: bool)
    ensures
        added == is_component(part@, if first { 0 } else { 1 }, is_rooted),
        final(key)@ == (if !added {
            old(key)@
        } else if count > 0 {
            old(key)@ + seq!['/'] + part@
        } else {
            old(key)@ + part@
        }),
{
    let part_len = part.unicode_len();
    let is_dot = part_len == 1 && part.get_char(0) == '.';
    proof {
        let p = part@;
        if p.len() == 1 && p[0] == '.' {
            assert(p =~= dot());
        }
        reveal_strlit("/");
    }
    let added = (part_len > 0 && !is_dot) || (first && !is_rooted && is_dot);
    if added {
        if count > 0 {
            key.append("/");
        }
        key.append(part);
    }
    added
}

/// Appending one more part to the first parts of a path.
proof fn lemma_components_push(parts: Seq<Seq<char>>, p: Seq<char>, is_rooted: bool)
    ensures
        components_of(parts.push(p), is_rooted) == (if is_component(p, parts.len() as int, is_rooted) {
            components_of(parts, is_rooted).push(p)
        } else {
            components_of(parts, is_rooted)
        }),
        join_parts(components_of(parts, is_rooted).push(p)) == (if components_of(parts, is_rooted).len() == 0 {
            p
        } else {
            join_parts(components_of(parts, is_rooted)) + seq!['/'] + p
        }),
{
    assert(parts.push(p).drop_last() =~= parts);
    assert(components_of(parts, is_rooted).push(p).drop_last() =~= components_of(parts, is_rooted));
}

/// The canonical form of the path `path`: `path_key`.
pub fn normalized_path(path: &str) -> (key: String)
    ensures
        key@ == path_key(path@),
{
    let ghost s = path@;
    let len = path.unicode_len();
    let is_rooted = len > 0 && path.get_char(0) == '/';
    let mut key = String::new();
    proof {
        reveal_strlit("/");
    }
    if is_rooted {
        key.append("/");
    }
    let ghost root: Seq<char> = if is_rooted { seq!['/'] } else { Seq::empty() };
    let ghost mut done: Seq<Seq<char>> = Seq::empty();
    let mut count: usize = 0;
    let mut start: usize = 0;
    let mut i: usize = 0;
    assert(s.take(0) =~= Seq::<char>::empty());
    assert(s.subrange(0, 0) =~= Seq::<char>::empty());
    assert(key@ =~= root + join_parts(components_of(done, is_rooted)));
    while i < len
        invariant
            len == s.len(),
            s == path@,
            is_rooted == rooted(s),
            root == (if is_rooted { seq!['/'] } else { Seq::<char>::empty() }),
            start <= i <= len,
            count <= i,
            (start == 0) == (done.len() == 0),
            split_parts(s.take(i as int)) == done.push(s.subrange(start as int, i as int)),
            count == components_of(done, is_rooted).len(),
            key@ == root + join_parts(components_of(done, is_rooted)),
        decreases len - i,
    {
        let c = path.get_char(i);
        proof {
            assert(s.take(i + 1).drop_last() =~= s.take(i as int));
            assert(s.take(i + 1).last() == c);
        }
        if c == '/' {
            let part = path.substring_char(start, i);
            let ghost before = components_of(done, is_rooted);
            let added = add_component(&mut key, part, count, start == 0, is_rooted);
            proof {
                lemma_components_push(done, part@, is_rooted);
                assert(s.subrange(i + 1, i + 1) =~= Seq::<char>::empty());
                done = done.push(part@);
                if added {
                    assert(key@ =~= root + join_parts(components_of(done, is_rooted)));
                }
            }
            if added {
                count = count + 1;
            }
            start = i + 1;
        } else {
            proof {
                assert(s.subrange(start as int, i + 1) =~= s.subrange(start as int, i as int).push(c));
                let r = split_parts(s.take(i as int));
                assert(r.update(r.len() - 1, r.last().push(c)) =~= done.push(s.subrange(start as int, i + 1)));
            }
        }
        i = i + 1;
    }
    let part = path.substring_char(start, len);
    let added = add_component(&mut key, part, count, start == 0, is_rooted);
    proof {
        assert(s.take(len as int) =~= s);
        lemma_components_push(done, part@, is_rooted);
        done = done.push(part@);
        if added {
            assert(key@ =~= root + join_parts(components_of(done, is_rooted)));
        }
    }
    key
}

/// The components of `s` in order, its root (written `/`) first if it has one.
pub open spec fn ordered_components(s: Seq<char>) -> Seq<Seq<char>> {
    if rooted(s) {
        seq![seq!['/']] + path_components(s)
    } else {
        path_components(s)
    }
}

/// Appends `part` to `comps` when it is a component of its path (`first`: it
/// is the path's first part); answers whether it did.
fn push_component(comps: &mut Vec<String>, part: &str, first: bool, is_rooted: bool) -> (added: bool)
    ensures
        added == is_component(part@, if first { 0 } else { 1 }, is_rooted),
        final(comps)@.map_values(|c: String| c@) == (if added {
            old(comps)@.map_values(|c: String| c@).push(part@)
        } else {
            old(comps)@.map_values(|c: String| c@)
        }),
{
    let part_len = part.unicode_len();
    let is_dot = part_len == 1 && part.get_char(0) == '.';
    proof {
        let p = part@;
        if p.len() == 1 && p[0] == '.' {
            assert(p =~= dot());
        }
    }
    let added = (part_len > 0 && !is_dot) || (first && !is_rooted && is_dot);
    if added {
        let ghost before = comps@;
        comps.push(part.to_string());
        assert(comps@.map_values(|c: String| c@) =~= before.map_values(|c: String| c@).push(part@));
    }
    added
}

/// The components of `path` in order, its root (written `/`) first if it
/// has one: `ordered_components`.
pub fn path_component_list(path: &str) -> (comps: Vec<String>)
    ensures
        comps@.map_values(|c: String| c@) == ordered_components(path@),
{
    let ghost s = path@;
    let len = path.unicode_len();
    let is_rooted = len > 0 && path.get_char(0) == '/';
    let mut comps: Vec<String> = Vec::new();
    proof {
        reveal_strlit("/");
    }
    if is_rooted {
        let slash = "/".to_string();
        assert(slash@ =~= seq!['/']);
        comps.push(slash);
    }
    let ghost root: Seq<Seq<char>> = if is_rooted { seq![seq!['/']] } else { Seq::empty() };
    let ghost mut done: Seq<Seq<char>> = Seq::empty();
    let mut start: usize = 0;
    let mut i: usize = 0;
    assert(s.take(0) =~= Seq::<char>::empty());
    assert(s.subrange(0, 0) =~= Seq::<char>::empty());
    assert(components_of(done, is_rooted) =~= Seq::<Seq<char>>::empty());
    assert(comps@.map_values(|c: String| c@) =~= root + components_of(done, is_rooted));
    while i < len
        invariant
            len == s.len(),
            s == path@,
            is_rooted == rooted(s),
            root == (if is_rooted { seq![seq!['/']] } else { Seq::<Seq<char>>::empty() }),
            start <= i <= len,
            (start == 0) == (done.len() == 0),
            split_parts(s.take(i as int)) == done.push(s.subrange(start as int, i as int)),
            comps@.map_values(|c: String| c@) == root + components_of(done, is_rooted),
        decreases len - i,
    {
        let c = path.get_char(i);
        proof {
            assert(s.take(i + 1).drop_last() =~= s.take(i as int));
            assert(s.take(i + 1).last() == c);
        }
        if c == '/' {
            let part = path.substring_char(start, i);
            let added = push_component(&mut comps, part, start == 0, is_rooted);
            proof {
                lemma_components_push(done, part@, is_rooted);
                assert(s.subrange(i + 1, i + 1) =~= Seq::<char>::empty());
                done = done.push(part@);
                assert(comps@.map_values(|c: String| c@) =~= root + components_of(done, is_rooted));
            }
            start = i + 1;
        } else {
            proof {
                assert(s.subrange(start as int, i + 1) =~= s.subrange(start as int, i as int).push(c));
                let r = split_parts(s.take(i as int));
                assert(r.update(r.len() - 1, r.last().push(c)) =~= done.push(s.subrange(start as int, i + 1)));
            }
        }
        i = i + 1;
    }
    let part = path.substring_char(start, len);
    let added = push_component(&mut comps, part, start == 0, is_rooted);
    proof {
        assert(s.take(len as int) =~= s);
        lemma_components_push(done, part@, is_rooted);
        done = done.push(part@);
        assert(comps@.map_values(|c: String| c@) =~= root + components_of(done, is_rooted));
    }
    comps
}

/// `p` holds no separator.
pub open spec fn no_separator(p: Seq<char>) -> bool {
    forall|i: int| 0 <= i < p.len() ==> !is_separator(#[trigger] p[i])
}

/// Each of `ps` is a non-empty part without a separator.
pub open spec fn proper_parts(ps: Seq<Seq<char>>) -> bool {
    forall|j: int| 0 <= j < ps.len() ==> (#[trigger] ps[j]).len() > 0 && no_separator(ps[j])
}

proof fn lemma_split_parts_no_separator(s: Seq<char>)
    ensures
        forall|j: int| 0 <= j < split_parts(s).len() ==> no_separator(#[trigger] split_parts(s)[j]),
    decreases s.len(),
{
    if s.len() > 0 {
        lemma_split_parts_no_separator(s.drop_last());
        lemma_split_parts_len(s.drop_last());
        let r = split_parts(s.drop_last());
        if !is_separator(s.last()) {
            assert forall|j: int| 0 <= j < split_parts(s).len() implies no_separator(#[trigger] split_parts(s)[j]) by {
                if j == r.len() - 1 {
                    let p = r.last().push(s.last());
                    assert forall|i: int| 0 <= i < p.len() implies !is_separator(#[trigger] p[i]) by {
                        if i < r.last().len() {
                            assert(no_separator(r[r.len() - 1]));
                        }
                    }
                } else {
                    assert(split_parts(s)[j] == r[j]);
                }
            }
        } else {
            assert forall|j: int| 0 <= j < split_parts(s).len() implies no_separator(#[trigger] split_parts(s)[j]) by {
                if j < r.len() {
                    assert(split_parts(s)[j] == r[j]);
                }
            }
        }
    }
}

proof fn lemma_components_proper(parts: Seq<Seq<char>>, is_rooted: bool)
    requires
        forall|j: int| 0 <= j < parts.len() ==> no_separator(#[trigger] parts[j]),
    ensures
        proper_parts(components_of(parts, is_rooted)),
    decreases parts.len(),
{
    if parts.len() > 0 {
        let before = parts.drop_last();
        assert forall|j: int| 0 <= j < before.len() implies no_separator(#[trigger] before[j]) by {
            assert(before[j] == parts[j]);
        }
        lemma_components_proper(before, is_rooted);
        assert(no_separator(parts[parts.len() - 1]));
        let c = components_of(before, is_rooted);
        if is_component(parts.last(), parts.len() - 1, is_rooted) {
            assert forall|j: int| 0 <= j < c.push(parts.last()).len() implies
                (#[trigger] c.push(parts.last())[j]).len() > 0 && no_separator(c.push(parts.last())[j]) by {
                if j < c.len() {
                    assert(c.push(parts.last())[j] == c[j]);
                } else {
                    assert(parts.last() != Seq::<char>::empty() || parts.last() == dot());
                }
            }
        }
    }
}

/// The parts of a path and their joined text: where the last separator
/// stands, and what comes first.
proof fn lemma_join_shape(ps: Seq<Seq<char>>)
    requires
        proper_parts(ps),
        ps.len() > 0,
    ensures
        join_parts(ps).len() > 0,
        join_parts(ps)[0] == ps[0][0],
        ps.len() == 1 ==> no_separator(join_parts(ps)),
        ps.len() >= 2 ==> join_parts(ps) == join_parts(ps.drop_last()) + seq!['/'] + ps.last(),
        ps.len() >= 2 ==> proper_parts(ps.drop_last()),
    decreases ps.len(),
{
    if ps.len() >= 2 {
        let front = ps.drop_last();
        assert forall|j: int| 0 <= j < front.len() implies (#[trigger] front[j]).len() > 0 && no_separator(front[j]) by {
            assert(front[j] == ps[j]);
        }
        lemma_join_shape(front);
        assert(front[0] == ps[0]);
    } else {
        assert(ps[0].len() > 0 && no_separator(ps[0]));
    }
}

/// Joining proper parts loses nothing: equal texts come from equal parts.
proof fn lemma_join_injective(p: Seq<Seq<char>>, q: Seq<Seq<char>>)
    requires
        proper_parts(p),
        proper_parts(q),
        join_parts(p) == join_parts(q),
    ensures
        p == q,
    decreases p.len(),
{
    if p.len() == 0 || q.len() == 0 {
        if p.len() > 0 {
            lemma_join_shape(p);
        }
        if q.len() > 0 {
            lemma_join_shape(q);
        }
        assert(p =~= q);
    } else {
        lemma_join_shape(p);
        lemma_join_shape(q);
        let t = join_parts(p);
        if p.len() == 1 && q.len() >= 2 {
            let a = join_parts(q.drop_last());
            assert(t[a.len() as int] == '/');
            assert(!is_separator(t[a.len() as int]));
        } else if q.len() == 1 && p.len() >= 2 {
            let a = join_parts(p.drop_last());
            assert(t[a.len() as int] == '/');
            assert(!is_separator(join_parts(q)[a.len() as int]));
        } else if p.len() == 1 && q.len() == 1 {
            assert(p =~= q);
        } else {
            let l1 = p.last();
            let l2 = q.last();
            let a1 = join_parts(p.drop_last());
            let a2 = join_parts(q.drop_last());
            assert(no_separator(l1) && no_separator(l2));
            if l1.len() < l2.len() {
                let k = t.len() - 1 - l1.len();
                assert(t[k] == '/');
                assert(t[k] == l2[k - a2.len() - 1]);
            } else if l2.len() < l1.len() {
                let k = t.len() - 1 - l2.len();
                assert(t[k] == '/');
                assert(t[k] == l1[k - a1.len() - 1]);
            }
            assert(l1.len() == l2.len());
            assert(l1 =~= l2) by {
                assert forall|i: int| 0 <= i < l1.len() implies l1[i] == l2[i] by {
                    assert(t[a1.len() + 1 + i] == l1[i]);
                    assert(t[a2.len() + 1 + i] == l2[i]);
                }
            }
            assert(a1 =~= a2) by {
                assert forall|i: int| 0 <= i < a1.len() implies a1[i] == a2[i] by {
                    assert(t[i] == a1[i]);
                    assert(t[i] == a2[i]);
                }
            }
            lemma_join_injective(p.drop_last(), q.drop_last());
            assert(p =~= p.drop_last().push(l1));
            assert(q =~= q.drop_last().push(l2));
        }
    }
}

/// Two paths have the same key exactly when both or neither have a root and
/// they have the same components.
pub proof fn law_same_key_same_components(a: Seq<char>, b: Seq<char>)
    ensures
        path_key(a) == path_key(b) <==> (rooted(a) == rooted(b) && path_components(a) == path_components(b)),
{
    lemma_split_parts_no_separator(a);
    lemma_split_parts_no_separator(b);
    lemma_components_proper(split_parts(a), rooted(a));
    lemma_components_proper(split_parts(b), rooted(b));
    let ca = path_components(a);
    let cb = path_components(b);
    if path_key(a) == path_key(b) {
        if ca.len() > 0 {
            lemma_join_shape(ca);
        }
        if cb.len() > 0 {
            lemma_join_shape(cb);
        }
        if rooted(a) && !rooted(b) {
            assert(path_key(a)[0] == '/');
            assert(path_key(b)[0] == cb[0][0]);
        } else if rooted(b) && !rooted(a) {
            assert(path_key(b)[0] == '/');
            assert(path_key(a)[0] == ca[0][0]);
        }
        if rooted(a) && rooted(b) {
            assert(join_parts(ca) =~= path_key(a).drop_first());
            assert(join_parts(cb) =~= path_key(b).drop_first());
        }
        lemma_join_injective(ca, cb);
    }
}

proof fn lemma_split_parts_concat(a: Seq<char>, b: Seq<char>)
    ensures
        split_parts(a + seq!['/'] + b) == split_parts(a) + split_parts(b),
    decreases b.len(),
{
    let t = a + seq!['/'] + b;
    if b.len() == 0 {
        assert(t.drop_last() =~= a);
        assert(split_parts(t) =~= split_parts(a) + split_parts(b));
    } else {
        let b0 = b.drop_last();
        lemma_split_parts_concat(a, b0);
        lemma_split_parts_len(b0);
        assert(t.drop_last() =~= a + seq!['/'] + b0);
        assert(t.last() == b.last());
        let r = split_parts(a + seq!['/'] + b0);
        if is_separator(b.last()) {
            assert(split_parts(t) =~= split_parts(a) + split_parts(b));
        } else {
            assert(r.update(r.len() - 1, r.last().push(b.last())) =~= split_parts(a) + split_parts(b0).update(
                split_parts(b0).len() - 1,
                split_parts(b0).last().push(b.last()),
            ));
        }
    }
}

proof fn lemma_components_concat(p: Seq<Seq<char>>, q: Seq<Seq<char>>, is_rooted: bool)
    requires
        p.len() >= 1,
        q.len() == 0 || q[0] != dot(),
    ensures
        components_of(p + q, is_rooted) == components_of(p, is_rooted) + components_of(q, false),
    decreases q.len(),
{
    if q.len() == 0 {
        assert(p + q =~= p);
        assert(components_of(p, is_rooted) + components_of(q, false) =~= components_of(p, is_rooted));
    } else {
        let q0 = q.drop_last();
        lemma_components_concat(p, q0, is_rooted);
        assert((p + q).drop_last() =~= p + q0);
        assert((p + q).last() == q.last());
        if q0.len() > 0 {
            assert(q0[0] == q[0]);
        }
        let cp = components_of(p, is_rooted);
        let cq0 = components_of(q0, false);
        if is_component(q.last(), q.len() - 1, false) {
            assert(cp + cq0.push(q.last()) =~= (cp + cq0).push(q.last()));
        }
    }
}

/// Joining a relative path onto a base and taking the base off again gives
/// the relative path back: the components of the joined path are those of
/// the base followed by those of `rel`.  A `rel` whose first part is `.`
/// is left out: the join drops that `.`.
pub proof fn law_join_then_strip(base: Seq<char>, rel: Seq<char>)
    requires
        !rooted(rel),
        split_parts(rel)[0] != dot(),
    ensures
        ordered_components(joined(base, rel)) == ordered_components(base) + path_components(rel),
{
    let j = joined(base, rel);
    if base.len() == 0 {
        assert(j == rel);
        assert(split_parts(base) =~= seq![Seq::<char>::empty()]);
        assert(components_of(split_parts(base).drop_last(), false) =~= Seq::<Seq<char>>::empty());
        assert(ordered_components(base) =~= Seq::<Seq<char>>::empty());
        assert(ordered_components(base) + path_components(rel) =~= path_components(rel));
    } else {
        lemma_split_parts_len(rel);
        assert(j[0] == base[0]);
        assert(rooted(j) == rooted(base));
        let r = rooted(base);
        if is_separator(base.last()) {
            let b0 = base.drop_last();
            assert(base =~= b0 + seq!['/'] + Seq::<char>::empty());
            assert(j =~= b0 + seq!['/'] + rel);
            lemma_split_parts_concat(b0, Seq::<char>::empty());
            lemma_split_parts_concat(b0, rel);
            lemma_split_parts_len(b0);
            let e: Seq<Seq<char>> = split_parts(Seq::<char>::empty());
            assert(e =~= seq![Seq::<char>::empty()]);
            assert(e[0] != dot()) by {
                assert(dot().len() == 1);
            }
            lemma_components_concat(split_parts(b0), e, r);
            lemma_components_concat(split_parts(b0), split_parts(rel), r);
            assert(components_of(e.drop_last(), false) =~= Seq::<Seq<char>>::empty());
            assert(components_of(e, false) =~= Seq::<Seq<char>>::empty());
            assert(path_components(base) =~= components_of(split_parts(b0), r));
            assert(path_components(j) =~= path_components(base) + path_components(rel));
        } else {
            assert(j =~= base + seq!['/'] + rel);
            lemma_split_parts_concat(base, rel);
            lemma_split_parts_len(base);
            lemma_components_concat(split_parts(base), split_parts(rel), r);
            assert(path_components(j) =~= path_components(base) + path_components(rel));
        }
        if r {
            assert(ordered_components(j) =~= ordered_components(base) + path_components(rel));
        }
    }
}

} // verus!
