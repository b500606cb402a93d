//! What the asset window lists and how it reacts: the relative paths of a
//! plugin's assets in the order of text, where its controls stand, and what
//! it does when the scan of the plugin reports back.
use crate::assets::{AssetGraph, AssetRef, GraphView, Type};
use crate::dash::index_set_to_vec;
use crate::paths::{ordered_components, path_component_list};
use crate::export::{paths_of, strings_view};
use crate::package::{esp_file_assets, get_esp_file_assets, hash_set_items};
use vstd::prelude::*;
use vstd::string::*;

verus! {

broadcast use {vstd::seq_lib::group_seq_properties, vstd::seq_lib::group_to_multiset_ensures};

/// `a` comes no later than `b` in the order of text: character by character,
/// a prefix first.
pub open spec fn text_le(a: Seq<char>, b: Seq<char>) -> bool
    decreases a.len(),
{
    if a.len() == 0 {
        true
    } else if b.len() == 0 {
        false
    } else if a[0] != b[0] {
        (a[0] as int) < (b[0] as int)
    } else {
        text_le(a.drop_first(), b.drop_first())
    }
}

/// Each text comes no later than the ones after it.
pub open spec fn text_sorted(s: Seq<Seq<char>>) -> bool {
    forall|i: int, j: int| 0 <= i < j < s.len() ==> text_le(#[trigger] s[i], #[trigger] s[j])
}

pub proof fn lemma_text_le_total(a: Seq<char>, b: Seq<char>)
    ensures
        text_le(a, b) || text_le(b, a),
    decreases a.len(),
{
    if a.len() > 0 && b.len() > 0 {
        if a[0] == b[0] {
            lemma_text_le_total(a.drop_first(), b.drop_first());
        } else {
            assert((a[0] as int) != (b[0] as int));
        }
    }
}

pub proof fn lemma_text_le_transitive(a: Seq<char>, b: Seq<char>, c: Seq<char>)
    requires
        text_le(a, b),
        text_le(b, c),
    ensures
        text_le(a, c),
    decreases a.len(),
{
    if a.len() > 0 && b.len() > 0 && c.len() > 0 && a[0] == b[0] && b[0] == c[0] {
        lemma_text_le_transitive(a.drop_first(), b.drop_first(), c.drop_first());
    }
}

/// The order of text is the order of character codes: where two texts that
/// agree on their first `k` characters differ at the next one, the text
/// whose character there has the lower code comes first; and a text comes
/// no later than every text that it begins.
pub proof fn law_text_order_is_code_order(a: Seq<char>, b: Seq<char>, k: int)
    requires
        0 <= k <= a.len(),
        k <= b.len(),
        a.take(k) == b.take(k),
    ensures
        k < a.len() && k < b.len() && a[k] != b[k] ==> (text_le(a, b) <==> (a[k] as int) < (b[k] as int)),
        k == a.len() ==> text_le(a, b),
    decreases k,
{
    if k > 0 {
        assert(a[0] == a.take(k)[0] && b[0] == b.take(k)[0]);
        assert(a.drop_first().take(k - 1) =~= a.take(k).drop_first());
        assert(b.drop_first().take(k - 1) =~= b.take(k).drop_first());
        law_text_order_is_code_order(a.drop_first(), b.drop_first(), k - 1);
        if k < a.len() {
            assert(a.drop_first()[k - 1] == a[k]);
        }
        if k < b.len() {
            assert(b.drop_first()[k - 1] == b[k]);
        }
    }
}

/// Whether `a` comes no later than `b` in the order of text.
fn text_no_later(a: &str, b: &str) -> (le: bool)
    ensures
        le == text_le(a@, b@),
{
    let a_len = a.unicode_len();
    let b_len = b.unicode_len();
    let mut i: usize = 0;
    while i < a_len
        invariant
            a_len == a@.len(),
            b_len == b@.len(),
            i <= a_len,
            i <= b_len,
            forall|k: int| 0 <= k < i ==> a@[k] == b@[k],
            text_le(a@, b@) == text_le(a@.skip(i as int), b@.skip(i as int)),
        decreases a_len - i,
    {
        if i == b_len {
            return false;
        }
        let x = a.get_char(i);
        let y = b.get_char(i);
        assert(a@.skip(i as int)[0] == x && b@.skip(i as int)[0] == y);
        if x != y {
            return x < y;
        }
        assert(a@.skip(i as int).drop_first() =~= a@.skip(i + 1));
        assert(b@.skip(i as int).drop_first() =~= b@.skip(i + 1));
        i += 1;
    }
    true
}

/// `items` in the order of text.
pub fn sort_texts(items: Vec<String>) -> (sorted: Vec<String>)
    ensures
        strings_view(sorted@).to_multiset() == strings_view(items@).to_multiset(),
        text_sorted(strings_view(sorted@)),
{
    let mut sorted: Vec<String> = Vec::new();
    let mut i: usize = 0;
    while i < items.len()
        invariant
            i <= items.len(),
            strings_view(sorted@).to_multiset() == strings_view(items@.take(i as int)).to_multiset(),
            text_sorted(strings_view(sorted@)),
        decreases items.len() - i,
    {
        let s = items[i].clone();
        let ghost before = strings_view(sorted@);
        let mut j: usize = 0;
        while j < sorted.len() && text_no_later(sorted[j].as_str(), s.as_str())
            invariant
                j <= sorted.len(),
                before == strings_view(sorted@),
                forall|k: int| 0 <= k < j ==> text_le(#[trigger] before[k], s@),
            decreases sorted.len() - j,
        {
            j += 1;
        }
        proof {
            if j < sorted.len() {
                lemma_text_le_total(before[j as int], s@);
            }
        }
        sorted.insert(j, s);
        let ghost after = strings_view(sorted@);
        assert(after =~= before.insert(j as int, s@));
        assert(text_sorted(after)) by {
            assert forall|a: int, b: int| 0 <= a < b < after.len() implies text_le(#[trigger] after[a], #[trigger] after[b]) by {
                if a < j && b == j {
                } else if a < j && b > j {
                    assert(after[a] == before[a] && after[b] == before[b - 1]);
                } else if a == j {
                    assert(after[b] == before[b - 1]);
                    if b - 1 > j {
                        assert(text_le(before[j as int], before[b - 1]));
                        lemma_text_le_transitive(s@, before[j as int], before[b - 1]);
                    }
                } else if a > j {
                    assert(after[a] == before[a - 1] && after[b] == before[b - 1]);
                } else {
                    assert(after[a] == before[a] && after[b] == before[b]);
                }
            }
        }
        proof {
            vstd::seq_lib::to_multiset_insert(before, j as int, s@);
            assert(items@.take(i + 1) =~= items@.take(i as int).push(items@[i as int]));
            assert(strings_view(items@.take(i + 1)) =~= strings_view(items@.take(i as int)).push(s@));
        }
        i += 1;
    }
    assert(items@.take(items.len() as int) =~= items@);
    sorted
}

/// The relative paths of the assets of the plugin that have a node, in the
/// order of text: the list of files that the window shows.
pub fn flat_file_names(plugin: &AssetRef, graph: &AssetGraph) -> (names: Vec<String>)
    requires
        graph@.links_finite(),
    ensures
        text_sorted(strings_view(names@)),
        exists|idx: Seq<usize>| {
            &&& idx.no_duplicates()
            &&& #[trigger] idx.to_set() == esp_file_assets(graph@, plugin.index).filter(
                |x: usize| x < graph@.nodes.len(),
            )
            &&& strings_view(names@).to_multiset() == paths_of(graph@, idx).to_multiset()
        },
{
    let ghost g = graph@;
    let assets = get_esp_file_assets(plugin, graph);
    let items = hash_set_items(&assets);
    let n = graph.nodes_by_index.len();
    let mut names: Vec<String> = Vec::new();
    let ghost mut idx: Seq<usize> = Seq::empty();
    let mut i: usize = 0;
    while i < items.len()
        invariant
            graph@ == g,
            n == g.nodes.len(),
            i <= items.len(),
            items@.no_duplicates(),
            idx.no_duplicates(),
            idx.len() == names@.len(),
            idx.to_set() == items@.take(i as int).to_set().filter(|x: usize| x < g.nodes.len()),
            strings_view(names@) == paths_of(g, idx),
        decreases items.len() - i,
    {
        let x = items[i];
        proof {
            items@.take(i as int).lemma_push_to_set_commute(x);
        }
        assert(items@.take(i + 1) =~= items@.take(i as int).push(x));
        if x < n {
            let ghost names_before = names@;
            let ghost idx_before = idx;
            let name = graph.nodes_by_index[x].asset.path.relative_path.clone();
            assert(name@ == g.nodes[x as int].path);
            names.push(name);
            proof {
                assert(!idx.contains(x)) by {
                    if idx.contains(x) {
                        assert(idx.to_set().contains(x));
                        let k = choose|k: int| 0 <= k < i && items@.take(i as int)[k] == x;
                        assert(items@[k] == items@[i as int]);
                    }
                }
                idx.lemma_push_to_set_commute(x);
                idx = idx.push(x);
            }
            assert forall|k: int| 0 <= k < names@.len() implies strings_view(names@)[k] == paths_of(g, idx)[k] by {
                if k < names_before.len() {
                    assert(names@[k] == names_before[k]);
                    assert(strings_view(names_before)[k] == paths_of(g, idx_before)[k]);
                    assert(idx[k] == idx_before[k]);
                } else {
                    assert(names@[k] == name);
                }
            }
            assert(strings_view(names@) =~= paths_of(g, idx));
        }
        assert(idx.to_set() =~= items@.take(i + 1).to_set().filter(|x: usize| x < g.nodes.len()));
        i += 1;
    }
    assert(items@.take(items.len() as int) =~= items@);
    let sorted = sort_texts(names);
    assert(idx.to_set() == esp_file_assets(g, plugin.index).filter(|x: usize| x < g.nodes.len()));
    sorted
}

/// Where a control of the window stands and how large it is.
#[derive(Clone, Copy, PartialEq, Eq, Debug, Structural)]
pub struct Placement {
    pub x: i32,
    pub y: i32,
    pub width: u32,
    pub height: u32,
}

/// Where each control of the asset window stands; buttons keep their size.
#[derive(Clone, Copy, Debug)]
pub struct ControlLayout {
    pub loading_label: Placement,
    pub loading_progress: Placement,
    pub tree: Placement,
    pub file_list: Placement,
    pub tree_view_button: (i32, i32),
    pub flat_file_view_button: (i32, i32),
    pub package_button: (i32, i32),
    pub cancel_button: (i32, i32),
}

/// The space between a control and the window's edge or the next control.
pub const MARGIN: u32 = 8;

/// The width of the package and cancel buttons.
pub const BUTTON_WIDTH: u32 = 120;

/// The height of the buttons.
pub const BUTTON_HEIGHT: u32 = 32;

/// `x - y`, or 0 where `y` is larger.
pub open spec fn minus_or_zero(x: u32, y: u32) -> u32 {
    if x >= y {
        (x - y) as u32
    } else {
        0
    }
}

/// The layout of a window of `width` by `height`: the tree and the file list
/// fill the window above the buttons (below the loading bar while loading),
/// the view buttons stand at the bottom left, and the package and cancel
/// buttons at the bottom right.
pub open spec fn layout_of(width: u32, height: u32, is_loading: bool) -> ControlLayout {
    let loading_height: u32 = if is_loading {
        48
    } else {
        0
    };
    let list_width = minus_or_zero(width, 16);
    let list_height = minus_or_zero(height, (48 + loading_height) as u32);
    let button_y = minus_or_zero(height, 40);
    let cancel_x = minus_or_zero(width, 128);
    let package_x = minus_or_zero(cancel_x, 128);
    let list = Placement { x: 8, y: (8 + loading_height) as i32, width: list_width, height: list_height };
    ControlLayout {
        loading_label: Placement { x: 8, y: 8, width: list_width, height: 20 },
        loading_progress: Placement { x: 8, y: 32, width: list_width, height: 16 },
        tree: list,
        file_list: list,
        tree_view_button: (8, button_y as i32),
        flat_file_view_button: (96, button_y as i32),
        package_button: (package_x as i32, button_y as i32),
        cancel_button: (cancel_x as i32, button_y as i32),
    }
}

/// Places the controls of the asset window for its size.
pub fn control_layout(width: u32, height: u32, is_loading: bool) -> (layout: ControlLayout)
    ensures
        layout == layout_of(width, height, is_loading),
{
    let footer_height: u32 = BUTTON_HEIGHT + MARGIN * 2;
    let loading_height: u32 = if is_loading {
        48
    } else {
        0
    };
    let list_width = width.saturating_sub(MARGIN * 2);
    let list_height = height.saturating_sub(footer_height + loading_height);
    let button_y = height.saturating_sub(BUTTON_HEIGHT + MARGIN);
    let cancel_x = width.saturating_sub(BUTTON_WIDTH + MARGIN);
    let package_x = cancel_x.saturating_sub(BUTTON_WIDTH + MARGIN);
    let list = Placement {
        x: MARGIN as i32,
        y: (MARGIN + loading_height) as i32,
        width: list_width,
        height: list_height,
    };
    ControlLayout {
        loading_label: Placement { x: MARGIN as i32, y: MARGIN as i32, width: list_width, height: 20 },
        loading_progress: Placement { x: MARGIN as i32, y: (MARGIN + 24) as i32, width: list_width, height: 16 },
        tree: list,
        file_list: list,
        tree_view_button: (MARGIN as i32, #[verifier::truncate] (button_y as i32)),
        flat_file_view_button: ((MARGIN + 88) as i32, #[verifier::truncate] (button_y as i32)),
        package_button: (#[verifier::truncate] (package_x as i32), #[verifier::truncate] (button_y as i32)),
        cancel_button: (#[verifier::truncate] (cancel_x as i32), #[verifier::truncate] (button_y as i32)),
    }
}

/// What the window knows of the scan: whether it is still running, whether
/// the loading label and bar are shown, whether a scanned graph is held, and
/// whether the package button is enabled.
#[derive(Clone, Copy, PartialEq, Eq, Debug, Structural)]
pub struct LoadState {
    pub is_loading: bool,
    pub show_loading: bool,
    pub has_result: bool,
    pub package_enabled: bool,
}

/// What the window hears when it looks for the scan's outcome: nothing yet,
/// or the scan's result (its error message on failure).
pub enum LoadEvent {
    Pending,
    Finished(Result<(), String>),
}

/// What the window does next: nothing; place its controls again and show the
/// scanned graph; or place its controls again and show the error message.
#[derive(PartialEq, Eq, Debug)]
pub enum LoadAction {
    Nothing,
    ShowResult,
    ShowError(String),
}

/// The window's reaction when it looks for the outcome of the scan: while
/// nothing has come, nothing changes; once the scan is finished the loading
/// label and bar are hidden, and a scanned graph is kept and the package
/// button enabled, or the error message is shown.
pub fn finish_loading_step(state: LoadState, event: LoadEvent) -> (next: (LoadState, LoadAction))
    ensures
        event is Pending ==> next.0 == state && next.1 == LoadAction::Nothing,
        event is Finished ==> !next.0.is_loading && !next.0.show_loading,
        event matches LoadEvent::Finished(Ok(_)) ==> {
            &&& next.0.has_result
            &&& next.0.package_enabled
            &&& next.1 == LoadAction::ShowResult
        },
        event matches LoadEvent::Finished(Err(e)) ==> {
            &&& next.0.has_result == state.has_result
            &&& next.0.package_enabled == state.package_enabled
            &&& next.1 == LoadAction::ShowError(e)
        },
{
    match event {
        LoadEvent::Pending => (state, LoadAction::Nothing),
        LoadEvent::Finished(Ok(())) => (
            LoadState { is_loading: false, show_loading: false, has_result: true, package_enabled: true },
            LoadAction::ShowResult,
        ),
        LoadEvent::Finished(Err(message)) => (
            LoadState { is_loading: false, show_loading: false, ..state },
            LoadAction::ShowError(message),
        ),
    }
}

/// Texts that come no later than each other are the same text.
pub proof fn lemma_text_le_antisymmetric(a: Seq<char>, b: Seq<char>)
    requires
        text_le(a, b),
        text_le(b, a),
    ensures
        a == b,
    decreases a.len(),
{
    if a.len() > 0 && b.len() > 0 {
        lemma_text_le_antisymmetric(a.drop_first(), b.drop_first());
        assert(a =~= seq![a[0]] + a.drop_first());
        assert(b =~= seq![b[0]] + b.drop_first());
    }
}

/// The rank of a component of a path among the kinds of components: the
/// root first, then `.`, then `..`, then names.
pub open spec fn component_rank(c: Seq<char>) -> int {
    if c == seq!['/'] {
        1
    } else if c == seq!['.'] {
        2
    } else if c == seq!['.', '.'] {
        3
    } else {
        4
    }
}

/// Component `a` comes before component `b`: by rank, and names of one rank
/// in the order of text.
pub open spec fn component_lt(a: Seq<char>, b: Seq<char>) -> bool {
    component_rank(a) < component_rank(b) || (component_rank(a) == component_rank(b) && a != b
        && text_le(a, b))
}

/// The components `a` come no later than the components `b`: the first
/// component where they differ decides, and a prefix comes first.
pub open spec fn components_le(a: Seq<Seq<char>>, b: Seq<Seq<char>>) -> bool
    decreases a.len(),
{
    if a.len() == 0 {
        true
    } else if b.len() == 0 {
        false
    } else if a[0] != b[0] {
        component_lt(a[0], b[0])
    } else {
        components_le(a.drop_first(), b.drop_first())
    }
}

/// Asset `a` is listed no later than asset `b` among the children of an
/// asset in the tree: by the components of their paths, and the lower
/// index first where those are the same.
pub open spec fn shown_before(g: GraphView, a: usize, b: usize) -> bool {
    let ka = ordered_components(g.nodes[a as int].path);
    let kb = ordered_components(g.nodes[b as int].path);
    if ka == kb {
        a <= b
    } else {
        components_le(ka, kb)
    }
}

/// The children of `x` that the tree lists below it: those with a node,
/// and, when `exclude_plugins`, not the plugins (the master files).
pub open spec fn shown_children(g: GraphView, x: usize, exclude_plugins: bool) -> Set<usize> {
    g.step(x, false).filter(
        |c: usize| c < g.nodes.len() && !(exclude_plugins && g.nodes[c as int].kind == Type::Plugin),
    )
}

proof fn lemma_component_lt_order(a: Seq<char>, b: Seq<char>, c: Seq<char>)
    ensures
        !component_lt(a, a),
        a != b ==> component_lt(a, b) || component_lt(b, a),
        component_lt(a, b) ==> !component_lt(b, a),
        component_lt(a, b) && component_lt(b, c) ==> component_lt(a, c),
{
    lemma_text_le_total(a, b);
    if text_le(a, b) && text_le(b, a) {
        lemma_text_le_antisymmetric(a, b);
    }
    if component_lt(a, b) && component_lt(b, c) && component_rank(a) == component_rank(c) {
        lemma_text_le_transitive(a, b, c);
        if a == c {
            lemma_text_le_antisymmetric(a, b);
        }
    }
}

proof fn lemma_components_le_order(a: Seq<Seq<char>>, b: Seq<Seq<char>>, c: Seq<Seq<char>>)
    ensures
        components_le(a, b) || components_le(b, a),
        components_le(a, b) && components_le(b, a) ==> a == b,
        components_le(a, b) && components_le(b, c) ==> components_le(a, c),
    decreases a.len(),
{
    if a.len() > 0 && b.len() > 0 {
        lemma_component_lt_order(a[0], b[0], c[0]);
        if c.len() > 0 {
            lemma_component_lt_order(a[0], c[0], b[0]);
            lemma_component_lt_order(b[0], a[0], c[0]);
            lemma_component_lt_order(b[0], c[0], a[0]);
        }
        lemma_components_le_order(a.drop_first(), b.drop_first(), c.drop_first());
        if a[0] == b[0] && a.drop_first() == b.drop_first() {
            assert(a =~= seq![a[0]] + a.drop_first());
            assert(b =~= seq![b[0]] + b.drop_first());
        }
    }
}

proof fn lemma_shown_before_order(g: GraphView, a: usize, b: usize, c: usize)
    ensures
        shown_before(g, a, b) || shown_before(g, b, a),
        shown_before(g, a, b) && shown_before(g, b, c) ==> shown_before(g, a, c),
{
    let ka = ordered_components(g.nodes[a as int].path);
    let kb = ordered_components(g.nodes[b as int].path);
    let kc = ordered_components(g.nodes[c as int].path);
    lemma_components_le_order(ka, kb, kc);
    lemma_components_le_order(kb, ka, kc);
    lemma_components_le_order(ka, kc, kb);
}

/// The rank of the component `c`.
fn rank_of(c: &str) -> (rank: u8)
    ensures
        rank == component_rank(c@),
{
    let len = c.unicode_len();
    proof {
        let v = c@;
        if v.len() == 1 {
            assert(v =~= seq![v[0]]);
        }
        if v.len() == 2 {
            assert(v =~= seq![v[0], v[1]]);
        }
    }
    if len == 1 && c.get_char(0) == '/' {
        1
    } else if len == 1 && c.get_char(0) == '.' {
        2
    } else if len == 2 && c.get_char(0) == '.' && c.get_char(1) == '.' {
        3
    } else {
        4
    }
}

/// Whether component `a` comes before component `b`.
fn component_before(a: &str, b: &str) -> (lt: bool)
    ensures
        lt == component_lt(a@, b@),
{
    let ra = rank_of(a);
    let rb = rank_of(b);
    if ra != rb {
        return ra < rb;
    }
    let ab = text_no_later(a, b);
    let ba = text_no_later(b, a);
    proof {
        if ab && ba {
            lemma_text_le_antisymmetric(a@, b@);
        }
    }
    ab && !ba
}

/// Whether the components `a` come no later than the components `b`.
fn components_no_later(a: &Vec<String>, b: &Vec<String>) -> (le: bool)
    ensures
        le == components_le(strings_view(a@), strings_view(b@)),
{
    let ghost va = strings_view(a@);
    let ghost vb = strings_view(b@);
    let mut i: usize = 0;
    while i < a.len()
        invariant
            va == strings_view(a@),
            vb == strings_view(b@),
            i <= a.len(),
            i <= b.len(),
            components_le(va, vb) == components_le(va.skip(i as int), vb.skip(i as int)),
        decreases a.len() - i,
    {
        if i == b.len() {
            return false;
        }
        assert(va.skip(i as int)[0] == a@[i as int]@ && vb.skip(i as int)[0] == b@[i as int]@);
        let lt = component_before(a[i].as_str(), b[i].as_str());
        if lt {
            return true;
        }
        let gt = component_before(b[i].as_str(), a[i].as_str());
        if gt {
            return false;
        }
        proof {
            lemma_component_lt_order(a@[i as int]@, b@[i as int]@, b@[i as int]@);
        }
        assert(va.skip(i as int).drop_first() =~= va.skip(i + 1));
        assert(vb.skip(i as int).drop_first() =~= vb.skip(i + 1));
        i += 1;
    }
    true
}

/// Whether the asset `a`, whose path has the components `ka`, is listed no
/// later than the asset `b`, whose path has the components `kb`.
fn listed_no_later(ka: &Vec<String>, a: usize, kb: &Vec<String>, b: usize) -> (le: bool)
    ensures
        le == (if strings_view(ka@) == strings_view(kb@) {
            a <= b
        } else {
            components_le(strings_view(ka@), strings_view(kb@))
        }),
{
    let ab = components_no_later(ka, kb);
    let ba = components_no_later(kb, ka);
    proof {
        lemma_components_le_order(strings_view(ka@), strings_view(kb@), strings_view(kb@));
    }
    if ab && ba {
        a <= b
    } else {
        ab
    }
}

/// The children of `parent` that the tree lists below it, in the order in
/// which it lists them: each child that has a node (a master file only
/// where `exclude_plugins` is off, as below the plugin itself), ordered by
/// the components of their paths.
pub fn tree_children(parent: &AssetRef, graph: &AssetGraph, exclude_plugins: bool) -> (shown: Vec<usize>)
    requires
        graph@.links_finite(),
    ensures
        shown@.no_duplicates(),
        shown@.to_set() == shown_children(graph@, parent.index, exclude_plugins),
        forall|i: int, j: int| 0 <= i < j < shown@.len() ==> shown_before(graph@, #[trigger] shown@[i], #[trigger] shown@[j]),
{
    let ghost g = graph@;
    let n = graph.nodes_by_index.len();
    let mut shown: Vec<usize> = Vec::new();
    if parent.index >= n {
        assert(shown_children(g, parent.index, exclude_plugins) =~= Set::<usize>::empty());
        assert(shown@.to_set() =~= Set::<usize>::empty());
        return shown;
    }
    let items = index_set_to_vec(&graph.nodes_by_index[parent.index].children);
    let ghost wanted = |c: usize| c < g.nodes.len() && !(exclude_plugins && g.nodes[c as int].kind == Type::Plugin);
    let mut keys: Vec<Vec<String>> = Vec::new();
    let mut i: usize = 0;
    assert(items@.take(0).to_set() =~= Set::<usize>::empty());
    assert(shown@.to_set() =~= Set::<usize>::empty());
    while i < items.len()
        invariant
            graph@ == g,
            n == g.nodes.len(),
            parent.index < n,
            items@.to_set() == g.step(parent.index, false),
            items@.no_duplicates(),
            wanted == (|c: usize| c < g.nodes.len() && !(exclude_plugins && g.nodes[c as int].kind == Type::Plugin)),
            i <= items.len(),
            keys.len() == shown.len(),
            forall|k: int| 0 <= k < shown@.len() ==> #[trigger] shown@[k] < n
                && strings_view(keys@[k]@) == ordered_components(g.nodes[shown@[k] as int].path),
            shown@.no_duplicates(),
            shown@.to_set() == items@.take(i as int).to_set().filter(wanted),
            forall|a: int, b: int| 0 <= a < b < shown@.len() ==> shown_before(g, #[trigger] shown@[a], #[trigger] shown@[b]),
        decreases items.len() - i,
    {
        let c = items[i];
        proof {
            items@.take(i as int).lemma_push_to_set_commute(c);
        }
        assert(items@.take(i + 1) =~= items@.take(i as int).push(c));
        let ghost prev_set = items@.take(i as int).to_set();
        assert(items@.take(i + 1).to_set() == prev_set.insert(c));
        let keep = c < n && !(exclude_plugins && graph.nodes_by_index[c].asset.kind == Type::Plugin);
        assert(c < n ==> graph.nodes_by_index@[c as int]@.kind == g.nodes[c as int].kind);
        assert(keep == wanted(c));
        if keep {
            let key = path_component_list(graph.nodes_by_index[c].asset.path.relative_path.as_str());
            let ghost before = shown@;
            let ghost keys_before = keys@;
            assert(!before.contains(c)) by {
                if before.contains(c) {
                    assert(before.to_set().contains(c));
                    assert(items@.take(i as int).to_set().contains(c));
                    let k = choose|k: int| 0 <= k < i && items@.take(i as int)[k] == c;
                    assert(items@[k] == items@[i as int]);
                }
            }
            let mut j: usize = 0;
            while j < shown.len() && listed_no_later(&keys[j], shown[j], &key, c)
                invariant
                    j <= shown.len(),
                    before == shown@,
                    keys_before == keys@,
                    keys.len() == shown.len(),
                    strings_view(key@) == ordered_components(g.nodes[c as int].path),
                    forall|k: int| 0 <= k < shown@.len() ==> #[trigger] shown@[k] < n
                        && strings_view(keys@[k]@) == ordered_components(g.nodes[shown@[k] as int].path),
                    forall|k: int| 0 <= k < j ==> shown_before(g, #[trigger] before[k], c),
                decreases shown.len() - j,
            {
                j += 1;
            }
            proof {
                if j < shown.len() {
                    lemma_shown_before_order(g, before[j as int], c, c);
                    assert(!shown_before(g, before[j as int], c));
                }
            }
            shown.insert(j, c);
            keys.insert(j, key);
            let ghost after = shown@;
            assert(after =~= before.insert(j as int, c));
            assert forall|a: int, b: int| 0 <= a < b < after.len() implies shown_before(g, #[trigger] after[a], #[trigger] after[b]) by {
                if a < j && b == j {
                } else if a < j && b > j {
                    assert(after[a] == before[a] && after[b] == before[b - 1]);
                } else if a == j {
                    assert(after[b] == before[b - 1]);
                    lemma_shown_before_order(g, c, before[j as int], before[j as int]);
                    if b - 1 > j {
                        assert(shown_before(g, before[j as int], before[b - 1]));
                        lemma_shown_before_order(g, c, before[j as int], before[b - 1]);
                    }
                } else if a > j {
                    assert(after[a] == before[a - 1] && after[b] == before[b - 1]);
                } else {
                    assert(after[a] == before[a] && after[b] == before[b]);
                }
            }
            assert forall|k: int| 0 <= k < shown@.len() implies #[trigger] shown@[k] < n
                && strings_view(keys@[k]@) == ordered_components(g.nodes[shown@[k] as int].path) by {
                if k < j {
                    assert(shown@[k] == before[k] && keys@[k] == keys_before[k]);
                } else if k > j {
                    assert(shown@[k] == before[k - 1] && keys@[k] == keys_before[k - 1]);
                }
            }
            assert(after.no_duplicates()) by {
                assert forall|a: int, b: int| 0 <= a < after.len() && 0 <= b < after.len() && a != b implies
                    after[a] != after[b] by {
                    if a != j && b != j {
                        let a0 = if a < j { a } else { a - 1 };
                        let b0 = if b < j { b } else { b - 1 };
                        assert(after[a] == before[a0] && after[b] == before[b0]);
                    } else if a == j {
                        let b0 = if b < j { b } else { b - 1 };
                        assert(after[b] == before[b0]);
                    } else {
                        let a0 = if a < j { a } else { a - 1 };
                        assert(after[a] == before[a0]);
                    }
                }
            }
            assert(after.to_set() =~= before.to_set().insert(c)) by {
                assert forall|x: usize| after.to_set().contains(x) implies before.to_set().insert(c).contains(x) by {
                    let k = choose|k: int| 0 <= k < after.len() && after[k] == x;
                    if k < j {
                        assert(before[k] == x);
                    } else if k > j {
                        assert(before[k - 1] == x);
                    }
                }
                assert forall|x: usize| before.to_set().insert(c).contains(x) implies after.to_set().contains(x) by {
                    if x == c {
                        assert(after[j as int] == c);
                    } else {
                        let k = choose|k: int| 0 <= k < before.len() && before[k] == x;
                        if k < j {
                            assert(after[k] == x);
                        } else {
                            assert(after[k + 1] == x);
                        }
                    }
                }
            }
            assert(shown@.to_set() =~= items@.take(i + 1).to_set().filter(wanted));
        } else {
            assert(shown@.to_set() =~= items@.take(i + 1).to_set().filter(wanted));
        }
        i += 1;
    }
    assert(items@.take(items.len() as int) =~= items@);
    assert(shown_children(g, parent.index, exclude_plugins) =~= items@.to_set().filter(wanted));
    shown
}

/// Components order as `std::path::Component` does: the root before `.`,
/// `.` before `..`, `..` before every name, and names by the order of text.
pub proof fn law_component_order(a: Seq<char>, b: Seq<char>)
    ensures
        component_lt(seq!['/'], seq!['.']),
        component_lt(seq!['.'], seq!['.', '.']),
        a != seq!['/'] && a != seq!['.'] && a != seq!['.', '.'] ==> component_lt(seq!['.', '.'], a),
        a != seq!['/'] && a != seq!['.'] && a != seq!['.', '.'] && b != seq!['/'] && b != seq!['.']
            && b != seq!['.', '.'] ==> (component_lt(a, b) <==> a != b && text_le(a, b)),
        !component_lt(a, a),
{
    assert(seq!['/'] != seq!['.']) by {
        assert(seq!['/'][0] != seq!['.'][0]);
    }
    assert(seq!['.'] != seq!['.', '.']) by {
        assert(seq!['.'].len() != seq!['.', '.'].len());
    }
    assert(seq!['/'] != seq!['.', '.']) by {
        assert(seq!['/'].len() != seq!['.', '.'].len());
    }
}

/// Where the controls stand in a window of at least 256 by 96 (and at most
/// `i32::MAX` each way, where positions fit): the tree and
/// the file list fill the width but for a margin on each side and reach
/// down to the top of the buttons; the buttons stand a margin above the bottom edge; the
/// cancel button ends a margin before the right edge, with the package
/// button a margin to its left; and while loading the lists start below
/// the loading bar.
pub proof fn law_layout_fills_the_window(width: u32, height: u32, is_loading: bool)
    requires
        256 <= width <= i32::MAX,
        96 <= height <= i32::MAX,
    ensures
        ({
            let l = layout_of(width, height, is_loading);
            &&& l.tree.x == MARGIN && l.tree.x + l.tree.width + MARGIN == width
            &&& l.tree.y + l.tree.height == l.cancel_button.1
            &&& l.tree.y == MARGIN + (if is_loading { 48int } else { 0int })
            &&& l.file_list == l.tree
            &&& l.cancel_button.1 + BUTTON_HEIGHT + MARGIN == height
            &&& l.cancel_button.0 + BUTTON_WIDTH + MARGIN == width
            &&& l.package_button.0 + BUTTON_WIDTH + MARGIN == l.cancel_button.0
            &&& l.package_button.1 == l.cancel_button.1
            &&& l.tree_view_button == (MARGIN as i32, l.cancel_button.1)
            &&& l.loading_label.x == MARGIN && l.loading_label.width == l.tree.width
        }),
{
}

/// Paths order by their components as `std::path::Path` does: where two
/// lists of components agree on their first `k` and differ at the next,
/// that component decides; a list comes no later than every list it
/// begins.
pub proof fn law_components_order(a: Seq<Seq<char>>, b: Seq<Seq<char>>, k: int)
    requires
        0 <= k <= a.len(),
        k <= b.len(),
        a.take(k) == b.take(k),
    ensures
        k < a.len() && k < b.len() && a[k] != b[k] ==> (components_le(a, b) <==> component_lt(a[k], b[k])),
        k == a.len() ==> components_le(a, b),
    decreases k,
{
    if k > 0 {
        assert(a[0] == a.take(k)[0] && b[0] == b.take(k)[0]);
        assert(a.drop_first().take(k - 1) =~= a.take(k).drop_first());
        assert(b.drop_first().take(k - 1) =~= b.take(k).drop_first());
        law_components_order(a.drop_first(), b.drop_first(), k - 1);
        if k < a.len() {
            assert(a.drop_first()[k - 1] == a[k]);
        }
        if k < b.len() {
            assert(b.drop_first()[k - 1] == b[k]);
        }
    }
}

} // verus!
