//! The layout tree: the recursive node type describing nested splits, its
//! floating-pane sibling, and the operations that read and reshape a tree.

use vstd::prelude::*;

use crate::geometry::{PercentOrFixed, SplitDirection, SplitSize};
use crate::run::{add_cwd_spec, clone_opt_run, clone_opt_string, Run, RunView};

verus! {

/// A node of the layout tree.  A node with an empty `children` list is a
/// leaf and maps to one on-screen pane; an internal node only groups its
/// children and never produces a pane of its own.
#[derive(Debug, PartialEq, Eq)]
pub struct TiledPaneLayout {
    pub children_split_direction: SplitDirection,
    pub name: Option<String>,
    pub children: Vec<TiledPaneLayout>,
    pub split_size: Option<SplitSize>,
    pub run: Option<Run>,
    pub borderless: bool,
    pub focus: Option<bool>,
    pub external_children_index: Option<usize>,
    pub children_are_stacked: bool,
}

/// The mathematical shape of a layout tree node.
#[verifier::ext_equal]
pub struct TiledPaneLayoutView {
    pub children_split_direction: SplitDirection,
    pub name: Option<Seq<char>>,
    pub children: Seq<TiledPaneLayoutView>,
    pub split_size: Option<SplitSize>,
    pub run: Option<RunView>,
    pub borderless: bool,
    pub focus: Option<bool>,
    pub external_children_index: Option<usize>,
    pub children_are_stacked: bool,
}

/// The view of a layout tree: every field abstracted, children recursively.
pub open spec fn tree_view(t: TiledPaneLayout) -> TiledPaneLayoutView
    decreases t,
{
    TiledPaneLayoutView {
        children_split_direction: t.children_split_direction,
        name: t.name.deep_view(),
        children: tree_views(t.children@),
        split_size: t.split_size,
        run: t.run.deep_view(),
        borderless: t.borderless,
        focus: t.focus,
        external_children_index: t.external_children_index,
        children_are_stacked: t.children_are_stacked,
    }
}

/// The views of a sequence of layout trees, element by element.
pub open spec fn tree_views(s: Seq<TiledPaneLayout>) -> Seq<TiledPaneLayoutView>
    decreases s,
{
    Seq::new(
        s.len(),
        |i: int|
            if 0 <= i < s.len() {
                tree_view(s[i])
            } else {
                default_tiled_view()
            },
    )
}

impl DeepView for TiledPaneLayout {
    type V = TiledPaneLayoutView;

    open spec fn deep_view(&self) -> TiledPaneLayoutView {
        tree_view(*self)
    }
}

/// The view of an empty leaf node, as `TiledPaneLayout::default` builds it.
pub open spec fn default_tiled_view() -> TiledPaneLayoutView {
    TiledPaneLayoutView {
        children_split_direction: SplitDirection::Horizontal,
        name: None,
        children: Seq::empty(),
        split_size: None,
        run: None,
        borderless: false,
        focus: None,
        external_children_index: None,
        children_are_stacked: false,
    }
}

/// Number of leaves of the tree: a childless node counts as one pane,
/// an internal node only sums its children.
pub open spec fn pane_count(v: TiledPaneLayoutView) -> nat
    decreases v,
{
    if v.children.len() == 0 {
        1
    } else {
        pane_count_seq(v.children)
    }
}

pub open spec fn pane_count_seq(s: Seq<TiledPaneLayoutView>) -> nat
    decreases s,
{
    if s.len() == 0 {
        0
    } else {
        pane_count(s[0]) + pane_count_seq(s.drop_first())
    }
}

/// The leaves of the tree in depth-first, pre-order, child-list order.
pub open spec fn leaves(v: TiledPaneLayoutView) -> Seq<TiledPaneLayoutView>
    decreases v,
{
    if v.children.len() == 0 {
        seq![v]
    } else {
        leaves_seq(v.children)
    }
}

pub open spec fn leaves_seq(s: Seq<TiledPaneLayoutView>) -> Seq<TiledPaneLayoutView>
    decreases s,
{
    if s.len() == 0 {
        Seq::empty()
    } else {
        leaves(s[0]) + leaves_seq(s.drop_first())
    }
}

/// Depth of the tree: a leaf has depth one.
pub open spec fn depth(v: TiledPaneLayoutView) -> nat
    decreases v,
{
    max_child_depth(v.children) + 1
}

pub open spec fn max_child_depth(s: Seq<TiledPaneLayoutView>) -> nat
    decreases s,
{
    if s.len() == 0 {
        0
    } else if depth(s[0]) >= max_child_depth(s.drop_first()) {
        depth(s[0])
    } else {
        max_child_depth(s.drop_first())
    }
}

/// Whether this node or any descendant is marked focused.
pub open spec fn has_focused(v: TiledPaneLayoutView) -> bool
    decreases v,
{
    v.focus == Some(true) || any_focused(v.children)
}

pub open spec fn any_focused(s: Seq<TiledPaneLayoutView>) -> bool
    decreases s,
{
    s.len() > 0 && (has_focused(s[0]) || any_focused(s.drop_first()))
}

/// Number of unresolved external-children markers in the subtree.
pub open spec fn block_count(v: TiledPaneLayoutView) -> nat
    decreases v,
{
    (if v.external_children_index is Some {
        1nat
    } else {
        0nat
    }) + block_count_seq(v.children)
}

pub open spec fn block_count_seq(s: Seq<TiledPaneLayoutView>) -> nat
    decreases s,
{
    if s.len() == 0 {
        0
    } else {
        block_count(s[0]) + block_count_seq(s.drop_first())
    }
}

/// Every external-children marker points at most one past the end of its
/// node's child list, so splicing at the marker is always possible.
pub open spec fn markers_wf(v: TiledPaneLayoutView) -> bool
    decreases v,
{
    &&& (match v.external_children_index {
        Some(i) => i <= v.children.len(),
        None => true,
    })
    &&& markers_wf_seq(v.children)
}

pub open spec fn markers_wf_seq(s: Seq<TiledPaneLayoutView>) -> bool
    decreases s,
{
    s.len() == 0 || (markers_wf(s[0]) && markers_wf_seq(s.drop_first()))
}

/// How many of the given (leaf) nodes are marked focused.
pub open spec fn count_focused(s: Seq<TiledPaneLayoutView>) -> nat
    decreases s.len(),
{
    if s.len() == 0 {
        0
    } else {
        (if s[0].focus == Some(true) {
            1nat
        } else {
            0nat
        }) + count_focused(s.drop_first())
    }
}

// ------------------------------------------------------------------
// Decomposition lemmas for the sequence-level spec functions.
// ------------------------------------------------------------------

pub proof fn lemma_pane_count_seq_split(s: Seq<TiledPaneLayoutView>, i: int)
    requires
        0 <= i <= s.len(),
    ensures
        pane_count_seq(s) == pane_count_seq(s.take(i)) + pane_count_seq(s.skip(i)),
    decreases i,
{
    if i == 0 {
        assert(s.take(0) =~= Seq::<TiledPaneLayoutView>::empty());
        assert(s.skip(0) =~= s);
    } else {
        lemma_pane_count_seq_split(s.drop_first(), i - 1);
        assert(s.take(i).drop_first() =~= s.drop_first().take(i - 1));
        assert(s.take(i)[0] == s[0]);
        assert(s.skip(i) =~= s.drop_first().skip(i - 1));
    }
}

pub proof fn lemma_pane_count_seq_take_succ(s: Seq<TiledPaneLayoutView>, i: int)
    requires
        0 <= i < s.len(),
    ensures
        pane_count_seq(s.take(i + 1)) == pane_count_seq(s.take(i)) + pane_count(s[i]),
        pane_count_seq(s.take(i)) + pane_count(s[i]) <= pane_count_seq(s),
    decreases s.len(),
{
    lemma_pane_count_seq_split(s, i);
    lemma_pane_count_seq_split(s, i + 1);
    let one = s.skip(i).take(1);
    assert(s.take(i + 1) =~= s.take(i) + one);
    lemma_pane_count_seq_split(s.take(i + 1), i);
    assert(s.take(i + 1).take(i) =~= s.take(i));
    assert(s.take(i + 1).skip(i) =~= one);
    assert(one.drop_first() =~= Seq::<TiledPaneLayoutView>::empty());
    assert(one[0] == s[i]);
    assert(one.len() == 1);
    assert(pane_count_seq(one) == pane_count(one[0]) + pane_count_seq(one.drop_first()));
    assert(pane_count_seq(one.drop_first()) == 0);
    assert(pane_count_seq(one) == pane_count(s[i]));
}

pub proof fn lemma_pane_count_pos(v: TiledPaneLayoutView)
    ensures
        pane_count(v) >= 1,
    decreases v,
{
    if v.children.len() > 0 {
        lemma_pane_count_seq_pos(v.children);
    }
}

pub proof fn lemma_pane_count_seq_pos(s: Seq<TiledPaneLayoutView>)
    requires
        s.len() > 0,
    ensures
        pane_count_seq(s) >= 1,
    decreases s,
{
    lemma_pane_count_pos(s[0]);
}

pub proof fn lemma_leaves_seq_split(s: Seq<TiledPaneLayoutView>, i: int)
    requires
        0 <= i <= s.len(),
    ensures
        leaves_seq(s) == leaves_seq(s.take(i)) + leaves_seq(s.skip(i)),
    decreases i,
{
    if i == 0 {
        assert(s.take(0) =~= Seq::<TiledPaneLayoutView>::empty());
        assert(s.skip(0) =~= s);
        assert(leaves_seq(s) =~= leaves_seq(s.take(0)) + leaves_seq(s.skip(0)));
    } else {
        lemma_leaves_seq_split(s.drop_first(), i - 1);
        assert(s.take(i).drop_first() =~= s.drop_first().take(i - 1));
        assert(s.take(i)[0] == s[0]);
        assert(s.skip(i) =~= s.drop_first().skip(i - 1));
        assert(leaves_seq(s) =~= leaves_seq(s.take(i)) + leaves_seq(s.skip(i)));
    }
}

pub proof fn lemma_leaves_seq_take_succ(s: Seq<TiledPaneLayoutView>, i: int)
    requires
        0 <= i < s.len(),
    ensures
        leaves_seq(s.take(i + 1)) == leaves_seq(s.take(i)) + leaves(s[i]),
    decreases s.len(),
{
    let one = s.skip(i).take(1);
    assert(s.take(i + 1) =~= s.take(i) + one);
    lemma_leaves_seq_split(s.take(i + 1), i);
    assert(s.take(i + 1).take(i) =~= s.take(i));
    assert(s.take(i + 1).skip(i) =~= one);
    assert(one.drop_first() =~= Seq::<TiledPaneLayoutView>::empty());
    assert(one[0] == s[i]);
    assert(one.len() == 1);
    assert(leaves_seq(one) == leaves(one[0]) + leaves_seq(one.drop_first()));
    assert(leaves_seq(one.drop_first()) == Seq::<TiledPaneLayoutView>::empty());
    assert(leaves_seq(one) =~= leaves(s[i]));
}

/// A tree has as many leaves as its pane count says.
pub proof fn lemma_leaves_len(v: TiledPaneLayoutView)
    ensures
        leaves(v).len() == pane_count(v),
    decreases v,
{
    if v.children.len() > 0 {
        lemma_leaves_seq_len(v.children);
    }
}

pub proof fn lemma_leaves_seq_len(s: Seq<TiledPaneLayoutView>)
    ensures
        leaves_seq(s).len() == pane_count_seq(s),
    decreases s,
{
    if s.len() > 0 {
        lemma_leaves_len(s[0]);
        lemma_leaves_seq_len(s.drop_first());
    }
}

pub proof fn lemma_max_child_depth_ge(s: Seq<TiledPaneLayoutView>, i: int)
    requires
        0 <= i < s.len(),
    ensures
        max_child_depth(s) >= depth(s[i]),
    decreases s.len(),
{
    if i > 0 {
        lemma_max_child_depth_ge(s.drop_first(), i - 1);
    }
}

pub proof fn lemma_max_child_depth_take_succ(s: Seq<TiledPaneLayoutView>, i: int)
    requires
        0 <= i < s.len(),
    ensures
        max_child_depth(s.take(i + 1)) == (if depth(s[i]) >= max_child_depth(s.take(i)) {
            depth(s[i])
        } else {
            max_child_depth(s.take(i))
        }),
    decreases i,
{
    if i == 0 {
        assert(s.take(1).drop_first() =~= Seq::<TiledPaneLayoutView>::empty());
        assert(s.take(1)[0] == s[0]);
        assert(s.take(0) =~= Seq::<TiledPaneLayoutView>::empty());
    } else {
        lemma_max_child_depth_take_succ(s.drop_first(), i - 1);
        assert(s.take(i + 1).drop_first() =~= s.drop_first().take(i));
        assert(s.take(i).drop_first() =~= s.drop_first().take(i - 1));
        assert(s.take(i + 1)[0] == s[0]);
        assert(s.take(i)[0] == s[0]);
        assert(s.drop_first()[i - 1] == s[i]);
    }
}

pub proof fn lemma_max_child_depth_le(s: Seq<TiledPaneLayoutView>, bound: int)
    requires
        forall|i: int| 0 <= i < s.len() ==> depth(#[trigger] s[i]) <= bound,
        bound >= 0,
    ensures
        max_child_depth(s) <= bound,
    decreases s.len(),
{
    if s.len() > 0 {
        assert(forall|i: int|
            0 <= i < s.drop_first().len() ==> depth(#[trigger] s.drop_first()[i]) <= bound);
        lemma_max_child_depth_le(s.drop_first(), bound);
    }
}

pub proof fn lemma_any_focused_exists(s: Seq<TiledPaneLayoutView>)
    ensures
        any_focused(s) <==> exists|i: int| 0 <= i < s.len() && has_focused(#[trigger] s[i]),
    decreases s.len(),
{
    if s.len() > 0 {
        lemma_any_focused_exists(s.drop_first());
        if any_focused(s.drop_first()) {
            let j = choose|j: int|
                0 <= j < s.drop_first().len() && has_focused(#[trigger] s.drop_first()[j]);
            assert(s[j + 1] == s.drop_first()[j]);
        }
        if exists|i: int| 0 <= i < s.len() && has_focused(#[trigger] s[i]) {
            let i = choose|i: int| 0 <= i < s.len() && has_focused(#[trigger] s[i]);
            if i > 0 {
                assert(s.drop_first()[i - 1] == s[i]);
            }
        }
    }
}

pub proof fn lemma_block_count_seq_take_succ(s: Seq<TiledPaneLayoutView>, i: int)
    requires
        0 <= i < s.len(),
    ensures
        block_count_seq(s.take(i + 1)) == block_count_seq(s.take(i)) + block_count(s[i]),
        block_count_seq(s.take(i)) + block_count(s[i]) <= block_count_seq(s),
    decreases s.len(),
{
    lemma_block_count_seq_split(s, i + 1);
    let one = s.skip(i).take(1);
    assert(s.take(i + 1) =~= s.take(i) + one);
    lemma_block_count_seq_split(s.take(i + 1), i);
    assert(s.take(i + 1).take(i) =~= s.take(i));
    assert(s.take(i + 1).skip(i) =~= one);
    assert(one.drop_first() =~= Seq::<TiledPaneLayoutView>::empty());
    assert(one[0] == s[i]);
    assert(one.len() == 1);
    assert(block_count_seq(one) == block_count(one[0]) + block_count_seq(one.drop_first()));
    assert(block_count_seq(one.drop_first()) == 0);
    assert(block_count_seq(one) == block_count(s[i]));
}

pub proof fn lemma_block_count_seq_split(s: Seq<TiledPaneLayoutView>, i: int)
    requires
        0 <= i <= s.len(),
    ensures
        block_count_seq(s) == block_count_seq(s.take(i)) + block_count_seq(s.skip(i)),
    decreases i,
{
    if i == 0 {
        assert(s.take(0) =~= Seq::<TiledPaneLayoutView>::empty());
        assert(s.skip(0) =~= s);
    } else {
        lemma_block_count_seq_split(s.drop_first(), i - 1);
        assert(s.take(i).drop_first() =~= s.drop_first().take(i - 1));
        assert(s.take(i)[0] == s[0]);
        assert(s.skip(i) =~= s.drop_first().skip(i - 1));
    }
}

/// The index `focus_deepest_pane` descends into: the last child whose
/// subtree is deepest.
pub open spec fn deepest_child_index(s: Seq<TiledPaneLayoutView>) -> int
    decreases s.len(),
{
    if s.len() <= 1 {
        0
    } else {
        let rest = deepest_child_index(s.drop_last());
        if depth(s.last()) >= depth(s[rest]) {
            s.len() - 1
        } else {
            rest
        }
    }
}

pub proof fn lemma_deepest_child_index_bounds(s: Seq<TiledPaneLayoutView>)
    requires
        s.len() > 0,
    ensures
        0 <= deepest_child_index(s) < s.len(),
    decreases s.len(),
{
    if s.len() > 1 {
        lemma_deepest_child_index_bounds(s.drop_last());
    }
}

pub proof fn lemma_deepest_child_index_take_succ(s: Seq<TiledPaneLayoutView>, i: int)
    requires
        0 <= i < s.len(),
    ensures
        deepest_child_index(s.take(i + 1)) == (if i == 0 {
            0
        } else if depth(s[i]) >= depth(s.take(i)[deepest_child_index(s.take(i))]) {
            i
        } else {
            deepest_child_index(s.take(i))
        }),
    decreases i,
{
    if i > 0 {
        assert(s.take(i + 1).drop_last() =~= s.take(i));
        assert(s.take(i + 1).last() == s[i]);
        lemma_deepest_child_index_bounds(s.take(i));
        let rest = deepest_child_index(s.take(i));
        assert(s.take(i + 1)[rest] == s.take(i)[rest]);
    }
}

/// What `focus_deepest_pane` yields: descend into the last deepest child
/// until a leaf is reached, and mark that leaf focused.
pub open spec fn focus_deepest(v: TiledPaneLayoutView) -> TiledPaneLayoutView
    decreases v,
{
    if v.children.len() == 0 {
        TiledPaneLayoutView { focus: Some(true), ..v }
    } else {
        let di0 = deepest_child_index(v.children);
        let di = if 0 <= di0 < v.children.len() {
            di0
        } else {
            0
        };
        TiledPaneLayoutView { children: v.children.update(di, focus_deepest(v.children[di])), ..v }
    }
}

/// What `add_cwd_to_layout` yields: every node's run instruction resolved
/// against `cwd`, a missing instruction replaced by the bare directory.
pub open spec fn add_cwd_tree(v: TiledPaneLayoutView, cwd: Seq<char>) -> TiledPaneLayoutView
    decreases v,
{
    TiledPaneLayoutView {
        run: match v.run {
            Some(r) => Some(add_cwd_spec(r, cwd)),
            None => Some(RunView::Cwd(cwd)),
        },
        children: add_cwd_children(v.children, cwd),
        ..v
    }
}

pub open spec fn add_cwd_children(s: Seq<TiledPaneLayoutView>, cwd: Seq<char>) -> Seq<
    TiledPaneLayoutView,
>
    decreases s,
{
    Seq::new(
        s.len(),
        |i: int|
            if 0 <= i < s.len() {
                add_cwd_tree(s[i], cwd)
            } else {
                default_tiled_view()
            },
    )
}

/// Whether the subtree holds an unresolved external-children marker.
pub open spec fn has_marker(v: TiledPaneLayoutView) -> bool
    decreases v,
{
    v.external_children_index is Some || any_marker(v.children)
}

pub open spec fn any_marker(s: Seq<TiledPaneLayoutView>) -> bool
    decreases s,
{
    s.len() > 0 && (has_marker(s[0]) || any_marker(s.drop_first()))
}

/// What `insert_children_layout` yields on a tree that holds a marker:
/// `node` is inserted into the child list of the first marked node found in
/// depth-first pre-order, at the marked index, and that marker is cleared.
pub open spec fn splice_layout(v: TiledPaneLayoutView, node: TiledPaneLayoutView) -> (
    TiledPaneLayoutView
)
    decreases v, 1int,
{
    match v.external_children_index {
        Some(idx) => TiledPaneLayoutView {
            children: v.children.insert(idx as int, node),
            external_children_index: None,
            ..v
        },
        None => TiledPaneLayoutView { children: splice_layout_seq(v.children, node), ..v },
    }
}

pub open spec fn splice_layout_seq(
    s: Seq<TiledPaneLayoutView>,
    node: TiledPaneLayoutView,
) -> Seq<TiledPaneLayoutView>
    decreases s, 0int,
{
    if s.len() == 0 {
        s
    } else if has_marker(s[0]) {
        seq![splice_layout(s[0], node)] + s.drop_first()
    } else {
        seq![s[0]] + splice_layout_seq(s.drop_first(), node)
    }
}

/// What `insert_children_nodes` yields on a tree that holds a marker: the
/// nodes are spliced, in their given order, into the child list of the
/// first marked node found in depth-first pre-order, at the marked index.
pub open spec fn splice_nodes(v: TiledPaneLayoutView, nodes: Seq<TiledPaneLayoutView>) -> (
    TiledPaneLayoutView
)
    decreases v, 1int,
{
    match v.external_children_index {
        Some(idx) => TiledPaneLayoutView {
            children: v.children.take(idx as int) + nodes + v.children.skip(idx as int),
            external_children_index: None,
            ..v
        },
        None => TiledPaneLayoutView { children: splice_nodes_seq(v.children, nodes), ..v },
    }
}

pub open spec fn splice_nodes_seq(
    s: Seq<TiledPaneLayoutView>,
    nodes: Seq<TiledPaneLayoutView>,
) -> Seq<TiledPaneLayoutView>
    decreases s, 0int,
{
    if s.len() == 0 {
        s
    } else if has_marker(s[0]) {
        seq![splice_nodes(s[0], nodes)] + s.drop_first()
    } else {
        seq![s[0]] + splice_nodes_seq(s.drop_first(), nodes)
    }
}

pub proof fn lemma_any_marker_exists(s: Seq<TiledPaneLayoutView>)
    ensures
        any_marker(s) <==> exists|i: int| 0 <= i < s.len() && has_marker(#[trigger] s[i]),
    decreases s.len(),
{
    if s.len() > 0 {
        lemma_any_marker_exists(s.drop_first());
        if any_marker(s.drop_first()) {
            let j = choose|j: int|
                0 <= j < s.drop_first().len() && has_marker(#[trigger] s.drop_first()[j]);
            assert(s[j + 1] == s.drop_first()[j]);
        }
        if exists|i: int| 0 <= i < s.len() && has_marker(#[trigger] s[i]) {
            let i = choose|i: int| 0 <= i < s.len() && has_marker(#[trigger] s[i]);
            if i > 0 {
                assert(s.drop_first()[i - 1] == s[i]);
            }
        }
    }
}

pub proof fn lemma_markers_wf_seq_elt(s: Seq<TiledPaneLayoutView>, i: int)
    requires
        markers_wf_seq(s),
        0 <= i < s.len(),
    ensures
        markers_wf(s[i]),
    decreases s.len(),
{
    if i > 0 {
        lemma_markers_wf_seq_elt(s.drop_first(), i - 1);
    }
}

/// Where the first marked child sits, splicing rewrites that child alone.
pub proof fn lemma_splice_layout_seq_first(
    s: Seq<TiledPaneLayoutView>,
    node: TiledPaneLayoutView,
    i: int,
)
    requires
        0 <= i < s.len(),
        forall|j: int| 0 <= j < i ==> !has_marker(#[trigger] s[j]),
        has_marker(s[i]),
    ensures
        splice_layout_seq(s, node) == s.take(i) + seq![splice_layout(s[i], node)] + s.skip(i + 1),
    decreases i,
{
    if i == 0 {
        assert(splice_layout_seq(s, node) =~= s.take(0) + seq![splice_layout(s[0], node)] + s.skip(
            1,
        ));
    } else {
        lemma_splice_layout_seq_first(s.drop_first(), node, i - 1);
        assert(s.drop_first()[i - 1] == s[i]);
        assert(forall|j: int| 0 <= j < i - 1 ==> s.drop_first()[j] == s[j + 1]);
        assert(s.drop_first().take(i - 1) =~= s.take(i).drop_first());
        assert(s.drop_first().skip(i) =~= s.skip(i + 1));
        assert(splice_layout_seq(s, node) =~= s.take(i) + seq![splice_layout(s[i], node)] + s.skip(
            i + 1,
        ));
    }
}

pub proof fn lemma_splice_nodes_seq_first(
    s: Seq<TiledPaneLayoutView>,
    nodes: Seq<TiledPaneLayoutView>,
    i: int,
)
    requires
        0 <= i < s.len(),
        forall|j: int| 0 <= j < i ==> !has_marker(#[trigger] s[j]),
        has_marker(s[i]),
    ensures
        splice_nodes_seq(s, nodes) == s.take(i) + seq![splice_nodes(s[i], nodes)] + s.skip(i + 1),
    decreases i,
{
    if i == 0 {
        assert(splice_nodes_seq(s, nodes) =~= s.take(0) + seq![splice_nodes(s[0], nodes)] + s.skip(
            1,
        ));
    } else {
        lemma_splice_nodes_seq_first(s.drop_first(), nodes, i - 1);
        assert(s.drop_first()[i - 1] == s[i]);
        assert(forall|j: int| 0 <= j < i - 1 ==> s.drop_first()[j] == s[j + 1]);
        assert(s.drop_first().take(i - 1) =~= s.take(i).drop_first());
        assert(s.drop_first().skip(i) =~= s.skip(i + 1));
        assert(splice_nodes_seq(s, nodes) =~= s.take(i) + seq![splice_nodes(s[i], nodes)] + s.skip(
            i + 1,
        ));
    }
}

/// A node with its subtree dropped: the children list emptied, every other
/// field kept.
pub open spec fn clear_children(v: TiledPaneLayoutView) -> TiledPaneLayoutView {
    TiledPaneLayoutView { children: Seq::empty(), ..v }
}

/// How many direct children are already leaves.
pub open spec fn leaf_child_count(s: Seq<TiledPaneLayoutView>) -> int
    decreases s.len(),
{
    if s.len() == 0 {
        0
    } else {
        (if s[0].children.len() == 0 {
            1int
        } else {
            0int
        }) + leaf_child_count(s.drop_first())
    }
}

pub open spec fn sat_sub(a: int, b: int) -> int {
    if a - b < 0 {
        0
    } else {
        a - b
    }
}

/// What `truncate` yields.  A budget of at most one drops the whole
/// subtree.  A budget within the direct-child count keeps that many
/// children, each forced to a leaf.  A larger budget is distributed
/// greedily over the children that have subtrees, in order, each consuming
/// what its own truncation reports.
pub open spec fn truncate_spec(v: TiledPaneLayoutView, max: int) -> TiledPaneLayoutView
    decreases v, 1int,
{
    if max <= 1 {
        clear_children(v)
    } else if max <= v.children.len() {
        TiledPaneLayoutView {
            children: v.children.take(max).map(|i: int, c: TiledPaneLayoutView| clear_children(c)),
            ..v
        }
    } else {
        TiledPaneLayoutView {
            children: truncate_children_spec(v.children, max - leaf_child_count(v.children)),
            ..v
        }
    }
}

pub open spec fn truncate_children_spec(s: Seq<TiledPaneLayoutView>, remaining: int) -> Seq<
    TiledPaneLayoutView,
>
    decreases s, 0int,
{
    if s.len() == 0 {
        s
    } else if remaining > 1 && s[0].children.len() > 0 {
        let t = truncate_spec(s[0], remaining);
        let consumed = if t.children.len() > 0 {
            t.children.len() as int
        } else {
            1int
        };
        seq![t] + truncate_children_spec(s.drop_first(), sat_sub(remaining, consumed))
    } else {
        seq![clear_children(s[0])] + truncate_children_spec(s.drop_first(), remaining)
    }
}

/// What `truncate` reports: the resulting direct-child count, or one for a
/// node that came out a leaf.
pub open spec fn truncate_ret(v: TiledPaneLayoutView, max: int) -> int {
    let t = truncate_spec(v, max);
    if t.children.len() > 0 {
        t.children.len() as int
    } else {
        1
    }
}

pub proof fn lemma_leaf_child_count_take_succ(s: Seq<TiledPaneLayoutView>, i: int)
    requires
        0 <= i < s.len(),
    ensures
        leaf_child_count(s.take(i + 1)) == leaf_child_count(s.take(i)) + (if s[i].children.len()
            == 0 {
            1int
        } else {
            0int
        }),
    decreases i,
{
    if i == 0 {
        assert(s.take(1).drop_first() =~= Seq::<TiledPaneLayoutView>::empty());
        assert(s.take(1)[0] == s[0]);
        assert(s.take(0) =~= Seq::<TiledPaneLayoutView>::empty());
    } else {
        lemma_leaf_child_count_take_succ(s.drop_first(), i - 1);
        assert(s.take(i + 1).drop_first() =~= s.drop_first().take(i));
        assert(s.take(i).drop_first() =~= s.drop_first().take(i - 1));
        assert(s.take(i + 1)[0] == s[0]);
        assert(s.take(i)[0] == s[0]);
        assert(s.drop_first()[i - 1] == s[i]);
    }
}

pub proof fn lemma_leaf_child_count_bounds(s: Seq<TiledPaneLayoutView>)
    ensures
        0 <= leaf_child_count(s) <= s.len(),
    decreases s.len(),
{
    if s.len() > 0 {
        lemma_leaf_child_count_bounds(s.drop_first());
    }
}

pub proof fn lemma_leaves_seq_singleton(x: TiledPaneLayoutView)
    ensures
        leaves_seq(seq![x]) == leaves(x),
{
    assert(seq![x][0] == x);
    assert(seq![x].drop_first() =~= Seq::<TiledPaneLayoutView>::empty());
    assert(leaves_seq(seq![x]) == leaves(x) + leaves_seq(Seq::<TiledPaneLayoutView>::empty()));
    assert(leaves(x) + leaves_seq(Seq::<TiledPaneLayoutView>::empty()) =~= leaves(x));
}

pub proof fn lemma_count_focused_singleton(x: TiledPaneLayoutView)
    ensures
        count_focused(seq![x]) == (if x.focus == Some(true) {
            1int
        } else {
            0int
        }),
{
    assert(seq![x][0] == x);
    assert(seq![x].drop_first() =~= Seq::<TiledPaneLayoutView>::empty());
    assert(count_focused(Seq::<TiledPaneLayoutView>::empty()) == 0);
}

pub proof fn lemma_count_focused_concat(a: Seq<TiledPaneLayoutView>, b: Seq<TiledPaneLayoutView>)
    ensures
        count_focused(a + b) == count_focused(a) + count_focused(b),
    decreases a.len(),
{
    if a.len() == 0 {
        assert(a + b =~= b);
    } else {
        assert((a + b)[0] == a[0]);
        assert((a + b).drop_first() =~= a.drop_first() + b);
        lemma_count_focused_concat(a.drop_first(), b);
    }
}

pub proof fn lemma_leaves_seq_concat(a: Seq<TiledPaneLayoutView>, b: Seq<TiledPaneLayoutView>)
    ensures
        leaves_seq(a + b) == leaves_seq(a) + leaves_seq(b),
    decreases a.len(),
{
    if a.len() == 0 {
        assert(a + b =~= b);
        assert(leaves_seq(a) + leaves_seq(b) =~= leaves_seq(b));
    } else {
        assert((a + b)[0] == a[0]);
        assert((a + b).drop_first() =~= a.drop_first() + b);
        lemma_leaves_seq_concat(a.drop_first(), b);
        assert(leaves_seq(a + b) =~= leaves_seq(a) + leaves_seq(b));
    }
}

/// A tree without a focused node has no focused leaf.
pub proof fn lemma_unfocused_leaf_count(v: TiledPaneLayoutView)
    requires
        !has_focused(v),
    ensures
        count_focused(leaves(v)) == 0,
    decreases v,
{
    if v.children.len() == 0 {
        assert(leaves(v) == seq![v]);
        lemma_count_focused_singleton(v);
        assert(v.focus != Some(true));
    } else {
        lemma_unfocused_leaf_count_seq(v.children);
    }
}

pub proof fn lemma_unfocused_leaf_count_seq(s: Seq<TiledPaneLayoutView>)
    requires
        !any_focused(s),
    ensures
        count_focused(leaves_seq(s)) == 0,
    decreases s,
{
    if s.len() > 0 {
        lemma_unfocused_leaf_count(s[0]);
        lemma_unfocused_leaf_count_seq(s.drop_first());
        lemma_count_focused_concat(leaves(s[0]), leaves_seq(s.drop_first()));
    }
}

/// Exactly one entry focused means a focus count of one.
pub proof fn lemma_count_focused_single(s: Seq<TiledPaneLayoutView>, idx: int)
    requires
        0 <= idx < s.len(),
        s[idx].focus == Some(true),
        forall|j: int| 0 <= j < s.len() && j != idx ==> (#[trigger] s[j]).focus != Some(true),
    ensures
        count_focused(s) == 1,
    decreases s.len(),
{
    if idx == 0 {
        assert(forall|j: int|
            0 <= j < s.drop_first().len() ==> s.drop_first()[j] == s[j + 1]);
        lemma_count_focused_none(s.drop_first());
    } else {
        assert(forall|j: int|
            0 <= j < s.drop_first().len() ==> s.drop_first()[j] == s[j + 1]);
        lemma_count_focused_single(s.drop_first(), idx - 1);
    }
}

pub proof fn lemma_count_focused_none(s: Seq<TiledPaneLayoutView>)
    requires
        forall|j: int| 0 <= j < s.len() ==> (#[trigger] s[j]).focus != Some(true),
    ensures
        count_focused(s) == 0,
    decreases s.len(),
{
    if s.len() > 0 {
        assert(forall|j: int|
            0 <= j < s.drop_first().len() ==> s.drop_first()[j] == s[j + 1]);
        lemma_count_focused_none(s.drop_first());
    }
}

/// Focusing the deepest leaf of an unfocused tree leaves exactly one
/// focused leaf.
pub proof fn lemma_focus_deepest_count(v: TiledPaneLayoutView)
    requires
        !has_focused(v),
    ensures
        count_focused(leaves(focus_deepest(v))) == 1,
    decreases v,
{
    let out = focus_deepest(v);
    if v.children.len() == 0 {
        assert(leaves(out) == seq![out]);
        lemma_count_focused_singleton(out);
    } else {
        let di0 = deepest_child_index(v.children);
        let di = if 0 <= di0 < v.children.len() {
            di0
        } else {
            0int
        };
        lemma_any_focused_exists(v.children);
        assert(!has_focused(v.children[di]));
        lemma_focus_deepest_count(v.children[di]);
        assert(out.children =~= v.children.take(di) + (seq![focus_deepest(v.children[di])]
            + v.children.skip(di + 1)));
        assert(out.children.len() == v.children.len());
        assert(leaves(out) == leaves_seq(out.children));
        lemma_leaves_seq_concat(v.children.take(di), seq![focus_deepest(v.children[di])]
            + v.children.skip(di + 1));
        lemma_leaves_seq_concat(seq![focus_deepest(v.children[di])], v.children.skip(di + 1));
        lemma_count_focused_concat(
            leaves_seq(v.children.take(di)),
            leaves_seq(seq![focus_deepest(v.children[di])] + v.children.skip(di + 1)),
        );
        lemma_count_focused_concat(
            leaves_seq(seq![focus_deepest(v.children[di])]),
            leaves_seq(v.children.skip(di + 1)),
        );
        lemma_leaves_seq_singleton(focus_deepest(v.children[di]));
        assert(!any_focused(v.children.take(di))) by {
            lemma_any_focused_exists(v.children.take(di));
        }
        assert(!any_focused(v.children.skip(di + 1))) by {
            lemma_any_focused_exists(v.children.skip(di + 1));
        }
        lemma_unfocused_leaf_count_seq(v.children.take(di));
        lemma_unfocused_leaf_count_seq(v.children.skip(di + 1));
        assert(count_focused(leaves_seq(v.children.take(di))) == 0);
        assert(count_focused(leaves(focus_deepest(v.children[di]))) == 1);
        assert(count_focused(leaves_seq(v.children.skip(di + 1))) == 0);
        assert(count_focused(leaves_seq(out.children)) == count_focused(leaves_seq(
            v.children.take(di),
        )) + count_focused(leaves_seq(seq![focus_deepest(v.children[di])] + v.children.skip(
            di + 1,
        ))));
        assert(count_focused(leaves_seq(seq![focus_deepest(v.children[di])] + v.children.skip(
            di + 1,
        ))) == count_focused(leaves(focus_deepest(v.children[di]))) + count_focused(leaves_seq(
            v.children.skip(di + 1),
        )));
    }
}

/// Truncation introduces no focus.
pub proof fn lemma_truncate_keeps_unfocused(v: TiledPaneLayoutView, m: int)
    requires
        !has_focused(v),
    ensures
        !has_focused(truncate_spec(v, m)),
    decreases v, 1int,
{
    let t = truncate_spec(v, m);
    lemma_any_focused_exists(v.children);
    assert(v.focus != Some(true));
    assert(t.focus == v.focus);
    if m <= 1 {
        assert(t.children.len() == 0);
        assert(!any_focused(t.children));
    } else if m <= v.children.len() {
        assert forall|i: int| 0 <= i < t.children.len() implies !has_focused(
            #[trigger] t.children[i],
        ) by {
            assert(t.children[i] == clear_children(v.children.take(m)[i]));
            lemma_any_focused_exists(t.children[i].children);
        }
        lemma_any_focused_exists(t.children);
        assert(!any_focused(t.children));
    } else {
        lemma_truncate_children_keeps_unfocused(v.children, m - leaf_child_count(v.children));
        assert(t.children == truncate_children_spec(v.children, m - leaf_child_count(v.children)));
        lemma_any_focused_exists(t.children);
        assert(!any_focused(t.children));
    }
    assert(!has_focused(t));
}

pub proof fn lemma_truncate_children_keeps_unfocused(s: Seq<TiledPaneLayoutView>, remaining: int)
    requires
        !any_focused(s),
    ensures
        forall|i: int|
            0 <= i < truncate_children_spec(s, remaining).len() ==> !has_focused(
                #[trigger] truncate_children_spec(s, remaining)[i],
            ),
    decreases s, 0int,
{
    lemma_any_focused_exists(s);
    if s.len() > 0 {
        let out = truncate_children_spec(s, remaining);
        if remaining > 1 && s[0].children.len() > 0 {
            let t = truncate_spec(s[0], remaining);
            let consumed = if t.children.len() > 0 {
                t.children.len() as int
            } else {
                1int
            };
            lemma_truncate_keeps_unfocused(s[0], remaining);
            lemma_truncate_children_keeps_unfocused(s.drop_first(), sat_sub(remaining, consumed));
            assert forall|i: int| 0 <= i < out.len() implies !has_focused(#[trigger] out[i]) by {
                if i > 0 {
                    assert(out[i] == truncate_children_spec(
                        s.drop_first(),
                        sat_sub(remaining, consumed),
                    )[i - 1]);
                }
            }
        } else {
            lemma_truncate_children_keeps_unfocused(s.drop_first(), remaining);
            assert forall|i: int| 0 <= i < out.len() implies !has_focused(#[trigger] out[i]) by {
                if i == 0 {
                    assert(out[0] == clear_children(s[0]));
                    lemma_any_focused_exists(clear_children(s[0]).children);
                } else {
                    assert(out[i] == truncate_children_spec(s.drop_first(), remaining)[i - 1]);
                }
            }
        }
    }
}

/// The leaves of a row of leaves are the row itself.
pub proof fn lemma_leaves_of_leaf_seq(s: Seq<TiledPaneLayoutView>)
    requires
        forall|i: int| 0 <= i < s.len() ==> (#[trigger] s[i]).children.len() == 0,
    ensures
        leaves_seq(s) == s,
    decreases s.len(),
{
    if s.len() > 0 {
        assert(forall|i: int|
            0 <= i < s.drop_first().len() ==> s.drop_first()[i] == s[i + 1]);
        lemma_leaves_of_leaf_seq(s.drop_first());
        assert(leaves(s[0]) =~= seq![s[0]]);
        assert(leaves_seq(s) =~= s);
    }
}

/// Splicing leaf placeholders into an unfocused tree leaves exactly the
/// placeholders' focused leaves.
pub proof fn lemma_splice_count_focused(v: TiledPaneLayoutView, nodes: Seq<TiledPaneLayoutView>)
    requires
        !has_focused(v),
        markers_wf(v),
        has_marker(v),
        forall|i: int| 0 <= i < nodes.len() ==> (#[trigger] nodes[i]).children.len() == 0,
    ensures
        count_focused(leaves(splice_nodes(v, nodes))) == count_focused(nodes),
    decreases v, 1int,
{
    let out = splice_nodes(v, nodes);
    lemma_any_focused_exists(v.children);
    match v.external_children_index {
        Some(idx) => {
            let pre = v.children.take(idx as int);
            let post = v.children.skip(idx as int);
            assert(out.children == pre + nodes + post);
            lemma_leaves_seq_concat(pre + nodes, post);
            lemma_leaves_seq_concat(pre, nodes);
            lemma_count_focused_concat(leaves_seq(pre + nodes), leaves_seq(post));
            lemma_count_focused_concat(leaves_seq(pre), leaves_seq(nodes));
            lemma_leaves_of_leaf_seq(nodes);
            assert(!any_focused(pre)) by {
                lemma_any_focused_exists(pre);
            }
            assert(!any_focused(post)) by {
                lemma_any_focused_exists(post);
            }
            lemma_unfocused_leaf_count_seq(pre);
            lemma_unfocused_leaf_count_seq(post);
            if out.children.len() == 0 {
                assert(nodes.len() == 0);
                assert(pre.len() == 0 && post.len() == 0);
                assert(leaves(out) == seq![out]);
                lemma_count_focused_singleton(out);
                lemma_count_focused_none(nodes);
            } else {
                assert(leaves(out) == leaves_seq(out.children));
            }
        },
        None => {
            lemma_splice_seq_count_focused(v.children, nodes);
            if v.children.len() == 0 {
                assert(leaves(out) == seq![out]);
                lemma_count_focused_singleton(out);
            }
        },
    }
}

pub proof fn lemma_splice_seq_count_focused(
    s: Seq<TiledPaneLayoutView>,
    nodes: Seq<TiledPaneLayoutView>,
)
    requires
        !any_focused(s),
        markers_wf_seq(s),
        forall|i: int| 0 <= i < nodes.len() ==> (#[trigger] nodes[i]).children.len() == 0,
    ensures
        count_focused(leaves_seq(splice_nodes_seq(s, nodes))) == (if any_marker(s) {
            count_focused(nodes) as int
        } else {
            0int
        }),
    decreases s, 0int,
{
    lemma_any_focused_exists(s);
    if s.len() == 0 {
        assert(leaves_seq(splice_nodes_seq(s, nodes)) =~= Seq::<TiledPaneLayoutView>::empty());
    } else {
        let rest = s.drop_first();
        if has_marker(s[0]) {
            let out = seq![splice_nodes(s[0], nodes)] + rest;
            assert(splice_nodes_seq(s, nodes) == out);
            lemma_splice_count_focused(s[0], nodes);
            lemma_leaves_seq_concat(seq![splice_nodes(s[0], nodes)], rest);
            lemma_count_focused_concat(
                leaves_seq(seq![splice_nodes(s[0], nodes)]),
                leaves_seq(rest),
            );
            lemma_leaves_seq_singleton(splice_nodes(s[0], nodes));
            assert(!any_focused(rest)) by {
                lemma_any_focused_exists(rest);
            }
            lemma_unfocused_leaf_count_seq(rest);
        } else {
            lemma_splice_seq_count_focused(rest, nodes);
            let out = seq![s[0]] + splice_nodes_seq(rest, nodes);
            assert(splice_nodes_seq(s, nodes) == out);
            lemma_leaves_seq_concat(seq![s[0]], splice_nodes_seq(rest, nodes));
            lemma_count_focused_concat(
                leaves_seq(seq![s[0]]),
                leaves_seq(splice_nodes_seq(rest, nodes)),
            );
            lemma_leaves_seq_singleton(s[0]);
            lemma_unfocused_leaf_count(s[0]);
        }
    }
}

// ------------------------------------------------------------------
// Executable tree operations.
// ------------------------------------------------------------------

/// Clone a layout tree node, children and all.
pub fn clone_tree(node: &TiledPaneLayout) -> (r: TiledPaneLayout)
    ensures
        r.deep_view() == node.deep_view(),
    decreases *node,
{
    let mut new_children: Vec<TiledPaneLayout> = Vec::new();
    let mut i: usize = 0;
    while i < node.children.len()
        invariant
            0 <= i <= node.children@.len(),
            new_children@.len() == i,
            forall|j: int|
                0 <= j < i ==> new_children@[j].deep_view() == node.deep_view().children[j],
        decreases node.children@.len() - i,
    {
        new_children.push(clone_tree(&node.children[i]));
        i += 1;
    }
    let r = TiledPaneLayout {
        children_split_direction: node.children_split_direction,
        name: clone_opt_string(&node.name),
        children: new_children,
        split_size: node.split_size,
        run: clone_opt_run(&node.run),
        borderless: node.borderless,
        focus: node.focus,
        external_children_index: node.external_children_index,
        children_are_stacked: node.children_are_stacked,
    };
    proof {
        assert(r.deep_view().children =~= node.deep_view().children);
        assert(r.deep_view() =~= node.deep_view());
    }
    r
}

impl Clone for TiledPaneLayout {
    fn clone(&self) -> (r: Self)
        ensures
            r.deep_view() == self.deep_view(),
    {
        clone_tree(self)
    }
}

impl Default for TiledPaneLayout {
    fn default() -> (r: Self)
        ensures
            r.deep_view() == default_tiled_view(),
    {
        let r = TiledPaneLayout {
            children_split_direction: SplitDirection::Horizontal,
            name: None,
            children: Vec::new(),
            split_size: None,
            run: None,
            borderless: false,
            focus: None,
            external_children_index: None,
            children_are_stacked: false,
        };
        proof {
            assert(r.deep_view().children =~= default_tiled_view().children);
            assert(r.deep_view() =~= default_tiled_view());
        }
        r
    }
}

impl TiledPaneLayout {
    /// Number of panes (leaves) this tree produces.
    pub fn pane_count(&self) -> (r: usize)
        requires
            pane_count(self.deep_view()) <= usize::MAX,
        ensures
            r == pane_count(self.deep_view()),
        decreases *self,
    {
        let ghost children_view = self.deep_view().children;
        if self.children.len() == 0 {
            return 1;
        }
        let mut total: usize = 0;
        let mut i: usize = 0;
        while i < self.children.len()
            invariant
                0 <= i <= self.children@.len(),
                children_view == self.deep_view().children,
                children_view.len() == self.children@.len(),
                self.children@.len() > 0,
                pane_count(self.deep_view()) <= usize::MAX,
                pane_count(self.deep_view()) == pane_count_seq(children_view),
                total == pane_count_seq(children_view.take(i as int)),
            decreases self.children@.len() - i,
        {
            proof {
                lemma_pane_count_seq_take_succ(children_view, i as int);
            }
            let c = self.children[i].pane_count();
            total = total + c;
            i += 1;
        }
        proof {
            assert(children_view.take(self.children@.len() as int) =~= children_view);
        }
        total
    }

    /// Depth of the deepest leaf; a childless node has depth one.
    pub fn deepest_depth(&self) -> (r: usize)
        requires
            depth(self.deep_view()) <= usize::MAX,
        ensures
            r == depth(self.deep_view()),
        decreases *self,
    {
        let ghost children_view = self.deep_view().children;
        let mut deepest_child_depth: usize = 0;
        let mut i: usize = 0;
        while i < self.children.len()
            invariant
                0 <= i <= self.children@.len(),
                children_view == self.deep_view().children,
                children_view.len() == self.children@.len(),
                depth(self.deep_view()) <= usize::MAX,
                deepest_child_depth == max_child_depth(children_view.take(i as int)),
            decreases self.children@.len() - i,
        {
            proof {
                lemma_max_child_depth_ge(children_view, i as int);
                lemma_max_child_depth_take_succ(children_view, i as int);
            }
            let child_deepest_depth = self.children[i].deepest_depth();
            if child_deepest_depth > deepest_child_depth {
                deepest_child_depth = child_deepest_depth;
            }
            i += 1;
        }
        proof {
            assert(children_view.take(self.children@.len() as int) =~= children_view);
        }
        deepest_child_depth + 1
    }

    /// Whether any node of this subtree is marked focused.
    pub fn has_focused_node(&self) -> (r: bool)
        ensures
            r == has_focused(self.deep_view()),
        decreases *self,
    {
        let ghost children_view = self.deep_view().children;
        let focused_here = match self.focus {
            Some(b) => b,
            None => false,
        };
        if focused_here {
            return true;
        }
        let mut i: usize = 0;
        while i < self.children.len()
            invariant
                0 <= i <= self.children@.len(),
                children_view == self.deep_view().children,
                children_view.len() == self.children@.len(),
                forall|j: int| 0 <= j < i ==> !has_focused(#[trigger] children_view[j]),
            decreases self.children@.len() - i,
        {
            if self.children[i].has_focused_node() {
                proof {
                    assert(children_view[i as int] == self.children@[i as int].deep_view());
                    assert(has_focused(children_view[i as int]));
                    lemma_any_focused_exists(children_view);
                }
                return true;
            }
            i += 1;
        }
        proof {
            lemma_any_focused_exists(children_view);
        }
        false
    }

    /// Number of unresolved external-children markers in this subtree.
    pub fn children_block_count(&self) -> (r: usize)
        requires
            block_count(self.deep_view()) <= usize::MAX,
        ensures
            r == block_count(self.deep_view()),
        decreases *self,
    {
        let ghost children_view = self.deep_view().children;
        let mut count: usize = 0;
        if self.external_children_index.is_some() {
            count = 1;
        }
        let mut i: usize = 0;
        while i < self.children.len()
            invariant
                0 <= i <= self.children@.len(),
                children_view == self.deep_view().children,
                children_view.len() == self.children@.len(),
                block_count(self.deep_view()) <= usize::MAX,
                count == (if self.deep_view().external_children_index is Some {
                    1nat
                } else {
                    0nat
                }) + block_count_seq(children_view.take(i as int)),
            decreases self.children@.len() - i,
        {
            proof {
                lemma_block_count_seq_take_succ(children_view, i as int);
            }
            let c = self.children[i].children_block_count();
            count = count + c;
            i += 1;
        }
        proof {
            assert(children_view.take(self.children@.len() as int) =~= children_view);
        }
        count
    }

    /// The run instructions of the leaves, in the same depth-first
    /// pre-order the geometry solver emits leaves in.
    pub fn extract_run_instructions(&self) -> (r: Vec<Option<Run>>)
        ensures
            r.deep_view().len() == leaves(self.deep_view()).len(),
            forall|i: int|
                0 <= i < r.deep_view().len() ==> r.deep_view()[i] == leaves(self.deep_view())[i].run,
        decreases *self,
    {
        let ghost children_view = self.deep_view().children;
        let mut run_instructions: Vec<Option<Run>> = Vec::new();
        if self.children.len() == 0 {
            run_instructions.push(clone_opt_run(&self.run));
            proof {
                assert(leaves(self.deep_view()) =~= seq![self.deep_view()]);
            }
            return run_instructions;
        }
        let mut i: usize = 0;
        while i < self.children.len()
            invariant
                0 <= i <= self.children@.len(),
                children_view == self.deep_view().children,
                children_view.len() == self.children@.len(),
                self.children@.len() > 0,
                run_instructions.deep_view().len() == leaves_seq(children_view.take(i as int)).len(),
                forall|j: int|
                    0 <= j < run_instructions.deep_view().len() ==> run_instructions.deep_view()[j]
                        == leaves_seq(children_view.take(i as int))[j].run,
            decreases self.children@.len() - i,
        {
            let ghost prior = run_instructions.deep_view();
            let ghost prior_len = run_instructions@.len() as int;
            let mut child_run_instructions = self.children[i].extract_run_instructions();
            let ghost child_runs = child_run_instructions.deep_view();
            run_instructions.append(&mut child_run_instructions);
            proof {
                lemma_leaves_seq_take_succ(children_view, i as int);
                assert(children_view[i as int] == self.children@[i as int].deep_view());
                assert forall|j: int|
                    0 <= j < run_instructions.deep_view().len() implies run_instructions.deep_view()[j]
                    == leaves_seq(children_view.take(i as int + 1))[j].run by {
                    assert(run_instructions.deep_view()[j] == run_instructions@[j].deep_view());
                    if j < prior_len {
                        assert(run_instructions.deep_view()[j] == prior[j]);
                        assert(leaves_seq(children_view.take(i as int + 1))[j] == leaves_seq(
                            children_view.take(i as int),
                        )[j]);
                    } else {
                        assert(run_instructions.deep_view()[j] == child_runs[j - prior_len]);
                        assert(leaves_seq(children_view.take(i as int + 1))[j] == leaves(
                            children_view[i as int],
                        )[j - prior_len]);
                    }
                }
            }
            i += 1;
        }
        proof {
            assert(children_view.take(self.children@.len() as int) =~= children_view);
        }
        run_instructions
    }

    /// A root with a single default child pane.
    pub fn with_one_pane() -> (r: Self)
        ensures
            r.deep_view() == (TiledPaneLayoutView {
                children: seq![default_tiled_view()],
                ..default_tiled_view()
            }),
    {
        let mut default_layout = TiledPaneLayout::default();
        let mut children: Vec<TiledPaneLayout> = Vec::new();
        children.push(TiledPaneLayout::default());
        default_layout.children = children;
        proof {
            assert(default_layout.deep_view().children =~= seq![default_tiled_view()]);
            assert(default_layout.deep_view() =~= (TiledPaneLayoutView {
                children: seq![default_tiled_view()],
                ..default_tiled_view()
            }));
        }
        default_layout
    }
}

/// Recursive worker for `focus_deepest_pane`, on an owned node.
fn focus_deepest_owned(node: TiledPaneLayout) -> (r: TiledPaneLayout)
    requires
        depth(node.deep_view()) <= usize::MAX,
    ensures
        r.deep_view() == focus_deepest(node.deep_view()),
    decreases node,
{
    let ghost node0 = node;
    let mut node = node;
    if node.children.len() == 0 {
        node.focus = Some(true);
        proof {
            assert(node.deep_view() =~= focus_deepest(node0.deep_view()));
        }
        return node;
    }
    let ghost children_view = node0.deep_view().children;
    let mut deepest_child_index_found: usize = 0;
    let mut deepest_path: usize = 0;
    let mut i: usize = 0;
    while i < node.children.len()
        invariant
            0 <= i <= node.children@.len(),
            node == node0,
            children_view == node0.deep_view().children,
            children_view.len() == node.children@.len(),
            children_view.len() > 0,
            depth(node0.deep_view()) <= usize::MAX,
            i == 0 ==> deepest_child_index_found == 0 && deepest_path == 0,
            i > 0 ==> {
                &&& deepest_child_index_found == deepest_child_index(children_view.take(i as int))
                &&& 0 <= deepest_child_index_found < i
                &&& deepest_path == depth(children_view[deepest_child_index_found as int])
            },
        decreases node.children@.len() - i,
    {
        proof {
            lemma_max_child_depth_ge(children_view, i as int);
            lemma_deepest_child_index_take_succ(children_view, i as int);
            if i > 0 {
                lemma_deepest_child_index_bounds(children_view.take(i as int));
                assert(children_view.take(i as int)[deepest_child_index(
                    children_view.take(i as int),
                )] == children_view[deepest_child_index(children_view.take(i as int))]);
            }
        }
        let child_deepest_path = node.children[i].deepest_depth();
        if child_deepest_path >= deepest_path {
            deepest_path = child_deepest_path;
            deepest_child_index_found = i;
        }
        i += 1;
    }
    proof {
        assert(children_view.take(node.children@.len() as int) =~= children_view);
        lemma_deepest_child_index_bounds(children_view);
    }
    let child = node.children.remove(deepest_child_index_found);
    proof {
        assert(decreases_to!(node0 => node0.children));
        assert(decreases_to!(node0.children => node0.children@));
        assert(decreases_to!(node0.children@ => child));
        lemma_max_child_depth_ge(children_view, deepest_child_index_found as int);
    }
    let child = focus_deepest_owned(child);
    node.children.insert(deepest_child_index_found, child);
    proof {
        let di = deepest_child_index_found as int;
        assert(node.children@ =~= node0.children@.update(di, child));
        assert forall|j: int| 0 <= j < children_view.len() implies node.deep_view().children[j]
            == focus_deepest(node0.deep_view()).children[j] by {
            if j != di {
                assert(node.children@[j] == node0.children@[j]);
            }
        }
        assert(node.deep_view().children =~= focus_deepest(node0.deep_view()).children);
        assert(node.deep_view() =~= focus_deepest(node0.deep_view()));
    }
    node
}

/// Recursive worker for `add_cwd_to_layout`.
fn add_cwd_rebuilt(node: &TiledPaneLayout, cwd: &str) -> (r: TiledPaneLayout)
    ensures
        r.deep_view() == add_cwd_tree(node.deep_view(), cwd@),
    decreases *node,
{
    let new_run = match &node.run {
        Some(run) => {
            let mut r = run.clone();
            r.add_cwd(cwd);
            Some(r)
        },
        None => Some(Run::Cwd(cwd.to_owned())),
    };
    let mut new_children: Vec<TiledPaneLayout> = Vec::new();
    let mut i: usize = 0;
    while i < node.children.len()
        invariant
            0 <= i <= node.children@.len(),
            new_children@.len() == i,
            forall|j: int|
                0 <= j < i ==> new_children@[j].deep_view() == add_cwd_tree(
                    #[trigger] node.deep_view().children[j],
                    cwd@,
                ),
        decreases node.children@.len() - i,
    {
        new_children.push(add_cwd_rebuilt(&node.children[i], cwd));
        i += 1;
    }
    let r = TiledPaneLayout {
        children_split_direction: node.children_split_direction,
        name: clone_opt_string(&node.name),
        children: new_children,
        split_size: node.split_size,
        run: new_run,
        borderless: node.borderless,
        focus: node.focus,
        external_children_index: node.external_children_index,
        children_are_stacked: node.children_are_stacked,
    };
    proof {
        assert(r.deep_view().children =~= add_cwd_tree(node.deep_view(), cwd@).children);
        assert(r.deep_view() =~= add_cwd_tree(node.deep_view(), cwd@));
    }
    r
}

impl TiledPaneLayout {
    /// Descend into the last deepest child until a leaf is reached and mark
    /// that leaf focused; exactly one leaf is marked per call.
    pub fn focus_deepest_pane(&mut self)
        requires
            depth(old(self).deep_view()) <= usize::MAX,
        ensures
            final(self).deep_view() == focus_deepest(old(self).deep_view()),
    {
        let mut tmp = TiledPaneLayout::default();
        core::mem::swap(&mut tmp, self);
        let tmp = focus_deepest_owned(tmp);
        *self = tmp;
    }

    /// Resolve every node's run instruction against `cwd`; a node without
    /// an instruction receives the bare directory as a pending `Cwd`.
    pub fn add_cwd_to_layout(&mut self, cwd: &str)
        ensures
            final(self).deep_view() == add_cwd_tree(old(self).deep_view(), cwd@),
    {
        let tmp = add_cwd_rebuilt(self, cwd);
        *self = tmp;
    }
}

/// An error in a structural layout operation.
#[derive(Debug, PartialEq, Eq, Clone, Copy)]
pub enum ConfigError {
    InvalidLayoutOperation(&'static str),
}

/// Recursive worker for `insert_children_layout`: a rebuilt copy of
/// `node` with `children_layout` spliced at the first marker, and whether
/// a marker was found.
fn insert_layout_rebuilt(node: &TiledPaneLayout, children_layout: &TiledPaneLayout) -> (res: (
    TiledPaneLayout,
    bool,
))
    requires
        markers_wf(node.deep_view()),
    ensures
        res.1 == has_marker(node.deep_view()),
        res.1 ==> res.0.deep_view() == splice_layout(
            node.deep_view(),
            children_layout.deep_view(),
        ),
        !res.1 ==> res.0.deep_view() == node.deep_view(),
    decreases *node,
{
    let ghost v = node.deep_view();
    let ghost nv = children_layout.deep_view();
    match node.external_children_index {
        Some(idx) => {
            let mut r = clone_tree(node);
            proof {
                assert(r.children@.len() == tree_views(r.children@).len());
                assert(tree_views(r.children@) == v.children);
            }
            r.children.insert(idx, clone_tree(children_layout));
            r.external_children_index = None;
            proof {
                assert forall|j: int| 0 <= j < r.deep_view().children.len() implies r.deep_view()
                    .children[j] == splice_layout(v, nv).children[j] by {
                    assert(r.deep_view().children[j] == r.children@[j].deep_view());
                }
                assert(r.deep_view().children =~= splice_layout(v, nv).children);
                assert(r.deep_view() =~= splice_layout(v, nv));
            }
            (r, true)
        },
        None => {
            let mut new_children: Vec<TiledPaneLayout> = Vec::new();
            let mut found = false;
            let ghost mut marker_idx: int = 0;
            let mut i: usize = 0;
            while i < node.children.len()
                invariant
                    0 <= i <= node.children@.len(),
                    markers_wf(v),
                    v == node.deep_view(),
                    nv == children_layout.deep_view(),
                    v.children.len() == node.children@.len(),
                    new_children@.len() == i,
                    !found ==> forall|j: int|
                        0 <= j < i ==> !has_marker(#[trigger] v.children[j])
                            && new_children@[j].deep_view() == v.children[j],
                    found ==> {
                        &&& 0 <= marker_idx < i
                        &&& has_marker(v.children[marker_idx])
                        &&& forall|j: int|
                            0 <= j < marker_idx ==> !has_marker(#[trigger] v.children[j])
                                && new_children@[j].deep_view() == v.children[j]
                        &&& new_children@[marker_idx].deep_view() == splice_layout(
                            v.children[marker_idx],
                            nv,
                        )
                        &&& forall|j: int|
                            marker_idx < j < i ==> new_children@[j].deep_view()
                                == #[trigger] v.children[j]
                    },
                decreases node.children@.len() - i,
            {
                if found {
                    new_children.push(clone_tree(&node.children[i]));
                } else {
                    proof {
                        lemma_markers_wf_seq_elt(v.children, i as int);
                    }
                    let (c2, ok) = insert_layout_rebuilt(&node.children[i], children_layout);
                    new_children.push(c2);
                    if ok {
                        found = true;
                        proof {
                            marker_idx = i as int;
                        }
                    }
                }
                i += 1;
            }
            let r = TiledPaneLayout {
                children_split_direction: node.children_split_direction,
                name: clone_opt_string(&node.name),
                children: new_children,
                split_size: node.split_size,
                run: clone_opt_run(&node.run),
                borderless: node.borderless,
                focus: node.focus,
                external_children_index: None,
                children_are_stacked: node.children_are_stacked,
            };
            proof {
                lemma_any_marker_exists(v.children);
                if found {
                    lemma_splice_layout_seq_first(v.children, nv, marker_idx);
                    assert(r.deep_view().children =~= splice_layout_seq(v.children, nv));
                    assert(r.deep_view() =~= splice_layout(v, nv));
                } else {
                    assert(r.deep_view().children =~= v.children);
                    assert(r.deep_view() =~= v);
                }
            }
            (r, found)
        },
    }
}

/// Recursive worker for `insert_children_nodes`: a rebuilt copy of `node`
/// with the given nodes spliced at the first marker, and whether a marker
/// was found.  On success the node list is drained.
fn insert_nodes_rebuilt(node: &TiledPaneLayout, children_nodes: &mut Vec<TiledPaneLayout>) -> (res: (
    TiledPaneLayout,
    bool,
))
    requires
        markers_wf(node.deep_view()),
    ensures
        res.1 == has_marker(node.deep_view()),
        res.1 ==> res.0.deep_view() == splice_nodes(
            node.deep_view(),
            old(children_nodes).deep_view(),
        ) && final(children_nodes)@.len() == 0,
        !res.1 ==> res.0.deep_view() == node.deep_view() && final(children_nodes)@ == old(
            children_nodes,
        )@,
    decreases *node,
{
    let ghost v = node.deep_view();
    let ghost nsv = children_nodes.deep_view();
    match node.external_children_index {
        Some(idx) => {
            let mut new_children: Vec<TiledPaneLayout> = Vec::new();
            let mut i: usize = 0;
            while i < idx
                invariant
                    0 <= i <= idx,
                    v == node.deep_view(),
                    markers_wf(v),
                    v.external_children_index == Some(idx),
                    idx <= node.children@.len(),
                    v.children.len() == node.children@.len(),
                    new_children@.len() == i,
                    forall|j: int|
                        0 <= j < i ==> new_children@[j].deep_view() == #[trigger] v.children[j],
                decreases idx - i,
            {
                new_children.push(clone_tree(&node.children[i]));
                i += 1;
            }
            let mut moved: Vec<TiledPaneLayout> = Vec::new();
            core::mem::swap(&mut moved, children_nodes);
            new_children.append(&mut moved);
            let mut i: usize = idx;
            while i < node.children.len()
                invariant
                    idx <= i <= node.children@.len(),
                    v == node.deep_view(),
                    v.external_children_index == Some(idx),
                    idx <= node.children@.len(),
                    v.children.len() == node.children@.len(),
                    nsv.len() + node.children@.len() >= nsv.len(),
                    new_children@.len() == i + nsv.len(),
                    forall|j: int|
                        0 <= j < idx ==> new_children@[j].deep_view() == #[trigger] v.children[j],
                    forall|j: int|
                        idx <= j < idx + nsv.len() ==> new_children@[j].deep_view() == nsv[j - idx],
                    forall|j: int|
                        idx + nsv.len() <= j < i + nsv.len() ==> new_children@[j].deep_view()
                            == #[trigger] v.children[j - nsv.len()],
                decreases node.children@.len() - i,
            {
                new_children.push(clone_tree(&node.children[i]));
                i += 1;
            }
            let r = TiledPaneLayout {
                children_split_direction: node.children_split_direction,
                name: clone_opt_string(&node.name),
                children: new_children,
                split_size: node.split_size,
                run: clone_opt_run(&node.run),
                borderless: node.borderless,
                focus: node.focus,
                external_children_index: None,
                children_are_stacked: node.children_are_stacked,
            };
            proof {
                let spliced = v.children.take(idx as int) + nsv + v.children.skip(idx as int);
                assert(spliced.len() == v.children.len() + nsv.len());
                assert forall|j: int| 0 <= j < r.deep_view().children.len() implies r.deep_view()
                    .children[j] == spliced[j] by {
                    assert(r.deep_view().children[j] == r.children@[j].deep_view());
                    if j < idx {
                        assert(spliced[j] == v.children.take(idx as int)[j]);
                        assert(spliced[j] == v.children[j]);
                    } else if j < idx + nsv.len() {
                        assert(spliced[j] == nsv[j - idx]);
                    } else {
                        assert(spliced[j] == v.children.skip(idx as int)[j - idx - nsv.len()]);
                        assert(spliced[j] == v.children[j - nsv.len()]);
                    }
                }
                assert(r.deep_view().children =~= spliced);
                assert(r.deep_view() =~= splice_nodes(v, nsv));
            }
            (r, true)
        },
        None => {
            let mut new_children: Vec<TiledPaneLayout> = Vec::new();
            let mut found = false;
            let ghost mut marker_idx: int = 0;
            let mut i: usize = 0;
            while i < node.children.len()
                invariant
                    0 <= i <= node.children@.len(),
                    markers_wf(v),
                    v == node.deep_view(),
                    nsv == old(children_nodes).deep_view(),
                    v.children.len() == node.children@.len(),
                    new_children@.len() == i,
                    !found ==> children_nodes@ == old(children_nodes)@,
                    !found ==> forall|j: int|
                        0 <= j < i ==> !has_marker(#[trigger] v.children[j])
                            && new_children@[j].deep_view() == v.children[j],
                    found ==> {
                        &&& children_nodes@.len() == 0
                        &&& 0 <= marker_idx < i
                        &&& has_marker(v.children[marker_idx])
                        &&& forall|j: int|
                            0 <= j < marker_idx ==> !has_marker(#[trigger] v.children[j])
                                && new_children@[j].deep_view() == v.children[j]
                        &&& new_children@[marker_idx].deep_view() == splice_nodes(
                            v.children[marker_idx],
                            nsv,
                        )
                        &&& forall|j: int|
                            marker_idx < j < i ==> new_children@[j].deep_view()
                                == #[trigger] v.children[j]
                    },
                decreases node.children@.len() - i,
            {
                if found {
                    new_children.push(clone_tree(&node.children[i]));
                } else {
                    proof {
                        lemma_markers_wf_seq_elt(v.children, i as int);
                    }
                    let (c2, ok) = insert_nodes_rebuilt(&node.children[i], children_nodes);
                    new_children.push(c2);
                    if ok {
                        found = true;
                        proof {
                            marker_idx = i as int;
                        }
                    }
                }
                i += 1;
            }
            let r = TiledPaneLayout {
                children_split_direction: node.children_split_direction,
                name: clone_opt_string(&node.name),
                children: new_children,
                split_size: node.split_size,
                run: clone_opt_run(&node.run),
                borderless: node.borderless,
                focus: node.focus,
                external_children_index: None,
                children_are_stacked: node.children_are_stacked,
            };
            proof {
                lemma_any_marker_exists(v.children);
                if found {
                    lemma_splice_nodes_seq_first(v.children, nsv, marker_idx);
                    assert(r.deep_view().children =~= splice_nodes_seq(v.children, nsv));
                    assert(r.deep_view() =~= splice_nodes(v, nsv));
                } else {
                    assert(r.deep_view().children =~= v.children);
                    assert(r.deep_view() =~= v);
                }
            }
            (r, found)
        },
    }
}

impl TiledPaneLayout {
    /// Splice one node into the child list of the first marked node found
    /// in depth-first pre-order, clearing that marker; reports whether an
    /// insertion point was found.  A caller that ignores a `false` result
    /// knowingly leaves the template unexpanded.
    pub fn insert_children_layout(&mut self, children_layout: &mut TiledPaneLayout) -> (r: Result<
        bool,
        ConfigError,
    >)
        requires
            markers_wf(old(self).deep_view()),
        ensures
            final(children_layout).deep_view() == old(children_layout).deep_view(),
            r matches Ok(b) && b == has_marker(old(self).deep_view()),
            has_marker(old(self).deep_view()) ==> final(self).deep_view() == splice_layout(
                old(self).deep_view(),
                old(children_layout).deep_view(),
            ),
            !has_marker(old(self).deep_view()) ==> final(self).deep_view() == old(
                self,
            ).deep_view(),
    {
        let (r, ok) = insert_layout_rebuilt(self, children_layout);
        *self = r;
        Ok(ok)
    }

    /// Splice the given nodes, in order, into the child list of the first
    /// marked node found in depth-first pre-order, clearing that marker and
    /// draining the list; reports whether an insertion point was found.
    pub fn insert_children_nodes(&mut self, children_nodes: &mut Vec<TiledPaneLayout>) -> (r:
        Result<bool, ConfigError>)
        requires
            markers_wf(old(self).deep_view()),
        ensures
            r matches Ok(b) && b == has_marker(old(self).deep_view()),
            has_marker(old(self).deep_view()) ==> final(self).deep_view() == splice_nodes(
                old(self).deep_view(),
                old(children_nodes).deep_view(),
            ) && final(children_nodes)@.len() == 0,
            !has_marker(old(self).deep_view()) ==> final(self).deep_view() == old(self).deep_view()
                && final(children_nodes)@ == old(children_nodes)@,
    {
        let (r, ok) = insert_nodes_rebuilt(self, children_nodes);
        *self = r;
        Ok(ok)
    }
}

/// A copy of the node with its subtree dropped.
fn clone_node_shell(node: &TiledPaneLayout) -> (r: TiledPaneLayout)
    ensures
        r.deep_view() == clear_children(node.deep_view()),
{
    let r = TiledPaneLayout {
        children_split_direction: node.children_split_direction,
        name: clone_opt_string(&node.name),
        children: Vec::new(),
        split_size: node.split_size,
        run: clone_opt_run(&node.run),
        borderless: node.borderless,
        focus: node.focus,
        external_children_index: node.external_children_index,
        children_are_stacked: node.children_are_stacked,
    };
    proof {
        assert(r.deep_view().children =~= clear_children(node.deep_view()).children);
        assert(r.deep_view() =~= clear_children(node.deep_view()));
    }
    r
}

/// Recursive worker for `truncate`: a rebuilt copy of `node` with at most
/// `max_panes` leaves, and the reported child count.
fn truncate_rebuilt(node: &TiledPaneLayout, max_panes: usize) -> (res: (TiledPaneLayout, usize))
    ensures
        res.0.deep_view() == truncate_spec(node.deep_view(), max_panes as int),
        res.1 as int == truncate_ret(node.deep_view(), max_panes as int),
    decreases *node,
{
    let ghost v = node.deep_view();
    if max_panes <= 1 {
        let r = clone_node_shell(node);
        (r, 1)
    } else if max_panes <= node.children.len() {
        let mut new_children: Vec<TiledPaneLayout> = Vec::new();
        let mut i: usize = 0;
        while i < max_panes
            invariant
                0 <= i <= max_panes,
                max_panes <= node.children@.len(),
                v == node.deep_view(),
                v.children.len() == node.children@.len(),
                new_children@.len() == i,
                forall|j: int|
                    0 <= j < i ==> new_children@[j].deep_view() == clear_children(
                        #[trigger] v.children[j],
                    ),
            decreases max_panes - i,
        {
            new_children.push(clone_node_shell(&node.children[i]));
            i += 1;
        }
        let r = TiledPaneLayout {
            children_split_direction: node.children_split_direction,
            name: clone_opt_string(&node.name),
            children: new_children,
            split_size: node.split_size,
            run: clone_opt_run(&node.run),
            borderless: node.borderless,
            focus: node.focus,
            external_children_index: node.external_children_index,
            children_are_stacked: node.children_are_stacked,
        };
        proof {
            let expected = v.children.take(max_panes as int).map(
                |i: int, c: TiledPaneLayoutView| clear_children(c),
            );
            assert(expected.len() == max_panes);
            assert forall|j: int| 0 <= j < max_panes implies r.deep_view().children[j]
                == expected[j] by {
                assert(r.deep_view().children[j] == r.children@[j].deep_view());
                assert(expected[j] == clear_children(v.children.take(max_panes as int)[j]));
            }
            assert(r.deep_view().children =~= expected);
            assert(r.deep_view() =~= truncate_spec(v, max_panes as int));
        }
        (r, max_panes)
    } else {
        let mut leaf_count: usize = 0;
        let mut i: usize = 0;
        while i < node.children.len()
            invariant
                0 <= i <= node.children@.len(),
                v == node.deep_view(),
                v.children.len() == node.children@.len(),
                0 <= leaf_count <= i,
                leaf_count == leaf_child_count(v.children.take(i as int)),
            decreases node.children@.len() - i,
        {
            proof {
                lemma_leaf_child_count_take_succ(v.children, i as int);
                lemma_leaf_child_count_bounds(v.children.take(i as int));
                assert(v.children[i as int] == node.children@[i as int].deep_view());
                assert(v.children[i as int].children.len() == node.children@[i as int].children@.len());
            }
            if node.children[i].children.len() == 0 {
                leaf_count += 1;
            }
            i += 1;
        }
        proof {
            assert(v.children.take(node.children@.len() as int) =~= v.children);
        }
        let mut remaining_panes: usize = max_panes - leaf_count;
        let ghost rem0 = remaining_panes as int;
        let mut new_children: Vec<TiledPaneLayout> = Vec::new();
        let mut i: usize = 0;
        while i < node.children.len()
            invariant
                0 <= i <= node.children@.len(),
                v == node.deep_view(),
                v.children.len() == node.children@.len(),
                new_children@.len() == i,
                truncate_children_spec(v.children.skip(i as int), remaining_panes as int).len()
                    == v.children.len() - i ==> true,
                truncate_children_spec(v.children, rem0) =~= new_children.deep_view()
                    + truncate_children_spec(v.children.skip(i as int), remaining_panes as int),
            decreases node.children@.len() - i,
        {
            let ghost rem_before = remaining_panes as int;
            let ghost rest = v.children.skip(i as int);
            proof {
                assert(rest[0] == v.children[i as int]);
                assert(rest.drop_first() =~= v.children.skip(i as int + 1));
            }
            if remaining_panes > 1 && node.children[i].children.len() > 0 {
                let (c2, consumed) = truncate_rebuilt(&node.children[i], remaining_panes);
                remaining_panes = remaining_panes.saturating_sub(consumed);
                new_children.push(c2);
                proof {
                    assert(truncate_children_spec(rest, rem_before) =~= seq![
                        truncate_spec(rest[0], rem_before),
                    ] + truncate_children_spec(rest.drop_first(), remaining_panes as int));
                    assert(new_children.deep_view() =~= new_children.deep_view().drop_last().push(
                        truncate_spec(rest[0], rem_before),
                    ));
                }
            } else {
                new_children.push(clone_node_shell(&node.children[i]));
                proof {
                    assert(truncate_children_spec(rest, rem_before) =~= seq![
                        clear_children(rest[0]),
                    ] + truncate_children_spec(rest.drop_first(), remaining_panes as int));
                }
            }
            proof {
                assert(new_children.deep_view().drop_last() =~= new_children.deep_view().take(
                    i as int,
                ));
            }
            i += 1;
        }
        proof {
            assert(v.children.skip(node.children@.len() as int) =~= Seq::<
                TiledPaneLayoutView,
            >::empty());
        }
        let r = TiledPaneLayout {
            children_split_direction: node.children_split_direction,
            name: clone_opt_string(&node.name),
            children: new_children,
            split_size: node.split_size,
            run: clone_opt_run(&node.run),
            borderless: node.borderless,
            focus: node.focus,
            external_children_index: node.external_children_index,
            children_are_stacked: node.children_are_stacked,
        };
        proof {
            assert(r.deep_view().children =~= truncate_spec(v, max_panes as int).children);
            assert(r.deep_view() =~= truncate_spec(v, max_panes as int));
        }
        let result_len = r.children.len();
        if result_len > 0 {
            (r, result_len)
        } else {
            (r, 1)
        }
    }
}

impl TiledPaneLayout {
    /// Shrink the tree in place to at most `max_panes` leaves; reports the
    /// resulting direct-child count, or one for a node left a leaf.  A
    /// budget of at most one always leaves a single childless pane.
    pub fn truncate(&mut self, max_panes: usize) -> (r: usize)
        ensures
            final(self).deep_view() == truncate_spec(old(self).deep_view(), max_panes as int),
            r as int == truncate_ret(old(self).deep_view(), max_panes as int),
            max_panes <= 1 ==> final(self).deep_view().children.len() == 0 && pane_count(
                final(self).deep_view(),
            ) == 1,
    {
        let (t, r) = truncate_rebuilt(self, max_panes);
        *self = t;
        r
    }
}

/// A floating pane: leaf-only, with optional geometry expressed as
/// percent-or-fixed coordinates resolved later by the placement policy.
#[derive(Debug, PartialEq, Eq)]
pub struct FloatingPaneLayout {
    pub name: Option<String>,
    pub height: Option<PercentOrFixed>,
    pub width: Option<PercentOrFixed>,
    pub x: Option<PercentOrFixed>,
    pub y: Option<PercentOrFixed>,
    pub run: Option<Run>,
    pub focus: Option<bool>,
}

#[verifier::ext_equal]
pub struct FloatingPaneLayoutView {
    pub name: Option<Seq<char>>,
    pub height: Option<PercentOrFixed>,
    pub width: Option<PercentOrFixed>,
    pub x: Option<PercentOrFixed>,
    pub y: Option<PercentOrFixed>,
    pub run: Option<RunView>,
    pub focus: Option<bool>,
}

impl DeepView for FloatingPaneLayout {
    type V = FloatingPaneLayoutView;

    open spec fn deep_view(&self) -> FloatingPaneLayoutView {
        FloatingPaneLayoutView {
            name: self.name.deep_view(),
            height: self.height,
            width: self.width,
            x: self.x,
            y: self.y,
            run: self.run.deep_view(),
            focus: self.focus,
        }
    }
}

/// The view of an empty floating pane, as `FloatingPaneLayout::default`
/// builds it.
pub open spec fn default_floating_view() -> FloatingPaneLayoutView {
    FloatingPaneLayoutView {
        name: None,
        height: None,
        width: None,
        x: None,
        y: None,
        run: None,
        focus: None,
    }
}

impl Clone for FloatingPaneLayout {
    fn clone(&self) -> (r: Self)
        ensures
            r.deep_view() == self.deep_view(),
    {
        FloatingPaneLayout {
            name: clone_opt_string(&self.name),
            height: self.height,
            width: self.width,
            x: self.x,
            y: self.y,
            run: clone_opt_run(&self.run),
            focus: self.focus,
        }
    }
}

impl Default for FloatingPaneLayout {
    fn default() -> (r: Self)
        ensures
            r.deep_view() == default_floating_view(),
    {
        FloatingPaneLayout {
            name: None,
            height: None,
            width: None,
            x: None,
            y: None,
            run: None,
            focus: None,
        }
    }
}

impl FloatingPaneLayout {
    /// Resolve the pane's run instruction against `cwd`; a pane without an
    /// instruction receives the bare directory as a pending `Cwd`.
    pub fn add_cwd_to_layout(&mut self, cwd: &str)
        ensures
            final(self).deep_view() == (FloatingPaneLayoutView {
                run: match old(self).deep_view().run {
                    Some(r) => Some(add_cwd_spec(r, cwd@)),
                    None => Some(RunView::Cwd(cwd@)),
                },
                ..old(self).deep_view()
            }),
    {
        let new_run = match &self.run {
            Some(run) => {
                let mut r = run.clone();
                r.add_cwd(cwd);
                Some(r)
            },
            None => Some(Run::Cwd(cwd.to_owned())),
        };
        self.run = new_run;
    }

    /// Convert a tiled leaf into a floating pane: name, run and focus are
    /// copied, all geometry fields start unset.
    pub fn from_tiled(pane_layout: &TiledPaneLayout) -> (r: Self)
        ensures
            r.deep_view() == (FloatingPaneLayoutView {
                name: pane_layout.deep_view().name,
                run: pane_layout.deep_view().run,
                focus: pane_layout.deep_view().focus,
                ..default_floating_view()
            }),
    {
        FloatingPaneLayout {
            name: clone_opt_string(&pane_layout.name),
            height: None,
            width: None,
            x: None,
            y: None,
            run: clone_opt_run(&pane_layout.run),
            focus: pane_layout.focus,
        }
    }
}

} // verus!
