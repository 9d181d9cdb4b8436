//! The space-splitting solver: recursively partition a rectangle among a
//! layout tree's children and emit one concrete rectangle per leaf, in
//! depth-first pre-order.

use vstd::prelude::*;

use crate::geometry::{Dimension, PaneGeom, SizeConstraint, SplitDirection, SplitSize};
use crate::tree::{
    clear_children, clone_tree, count_focused, deepest_child_index, depth, focus_deepest,
    has_focused, has_marker, leaves_seq, lemma_count_focused_single, lemma_focus_deepest_count,
    lemma_splice_count_focused, lemma_truncate_keeps_unfocused, lemma_unfocused_leaf_count,
    leaf_child_count, leaves, lemma_max_child_depth_ge, lemma_max_child_depth_le,
    lemma_pane_count_pos, markers_wf, markers_wf_seq, max_child_depth, pane_count, splice_nodes,
    splice_nodes_seq, truncate_children_spec, truncate_spec, TiledPaneLayout,
    TiledPaneLayoutView,
};

verus! {

/// Why a level of the tree cannot be laid out.
#[derive(Debug, PartialEq, Eq, Structural, Clone, Copy)]
pub enum SplitFailure {
    /// The declared minimum sizes exceed the available span.
    NotEnoughRoom,
    /// A flexible child is to be sized inside a fixed-denominated span.
    FixedFlex,
}

/// Addition clamped to the machine word, as the solver's running sums are.
pub open spec fn sat_add_usize(a: int, b: int) -> int {
    if a + b > usize::MAX {
        usize::MAX as int
    } else {
        a + b
    }
}

pub open spec fn sat_sub_int(a: int, b: int) -> int {
    if a - b < 0 {
        0
    } else {
        a - b
    }
}

/// The size entries of a node's children: their declared sizes, or, for a
/// stacked node, one cell for every child but the last, which is flexible.
pub open spec fn size_entries(v: TiledPaneLayoutView) -> Seq<Option<SplitSize>> {
    if v.children_are_stacked {
        Seq::new(
            v.children.len(),
            |i: int|
                if i == v.children.len() - 1 {
                    None
                } else {
                    Some(SplitSize::Fixed(1))
                },
        )
    } else {
        Seq::new(
            v.children.len(),
            |i: int|
                if 0 <= i < v.children.len() {
                    v.children[i].split_size
                } else {
                    None
                },
        )
    }
}

/// The least span the entries can fit in: each fixed entry in full, one
/// cell for every percent or flexible entry.
pub open spec fn min_size_needed(s: Seq<Option<SplitSize>>) -> int
    decreases s.len(),
{
    if s.len() == 0 {
        0
    } else {
        sat_add_usize(
            min_size_needed(s.drop_last()),
            match s.last() {
                Some(SplitSize::Fixed(f)) => f as int,
                _ => 1,
            },
        )
    }
}

/// The sum of the explicit percent entries.
pub open spec fn percent_sum(s: Seq<Option<SplitSize>>) -> int
    decreases s.len(),
{
    if s.len() == 0 {
        0
    } else {
        sat_add_usize(
            percent_sum(s.drop_last()),
            match s.last() {
                Some(SplitSize::Percent(p)) => p as int,
                _ => 0,
            },
        )
    }
}

/// How many entries are flexible.
pub open spec fn flex_count(s: Seq<Option<SplitSize>>) -> int
    decreases s.len(),
{
    if s.len() == 0 {
        0
    } else {
        flex_count(s.drop_last()) + (if s.last() is None {
            1int
        } else {
            0int
        })
    }
}

/// The dimension along which `dir` splits.
pub open spec fn span_dim(g: PaneGeom, dir: SplitDirection) -> Dimension {
    match dir {
        SplitDirection::Vertical => g.cols,
        SplitDirection::Horizontal => g.rows,
    }
}

/// Where children start along the split axis.
pub open spec fn start_pos(g: PaneGeom, dir: SplitDirection) -> int {
    match dir {
        SplitDirection::Vertical => g.x as int,
        SplitDirection::Horizontal => g.y as int,
    }
}

/// The dimension one child receives: an explicit percent resolves against
/// the root span, a fixed entry is absolute, a flexible entry shares the
/// percent left over equally with its flex siblings.
pub open spec fn child_dim(
    size: Option<SplitSize>,
    space_pct: int,
    expl: int,
    nflex: int,
    root_span: int,
) -> Dimension {
    match size {
        Some(SplitSize::Percent(p)) => Dimension {
            constraint: SizeConstraint::Percent(p),
            inner: (p * root_span / 100) as usize,
        },
        Some(SplitSize::Fixed(f)) => Dimension { constraint: SizeConstraint::Fixed(f), inner: f },
        None => {
            let fp = sat_sub_int(space_pct, expl) / (if nflex > 0 {
                nflex
            } else {
                1
            });
            Dimension {
                constraint: SizeConstraint::Percent(fp as usize),
                inner: (fp * root_span / 100) as usize,
            }
        },
    }
}

/// The position after laying the given spans end to end from `start`.
pub open spec fn pos_after(start: int, spans: Seq<int>) -> int
    decreases spans.len(),
{
    if spans.len() == 0 {
        start
    } else {
        sat_add_usize(pos_after(start, spans.drop_last()), spans.last())
    }
}

/// The solver's running total of the given spans.
pub open spec fn sat_sum(spans: Seq<int>) -> int {
    pos_after(0, spans)
}

/// One child's rectangle: its resolved dimension along the split axis, the
/// parent's dimension across it, and its position along the axis.
pub open spec fn assemble_geom(
    space: PaneGeom,
    dir: SplitDirection,
    stacked: bool,
    pos: int,
    dim: Dimension,
) -> PaneGeom {
    match dir {
        SplitDirection::Vertical => PaneGeom {
            x: pos as usize,
            y: space.y,
            cols: dim,
            rows: space.rows,
            is_stacked: stacked,
        },
        SplitDirection::Horizontal => PaneGeom {
            x: space.x,
            y: pos as usize,
            cols: space.cols,
            rows: dim,
            is_stacked: stacked,
        },
    }
}

/// A geometry with its span along `dir` replaced.
pub open spec fn set_span_inner(g: PaneGeom, dir: SplitDirection, val: int) -> PaneGeom {
    match dir {
        SplitDirection::Vertical => PaneGeom {
            cols: Dimension { inner: val as usize, ..g.cols },
            ..g
        },
        SplitDirection::Horizontal => PaneGeom {
            rows: Dimension { inner: val as usize, ..g.rows },
            ..g
        },
    }
}

/// Rounding correction: whatever the resolved spans miss of the available
/// span is added to the last child, whatever they exceed it by is taken
/// from it.
pub open spec fn bump_last(geoms: Seq<PaneGeom>, dir: SplitDirection, total: int, avail: int) -> Seq<
    PaneGeom,
> {
    if geoms.len() == 0 {
        geoms
    } else {
        let g = geoms.last();
        let span = span_dim(g, dir).inner as int;
        if total < avail {
            geoms.update(geoms.len() - 1, set_span_inner(g, dir, sat_add_usize(span, avail - total)))
        } else if total > avail {
            geoms.update(geoms.len() - 1, set_span_inner(g, dir, sat_sub_int(span, total - avail)))
        } else {
            geoms
        }
    }
}

/// The percent the space being split is denominated in, or zero where it
/// is fixed (in which case flexible children are rejected beforehand).
pub open spec fn space_pct_of(space_span: Dimension) -> int {
    match space_span.constraint {
        SizeConstraint::Percent(p) => p as int,
        SizeConstraint::Fixed(_) => 0,
    }
}

/// The uncorrected child spans of one level.
pub open spec fn level_spans0(space: PaneGeom, v: TiledPaneLayoutView, root: PaneGeom) -> Seq<int> {
    let dir = v.children_split_direction;
    let sizes = size_entries(v);
    let space_pct = space_pct_of(span_dim(space, dir));
    let expl = percent_sum(sizes);
    let nflex = flex_count(sizes);
    let root_span = span_dim(root, dir).inner as int;
    Seq::new(
        sizes.len(),
        |i: int|
            if 0 <= i < sizes.len() {
                child_dim(sizes[i], space_pct, expl, nflex, root_span).inner as int
            } else {
                0
            },
    )
}

/// The child rectangles of one level, before rounding correction.
pub open spec fn level_geoms0(space: PaneGeom, v: TiledPaneLayoutView, root: PaneGeom) -> Seq<
    PaneGeom,
> {
    let dir = v.children_split_direction;
    let sizes = size_entries(v);
    let space_pct = space_pct_of(span_dim(space, dir));
    let expl = percent_sum(sizes);
    let nflex = flex_count(sizes);
    let root_span = span_dim(root, dir).inner as int;
    let spans0 = level_spans0(space, v, root);
    Seq::new(
        sizes.len(),
        |i: int|
            if 0 <= i < sizes.len() {
                assemble_geom(
                    space,
                    dir,
                    v.children_are_stacked,
                    pos_after(start_pos(space, dir), spans0.take(i)),
                    child_dim(sizes[i], space_pct, expl, nflex, root_span),
                )
            } else {
                space
            },
    )
}

/// The child rectangles of one level, rounding correction applied.
pub open spec fn level_geoms(space: PaneGeom, v: TiledPaneLayoutView, root: PaneGeom) -> Seq<
    PaneGeom,
> {
    let dir = v.children_split_direction;
    let spans0 = level_spans0(space, v, root);
    bump_last(level_geoms0(space, v, root), dir, sat_sum(spans0), span_dim(space, dir).inner as int)
}

/// Why this level fails, if it does: not enough room for the declared
/// minimums, or flexible children inside a fixed-denominated span.
pub open spec fn level_fail(space: PaneGeom, v: TiledPaneLayoutView) -> Option<SplitFailure> {
    let dir = v.children_split_direction;
    let sizes = size_entries(v);
    let space_span = span_dim(space, dir);
    if min_size_needed(sizes) > space_span.inner {
        Some(SplitFailure::NotEnoughRoom)
    } else if flex_count(sizes) > 0 && !(space_span.constraint is Percent) {
        Some(SplitFailure::FixedFlex)
    } else {
        None
    }
}

/// What the solver yields on a whole tree: one `(leaf, rectangle)` pair
/// per leaf in depth-first pre-order, or the first failure found.
pub open spec fn split_node(space: PaneGeom, v: TiledPaneLayoutView, root: PaneGeom) -> Result<
    Seq<(TiledPaneLayoutView, PaneGeom)>,
    SplitFailure,
>
    decreases v, 1int,
{
    match level_fail(space, v) {
        Some(f) => Err(f),
        None => {
            let geoms = level_geoms(space, v, root);
            match split_children_rec(v.children, geoms, root) {
                Err(f) => Err(f),
                Ok(s) => Ok(
                    if s.len() == 0 {
                        seq![(v, space)]
                    } else {
                        s
                    },
                ),
            }
        },
    }
}

pub open spec fn split_children_rec(
    children: Seq<TiledPaneLayoutView>,
    geoms: Seq<PaneGeom>,
    root: PaneGeom,
) -> Result<Seq<(TiledPaneLayoutView, PaneGeom)>, SplitFailure>
    decreases children, 0int,
{
    if children.len() == 0 {
        Ok(Seq::empty())
    } else {
        let head = if children[0].children.len() > 0 {
            split_node(geoms[0], children[0], root)
        } else {
            Ok(seq![(children[0], geoms[0])])
        };
        match head {
            Err(f) => Err(f),
            Ok(hs) => match split_children_rec(children.drop_first(), geoms.drop_first(), root) {
                Err(f) => Err(f),
                Ok(ts) => Ok(hs + ts),
            },
        }
    }
}

/// Every split size of the tree keeps its percent within 100.
pub open spec fn sizes_wf(v: TiledPaneLayoutView) -> bool
    decreases v, 1int,
{
    (match v.split_size {
        Some(SplitSize::Percent(p)) => p <= 100,
        _ => true,
    }) && sizes_wf_seq(v.children)
}

pub open spec fn sizes_wf_seq(s: Seq<TiledPaneLayoutView>) -> bool
    decreases s, 0int,
{
    s.len() == 0 || (sizes_wf(s[0]) && sizes_wf_seq(s.drop_first()))
}

pub proof fn lemma_sizes_wf_seq_elt(s: Seq<TiledPaneLayoutView>, i: int)
    requires
        sizes_wf_seq(s),
        0 <= i < s.len(),
    ensures
        sizes_wf(s[i]),
    decreases s.len(),
{
    if i > 0 {
        lemma_sizes_wf_seq_elt(s.drop_first(), i - 1);
    }
}

pub proof fn lemma_min_size_bounds(s: Seq<Option<SplitSize>>)
    ensures
        0 <= min_size_needed(s) <= usize::MAX,
        0 <= percent_sum(s) <= usize::MAX,
        0 <= flex_count(s) <= s.len(),
    decreases s.len(),
{
    if s.len() > 0 {
        lemma_min_size_bounds(s.drop_last());
    }
}

pub proof fn lemma_min_size_elt(s: Seq<Option<SplitSize>>, i: int)
    requires
        0 <= i < s.len(),
    ensures
        min_size_needed(s) >= (match s[i] {
            Some(SplitSize::Fixed(f)) => f as int,
            _ => 1int,
        }),
    decreases s.len(),
{
    lemma_min_size_bounds(s.drop_last());
    if i == s.len() - 1 {
    } else {
        lemma_min_size_elt(s.drop_last(), i);
        assert(s.drop_last()[i] == s[i]);
    }
}

pub proof fn lemma_pos_after_bounds(start: int, s: Seq<int>)
    requires
        0 <= start <= usize::MAX,
        forall|i: int| 0 <= i < s.len() ==> 0 <= #[trigger] s[i] <= usize::MAX,
    ensures
        start <= pos_after(start, s) <= usize::MAX,
        forall|i: int| 0 <= i < s.len() ==> pos_after(start, s) >= #[trigger] s[i],
    decreases s.len(),
{
    if s.len() > 0 {
        assert(forall|i: int|
            0 <= i < s.drop_last().len() ==> 0 <= #[trigger] s.drop_last()[i] <= usize::MAX);
        lemma_pos_after_bounds(start, s.drop_last());
        assert(forall|i: int| 0 <= i < s.len() - 1 ==> s.drop_last()[i] == s[i]);
    }
}

/// If the running total never saturated, it is the exact sum.
pub proof fn lemma_pos_after_exact(start: int, s: Seq<int>)
    requires
        0 <= start <= usize::MAX,
        forall|i: int| 0 <= i < s.len() ==> 0 <= #[trigger] s[i] <= usize::MAX,
        pos_after(start, s) < usize::MAX,
    ensures
        pos_after(start, s) == start + sum_int(s),
    decreases s.len(),
{
    if s.len() > 0 {
        assert(forall|i: int|
            0 <= i < s.drop_last().len() ==> 0 <= #[trigger] s.drop_last()[i] <= usize::MAX);
        lemma_pos_after_bounds(start, s.drop_last());
        lemma_pos_after_exact(start, s.drop_last());
        assert(sum_int(s) == sum_int(s.drop_last()) + s.last());
    }
}

/// The plain integer sum of the spans.
pub open spec fn sum_int(s: Seq<int>) -> int
    decreases s.len(),
{
    if s.len() == 0 {
        0
    } else {
        sum_int(s.drop_last()) + s.last()
    }
}

pub proof fn lemma_flex_count_elt(s: Seq<Option<SplitSize>>, i: int)
    requires
        0 <= i < s.len(),
        s[i] is None,
    ensures
        flex_count(s) >= 1,
    decreases s.len(),
{
    lemma_min_size_bounds(s.drop_last());
    if i < s.len() - 1 {
        lemma_flex_count_elt(s.drop_last(), i);
        assert(s.drop_last()[i] == s[i]);
    }
}

/// Every dimension a level resolves for its children is well formed.
pub proof fn lemma_child_dims_wf(space: PaneGeom, v: TiledPaneLayoutView, root: PaneGeom)
    requires
        space.wf(),
        root.wf(),
        sizes_wf(v),
        level_fail(space, v) is None,
    ensures
        forall|j: int|
            0 <= j < size_entries(v).len() ==> (#[trigger] child_dim(
                size_entries(v)[j],
                space_pct_of(span_dim(space, v.children_split_direction)),
                percent_sum(size_entries(v)),
                flex_count(size_entries(v)),
                span_dim(root, v.children_split_direction).inner as int,
            )).wf(),
{
    let dir = v.children_split_direction;
    let szs = size_entries(v);
    let space_pct = space_pct_of(span_dim(space, dir));
    let expl = percent_sum(szs);
    let nflex = flex_count(szs);
    let root_span_len = span_dim(root, dir).inner as int;
    assert forall|j: int| 0 <= j < szs.len() implies (#[trigger] child_dim(
        szs[j],
        space_pct,
        expl,
        nflex,
        root_span_len,
    )).wf() by {
        lemma_min_size_elt(szs, j);
        lemma_min_size_bounds(szs);
        match szs[j] {
            Some(SplitSize::Percent(p)) => {
                if !v.children_are_stacked {
                    lemma_sizes_wf_seq_elt(v.children, j);
                }
                assert(p <= 100);
                assert(p * root_span_len <= 100 * root_span_len) by (nonlinear_arith)
                    requires p <= 100, root_span_len >= 0;
                assert(p * root_span_len / 100 <= 100 * root_span_len / 100);
                assert(100 * root_span_len / 100 == root_span_len);
            },
            Some(SplitSize::Fixed(f)) => {
                assert(f as int <= min_size_needed(szs));
                assert(min_size_needed(szs) <= span_dim(space, dir).inner);
            },
            None => {
                lemma_flex_count_elt(szs, j);
                assert(space_pct <= 100);
                let fp = sat_sub_int(space_pct, expl) / (if nflex > 0 {
                    nflex
                } else {
                    1int
                });
                assert(0 <= fp <= 100) by (nonlinear_arith)
                    requires
                        nflex >= 1,
                        0 <= sat_sub_int(space_pct, expl) <= 100,
                        fp == sat_sub_int(space_pct, expl) / nflex,
                ;
                assert(fp * root_span_len <= 100 * root_span_len) by (nonlinear_arith)
                    requires 0 <= fp <= 100, root_span_len >= 0;
                assert(fp * root_span_len / 100 <= 100 * root_span_len / 100);
                assert(100 * root_span_len / 100 == root_span_len);
            },
        }
    }
}

/// Every rectangle a level lays out is well formed, rounding correction
/// included.
pub proof fn lemma_level_geoms_wf(space: PaneGeom, v: TiledPaneLayoutView, root: PaneGeom)
    requires
        space.wf(),
        root.wf(),
        sizes_wf(v),
        level_fail(space, v) is None,
    ensures
        forall|j: int|
            0 <= j < level_geoms(space, v, root).len() ==> (#[trigger] level_geoms(
                space,
                v,
                root,
            )[j]).wf(),
        level_geoms(space, v, root).len() == v.children.len(),
{
    let dir = v.children_split_direction;
    let szs = size_entries(v);
    let spans0 = level_spans0(space, v, root);
    let geoms0 = level_geoms0(space, v, root);
    let total = sat_sum(spans0);
    let avail = span_dim(space, dir).inner as int;
    lemma_child_dims_wf(space, v, root);
    assert forall|j: int| 0 <= j < geoms0.len() implies (#[trigger] geoms0[j]).wf() by {
        assert(span_dim(geoms0[j], dir) == child_dim(
            szs[j],
            space_pct_of(span_dim(space, dir)),
            percent_sum(szs),
            flex_count(szs),
            span_dim(root, dir).inner as int,
        ));
    }
    assert(forall|j: int| 0 <= j < spans0.len() ==> 0 <= #[trigger] spans0[j] <= usize::MAX);
    lemma_pos_after_bounds(0, spans0);
    if geoms0.len() > 0 {
        let last = geoms0.last();
        let last_span = span_dim(last, dir).inner as int;
        assert(spans0.last() == last_span);
        assert(total >= last_span);
        if total < avail {
            assert(sat_add_usize(last_span, avail - total) <= avail);
        }
    }
    assert(level_geoms(space, v, root) == bump_last(geoms0, dir, total, avail));
}

/// The error text each failure is reported with.
pub open spec fn split_error_message(f: SplitFailure) -> Seq<char> {
    match f {
        SplitFailure::NotEnoughRoom => "Not enough room for panes"@,
        SplitFailure::FixedFlex => "Implicit sizing within fixed-size panes is not supported"@,
    }
}


/// The per-child size entries of one node, with the stacked override
/// applied: the executable counterpart of `size_entries`.
#[verifier::loop_isolation(false)]
fn level_size_entries(layout: &TiledPaneLayout) -> (r: Vec<Option<SplitSize>>)
    ensures
        r@ == size_entries(layout.deep_view()),
{
    let ghost v = layout.deep_view();
    let n = layout.children.len();
    let mut sizes: Vec<Option<SplitSize>> = Vec::new();
    if layout.children_are_stacked {
        let mut i: usize = 0;
        while i < n
            invariant
                0 <= i <= n,
                sizes@.len() == i,
                forall|j: int| 0 <= j < i ==> sizes@[j] == Some(SplitSize::Fixed(1usize)),
            decreases n - i,
        {
            sizes.push(Some(SplitSize::Fixed(1)));
            i += 1;
        }
        if n > 0 {
            let _ = sizes.pop();
            sizes.push(None);
        }
    } else {
        let mut i: usize = 0;
        while i < n
            invariant
                0 <= i <= n,
                sizes@.len() == i,
                forall|j: int| 0 <= j < i ==> sizes@[j] == v.children[j].split_size,
            decreases n - i,
        {
            proof {
                assert(v.children[i as int] == layout.children@[i as int].deep_view());
            }
            sizes.push(layout.children[i].split_size);
            i += 1;
        }
    }
    proof {
        assert(sizes@ =~= size_entries(v));
    }
    sizes
}

/// Resolve each child's dimension and rectangle for one level, rounding
/// correction applied: the executable counterpart of `level_geoms`.
#[verifier::loop_isolation(false)]
#[verifier::rlimit(100)]
fn resolve_level_geoms(
    space_to_split: &PaneGeom,
    layout: &TiledPaneLayout,
    total_space_to_split: &PaneGeom,
    sizes: &Vec<Option<SplitSize>>,
    flex_parts: usize,
    total_percent: usize,
) -> (r: Vec<PaneGeom>)
    requires
        space_to_split.wf(),
        total_space_to_split.wf(),
        sizes_wf(layout.deep_view()),
        level_fail(*space_to_split, layout.deep_view()) is None,
        sizes@ == size_entries(layout.deep_view()),
        flex_parts as int == flex_count(size_entries(layout.deep_view())),
        total_percent as int == percent_sum(size_entries(layout.deep_view())),
    ensures
        r@ == level_geoms(*space_to_split, layout.deep_view(), *total_space_to_split),
{
    let ghost v = layout.deep_view();
    let ghost sv = *space_to_split;
    let ghost rv = *total_space_to_split;
    let ghost szs = size_entries(v);
    let direction = layout.children_split_direction;
    let split_dimension_space = match direction {
        SplitDirection::Vertical => space_to_split.cols,
        SplitDirection::Horizontal => space_to_split.rows,
    };
    let inherited_dimension = match direction {
        SplitDirection::Vertical => space_to_split.rows,
        SplitDirection::Horizontal => space_to_split.cols,
    };
    let total_split_dimension_space = match direction {
        SplitDirection::Vertical => total_space_to_split.cols,
        SplitDirection::Horizontal => total_space_to_split.rows,
    };
    let start_position = match direction {
        SplitDirection::Vertical => space_to_split.x,
        SplitDirection::Horizontal => space_to_split.y,
    };
    let space_pct: usize = match split_dimension_space.constraint {
        SizeConstraint::Percent(p) => p,
        SizeConstraint::Fixed(_) => 0,
    };
    let root_span_len = total_split_dimension_space.as_usize();
    let ghost expl = percent_sum(szs);
    let ghost nflex = flex_count(szs);
    let ghost spans0 = level_spans0(sv, v, rv);
    let ghost geoms0 = level_geoms0(sv, v, rv);

    // Every child dimension the level resolves is well formed.
    proof {
        assert forall|j: int| 0 <= j < szs.len() implies child_dim(
            szs[j],
            space_pct as int,
            expl,
            nflex,
            root_span_len as int,
        ).wf() by {
            lemma_min_size_elt(szs, j);
            lemma_min_size_bounds(szs);
            match szs[j] {
                Some(SplitSize::Percent(p)) => {
                    if !v.children_are_stacked {
                        lemma_sizes_wf_seq_elt(v.children, j);
                    }
                    assert(p <= 100);
                    assert(p * root_span_len <= 100 * root_span_len) by (nonlinear_arith)
                        requires p <= 100, root_span_len >= 0;
                    assert(p * root_span_len / 100 <= 100 * root_span_len / 100);
                    assert(100 * root_span_len / 100 == root_span_len);
                },
                Some(SplitSize::Fixed(f)) => {
                    assert(f as int <= min_size_needed(szs));
                    assert(min_size_needed(szs) <= split_dimension_space.inner);
                },
                None => {
                    lemma_flex_count_elt(szs, j);
                    assert(space_pct <= 100);
                    let fp = sat_sub_int(space_pct as int, expl) / (if nflex > 0 {
                        nflex
                    } else {
                        1int
                    });
                    assert(0 <= fp <= 100) by (nonlinear_arith)
                        requires
                            nflex >= 1,
                            0 <= sat_sub_int(space_pct as int, expl) <= 100,
                            fp == sat_sub_int(space_pct as int, expl) / nflex,
                    ;
                    assert(fp * root_span_len <= 100 * root_span_len) by (nonlinear_arith)
                        requires 0 <= fp <= 100, root_span_len >= 0;
                    assert(fp * root_span_len / 100 <= 100 * root_span_len / 100);
                    assert(100 * root_span_len / 100 == root_span_len);
                },
            }
        }
        assert forall|j: int| 0 <= j < spans0.len() implies 0 <= #[trigger] spans0[j]
            <= crate::geometry::MAX_PANE_SPAN by {
            assert(spans0[j] == child_dim(
                szs[j],
                space_pct as int,
                expl,
                nflex,
                root_span_len as int,
            ).inner as int);
        }
    }

    // Resolve each child's dimension and rectangle.
    let mut split_geoms: Vec<PaneGeom> = Vec::new();
    let mut current_position: usize = start_position;
    let mut total_pane_size: usize = 0;
    let mut i: usize = 0;
    while i < sizes.len()
        invariant
            0 <= i <= sizes@.len(),
            sizes@ == szs,
            v == layout.deep_view(),
            sv == *space_to_split,
            rv == *total_space_to_split,
            szs == size_entries(v),
            direction == v.children_split_direction,
            split_dimension_space == span_dim(sv, direction),
            inherited_dimension == (match direction {
                SplitDirection::Vertical => sv.rows,
                SplitDirection::Horizontal => sv.cols,
            }),
            space_pct as int == space_pct_of(span_dim(sv, direction)),
            root_span_len as int == span_dim(rv, direction).inner as int,
            expl == percent_sum(szs),
            nflex == flex_count(szs),
            flex_parts as int == nflex,
            spans0 == level_spans0(sv, v, rv),
            geoms0 == level_geoms0(sv, v, rv),
            spans0.len() == szs.len(),
            geoms0.len() == szs.len(),
            forall|j: int| 0 <= j < spans0.len() ==> 0 <= #[trigger] spans0[j]
                <= crate::geometry::MAX_PANE_SPAN,
            forall|j: int| 0 <= j < szs.len() ==> (#[trigger] child_dim(
                szs[j],
                space_pct as int,
                expl,
                nflex,
                root_span_len as int,
            )).wf(),
            split_geoms@.len() == i,
            forall|j: int| 0 <= j < i ==> split_geoms@[j] == geoms0[j],
            current_position as int == pos_after(start_pos(sv, direction), spans0.take(i as int)),
            total_pane_size as int == sat_sum(spans0.take(i as int)),
        decreases sizes@.len() - i,
    {
        proof {
            assert(spans0.take(i as int + 1).drop_last() =~= spans0.take(i as int));
            assert(spans0.take(i as int + 1).last() == spans0[i as int]);
        }
        let ghost expected_dim = child_dim(
            szs[i as int],
            space_pct as int,
            expl,
            nflex,
            root_span_len as int,
        );
        let split_dimension: Dimension = match sizes[i] {
            Some(SplitSize::Percent(percent)) => {
                proof {
                    assert(expected_dim.constraint == SizeConstraint::Percent(percent));
                    assert(percent <= 100);
                    assert(percent * root_span_len <= 100 * root_span_len) by (nonlinear_arith)
                        requires percent <= 100, root_span_len >= 0;
                }
                Dimension {
                    constraint: SizeConstraint::Percent(percent),
                    inner: percent * root_span_len / 100,
                }
            },
            Some(SplitSize::Fixed(fixed)) => Dimension {
                constraint: SizeConstraint::Fixed(fixed),
                inner: fixed,
            },
            None => {
                proof {
                    lemma_flex_count_elt(szs, i as int);
                    assert(split_dimension_space.wf());
                    assert(space_pct <= 100);
                }
                let free_percent = space_pct.saturating_sub(total_percent);
                let flex_percent = free_percent / flex_parts;
                proof {
                    assert(free_percent <= 100);
                    assert(flex_percent <= free_percent) by (nonlinear_arith)
                        requires
                            flex_parts >= 1,
                            free_percent >= 0,
                            flex_percent == free_percent / flex_parts,
                    ;
                    assert(flex_percent <= 100);
                    assert(flex_percent * root_span_len <= 100 * root_span_len)
                        by (nonlinear_arith)
                        requires flex_percent <= 100, root_span_len >= 0;
                }
                Dimension {
                    constraint: SizeConstraint::Percent(flex_percent),
                    inner: flex_percent * root_span_len / 100,
                }
            },
        };
        proof {
            assert(split_dimension == expected_dim);
            assert(spans0[i as int] == split_dimension.inner as int);
        }
        total_pane_size = total_pane_size.saturating_add(split_dimension.inner);
        let geom = match direction {
            SplitDirection::Vertical => PaneGeom {
                x: current_position,
                y: space_to_split.y,
                cols: split_dimension,
                rows: inherited_dimension,
                is_stacked: layout.children_are_stacked,
            },
            SplitDirection::Horizontal => PaneGeom {
                x: space_to_split.x,
                y: current_position,
                cols: inherited_dimension,
                rows: split_dimension,
                is_stacked: layout.children_are_stacked,
            },
        };
        split_geoms.push(geom);
        current_position = current_position.saturating_add(split_dimension.inner);
        proof {
            assert(geom == geoms0[i as int]);
        }
        i += 1;
    }
    proof {
        assert(spans0.take(spans0.len() as int) =~= spans0);
    }

    // Rounding correction on the last child.
    let split_dimension_len = split_dimension_space.as_usize();
    if total_pane_size < split_dimension_len {
        let increase_by = split_dimension_len - total_pane_size;
        if let Some(last_geom) = split_geoms.pop() {
            let mut last_geom = last_geom;
            match direction {
                SplitDirection::Vertical => last_geom.cols.increase_inner(increase_by),
                SplitDirection::Horizontal => last_geom.rows.increase_inner(increase_by),
            }
            split_geoms.push(last_geom);
        }
    } else if total_pane_size > split_dimension_len {
        let decrease_by = total_pane_size - split_dimension_len;
        if let Some(last_geom) = split_geoms.pop() {
            let mut last_geom = last_geom;
            match direction {
                SplitDirection::Vertical => last_geom.cols.decrease_inner(decrease_by),
                SplitDirection::Horizontal => last_geom.rows.decrease_inner(decrease_by),
            }
            split_geoms.push(last_geom);
        }
    }
    let ghost gv = level_geoms(sv, v, rv);
    proof {
        assert(split_geoms@ =~= gv);
    }
    split_geoms
}

/// Recursively partition `space_to_split` among `layout`'s children along
/// the node's split direction, percent sizes resolved against
/// `total_space_to_split`, and emit one `(leaf, rectangle)` pair per leaf
/// in depth-first pre-order.  A childless root occupies the whole space.
#[verifier::loop_isolation(false)]
#[verifier::rlimit(100)]
pub fn split_space(
    space_to_split: &PaneGeom,
    layout: &TiledPaneLayout,
    total_space_to_split: &PaneGeom,
) -> (r: Result<Vec<(TiledPaneLayout, PaneGeom)>, &'static str>)
    requires
        space_to_split.wf(),
        total_space_to_split.wf(),
        sizes_wf(layout.deep_view()),
    ensures
        (match r {
            Ok(positions) => split_node(
                *space_to_split,
                layout.deep_view(),
                *total_space_to_split,
            ) == Ok::<Seq<(TiledPaneLayoutView, PaneGeom)>, SplitFailure>(positions.deep_view()),
            Err(msg) => {
                &&& split_node(*space_to_split, layout.deep_view(), *total_space_to_split) matches
                    Err(f)
                &&& (split_node(*space_to_split, layout.deep_view(), *total_space_to_split)
                    matches Err(f) ==> msg@ == split_error_message(f))
            },
        }),
    decreases *layout,
{
    let ghost v = layout.deep_view();
    let ghost sv = *space_to_split;
    let ghost rv = *total_space_to_split;
    let n = layout.children.len();

    let sizes = level_size_entries(layout);
    let ghost szs = size_entries(v);

    let direction = layout.children_split_direction;
    let split_dimension_space = match direction {
        SplitDirection::Vertical => space_to_split.cols,
        SplitDirection::Horizontal => space_to_split.rows,
    };
    let inherited_dimension = match direction {
        SplitDirection::Vertical => space_to_split.rows,
        SplitDirection::Horizontal => space_to_split.cols,
    };
    let total_split_dimension_space = match direction {
        SplitDirection::Vertical => total_space_to_split.cols,
        SplitDirection::Horizontal => total_space_to_split.rows,
    };
    let start_position = match direction {
        SplitDirection::Vertical => space_to_split.x,
        SplitDirection::Horizontal => space_to_split.y,
    };
    proof {
        assert(split_dimension_space == span_dim(sv, direction));
        assert(total_split_dimension_space == span_dim(rv, direction));
        assert(start_position as int == start_pos(sv, direction));
    }

    // Minimum-size check, and the percent/flex tally for flex resolution.
    let mut min_size_for_panes: usize = 0;
    let mut flex_parts: usize = 0;
    let mut total_percent: usize = 0;
    let mut i: usize = 0;
    while i < sizes.len()
        invariant
            0 <= i <= sizes@.len(),
            sizes@ == szs,
            min_size_for_panes as int == min_size_needed(szs.take(i as int)),
            total_percent as int == percent_sum(szs.take(i as int)),
            flex_parts as int == flex_count(szs.take(i as int)),
            flex_parts <= i,
        decreases sizes@.len() - i,
    {
        proof {
            assert(szs.take(i as int + 1).drop_last() =~= szs.take(i as int));
            assert(szs.take(i as int + 1).last() == szs[i as int]);
        }
        match sizes[i] {
            Some(SplitSize::Fixed(fixed)) => {
                min_size_for_panes = min_size_for_panes.saturating_add(fixed);
            },
            Some(SplitSize::Percent(percent)) => {
                min_size_for_panes = min_size_for_panes.saturating_add(1);
                total_percent = total_percent.saturating_add(percent);
            },
            None => {
                min_size_for_panes = min_size_for_panes.saturating_add(1);
                flex_parts = flex_parts + 1;
            },
        }
        i += 1;
    }
    proof {
        assert(szs.take(szs.len() as int) =~= szs);
    }

    if min_size_for_panes > split_dimension_space.as_usize() {
        return Err("Not enough room for panes");
    }
    if flex_parts > 0 {
        match split_dimension_space.constraint {
            SizeConstraint::Fixed(_) => {
                return Err("Implicit sizing within fixed-size panes is not supported");
            },
            SizeConstraint::Percent(_) => {},
        }
    }
    proof {
        assert(level_fail(sv, v) is None);
    }

    let split_geoms = resolve_level_geoms(
        space_to_split,
        layout,
        total_space_to_split,
        &sizes,
        flex_parts,
        total_percent,
    );
    let ghost gv = level_geoms(sv, v, rv);
    proof {
        assert(split_geoms@ =~= gv);
        lemma_level_geoms_wf(sv, v, rv);
        broadcast use vstd::seq::Seq::add_empty_left;

        assert(v.children.skip(0) =~= v.children);
        assert(gv.skip(0) =~= gv);
    }

    // Recurse into the children that have subtrees, keeping leaf order.
    let mut pane_positions: Vec<(TiledPaneLayout, PaneGeom)> = Vec::new();
    proof {
        assert(pane_positions.deep_view() =~= Seq::<(TiledPaneLayoutView, PaneGeom)>::empty());
    }
    let mut i: usize = 0;
    while i < n
        invariant
            0 <= i <= n,
            n == layout.children@.len(),
            v == layout.deep_view(),
            sv == *space_to_split,
            rv == *total_space_to_split,
            total_space_to_split.wf(),
            v.children.len() == n,
            gv == level_geoms(sv, v, rv),
            gv.len() == n,
            split_geoms@ == gv,
            sizes_wf(v),
            level_fail(sv, v) is None,
            forall|j: int| 0 <= j < gv.len() ==> (#[trigger] gv[j]).wf(),
            split_children_rec(v.children, gv, rv) == (match split_children_rec(
                v.children.skip(i as int),
                gv.skip(i as int),
                rv,
            ) {
                Err(f) => Err::<Seq<(TiledPaneLayoutView, PaneGeom)>, SplitFailure>(f),
                Ok(ts) => Ok(pane_positions.deep_view() + ts),
            }),
        decreases n - i,
    {
        let ghost rest = v.children.skip(i as int);
        let ghost grest = gv.skip(i as int);
        proof {
            assert(rest[0] == v.children[i as int]);
            assert(grest[0] == gv[i as int]);
            assert(rest.drop_first() =~= v.children.skip(i as int + 1));
            assert(grest.drop_first() =~= gv.skip(i as int + 1));
            assert(v.children[i as int] == layout.children@[i as int].deep_view());
        }
        let part_position_and_size = split_geoms[i];
        if layout.children[i].children.len() > 0 {
            proof {
                lemma_sizes_wf_seq_elt(v.children, i as int);
                assert(level_fail(sv, v) is None);
            }
            match split_space(&part_position_and_size, &layout.children[i], total_space_to_split) {
                Ok(mut part_positions) => {
                    let ghost hs = part_positions.deep_view();
                    let ghost prior = pane_positions.deep_view();
                    pane_positions.append(&mut part_positions);
                    proof {
                        assert(pane_positions.deep_view() =~= prior + hs);
                        assert((prior + hs) + split_children_unwrap(
                            v.children.skip(i as int + 1),
                            gv.skip(i as int + 1),
                            rv,
                        ) =~= prior + (hs + split_children_unwrap(
                            v.children.skip(i as int + 1),
                            gv.skip(i as int + 1),
                            rv,
                        )));
                    }
                },
                Err(e) => {
                    return Err(e);
                },
            }
        } else {
            let ghost prior = pane_positions.deep_view();
            pane_positions.push((clone_tree(&layout.children[i]), part_position_and_size));
            proof {
                let hs = seq![(v.children[i as int], gv[i as int])];
                assert(pane_positions.deep_view() =~= prior + hs);
                assert((prior + hs) + split_children_unwrap(
                    v.children.skip(i as int + 1),
                    gv.skip(i as int + 1),
                    rv,
                ) =~= prior + (hs + split_children_unwrap(
                    v.children.skip(i as int + 1),
                    gv.skip(i as int + 1),
                    rv,
                )));
            }
        }
        i += 1;
    }
    proof {
        assert(v.children.skip(n as int) =~= Seq::<TiledPaneLayoutView>::empty());
        assert(gv.skip(n as int) =~= Seq::<PaneGeom>::empty());
        assert(pane_positions.deep_view() + Seq::<(TiledPaneLayoutView, PaneGeom)>::empty()
            =~= pane_positions.deep_view());
    }

    // A childless root occupies the whole space itself.
    if pane_positions.len() == 0 {
        pane_positions.push((clone_tree(layout), *space_to_split));
        proof {
            assert(pane_positions.deep_view() =~= seq![(v, sv)]);
        }
    }
    Ok(pane_positions)
}

pub proof fn lemma_sizes_wf_seq_build(s: Seq<TiledPaneLayoutView>)
    requires
        forall|i: int| 0 <= i < s.len() ==> sizes_wf(#[trigger] s[i]),
    ensures
        sizes_wf_seq(s),
    decreases s.len(),
{
    if s.len() > 0 {
        assert(forall|i: int|
            0 <= i < s.drop_first().len() ==> s.drop_first()[i] == s[i + 1]);
        lemma_sizes_wf_seq_build(s.drop_first());
    }
}

/// Truncation keeps every split size and never deepens the tree.
pub proof fn lemma_truncate_preserves(v: TiledPaneLayoutView, m: int)
    requires
        sizes_wf(v),
    ensures
        sizes_wf(truncate_spec(v, m)),
        depth(truncate_spec(v, m)) <= depth(v),
    decreases v, 1int,
{
    let t = truncate_spec(v, m);
    if m <= 1 {
        lemma_sizes_wf_seq_build(t.children);
    } else if m <= v.children.len() {
        assert forall|i: int| 0 <= i < t.children.len() implies sizes_wf(#[trigger] t.children[i])
            && depth(t.children[i]) <= max_child_depth(v.children) + 1 by {
            assert(t.children[i] == clear_children(v.children.take(m)[i]));
            lemma_sizes_wf_seq_elt(v.children, i);
            assert(clear_children(v.children[i]).children.len() == 0);
        }
        lemma_sizes_wf_seq_build(t.children);
        assert forall|i: int| 0 <= i < t.children.len() implies (#[trigger] t.children[i]).children.len() == 0 by {
            assert(t.children[i] == clear_children(v.children.take(m)[i]));
        }
        lemma_max_child_depth_le_one(t.children);
        lemma_max_child_depth_ge(v.children, 0);
        assert(depth(t) <= depth(v));
    } else {
        lemma_truncate_children_preserves(v.children, m - leaf_child_count(v.children));
        assert(t.children == truncate_children_spec(
            v.children,
            m - leaf_child_count(v.children),
        ));
    }
}

/// Every truncated child is a well-sized tree no deeper than the child
/// it came from.
pub proof fn lemma_truncate_children_preserves(s: Seq<TiledPaneLayoutView>, remaining: int)
    requires
        sizes_wf_seq(s),
    ensures
        sizes_wf_seq(truncate_children_spec(s, remaining)),
        max_child_depth(truncate_children_spec(s, remaining)) <= max_child_depth(s),
        truncate_children_spec(s, remaining).len() == s.len(),
    decreases s, 0int,
{
    if s.len() > 0 {
        let rest = s.drop_first();
        if remaining > 1 && s[0].children.len() > 0 {
            let t = truncate_spec(s[0], remaining);
            let consumed = if t.children.len() > 0 {
                t.children.len() as int
            } else {
                1int
            };
            lemma_truncate_preserves(s[0], remaining);
            lemma_truncate_children_preserves(rest, sat_sub_int(remaining, consumed));
            let out = truncate_children_spec(s, remaining);
            assert(out == seq![t] + truncate_children_spec(rest, sat_sub_int(remaining, consumed)));
            lemma_concat_head_preserves(t, truncate_children_spec(rest, sat_sub_int(remaining, consumed)), s);
        } else {
            let t = clear_children(s[0]);
            lemma_truncate_children_preserves(rest, remaining);
            let out = truncate_children_spec(s, remaining);
            assert(out == seq![t] + truncate_children_spec(rest, remaining));
            assert(sizes_wf(s[0])) by {
                lemma_sizes_wf_seq_elt(s, 0);
            }
            assert(sizes_wf(t));
            assert(depth(t) == 1);
            lemma_concat_head_preserves(t, truncate_children_spec(rest, remaining), s);
        }
    }
}

/// Prepending a well-sized head no deeper than the first source child
/// keeps the bundle well sized and no deeper than the source children.
proof fn lemma_concat_head_preserves(
    head: TiledPaneLayoutView,
    tail: Seq<TiledPaneLayoutView>,
    orig: Seq<TiledPaneLayoutView>,
)
    requires
        orig.len() > 0,
        sizes_wf(head),
        sizes_wf_seq(tail),
        depth(head) <= depth(orig[0]),
        max_child_depth(tail) <= max_child_depth(orig.drop_first()),
    ensures
        sizes_wf_seq(seq![head] + tail),
        max_child_depth(seq![head] + tail) <= max_child_depth(orig),
{
    let out = seq![head] + tail;
    assert(out[0] == head);
    assert(out.drop_first() =~= tail);
    assert(sizes_wf_seq(out));
    assert(max_child_depth(orig) >= depth(orig[0]));
    assert(max_child_depth(orig) >= max_child_depth(orig.drop_first()));
}

/// Splicing leaf placeholders keeps every split size and deepens the tree
/// by at most one level.
pub proof fn lemma_splice_nodes_preserves(v: TiledPaneLayoutView, nodes: Seq<TiledPaneLayoutView>)
    requires
        sizes_wf(v),
        markers_wf(v),
        forall|i: int|
            0 <= i < nodes.len() ==> sizes_wf(#[trigger] nodes[i]) && (#[trigger] nodes[i]).children.len() == 0,
    ensures
        sizes_wf(splice_nodes(v, nodes)),
        depth(splice_nodes(v, nodes)) <= depth(v) + 1,
    decreases v, 1int,
{
    let out = splice_nodes(v, nodes);
    match v.external_children_index {
        Some(idx) => {
            assert forall|i: int| 0 <= i < out.children.len() implies sizes_wf(
                #[trigger] out.children[i],
            ) && depth(out.children[i]) <= max_child_depth(v.children) + 1 by {
                let c = out.children[i];
                if i < idx {
                    assert(c == v.children.take(idx as int)[i]);
                    assert(c == v.children[i]);
                    lemma_sizes_wf_seq_elt(v.children, i);
                    lemma_max_child_depth_ge(v.children, i);
                } else if i < idx + nodes.len() {
                    assert(c == nodes[i - idx]);
                    assert(depth(c) == 1);
                } else {
                    assert(c == v.children.skip(idx as int)[i - idx - nodes.len()]);
                    assert(c == v.children[i - nodes.len()]);
                    lemma_sizes_wf_seq_elt(v.children, i - nodes.len());
                    lemma_max_child_depth_ge(v.children, i - nodes.len());
                }
            }
            lemma_sizes_wf_seq_build(out.children);
            lemma_max_child_depth_le(out.children, max_child_depth(v.children) as int + 1);
        },
        None => {
            lemma_splice_nodes_seq_preserves(v.children, nodes);
            assert(out.children == splice_nodes_seq(v.children, nodes));
        },
    }
}

pub proof fn lemma_splice_nodes_seq_preserves(
    s: Seq<TiledPaneLayoutView>,
    nodes: Seq<TiledPaneLayoutView>,
)
    requires
        sizes_wf_seq(s),
        markers_wf_seq(s),
        forall|i: int|
            0 <= i < nodes.len() ==> sizes_wf(#[trigger] nodes[i]) && (#[trigger] nodes[i]).children.len() == 0,
    ensures
        sizes_wf_seq(splice_nodes_seq(s, nodes)),
        max_child_depth(splice_nodes_seq(s, nodes))
            <= max_child_depth(s) + 1,
    decreases s, 0int,
{
    if s.len() > 0 {
        let rest = s.drop_first();
        assert(sizes_wf(s[0])) by {
            lemma_sizes_wf_seq_elt(s, 0);
        }
        if has_marker(s[0]) {
            lemma_splice_nodes_preserves(s[0], nodes);
            let out = seq![splice_nodes(s[0], nodes)] + rest;
            assert(splice_nodes_seq(s, nodes) == out);
            assert(out[0] == splice_nodes(s[0], nodes));
            assert(out.drop_first() =~= rest);
            assert forall|i: int| 0 <= i < out.len() implies sizes_wf(#[trigger] out[i]) && depth(
                out[i],
            ) <= max_child_depth(s) + 1 by {
                if i == 0 {
                    lemma_max_child_depth_ge(s, 0);
                } else {
                    assert(out[i] == s[i]);
                    lemma_sizes_wf_seq_elt(s, i);
                    lemma_max_child_depth_ge(s, i);
                }
            }
            lemma_sizes_wf_seq_build(out);
            lemma_max_child_depth_le(out, max_child_depth(s) as int + 1);
        } else {
            lemma_splice_nodes_seq_preserves(rest, nodes);
            let out = seq![s[0]] + splice_nodes_seq(rest, nodes);
            assert(splice_nodes_seq(s, nodes) == out);
            assert(out[0] == s[0]);
            assert(out.drop_first() =~= splice_nodes_seq(rest, nodes));
            assert(sizes_wf_seq(out));
            lemma_max_child_depth_ge(s, 0);
            assert(max_child_depth(out) <= max_child_depth(s) + 1) by {
                assert forall|i: int| 0 <= i < out.len() implies depth(#[trigger] out[i])
                    <= max_child_depth(s) + 1 by {
                    if i > 0 {
                        assert(out[i] == splice_nodes_seq(rest, nodes)[i - 1]);
                        lemma_max_child_depth_ge(
                            splice_nodes_seq(rest, nodes),
                            i - 1,
                        );
                    }
                }
                lemma_max_child_depth_le(out, max_child_depth(s) as int + 1);
            }
        }
    }
}

/// Focusing a leaf changes no split size.
pub proof fn lemma_focus_preserves_sizes(v: TiledPaneLayoutView)
    requires
        sizes_wf(v),
    ensures
        sizes_wf(focus_deepest(v)),
    decreases v,
{
    let out = focus_deepest(v);
    if v.children.len() > 0 {
        let di0 = deepest_child_index(v.children);
        let di = if 0 <= di0 < v.children.len() {
            di0
        } else {
            0int
        };
        lemma_sizes_wf_seq_elt(v.children, di);
        lemma_focus_preserves_sizes(v.children[di]);
        assert forall|i: int| 0 <= i < out.children.len() implies sizes_wf(
            #[trigger] out.children[i],
        ) by {
            if i != di {
                assert(out.children[i] == v.children[i]);
                lemma_sizes_wf_seq_elt(v.children, i);
            }
        }
        lemma_sizes_wf_seq_build(out.children);
    }
}

/// The depth of a sequence whose members all are leaves.
proof fn lemma_max_child_depth_le_one(s: Seq<TiledPaneLayoutView>)
    requires
        forall|i: int| 0 <= i < s.len() ==> (#[trigger] s[i]).children.len() == 0,
    ensures
        max_child_depth(s) <= 1,
    decreases s.len(),
{
    if s.len() > 0 {
        assert(forall|i: int|
            0 <= i < s.drop_first().len() ==> s.drop_first()[i] == s[i + 1]);
        lemma_max_child_depth_le_one(s.drop_first());
        assert(s[0].children.len() == 0);
        assert(max_child_depth(s[0].children) == 0);
        assert(depth(s[0]) == 1);
    }
}

/// Leaf placeholders inserted when growing a template; the last one
/// carries the focus when nothing in the template had it.
pub open spec fn placeholder_nodes(k: int, focus_last: bool) -> Seq<TiledPaneLayoutView> {
    Seq::new(
        k as nat,
        |i: int|
            if focus_last && i == k - 1 {
                TiledPaneLayoutView { focus: Some(true), ..crate::tree::default_tiled_view() }
            } else {
                crate::tree::default_tiled_view()
            },
    )
}

/// The tree `position_panes_in_space` actually solves: grown by leaf
/// placeholders or truncated to the requested pane count, then focused at
/// its deepest leaf if nothing was focused.
pub open spec fn adjusted_layout(v: TiledPaneLayoutView, max_panes: Option<usize>) -> (
    TiledPaneLayoutView
) {
    match max_panes {
        None => v,
        Some(m) => {
            let sized = if m > pane_count(v) {
                let extra = m - pane_count(v) + 1;
                let nodes = placeholder_nodes(extra as int, !crate::tree::has_focused(v));
                if has_marker(v) {
                    splice_nodes(v, nodes)
                } else {
                    v
                }
            } else {
                truncate_spec(v, m as int)
            };
            if !crate::tree::has_focused(sized) {
                focus_deepest(sized)
            } else {
                sized
            }
        },
    }
}

impl TiledPaneLayout {
    /// Adapt this tree to `max_panes` live panes, guarantee a focused
    /// leaf, and solve the geometry: one `(leaf, rectangle)` pair per
    /// pane in depth-first pre-order.  The layout is rejected when a
    /// level cannot be laid out or a resolved pane is below the minimum
    /// usable size.
    #[verifier::loop_isolation(false)]
    #[verifier::rlimit(100)]
    pub fn position_panes_in_space(&self, space: &PaneGeom, max_panes: Option<usize>) -> (r:
        Result<Vec<(TiledPaneLayout, PaneGeom)>, &'static str>)
        requires
            space.wf(),
            sizes_wf(self.deep_view()),
            markers_wf(self.deep_view()),
            pane_count(self.deep_view()) <= usize::MAX,
            depth(self.deep_view()) < usize::MAX,
        ensures
            (match r {
                Ok(out) => {
                    &&& split_node(*space, adjusted_layout(self.deep_view(), max_panes), *space)
                        == Ok::<Seq<(TiledPaneLayoutView, PaneGeom)>, SplitFailure>(out.deep_view())
                    &&& forall|i: int|
                        0 <= i < out.deep_view().len() ==> (#[trigger] out.deep_view()[
                        i]).1.rows.inner >= 1 && out.deep_view()[i].1.cols.inner >= 1
                },
                Err(msg) => {
                    &&& (split_node(*space, adjusted_layout(self.deep_view(), max_panes), *space)
                        matches Err(f) ==> msg@ == split_error_message(f))
                    &&& (split_node(*space, adjusted_layout(self.deep_view(), max_panes), *space)
                        matches Ok(s) ==> (exists|i: int|
                        0 <= i < s.len() && ((#[trigger] s[i]).1.rows.inner < 1
                            || s[i].1.cols.inner < 1)) && msg@
                        == "No room on screen for this layout!"@)
                },
            }),
    {
        let ghost v = self.deep_view();
        let ghost adj = adjusted_layout(v, max_panes);
        let layouts_result = match max_panes {
            Some(max_panes_count) => {
                let mut layout_to_split = self.clone();
                let pane_count_in_layout = layout_to_split.pane_count();
                proof {
                    lemma_pane_count_pos(v);
                }
                if max_panes_count > pane_count_in_layout {
                    // One extra placeholder: the marked node itself stops
                    // being a pane and becomes a container.
                    let children_count = (max_panes_count - pane_count_in_layout) + 1;
                    let ghost want_focus = !crate::tree::has_focused(v);
                    let mut extra_children: Vec<TiledPaneLayout> = Vec::new();
                    let mut i: usize = 0;
                    while i < children_count
                        invariant
                            0 <= i <= children_count,
                            extra_children@.len() == i,
                            forall|j: int|
                                0 <= j < i ==> (#[trigger] extra_children@[j]).deep_view()
                                    == crate::tree::default_tiled_view(),
                        decreases children_count - i,
                    {
                        extra_children.push(TiledPaneLayout::default());
                        i += 1;
                    }
                    if !layout_to_split.has_focused_node() {
                        if let Some(last_child) = extra_children.pop() {
                            let mut last_child = last_child;
                            last_child.focus = Some(true);
                            extra_children.push(last_child);
                            proof {
                                assert(last_child.deep_view() =~= (TiledPaneLayoutView {
                                    focus: Some(true),
                                    ..crate::tree::default_tiled_view()
                                }));
                            }
                        }
                    }
                    let ghost nodes = placeholder_nodes(children_count as int, want_focus);
                    proof {
                        assert(extra_children.deep_view() =~= nodes);
                        assert forall|j: int| 0 <= j < nodes.len() implies sizes_wf(
                            #[trigger] nodes[j],
                        ) && nodes[j].children.len() == 0 by {}
                    }
                    let _ = layout_to_split.insert_children_nodes(&mut extra_children);
                    proof {
                        if has_marker(v) {
                            lemma_splice_nodes_preserves(v, nodes);
                        }
                    }
                } else {
                    let _ = layout_to_split.truncate(max_panes_count);
                    proof {
                        lemma_truncate_preserves(v, max_panes_count as int);
                    }
                }
                if !layout_to_split.has_focused_node() {
                    layout_to_split.focus_deepest_pane();
                    proof {
                        lemma_focus_preserves_sizes(
                            if max_panes_count > pane_count_in_layout {
                                if has_marker(v) {
                                    splice_nodes(
                                        v,
                                        placeholder_nodes(
                                            max_panes_count - pane_count(v) + 1,
                                            !crate::tree::has_focused(v),
                                        ),
                                    )
                                } else {
                                    v
                                }
                            } else {
                                truncate_spec(v, max_panes_count as int)
                            },
                        );
                    }
                }
                proof {
                    assert(layout_to_split.deep_view() == adj);
                    assert(sizes_wf(adj));
                }
                split_space(space, &layout_to_split, space)
            },
            None => split_space(space, self, space),
        };
        let layouts = match layouts_result {
            Ok(l) => l,
            Err(e) => {
                return Err(e);
            },
        };
        let mut too_small = false;
        let mut i: usize = 0;
        while i < layouts.len()
            invariant
                0 <= i <= layouts@.len(),
                split_node(*space, adj, *space) == Ok::<
                    Seq<(TiledPaneLayoutView, PaneGeom)>,
                    SplitFailure,
                >(layouts.deep_view()),
                layouts.deep_view().len() == layouts@.len(),
                too_small == (exists|k: int|
                    0 <= k < i && ((#[trigger] layouts.deep_view()[k]).1.rows.inner < 1
                        || layouts.deep_view()[k].1.cols.inner < 1)),
            decreases layouts@.len() - i,
        {
            let geom = layouts[i].1;
            proof {
                assert(layouts.deep_view()[i as int].1 == layouts@[i as int].1);
            }
            if !geom.is_at_least_minimum_size() {
                too_small = true;
                proof {
                    let s = layouts.deep_view();
                    assert(0 <= i as int && (i as int) < i + 1 && ((#[trigger] s[
                    i as int]).1.rows.inner < 1 || s[i as int].1.cols.inner < 1));
                }
            }
            i += 1;
        }
        if too_small {
            return Err("No room on screen for this layout!");
        }
        proof {
            let s = layouts.deep_view();
            assert forall|j: int| 0 <= j < s.len() implies (#[trigger] s[j]).1.rows.inner >= 1
                && s[j].1.cols.inner >= 1 by {
                if s[j].1.rows.inner < 1 || s[j].1.cols.inner < 1 {
                    assert(0 <= j < layouts@.len() && ((#[trigger] s[j]).1.rows.inner < 1
                        || s[j].1.cols.inner < 1));
                }
            }
        }
        Ok(layouts)
    }
}

/// The solver touches no leaf: a successful split yields exactly the
/// tree's leaves, in depth-first pre-order, so its geometry list can be
/// paired positionally with the run instructions extracted from the same
/// tree.
pub proof fn lemma_split_preserves_leaves(space: PaneGeom, v: TiledPaneLayoutView, root: PaneGeom)
    ensures
        split_node(space, v, root) matches Ok(s) ==> s.len() == leaves(v).len() && (forall|i: int|
            0 <= i < s.len() ==> (#[trigger] s[i]).0 == leaves(v)[i]),
    decreases v, 1int,
{
    if level_fail(space, v) is None {
        let geoms = level_geoms(space, v, root);
        lemma_split_children_preserves_leaves(v.children, geoms, root);
        if v.children.len() > 0 {
            match split_children_rec(v.children, geoms, root) {
                Ok(cs) => {
                    crate::tree::lemma_leaves_seq_len(v.children);
                    crate::tree::lemma_pane_count_seq_pos(v.children);
                },
                Err(_) => {},
            }
        }
    }
}

pub proof fn lemma_split_children_preserves_leaves(
    children: Seq<TiledPaneLayoutView>,
    geoms: Seq<PaneGeom>,
    root: PaneGeom,
)
    ensures
        split_children_rec(children, geoms, root) matches Ok(cs) ==> cs.len() == leaves_seq(children).len() && (forall|i: int|
            0 <= i < cs.len() ==> (#[trigger] cs[i]).0 == leaves_seq(children)[i]),
    decreases children, 0int,
{
    if children.len() > 0 {
        if children[0].children.len() > 0 {
            lemma_split_preserves_leaves(geoms[0], children[0], root);
        }
        lemma_split_children_preserves_leaves(children.drop_first(), geoms.drop_first(), root);
        match split_children_rec(children, geoms, root) {
            Ok(cs) => {
                let head = if children[0].children.len() > 0 {
                    split_node(geoms[0], children[0], root)
                } else {
                    Ok(seq![(children[0], geoms[0])])
                };
                match head {
                    Ok(hs) => {
                        match split_children_rec(children.drop_first(), geoms.drop_first(), root) {
                            Ok(ts) => {
                                assert(cs == hs + ts);
                                assert(hs.len() == leaves(children[0]).len());
                                assert(leaves_seq(children) == leaves(children[0]) + leaves_seq(
                                    children.drop_first(),
                                ));
                                assert forall|i: int| 0 <= i < cs.len() implies (#[trigger] cs[
                                i]).0 == leaves_seq(children)[i] by {
                                    if i < hs.len() {
                                        assert(cs[i] == hs[i]);
                                        assert(leaves_seq(children)[i] == leaves(children[0])[i]);
                                    } else {
                                        assert(cs[i] == ts[i - hs.len()]);
                                        assert(leaves_seq(children)[i] == leaves_seq(
                                            children.drop_first(),
                                        )[i - hs.len()]);
                                    }
                                }
                            },
                            Err(_) => {},
                        }
                    },
                    Err(_) => {},
                }
            },
            Err(_) => {},
        }
    }
}

/// The spans of the rectangles of one level, along the split axis.
pub open spec fn geom_spans(geoms: Seq<PaneGeom>, dir: SplitDirection) -> Seq<int> {
    Seq::new(
        geoms.len(),
        |i: int|
            if 0 <= i < geoms.len() {
                span_dim(geoms[i], dir).inner as int
            } else {
                0
            },
    )
}

/// Running clamped sums never exceed the plain sum.
proof fn lemma_pos_after_le_sum(start: int, s: Seq<int>)
    ensures
        pos_after(start, s) <= start + sum_int(s),
    decreases s.len(),
{
    if s.len() > 0 {
        lemma_pos_after_le_sum(start, s.drop_last());
    }
}

/// Rounding correction squares the books: where the level's checks pass
/// and the uncorrected spans short of the last child do not already
/// overflow the available span, the corrected child spans sum to exactly
/// the span of the space being split.
pub proof fn lemma_level_spans_sum(space: PaneGeom, v: TiledPaneLayoutView, root: PaneGeom)
    requires
        space.wf(),
        root.wf(),
        sizes_wf(v),
        level_fail(space, v) is None,
        v.children.len() > 0,
        sum_int(level_spans0(space, v, root).drop_last()) <= span_dim(
            space,
            v.children_split_direction,
        ).inner,
    ensures
        sum_int(geom_spans(level_geoms(space, v, root), v.children_split_direction)) == span_dim(
            space,
            v.children_split_direction,
        ).inner,
{
    let dir = v.children_split_direction;
    let szs = size_entries(v);
    let spans0 = level_spans0(space, v, root);
    let geoms0 = level_geoms0(space, v, root);
    let avail = span_dim(space, dir).inner as int;
    let total = sat_sum(spans0);
    let n = spans0.len();
    lemma_child_dims_wf(space, v, root);
    assert forall|j: int| 0 <= j < n implies 0 <= #[trigger] spans0[j]
        <= crate::geometry::MAX_PANE_SPAN by {
        assert(spans0[j] == child_dim(
            szs[j],
            space_pct_of(span_dim(space, dir)),
            percent_sum(szs),
            flex_count(szs),
            span_dim(root, dir).inner as int,
        ).inner as int);
    }
    assert(geom_spans(geoms0, dir) =~= spans0);
    lemma_pos_after_bounds(0, spans0);
    lemma_pos_after_le_sum(0, spans0);
    let last = spans0.last();
    assert(sum_int(spans0) == sum_int(spans0.drop_last()) + last);
    assert(total >= last);
    let corrected = level_geoms(space, v, root);
    if total < avail {
        lemma_pos_after_exact(0, spans0);
        let new_last = sat_add_usize(last, avail - total);
        assert(new_last == last + (avail - total));
        assert(geom_spans(corrected, dir) =~= spans0.update(n - 1, new_last));
        assert(spans0.update(n - 1, new_last).drop_last() =~= spans0.drop_last());
        assert(sum_int(spans0.update(n - 1, new_last)) == sum_int(spans0.drop_last()) + new_last);
    } else if total > avail {
        assert(sum_int(spans0) < usize::MAX);
        lemma_pos_after_exact(0, spans0);
        let new_last = sat_sub_int(last, total - avail);
        assert(new_last == last - (total - avail));
        assert(geom_spans(corrected, dir) =~= spans0.update(n - 1, new_last));
        assert(spans0.update(n - 1, new_last).drop_last() =~= spans0.drop_last());
        assert(sum_int(spans0.update(n - 1, new_last)) == sum_int(spans0.drop_last()) + new_last);
    } else {
        lemma_pos_after_exact(0, spans0);
        assert(corrected == geoms0);
    }
}

proof fn lemma_pane_count_all_leaves(s: Seq<TiledPaneLayoutView>)
    requires
        forall|i: int| 0 <= i < s.len() ==> (#[trigger] s[i]).children.len() == 0,
    ensures
        crate::tree::pane_count_seq(s) == s.len(),
    decreases s.len(),
{
    if s.len() > 0 {
        assert(forall|i: int|
            0 <= i < s.drop_first().len() ==> s.drop_first()[i] == s[i + 1]);
        lemma_pane_count_all_leaves(s.drop_first());
        assert(s[0].children.len() == 0);
        assert(crate::tree::pane_count(s[0]) == 1);
    }
}

proof fn lemma_truncate_children_flat(s: Seq<TiledPaneLayoutView>, remaining: int)
    requires
        forall|i: int| 0 <= i < s.len() ==> (#[trigger] s[i]).children.len() == 0,
    ensures
        truncate_children_spec(s, remaining).len() == s.len(),
        forall|i: int|
            0 <= i < s.len() ==> (#[trigger] truncate_children_spec(s, remaining)[
            i]).children.len() == 0,
    decreases s.len(),
{
    if s.len() > 0 {
        assert(forall|i: int|
            0 <= i < s.drop_first().len() ==> s.drop_first()[i] == s[i + 1]);
        lemma_truncate_children_flat(s.drop_first(), remaining);
        let out = truncate_children_spec(s, remaining);
        assert(out == seq![clear_children(s[0])] + truncate_children_spec(
            s.drop_first(),
            remaining,
        ));
    }
}

/// On a tree whose children are all leaves, truncation yields exactly the
/// requested pane count, clamped to at least one pane and to the panes
/// there are.
pub proof fn lemma_truncate_flat(v: TiledPaneLayoutView, m: int)
    requires
        v.children.len() > 0,
        forall|i: int| 0 <= i < v.children.len() ==> (#[trigger] v.children[i]).children.len() == 0,
    ensures
        pane_count(truncate_spec(v, m)) == (if m <= 1 {
            1int
        } else if m <= v.children.len() {
            m
        } else {
            v.children.len() as int
        }),
{
    let t = truncate_spec(v, m);
    if m <= 1 {
    } else if m <= v.children.len() {
        assert forall|i: int| 0 <= i < t.children.len() implies (#[trigger] t.children[
        i]).children.len() == 0 by {
            assert(t.children[i] == clear_children(v.children.take(m)[i]));
        }
        lemma_pane_count_all_leaves(t.children);
    } else {
        lemma_truncate_children_flat(v.children, m - leaf_child_count(v.children));
        lemma_pane_count_all_leaves(t.children);
    }
}

/// With fewer panes wanted than a flat template holds, the tree the
/// solver is handed has exactly that many panes (one at the degenerate
/// budgets zero and one), so a successful solve emits exactly that many
/// rectangles.
pub proof fn lemma_position_truncates_flat(v: TiledPaneLayoutView, m: usize)
    requires
        v.children.len() > 0,
        forall|i: int| 0 <= i < v.children.len() ==> (#[trigger] v.children[i]).children.len() == 0,
        (m as int) < pane_count(v),
    ensures
        pane_count(adjusted_layout(v, Some(m))) == (if m <= 1 {
            1int
        } else {
            m as int
        }),
{
    lemma_pane_count_all_leaves(v.children);
    lemma_truncate_flat(v, m as int);
    let sized = truncate_spec(v, m as int);
    if !crate::tree::has_focused(sized) {
        lemma_focus_preserves_count(sized);
    }
}

/// Focusing the deepest leaf moves no pane: the pane count is unchanged.
pub proof fn lemma_focus_preserves_count(v: TiledPaneLayoutView)
    ensures
        pane_count(focus_deepest(v)) == pane_count(v),
    decreases v,
{
    let out = focus_deepest(v);
    if v.children.len() > 0 {
        let di0 = deepest_child_index(v.children);
        let di = if 0 <= di0 < v.children.len() {
            di0
        } else {
            0int
        };
        lemma_focus_preserves_count(v.children[di]);
        crate::tree::lemma_pane_count_seq_split(v.children, di);
        crate::tree::lemma_pane_count_seq_split(out.children, di);
        assert(out.children.take(di) =~= v.children.take(di));
        let vs = v.children.skip(di);
        let os = out.children.skip(di);
        assert(os[0] == focus_deepest(vs[0]));
        assert(os.drop_first() =~= vs.drop_first());
        assert(crate::tree::pane_count_seq(os) == crate::tree::pane_count_seq(vs));
    }
}

/// Adapting a tree that had no focused node leaves exactly one focused
/// leaf in the tree the solver is handed, whichever way the adjustment
/// went: a grown template focuses its last placeholder, every other path
/// focuses the deepest leaf.
pub proof fn lemma_position_focuses_one_leaf(v: TiledPaneLayoutView, m: usize)
    requires
        !has_focused(v),
        markers_wf(v),
    ensures
        count_focused(leaves(adjusted_layout(v, Some(m)))) == 1,
{
    if m > pane_count(v) {
        let extra = m - pane_count(v) + 1;
        let nodes = placeholder_nodes(extra as int, true);
        assert(nodes.len() == extra);
        assert(forall|i: int|
            0 <= i < nodes.len() ==> (#[trigger] nodes[i]).children.len() == 0);
        assert(nodes[extra as int - 1].focus == Some(true));
        assert(forall|j: int|
            0 <= j < nodes.len() && j != extra as int - 1 ==> (#[trigger] nodes[j]).focus != Some(
                true,
            ));
        lemma_count_focused_single(nodes, extra as int - 1);
        if has_marker(v) {
            let sized = splice_nodes(v, nodes);
            lemma_splice_count_focused(v, nodes);
            assert(count_focused(leaves(sized)) == 1);
            if !has_focused(sized) {
                lemma_unfocused_leaf_count(sized);
                assert(false);
            }
        } else {
            lemma_focus_deepest_count(v);
        }
    } else {
        let sized = truncate_spec(v, m as int);
        lemma_truncate_keeps_unfocused(v, m as int);
        lemma_focus_deepest_count(sized);
    }
}

/// The successful branch of `split_children_rec`, for stating loop facts.
pub open spec fn split_children_unwrap(
    children: Seq<TiledPaneLayoutView>,
    geoms: Seq<PaneGeom>,
    root: PaneGeom,
) -> Seq<(TiledPaneLayoutView, PaneGeom)> {
    match split_children_rec(children, geoms, root) {
        Ok(s) => s,
        Err(_) => Seq::empty(),
    }
}

} // verus!
