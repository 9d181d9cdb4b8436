use pane_layout::geometry::{
    Dimension, PaneGeom, PercentOrFixed, SizeConstraint, SplitDirection, SplitSize,
};
use pane_layout::run::Run;
use pane_layout::split::split_space;
use pane_layout::tree::TiledPaneLayout;

fn leaf() -> TiledPaneLayout {
    TiledPaneLayout::default()
}

fn sized_leaf(size: Option<SplitSize>) -> TiledPaneLayout {
    let mut l = leaf();
    l.split_size = size;
    l
}

fn screen(cols: usize, rows: usize) -> PaneGeom {
    PaneGeom {
        x: 0,
        y: 0,
        cols: Dimension { constraint: SizeConstraint::Percent(100), inner: cols },
        rows: Dimension { constraint: SizeConstraint::Percent(100), inner: rows },
        is_stacked: false,
    }
}

#[test]
fn fixed_percent_and_flex_share_a_row() {
    let mut root = leaf();
    root.children_split_direction = SplitDirection::Vertical;
    root.children = vec![
        sized_leaf(Some(SplitSize::Fixed(10))),
        sized_leaf(Some(SplitSize::Percent(50))),
        sized_leaf(None),
    ];
    let space = screen(100, 40);
    let result = split_space(&space, &root, &space).unwrap();
    assert_eq!(result.len(), 3);
    let widths: Vec<usize> = result.iter().map(|(_, g)| g.cols.inner).collect();
    assert_eq!(widths, vec![10, 50, 40]);
    // The corrected spans sum to the parent's span at this level.
    assert_eq!(widths.iter().sum::<usize>(), 100);
    let xs: Vec<usize> = result.iter().map(|(_, g)| g.x).collect();
    assert_eq!(xs, vec![0, 10, 60]);
    // The cross dimension is inherited whole.
    assert!(result.iter().all(|(_, g)| g.rows.inner == 40));
}

#[test]
fn single_leaf_occupies_the_whole_space() {
    let root = leaf();
    let space = screen(80, 24);
    let result = split_space(&space, &root, &space).unwrap();
    assert_eq!(result.len(), 1);
    assert_eq!(result[0].1, space);
}

#[test]
fn nested_split_keeps_preorder_and_sums() {
    let mut inner = leaf();
    inner.children_split_direction = SplitDirection::Horizontal;
    inner.children = vec![sized_leaf(None), sized_leaf(None)];
    let mut root = leaf();
    root.children_split_direction = SplitDirection::Vertical;
    root.children = vec![sized_leaf(None), inner];
    let space = screen(100, 40);
    let result = split_space(&space, &root, &space).unwrap();
    assert_eq!(result.len(), 3);
    // Left pane, then the two stacked panes of the right column.
    assert_eq!(result[0].1.x, 0);
    assert_eq!(result[0].1.cols.inner, 50);
    assert_eq!(result[1].1.x, 50);
    assert_eq!(result[2].1.x, 50);
    assert_eq!(result[1].1.rows.inner + result[2].1.rows.inner, 40);
}

#[test]
fn run_instructions_align_with_geometry() {
    let mut a = sized_leaf(None);
    a.run = Some(Run::Cwd("/a".to_string()));
    let mut b = sized_leaf(None);
    b.run = Some(Run::Cwd("/b".to_string()));
    let mut inner = leaf();
    inner.children = vec![b, sized_leaf(None)];
    let mut root = leaf();
    root.children_split_direction = SplitDirection::Vertical;
    root.children = vec![a, inner];
    let space = screen(100, 40);
    let geometry = split_space(&space, &root, &space).unwrap();
    let runs = root.extract_run_instructions();
    assert_eq!(geometry.len(), runs.len());
    for (i, (pane, _)) in geometry.iter().enumerate() {
        assert_eq!(pane.run, runs[i]);
    }
}

#[test]
fn stacked_children_collapse_to_slivers() {
    let mut root = leaf();
    root.children_split_direction = SplitDirection::Horizontal;
    root.children_are_stacked = true;
    root.children = vec![leaf(), leaf(), leaf()];
    let space = screen(80, 24);
    let result = split_space(&space, &root, &space).unwrap();
    let heights: Vec<usize> = result.iter().map(|(_, g)| g.rows.inner).collect();
    assert_eq!(heights, vec![1, 1, 22]);
    assert!(result.iter().all(|(_, g)| g.is_stacked));
}

#[test]
fn not_enough_room_is_reported() {
    let mut root = leaf();
    root.children_split_direction = SplitDirection::Vertical;
    root.children = vec![
        sized_leaf(Some(SplitSize::Fixed(80))),
        sized_leaf(Some(SplitSize::Fixed(80))),
    ];
    let space = screen(100, 40);
    let result = split_space(&space, &root, &space);
    assert_eq!(result, Err("Not enough room for panes"));
}

#[test]
fn flex_inside_fixed_space_is_rejected() {
    let mut root = leaf();
    root.children_split_direction = SplitDirection::Vertical;
    root.children = vec![sized_leaf(None), sized_leaf(None)];
    let mut space = screen(100, 40);
    space.cols = Dimension { constraint: SizeConstraint::Fixed(100), inner: 100 };
    let result = split_space(&space, &root, &space);
    assert_eq!(
        result,
        Err("Implicit sizing within fixed-size panes is not supported")
    );
}

#[test]
fn position_panes_truncates_to_max_panes() {
    let mut root = leaf();
    root.children_split_direction = SplitDirection::Vertical;
    root.children = vec![
        sized_leaf(None),
        sized_leaf(None),
        sized_leaf(None),
        sized_leaf(None),
        sized_leaf(None),
    ];
    let space = screen(100, 40);
    let result = root.position_panes_in_space(&space, Some(3)).unwrap();
    assert_eq!(result.len(), 3);
    let degenerate = root.position_panes_in_space(&space, Some(0)).unwrap();
    assert_eq!(degenerate.len(), 1);
}

#[test]
fn position_panes_focuses_exactly_one_leaf() {
    let mut root = leaf();
    root.children_split_direction = SplitDirection::Vertical;
    root.children = vec![sized_leaf(None), sized_leaf(None), sized_leaf(None)];
    let space = screen(100, 40);
    let result = root.position_panes_in_space(&space, Some(2)).unwrap();
    let focused = result.iter().filter(|(pane, _)| pane.focus == Some(true)).count();
    assert_eq!(focused, 1);
}

#[test]
fn position_panes_grows_through_a_marker() {
    let mut root = leaf();
    root.children_split_direction = SplitDirection::Vertical;
    root.external_children_index = Some(0);
    let space = screen(100, 40);
    let result = root.position_panes_in_space(&space, Some(3)).unwrap();
    assert_eq!(result.len(), 3);
    let focused = result.iter().filter(|(pane, _)| pane.focus == Some(true)).count();
    assert_eq!(focused, 1);
}

#[test]
fn position_panes_rejects_a_screen_too_small() {
    let mut root = leaf();
    root.children_split_direction = SplitDirection::Vertical;
    root.children = vec![sized_leaf(None), sized_leaf(None)];
    let space = screen(100, 0);
    let result = root.position_panes_in_space(&space, None);
    assert_eq!(result, Err("No room on screen for this layout!"));
}

#[test]
fn to_position_clamps_and_rounds_up() {
    assert_eq!(PercentOrFixed::Fixed(200).to_position(80), 80);
    assert_eq!(PercentOrFixed::Fixed(20).to_position(80), 20);
    assert_eq!(PercentOrFixed::Percent(50).to_position(81), 41);
    assert_eq!(PercentOrFixed::Percent(0).to_position(80), 0);
    assert!(PercentOrFixed::Percent(0).is_zero());
    assert!(PercentOrFixed::Fixed(0).is_zero());
    assert!(!PercentOrFixed::Fixed(3).is_zero());
}
