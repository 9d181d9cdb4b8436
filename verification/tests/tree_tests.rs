use pane_layout::run::Run;
use pane_layout::tree::{FloatingPaneLayout, TiledPaneLayout};

fn leaf() -> TiledPaneLayout {
    TiledPaneLayout::default()
}

fn node(children: Vec<TiledPaneLayout>) -> TiledPaneLayout {
    let mut n = TiledPaneLayout::default();
    n.children = children;
    n
}

#[test]
fn pane_count_counts_leaves_only() {
    assert_eq!(leaf().pane_count(), 1);
    let tree = node(vec![leaf(), node(vec![leaf(), leaf(), leaf()])]);
    assert_eq!(tree.pane_count(), 4);
}

#[test]
fn deepest_depth_counts_levels() {
    assert_eq!(leaf().deepest_depth(), 1);
    let tree = node(vec![leaf(), node(vec![node(vec![leaf()])])]);
    assert_eq!(tree.deepest_depth(), 4);
}

#[test]
fn truncate_to_one_yields_single_leaf() {
    let mut tree = node(vec![leaf(), node(vec![leaf(), node(vec![leaf(), leaf()])])]);
    let remaining = tree.truncate(1);
    assert_eq!(remaining, 1);
    assert!(tree.children.is_empty());
    assert_eq!(tree.pane_count(), 1);
}

#[test]
fn truncate_keeps_first_children_as_leaves() {
    let mut tree = node(vec![node(vec![leaf(), leaf()]), leaf(), leaf(), leaf()]);
    let remaining = tree.truncate(3);
    assert_eq!(remaining, 3);
    assert_eq!(tree.children.len(), 3);
    assert!(tree.children.iter().all(|c| c.children.is_empty()));
    assert_eq!(tree.pane_count(), 3);
}

#[test]
fn truncate_distributes_budget_over_subtrees() {
    let mut tree = node(vec![leaf(), node(vec![leaf(), leaf(), leaf(), leaf(), leaf()])]);
    let remaining = tree.truncate(3);
    assert_eq!(remaining, 2);
    assert_eq!(tree.pane_count(), 3);
}

#[test]
fn focus_deepest_pane_marks_last_deepest_leaf() {
    let mut tree = node(vec![node(vec![leaf(), leaf()]), node(vec![leaf(), leaf()])]);
    assert!(!tree.has_focused_node());
    tree.focus_deepest_pane();
    assert!(tree.has_focused_node());
    // Ties are broken towards the last child at every level.
    assert_eq!(tree.children[1].children[1].focus, Some(true));
    assert_eq!(tree.children[0].children[0].focus, None);
}

#[test]
fn has_focused_node_sees_nested_focus() {
    let mut inner = leaf();
    inner.focus = Some(true);
    let tree = node(vec![leaf(), node(vec![inner])]);
    assert!(tree.has_focused_node());
    let plain = node(vec![leaf()]);
    assert!(!plain.has_focused_node());
}

#[test]
fn children_block_count_counts_markers() {
    let mut a = leaf();
    a.external_children_index = Some(0);
    let mut root = node(vec![a, leaf()]);
    root.external_children_index = Some(1);
    assert_eq!(root.children_block_count(), 2);
    assert_eq!(leaf().children_block_count(), 0);
}

#[test]
fn insert_children_layout_fills_first_marker() {
    let mut marked = leaf();
    marked.external_children_index = Some(0);
    let mut tree = node(vec![leaf(), marked]);
    let mut payload = node(vec![leaf(), leaf()]);
    let inserted = tree.insert_children_layout(&mut payload).unwrap();
    assert!(inserted);
    assert_eq!(tree.children[1].external_children_index, None);
    assert_eq!(tree.children[1].children.len(), 1);
    assert_eq!(tree.children[1].children[0].children.len(), 2);
    assert_eq!(tree.pane_count(), 3);
}

#[test]
fn insert_children_layout_without_marker_reports_false() {
    let mut tree = node(vec![leaf(), leaf()]);
    let mut payload = leaf();
    let inserted = tree.insert_children_layout(&mut payload).unwrap();
    assert!(!inserted);
    assert_eq!(tree.children.len(), 2);
}

#[test]
fn insert_children_nodes_splices_in_order() {
    let mut tree = node(vec![leaf()]);
    tree.external_children_index = Some(1);
    let mut first = leaf();
    first.name = Some("first".to_string());
    let mut second = leaf();
    second.name = Some("second".to_string());
    let mut nodes = vec![first, second];
    let inserted = tree.insert_children_nodes(&mut nodes).unwrap();
    assert!(inserted);
    assert!(nodes.is_empty());
    assert_eq!(tree.children.len(), 3);
    assert_eq!(tree.children[1].name.as_deref(), Some("first"));
    assert_eq!(tree.children[2].name.as_deref(), Some("second"));
    assert_eq!(tree.external_children_index, None);
}

#[test]
fn extract_run_instructions_is_preorder() {
    let mut a = leaf();
    a.run = Some(Run::Cwd("/a".to_string()));
    let mut b = leaf();
    b.run = Some(Run::Cwd("/b".to_string()));
    let mut c = leaf();
    c.run = Some(Run::Cwd("/c".to_string()));
    let tree = node(vec![a, node(vec![b, c])]);
    let runs = tree.extract_run_instructions();
    assert_eq!(
        runs,
        vec![
            Some(Run::Cwd("/a".to_string())),
            Some(Run::Cwd("/b".to_string())),
            Some(Run::Cwd("/c".to_string())),
        ]
    );
}

#[test]
fn with_one_pane_holds_one_child() {
    let tree = TiledPaneLayout::with_one_pane();
    assert_eq!(tree.children.len(), 1);
    assert!(tree.children[0].children.is_empty());
}

#[test]
fn add_cwd_to_layout_reaches_every_node() {
    let mut a = leaf();
    a.run = Some(Run::Cwd("sub".to_string()));
    let mut tree = node(vec![a, leaf()]);
    tree.add_cwd_to_layout("/root");
    assert_eq!(tree.run, Some(Run::Cwd("/root".to_string())));
    assert_eq!(tree.children[0].run, Some(Run::Cwd("/root/sub".to_string())));
    assert_eq!(tree.children[1].run, Some(Run::Cwd("/root".to_string())));
}

#[test]
fn floating_pane_from_tiled_copies_identity_only() {
    let mut tiled = leaf();
    tiled.name = Some("files".to_string());
    tiled.run = Some(Run::Cwd("/f".to_string()));
    tiled.focus = Some(true);
    let floating = FloatingPaneLayout::from_tiled(&tiled);
    assert_eq!(floating.name.as_deref(), Some("files"));
    assert_eq!(floating.run, Some(Run::Cwd("/f".to_string())));
    assert_eq!(floating.focus, Some(true));
    assert_eq!(floating.x, None);
    assert_eq!(floating.y, None);
    assert_eq!(floating.width, None);
    assert_eq!(floating.height, None);
}

#[test]
fn floating_pane_add_cwd() {
    let mut floating = FloatingPaneLayout::default();
    floating.add_cwd_to_layout("/root");
    assert_eq!(floating.run, Some(Run::Cwd("/root".to_string())));
    // An absolute stored path is kept; a relative one is resolved.
    floating.add_cwd_to_layout("/outer");
    assert_eq!(floating.run, Some(Run::Cwd("/root".to_string())));
    floating.run = Some(Run::Cwd("sub".to_string()));
    floating.add_cwd_to_layout("/outer");
    assert_eq!(floating.run, Some(Run::Cwd("/outer/sub".to_string())));
}
