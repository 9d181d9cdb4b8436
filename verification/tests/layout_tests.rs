use pane_layout::geometry::{PercentOrFixed, SplitDirection, SplitSize};
use pane_layout::layout::{lookup_constraint, Layout, LayoutConstraint, LayoutParts};
use pane_layout::tree::TiledPaneLayout;

#[test]
fn constraint_order_is_total_and_stable() {
    let max2 = LayoutConstraint::MaxPanes(2);
    let max5 = LayoutConstraint::MaxPanes(5);
    let min1 = LayoutConstraint::MinPanes(1);
    let none = LayoutConstraint::NoConstraint;
    assert!(max2.is_before(&max5));
    assert!(max5.is_before(&min1));
    assert!(min1.is_before(&none));
    assert!(!none.is_before(&max2));
    assert!(!max2.is_before(&max2));
}

#[test]
fn constraint_lookup_finds_the_key() {
    let entries = vec![
        (LayoutConstraint::MaxPanes(3), "small"),
        (LayoutConstraint::MinPanes(4), "large"),
        (LayoutConstraint::NoConstraint, "any"),
    ];
    assert_eq!(lookup_constraint(&entries, &LayoutConstraint::MinPanes(4)), Some(&"large"));
    assert_eq!(lookup_constraint(&entries, &LayoutConstraint::NoConstraint), Some(&"any"));
    assert_eq!(lookup_constraint(&entries, &LayoutConstraint::MaxPanes(5)), None);
}

#[test]
fn layout_parts_insert_pane() {
    let mut parts = LayoutParts::default();
    assert!(parts.is_empty());
    parts.insert_pane(0, Layout::default()).unwrap();
    assert!(!parts.is_empty());
    let mut tabs = LayoutParts::Tabs(vec![]);
    assert!(tabs.insert_pane(0, Layout::default()).is_err());
}

#[test]
fn layout_new_tab_uses_the_template() {
    let empty = Layout::default();
    let (tiled, floating) = empty.new_tab();
    assert!(tiled.children.is_empty());
    assert!(floating.is_empty());

    let mut with_template = Layout::default();
    with_template.template = Some((TiledPaneLayout::with_one_pane(), vec![]));
    let (tiled, _) = with_template.new_tab();
    assert_eq!(tiled.children.len(), 1);
}

#[test]
fn layout_tab_getters() {
    let mut layout = Layout::default();
    assert!(!layout.has_tabs());
    layout.tabs = vec![(Some("main".to_string()), TiledPaneLayout::default(), vec![])];
    layout.focused_tab_index = Some(0);
    assert!(layout.has_tabs());
    assert_eq!(layout.focused_tab_index(), Some(0));
    let tabs = layout.tabs();
    assert_eq!(tabs.len(), 1);
    assert_eq!(tabs[0].0.as_deref(), Some("main"));
}

#[test]
fn split_direction_parsing_and_flip() {
    assert_eq!(SplitDirection::from_str("vertical"), Ok(SplitDirection::Vertical));
    assert_eq!(SplitDirection::from_str("Horizontal"), Ok(SplitDirection::Horizontal));
    assert!(SplitDirection::from_str("diagonal").is_err());
    assert_eq!(SplitDirection::default(), SplitDirection::Horizontal);
    assert_eq!(SplitDirection::Horizontal.not(), SplitDirection::Vertical);
    assert_eq!(SplitDirection::Vertical.not(), SplitDirection::Horizontal);
}

#[test]
fn split_size_parsing() {
    assert_eq!(SplitSize::from_str("50%"), Ok(SplitSize::Percent(50)));
    assert_eq!(SplitSize::from_str("100%"), Ok(SplitSize::Percent(100)));
    assert_eq!(SplitSize::from_str("12"), Ok(SplitSize::Fixed(12)));
    assert!(SplitSize::from_str("0%").is_err());
    assert!(SplitSize::from_str("120%").is_err());
    assert!(SplitSize::from_str("%").is_err());
    assert!(SplitSize::from_str("abc").is_err());
    assert!(SplitSize::from_str("").is_err());
}

#[test]
fn percent_or_fixed_parsing_allows_zero() {
    assert_eq!(PercentOrFixed::from_str("0%"), Ok(PercentOrFixed::Percent(0)));
    assert_eq!(PercentOrFixed::from_str("100%"), Ok(PercentOrFixed::Percent(100)));
    assert_eq!(PercentOrFixed::from_str("0"), Ok(PercentOrFixed::Fixed(0)));
    assert!(PercentOrFixed::from_str("101%").is_err());
    assert!(PercentOrFixed::from_str("x7").is_err());
    assert!(PercentOrFixed::from_str("99999999999999999999999").is_err());
}
