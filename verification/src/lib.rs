//! Layout-geometry engine for a terminal workspace manager.
//!
//! A layout is a recursive tree describing how a screen region is subdivided
//! into panes.  This crate computes concrete rectangular regions for every
//! pane of such a tree, adapts a template tree to a varying number of live
//! panes, and resolves per-pane run instructions through a layered override
//! mechanism.

pub mod geometry;
pub mod layout;
pub mod pathjoin;
pub mod run;
pub mod split;
pub mod strutil;
pub mod tree;

pub use geometry::{Dimension, PaneGeom, PercentOrFixed, SizeConstraint, SplitDirection, SplitSize};
pub use layout::{Layout, LayoutConstraint, LayoutParts, SwapFloatingLayout, SwapTiledLayout};
pub use run::{PluginTag, PluginsConfigError, Run, RunCommand, RunPlugin, RunPluginLocation};
pub use split::split_space;
pub use tree::{ConfigError, FloatingPaneLayout, TiledPaneLayout};
