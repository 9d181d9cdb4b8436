//! The layout document root: tabs, templates and swap layouts, plus the
//! totally ordered constraint keys that index swap layouts.

use vstd::prelude::*;

use crate::geometry::{PercentOrFixed, SplitDirection, SplitSize};
use crate::run::clone_opt_string;
use crate::strutil::{all_digits, decimal_value, parse_decimal};
use crate::tree::{clone_tree, ConfigError, FloatingPaneLayout, TiledPaneLayout};

verus! {

/// The pane-count condition under which a swap layout applies.  The
/// ordering is total: `MaxPanes` before `MinPanes` before `NoConstraint`,
/// then by the wrapped number, so constraint maps iterate
/// deterministically.
#[derive(Debug, PartialEq, Eq, Structural, PartialOrd, Ord, Clone, Copy, Hash)]
pub enum LayoutConstraint {
    MaxPanes(usize),
    MinPanes(usize),
    NoConstraint,
}

/// The rank of a constraint's variant in the total order.
pub open spec fn constraint_rank(c: LayoutConstraint) -> int {
    match c {
        LayoutConstraint::MaxPanes(_) => 0,
        LayoutConstraint::MinPanes(_) => 1,
        LayoutConstraint::NoConstraint => 2,
    }
}

/// The number a constraint wraps, or zero for `NoConstraint`.
pub open spec fn constraint_number(c: LayoutConstraint) -> int {
    match c {
        LayoutConstraint::MaxPanes(n) => n as int,
        LayoutConstraint::MinPanes(n) => n as int,
        LayoutConstraint::NoConstraint => 0,
    }
}

/// The strict total order on constraints: by variant, then by number.
pub open spec fn constraint_lt(a: LayoutConstraint, b: LayoutConstraint) -> bool {
    constraint_rank(a) < constraint_rank(b) || (constraint_rank(a) == constraint_rank(b)
        && constraint_number(a) < constraint_number(b))
}

impl LayoutConstraint {
    /// Whether `self` comes strictly before `other` in the constraint
    /// order.
    pub fn is_before(&self, other: &LayoutConstraint) -> (r: bool)
        ensures
            r == constraint_lt(*self, *other),
    {
        let self_rank: u8 = match self {
            LayoutConstraint::MaxPanes(_) => 0,
            LayoutConstraint::MinPanes(_) => 1,
            LayoutConstraint::NoConstraint => 2,
        };
        let other_rank: u8 = match other {
            LayoutConstraint::MaxPanes(_) => 0,
            LayoutConstraint::MinPanes(_) => 1,
            LayoutConstraint::NoConstraint => 2,
        };
        if self_rank != other_rank {
            return self_rank < other_rank;
        }
        let self_number: usize = match self {
            LayoutConstraint::MaxPanes(n) => *n,
            LayoutConstraint::MinPanes(n) => *n,
            LayoutConstraint::NoConstraint => 0,
        };
        let other_number: usize = match other {
            LayoutConstraint::MaxPanes(n) => *n,
            LayoutConstraint::MinPanes(n) => *n,
            LayoutConstraint::NoConstraint => 0,
        };
        self_number < other_number
    }
}

/// The constraint order is a strict total order: irreflexive, transitive,
/// and any two distinct constraints are ordered one way or the other.
pub proof fn lemma_constraint_order_total(a: LayoutConstraint, b: LayoutConstraint, c: LayoutConstraint)
    ensures
        !constraint_lt(a, a),
        constraint_lt(a, b) && constraint_lt(b, c) ==> constraint_lt(a, c),
        a != b ==> (constraint_lt(a, b) <==> !constraint_lt(b, a)),
{
}

/// A swap layout for tiled panes: constraint-keyed alternatives, sorted
/// strictly by the constraint order, with an optional display name.
pub type SwapTiledLayout = (Vec<(LayoutConstraint, TiledPaneLayout)>, Option<String>);

/// A swap layout for floating panes, keyed the same way.
pub type SwapFloatingLayout = (Vec<(LayoutConstraint, Vec<FloatingPaneLayout>)>, Option<String>);

/// Whether constraint keys are strictly ascending, so that lookup and
/// iteration order are deterministic and keys are unique.
pub open spec fn constraint_keys_sorted(keys: Seq<LayoutConstraint>) -> bool {
    forall|i: int, j: int|
        0 <= i < j < keys.len() ==> constraint_lt(#[trigger] keys[i], #[trigger] keys[j])
}

/// Look a constraint key up in a constraint-keyed list: the first entry
/// carrying the key, which under sorted keys is the only one.
pub fn lookup_constraint<'a, T>(entries: &'a Vec<(LayoutConstraint, T)>, key: &LayoutConstraint) -> (
    r: Option<&'a T>)
    ensures
        (match r {
            Some(value) => exists|i: int|
                0 <= i < entries@.len() && (#[trigger] entries@[i]).0 == *key && value
                    == &entries@[i].1 && (forall|j: int|
                    0 <= j < i ==> (#[trigger] entries@[j]).0 != *key),
            None => forall|i: int| 0 <= i < entries@.len() ==> (#[trigger] entries@[i]).0 != *key,
        }),
{
    let mut i: usize = 0;
    while i < entries.len()
        invariant
            0 <= i <= entries@.len(),
            forall|j: int| 0 <= j < i ==> (#[trigger] entries@[j]).0 != *key,
        decreases entries@.len() - i,
    {
        let (entry_key, value) = &entries[i];
        if entry_key.is_before(key) == false && key.is_before(entry_key) == false {
            proof {
                lemma_constraint_order_total(*entry_key, *key, *key);
                assert(entries@[i as int].0 == *key);
            }
            return Some(value);
        }
        proof {
            lemma_constraint_order_total(*entry_key, *key, *key);
        }
        i += 1;
    }
    None
}

/// One part of a layout document: a list of sub-layouts that are tabs, or
/// a list that are panes within one tab.
#[derive(Debug, PartialEq, Eq)]
pub enum LayoutParts {
    Tabs(Vec<(Option<String>, Layout)>),
    Panes(Vec<Layout>),
}

impl LayoutParts {
    /// Whether the part list holds nothing.
    pub fn is_empty(&self) -> (r: bool)
        ensures
            r == (match self {
                LayoutParts::Panes(panes) => panes@.len() == 0,
                LayoutParts::Tabs(tabs) => tabs@.len() == 0,
            }),
    {
        match self {
            LayoutParts::Panes(panes) => panes.is_empty(),
            LayoutParts::Tabs(tabs) => tabs.is_empty(),
        }
    }

    /// Insert a pane layout at `index`; inserting a pane into a tab list
    /// is rejected.
    pub fn insert_pane(&mut self, index: usize, layout: Layout) -> (r: Result<(), ConfigError>)
        requires
            (*old(self)) matches LayoutParts::Panes(panes) ==> index <= panes@.len(),
        ensures
            ((*old(self)) matches LayoutParts::Panes(panes) ==> r matches Ok(u) && (*final(self)
                matches LayoutParts::Panes(after) && after@ == panes@.insert(
                index as int,
                layout,
            ))),
            ((*old(self)) matches LayoutParts::Tabs(t) ==> r matches Err(_) && *final(self) == *old(
                self,
            )),
    {
        match self {
            LayoutParts::Panes(panes) => {
                panes.insert(index, layout);
                Ok(())
            },
            LayoutParts::Tabs(_) => Err(
                ConfigError::InvalidLayoutOperation("Trying to insert a pane into a tab layout"),
            ),
        }
    }
}

impl Default for LayoutParts {
    fn default() -> (r: Self)
        ensures
            r matches LayoutParts::Panes(panes) && panes@.len() == 0,
    {
        LayoutParts::Panes(Vec::new())
    }
}

/// The layout document root: the tabs to open, the template new tabs are
/// spawned from, and the swap layouts an external policy may switch to as
/// the pane count changes.
#[derive(Debug, PartialEq, Eq)]
pub struct Layout {
    pub tabs: Vec<(Option<String>, TiledPaneLayout, Vec<FloatingPaneLayout>)>,
    pub focused_tab_index: Option<usize>,
    pub template: Option<(TiledPaneLayout, Vec<FloatingPaneLayout>)>,
    pub swap_layouts: Vec<(TiledPaneLayout, Vec<FloatingPaneLayout>)>,
    pub swap_tiled_layouts: Vec<SwapTiledLayout>,
    pub swap_floating_layouts: Vec<SwapFloatingLayout>,
}

impl Default for Layout {
    fn default() -> (r: Self)
        ensures
            r.tabs@.len() == 0,
            r.focused_tab_index is None,
            r.template is None,
            r.swap_layouts@.len() == 0,
            r.swap_tiled_layouts@.len() == 0,
            r.swap_floating_layouts@.len() == 0,
    {
        Layout {
            tabs: Vec::new(),
            focused_tab_index: None,
            template: None,
            swap_layouts: Vec::new(),
            swap_tiled_layouts: Vec::new(),
            swap_floating_layouts: Vec::new(),
        }
    }
}

/// Clone a list of floating panes.
pub fn clone_floating_panes(v: &Vec<FloatingPaneLayout>) -> (r: Vec<FloatingPaneLayout>)
    ensures
        r.deep_view() == v.deep_view(),
{
    let mut r: Vec<FloatingPaneLayout> = Vec::new();
    let mut i: usize = 0;
    while i < v.len()
        invariant
            0 <= i <= v@.len(),
            r@.len() == i,
            forall|j: int| 0 <= j < i ==> r@[j].deep_view() == v@[j].deep_view(),
        decreases v@.len() - i,
    {
        r.push(v[i].clone());
        i += 1;
    }
    proof {
        assert(r.deep_view() =~= v.deep_view());
    }
    r
}

impl Layout {
    /// What a newly spawned tab holds: the template, or an empty tiled
    /// root where no template is set.
    pub fn new_tab(&self) -> (r: (TiledPaneLayout, Vec<FloatingPaneLayout>))
        ensures
            (match self.template {
                Some(t) => r.0.deep_view() == t.0.deep_view() && r.1.deep_view()
                    == t.1.deep_view(),
                None => r.0.deep_view() == crate::tree::default_tiled_view() && r.1@.len() == 0,
            }),
    {
        match &self.template {
            Some((tiled, floating)) => (clone_tree(tiled), clone_floating_panes(floating)),
            None => (TiledPaneLayout::default(), Vec::new()),
        }
    }

    /// Reports, despite its name, whether the layout holds tabs, exactly
    /// as `has_tabs` does.
    pub fn is_empty(&self) -> (r: bool)
        ensures
            r == (self.tabs@.len() != 0),
    {
        !self.tabs.is_empty()
    }

    /// Whether the layout names tabs of its own.
    pub fn has_tabs(&self) -> (r: bool)
        ensures
            r == (self.tabs@.len() != 0),
    {
        !self.tabs.is_empty()
    }

    /// The tabs of the layout: name, tiled root and floating panes each.
    pub fn tabs(&self) -> (r: Vec<(Option<String>, TiledPaneLayout, Vec<FloatingPaneLayout>)>)
        ensures
            r@.len() == self.tabs@.len(),
            forall|i: int|
                0 <= i < r@.len() ==> (#[trigger] r@[i]).0.deep_view() == self.tabs@[i].0.deep_view()
                    && r@[i].1.deep_view() == self.tabs@[i].1.deep_view() && r@[i].2.deep_view()
                    == self.tabs@[i].2.deep_view(),
    {
        let mut r: Vec<(Option<String>, TiledPaneLayout, Vec<FloatingPaneLayout>)> = Vec::new();
        let mut i: usize = 0;
        while i < self.tabs.len()
            invariant
                0 <= i <= self.tabs@.len(),
                r@.len() == i,
                forall|j: int|
                    0 <= j < i ==> (#[trigger] r@[j]).0.deep_view() == self.tabs@[j].0.deep_view()
                        && r@[j].1.deep_view() == self.tabs@[j].1.deep_view() && r@[j].2.deep_view()
                        == self.tabs@[j].2.deep_view(),
            decreases self.tabs@.len() - i,
        {
            let (name, tiled, floating) = &self.tabs[i];
            r.push((clone_opt_string(name), clone_tree(tiled), clone_floating_panes(floating)));
            i += 1;
        }
        r
    }

    /// The index of the initially focused tab, if one is set.
    pub fn focused_tab_index(&self) -> (r: Option<usize>)
        ensures
            r == self.focused_tab_index,
    {
        self.focused_tab_index
    }
}

impl SplitDirection {
    /// Parse a split direction from its lower- or capitalized name.
    pub fn from_str(s: &str) -> (r: Result<SplitDirection, &'static str>)
        ensures
            (s@ == "vertical"@ || s@ == "Vertical"@) ==> r == Ok::<SplitDirection, &'static str>(
                SplitDirection::Vertical,
            ),
            (s@ == "horizontal"@ || s@ == "Horizontal"@) ==> r == Ok::<
                SplitDirection,
                &'static str,
            >(SplitDirection::Horizontal),
            (s@ != "vertical"@ && s@ != "Vertical"@ && s@ != "horizontal"@ && s@ != "Horizontal"@)
                ==> r is Err,
    {
        proof {
            reveal_strlit("vertical");
            reveal_strlit("Vertical");
            reveal_strlit("horizontal");
            reveal_strlit("Horizontal");
            assert("vertical"@.len() == 8);
            assert("horizontal"@.len() == 10);
            assert("Vertical"@[0] == 'V');
            assert("vertical"@[0] == 'v');
            assert("Horizontal"@[0] == 'H');
            assert("horizontal"@[0] == 'h');
            assert("vertical"@ != "horizontal"@);
            assert("vertical"@ != "Horizontal"@);
            assert("Vertical"@ != "horizontal"@);
            assert("Vertical"@ != "Horizontal"@);
        }
        if crate::strutil::str_eq(s, "vertical") || crate::strutil::str_eq(s, "Vertical") {
            Ok(SplitDirection::Vertical)
        } else if crate::strutil::str_eq(s, "horizontal") || crate::strutil::str_eq(
            s,
            "Horizontal",
        ) {
            Ok(SplitDirection::Horizontal)
        } else {
            Err("split direction must be either vertical or horizontal")
        }
    }
}

/// Whether the string is a percent form: digits followed by one `%`.
pub open spec fn is_percent_form(s: Seq<char>) -> bool {
    s.len() > 0 && s.last() == '%'
}

impl SplitSize {
    /// Parse a split size: `<digits>%` with the percent in 1 to 100, or a
    /// plain number of cells.
    pub fn from_str(s: &str) -> (r: Result<SplitSize, &'static str>)
        ensures
            (match r {
                Ok(SplitSize::Percent(p)) => is_percent_form(s@) && all_digits(s@.drop_last()) && 1
                    <= p <= 100 && p == decimal_value(s@.drop_last()),
                Ok(SplitSize::Fixed(n)) => !is_percent_form(s@) && s@.len() > 0 && all_digits(s@)
                    && n == decimal_value(s@),
                Err(_) => (is_percent_form(s@) ==> (s@.drop_last().len() == 0 || !all_digits(
                    s@.drop_last(),
                ) || decimal_value(s@.drop_last()) > usize::MAX || decimal_value(s@.drop_last())
                    == 0 || decimal_value(s@.drop_last()) > 100)) && (!is_percent_form(s@) ==> (
                s@.len() == 0 || !all_digits(s@) || decimal_value(s@) > usize::MAX)),
            }),
    {
        let n = s.unicode_len();
        if n > 0 && s.get_char(n - 1) == '%' {
            let prefix = s.substring_char(0, n - 1);
            proof {
                assert(prefix@ == s@.drop_last());
            }
            match parse_decimal(prefix) {
                Ok(percent_size) => {
                    if percent_size > 0 && percent_size <= 100 {
                        Ok(SplitSize::Percent(percent_size))
                    } else {
                        Err("Percent must be between 0 and 100")
                    }
                },
                Err(e) => Err(e),
            }
        } else {
            match parse_decimal(s) {
                Ok(fixed_size) => Ok(SplitSize::Fixed(fixed_size)),
                Err(e) => Err(e),
            }
        }
    }
}

impl PercentOrFixed {
    /// Parse a coordinate: `<digits>%` with the percent in 0 to 100, or a
    /// plain number of cells.
    pub fn from_str(s: &str) -> (r: Result<PercentOrFixed, &'static str>)
        ensures
            (match r {
                Ok(PercentOrFixed::Percent(p)) => is_percent_form(s@) && all_digits(
                    s@.drop_last(),
                ) && p <= 100 && p == decimal_value(s@.drop_last()),
                Ok(PercentOrFixed::Fixed(n)) => !is_percent_form(s@) && s@.len() > 0 && all_digits(
                    s@,
                ) && n == decimal_value(s@),
                Err(_) => (is_percent_form(s@) ==> (s@.drop_last().len() == 0 || !all_digits(
                    s@.drop_last(),
                ) || decimal_value(s@.drop_last()) > usize::MAX || decimal_value(s@.drop_last())
                    > 100)) && (!is_percent_form(s@) ==> (s@.len() == 0 || !all_digits(s@)
                    || decimal_value(s@) > usize::MAX)),
            }),
    {
        let n = s.unicode_len();
        if n > 0 && s.get_char(n - 1) == '%' {
            let prefix = s.substring_char(0, n - 1);
            proof {
                assert(prefix@ == s@.drop_last());
            }
            match parse_decimal(prefix) {
                Ok(percent_size) => {
                    if percent_size <= 100 {
                        Ok(PercentOrFixed::Percent(percent_size))
                    } else {
                        Err("Percent must be between 0 and 100")
                    }
                },
                Err(e) => Err(e),
            }
        } else {
            match parse_decimal(s) {
                Ok(fixed_size) => Ok(PercentOrFixed::Fixed(fixed_size)),
                Err(e) => Err(e),
            }
        }
    }
}

} // verus!
