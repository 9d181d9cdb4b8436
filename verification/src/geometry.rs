//! Geometry primitives: percent/fixed size values, dimensions with their
//! sizing constraints, and concrete pane rectangles.

use vstd::prelude::*;

verus! {

/// Upper bound on a screen span (columns or rows) that the solver accepts.
/// Keeps all geometry arithmetic well inside machine-integer range.
pub const MAX_PANE_SPAN: usize = 65535;

/// A coordinate or size value for floating-pane geometry: either a percent
/// of a whole span (0 to 100, 0 is meaningful) or an absolute cell count.
#[derive(Debug, PartialEq, Eq, Structural, Clone, Copy)]
pub enum PercentOrFixed {
    Percent(usize),
    Fixed(usize),
}

impl PercentOrFixed {
    /// A value is well formed when a percent stays within 0 to 100.
    pub open spec fn wf(self) -> bool {
        match self {
            PercentOrFixed::Percent(p) => p <= 100,
            PercentOrFixed::Fixed(_) => true,
        }
    }

    /// What `to_position` resolves to: percents round up, fixed values are
    /// clamped to the whole span.
    pub open spec fn to_position_spec(self, whole: int) -> int {
        match self {
            PercentOrFixed::Percent(p) => (whole * p + 99) / 100,
            PercentOrFixed::Fixed(f) => if f > whole { whole } else { f as int },
        }
    }

    /// Resolve this value against a whole span:
    /// `Percent(p)` gives `ceil(whole * p / 100)`; `Fixed(n)` gives `n`
    /// clamped to `whole`.
    pub fn to_position(&self, whole: usize) -> (r: usize)
        requires
            self.wf(),
            whole <= MAX_PANE_SPAN,
        ensures
            r == self.to_position_spec(whole as int),
            r <= whole,
    {
        match self {
            PercentOrFixed::Percent(percent) => {
                proof {
                    assert(whole * *percent <= whole * 100) by (nonlinear_arith)
                        requires *percent <= 100, whole >= 0;
                    assert((whole * *percent + 99) / 100 <= (whole * 100 + 99) / 100);
                    assert((whole * 100 + 99) / 100 == whole);
                }
                let r: usize = (whole * *percent + 99) / 100;
                r
            },
            PercentOrFixed::Fixed(fixed) => {
                if *fixed > whole {
                    whole
                } else {
                    *fixed
                }
            },
        }
    }

    /// Whether the resolved value is definitionally zero, independent of the
    /// span it would be resolved against.
    pub fn is_zero(&self) -> (r: bool)
        ensures
            r == ((self matches PercentOrFixed::Percent(p) && p == 0)
                || (self matches PercentOrFixed::Fixed(f) && f == 0)),
    {
        match self {
            PercentOrFixed::Percent(percent) => *percent == 0,
            PercentOrFixed::Fixed(fixed) => *fixed == 0,
        }
    }
}

/// Which screen axis a node's children subdivide: `Vertical` splits the
/// horizontal span (children side by side), `Horizontal` splits the
/// vertical span (children stacked top to bottom).
#[derive(Debug, PartialEq, Eq, Structural, Clone, Copy)]
pub enum SplitDirection {
    Horizontal,
    Vertical,
}

impl SplitDirection {
    /// The orthogonal direction.
    pub fn not(self) -> (r: Self)
        ensures
            self == SplitDirection::Horizontal ==> r == SplitDirection::Vertical,
            self == SplitDirection::Vertical ==> r == SplitDirection::Horizontal,
    {
        match self {
            SplitDirection::Horizontal => SplitDirection::Vertical,
            SplitDirection::Vertical => SplitDirection::Horizontal,
        }
    }
}

impl Default for SplitDirection {
    fn default() -> (r: Self)
        ensures
            r == SplitDirection::Horizontal,
    {
        SplitDirection::Horizontal
    }
}

/// The size a child occupies along its parent's split axis: a percent of
/// the root span (1 to 100) or an absolute number of cells.  Absence means
/// flexible: share the space left over.
#[derive(Debug, PartialEq, Eq, Structural, Clone, Copy)]
pub enum SplitSize {
    Percent(usize),
    Fixed(usize),
}

/// The sizing constraint a resolved dimension was computed from.
#[derive(Debug, PartialEq, Eq, Structural, Clone, Copy)]
pub enum SizeConstraint {
    Fixed(usize),
    Percent(usize),
}

/// A resolved dimension: the constraint it came from and the concrete cell
/// count it currently occupies.
#[derive(Debug, PartialEq, Eq, Structural, Clone, Copy)]
pub struct Dimension {
    pub constraint: SizeConstraint,
    pub inner: usize,
}

impl Dimension {
    /// A percent-denominated dimension, not yet resolved to cells.
    pub fn percent(p: usize) -> (r: Self)
        ensures
            r == (Dimension { constraint: SizeConstraint::Percent(p), inner: 0 }),
    {
        Dimension { constraint: SizeConstraint::Percent(p), inner: 0 }
    }

    /// A fixed dimension of `n` cells.
    pub fn fixed(n: usize) -> (r: Self)
        ensures
            r == (Dimension { constraint: SizeConstraint::Fixed(n), inner: n }),
    {
        Dimension { constraint: SizeConstraint::Fixed(n), inner: n }
    }

    /// A dimension is well formed when its percent (if any) is at most 100
    /// and its resolved cell count stays within `MAX_PANE_SPAN`.
    pub open spec fn wf(self) -> bool {
        &&& (self.constraint matches SizeConstraint::Percent(p) ==> p <= 100)
        &&& self.inner <= MAX_PANE_SPAN
    }

    /// The percent this dimension is constrained to, if any.
    pub fn as_percent(&self) -> (r: Option<usize>)
        ensures
            r == (match self.constraint {
                SizeConstraint::Percent(p) => Some(p),
                SizeConstraint::Fixed(_) => None,
            }),
    {
        match self.constraint {
            SizeConstraint::Percent(p) => Some(p),
            SizeConstraint::Fixed(_) => None,
        }
    }

    /// The resolved cell count.
    pub fn as_usize(&self) -> (r: usize)
        ensures
            r == self.inner,
    {
        self.inner
    }

    /// Grow the resolved cell count, saturating at the machine limit.
    pub fn increase_inner(&mut self, by: usize)
        ensures
            *final(self) == (Dimension {
                inner: old(self).inner.saturating_add(by),
                ..*old(self)
            }),
    {
        self.inner = self.inner.saturating_add(by);
    }

    /// Shrink the resolved cell count, saturating at zero.
    pub fn decrease_inner(&mut self, by: usize)
        ensures
            *final(self) == (Dimension {
                inner: old(self).inner.saturating_sub(by),
                ..*old(self)
            }),
    {
        self.inner = self.inner.saturating_sub(by);
    }
}

/// A concrete pane rectangle: its top-left corner and its two resolved
/// dimensions, plus whether it belongs to a stacked sibling group.
#[derive(Debug, PartialEq, Eq, Structural, Clone, Copy)]
pub struct PaneGeom {
    pub x: usize,
    pub y: usize,
    pub rows: Dimension,
    pub cols: Dimension,
    pub is_stacked: bool,
}

impl DeepView for PaneGeom {
    type V = PaneGeom;

    open spec fn deep_view(&self) -> PaneGeom {
        *self
    }
}

impl PaneGeom {
    /// A rectangle is well formed when both its dimensions are.
    pub open spec fn wf(self) -> bool {
        self.rows.wf() && self.cols.wf()
    }

    /// Whether the rectangle is big enough to hold a usable pane: at least
    /// one cell in each direction.
    pub fn is_at_least_minimum_size(&self) -> (r: bool)
        ensures
            r == (self.rows.inner >= 1 && self.cols.inner >= 1),
    {
        self.rows.inner >= 1 && self.cols.inner >= 1
    }
}

impl Default for PaneGeom {
    fn default() -> (r: Self)
        ensures
            r == (PaneGeom {
                x: 0,
                y: 0,
                rows: Dimension { constraint: SizeConstraint::Percent(100), inner: 0 },
                cols: Dimension { constraint: SizeConstraint::Percent(100), inner: 0 },
                is_stacked: false,
            }),
    {
        PaneGeom {
            x: 0,
            y: 0,
            rows: Dimension { constraint: SizeConstraint::Percent(100), inner: 0 },
            cols: Dimension { constraint: SizeConstraint::Percent(100), inner: 0 },
            is_stacked: false,
        }
    }
}

} // verus!
