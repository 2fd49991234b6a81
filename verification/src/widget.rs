//! Widget records: declared dependencies, a layout rule drawn from a closed
//! set of variants, capability flags fixed for the widget's lifetime, and the
//! state a click mutates.

use vstd::prelude::*;

use crate::rect::{Point, Rect};
use crate::ui::{WidgetIndex, UI};

verus! {

/// How a widget computes its rectangle during a recalculation pass.
///
/// Layout rules form a closed set of tagged variants; each one is a pure
/// function of the registry's root bounds and of the cache entries already
/// written in the same pass.
#[derive(Debug, Copy, Clone, PartialEq, Eq, Structural)]
pub enum Layout {
    /// A fixed rectangle, independent of everything else.
    Fixed { top_left: Point, bot_right: Point },
    /// Corner offsets added to the root bounds' top-left corner.
    RootTopLeft { tl_off: Point, br_off: Point },
    /// Corner offsets subtracted from the root bounds' bottom-right corner.
    RootBotRight { tl_off: Point, br_off: Point },
    /// Corner offsets added to the top-left corner of another widget's
    /// cached bounds, looked up through the handle table.
    DepTopLeft { dep: WidgetIndex, tl_off: Point, br_off: Point },
}

/// The cached bounds a handle resolves to: `None` when the handle is not
/// live or its slot has no cache entry yet.
pub open spec fn spec_lookup(table: Seq<usize>, cache: Seq<Rect>, h: WidgetIndex) -> Option<Rect> {
    if h.0 < table.len() && table[h.0 as int] < cache.len() {
        Some(cache[table[h.0 as int] as int])
    } else {
        None
    }
}

impl Layout {
    /// The rectangle this rule yields from the root bounds, the handle
    /// table, and the cache entries written so far. A dependency that cannot
    /// be resolved — a handle that is not live, or whose slot has not been
    /// computed yet in the current pass — yields the empty rectangle at the
    /// origin; offsets that leave the coordinate range clamp at its ends.
    pub open spec fn spec_bounds(self, root: Rect, table: Seq<usize>, cache: Seq<Rect>) -> Rect {
        match self {
            Layout::Fixed { top_left, bot_right } => Rect { top_left, bot_right },
            Layout::RootTopLeft { tl_off, br_off } => Rect {
                top_left: root.top_left.spec_sat_add(tl_off),
                bot_right: root.top_left.spec_sat_add(br_off),
            },
            Layout::RootBotRight { tl_off, br_off } => Rect {
                top_left: root.bot_right.spec_sat_sub(tl_off),
                bot_right: root.bot_right.spec_sat_sub(br_off),
            },
            Layout::DepTopLeft { dep, tl_off, br_off } => match spec_lookup(table, cache, dep) {
                Some(b) => Rect {
                    top_left: b.top_left.spec_sat_add(tl_off),
                    bot_right: b.top_left.spec_sat_add(br_off),
                },
                None => Rect {
                    top_left: Point { x: 0, y: 0 },
                    bot_right: Point { x: 0, y: 0 },
                },
            },
        }
    }
}

/// A widget record: its declared dependencies, its layout rule, the
/// capability flags queried once when it is added, and the state its click
/// handler mutates.
#[derive(Debug)]
pub struct Widget {
    /// Handles of the widgets whose bounds must be computed before this
    /// widget's layout rule runs.
    pub deps: Vec<WidgetIndex>,
    /// How the widget's rectangle is computed each recalculation pass.
    pub layout: Layout,
    /// Whether the widget takes part in render dispatch.
    pub renderable: bool,
    /// Whether the widget takes part in click dispatch.
    pub clickable: bool,
    /// How many clicks the widget has received.
    pub clicks: u64,
    /// The point of the most recent click, if any.
    pub last_click: Option<Point>,
}

impl Widget {
    /// A fresh widget record that has received no clicks yet.
    pub fn new(deps: Vec<WidgetIndex>, layout: Layout, renderable: bool, clickable: bool) -> (w:
        Widget)
        ensures
            w.deps == deps,
            w.layout == layout,
            w.renderable == renderable,
            w.clickable == clickable,
            w.clicks == 0,
            w.last_click is None,
    {
        Widget { deps, layout, renderable, clickable, clicks: 0, last_click: None }
    }

    /// The widget's declared dependencies, in declaration order.
    pub fn dependencies(&self) -> (r: &Vec<WidgetIndex>)
        ensures
            r@ == self.deps@,
    {
        &self.deps
    }

    /// The rectangle the widget's layout rule yields; see
    /// [`Layout::spec_bounds`].
    pub open spec fn spec_bounds(self, root: Rect, table: Seq<usize>, cache: Seq<Rect>) -> Rect {
        self.layout.spec_bounds(root, table, cache)
    }

    /// Computes the widget's rectangle from the registry's current state:
    /// its root bounds and, for a layout rule that hangs off another widget,
    /// the cache entries written so far in the running pass.
    pub fn calculate_bounds(&self, ui: &UI) -> (r: Rect)
        ensures
            r == self.spec_bounds(ui.spec_root(), ui.spec_table(), ui.spec_cache()),
    {
        match self.layout {
            Layout::Fixed { top_left, bot_right } => Rect { top_left, bot_right },
            Layout::RootTopLeft { tl_off, br_off } => {
                let base = ui.bounds().top_left;
                Rect { top_left: base.sat_add(tl_off), bot_right: base.sat_add(br_off) }
            },
            Layout::RootBotRight { tl_off, br_off } => {
                let base = ui.bounds().bot_right;
                Rect { top_left: base.sat_sub(tl_off), bot_right: base.sat_sub(br_off) }
            },
            Layout::DepTopLeft { dep, tl_off, br_off } => match ui.cached_bounds(dep) {
                Some(b) => Rect {
                    top_left: b.top_left.sat_add(tl_off),
                    bot_right: b.top_left.sat_add(br_off),
                },
                None => Rect {
                    top_left: Point { x: 0, y: 0 },
                    bot_right: Point { x: 0, y: 0 },
                },
            },
        }
    }

    /// The record after one click at `p`: the click counter moves up one
    /// (stopping at `u64::MAX`), the click point is remembered, and
    /// everything else stays.
    pub open spec fn spec_clicked(self, p: Point) -> Widget {
        Widget {
            clicks: if self.clicks == u64::MAX {
                u64::MAX
            } else {
                (self.clicks + 1) as u64
            },
            last_click: Some(p),
            ..self
        }
    }

    /// Responds to a click at `point`, known by the dispatcher to fall
    /// inside the widget's cached bounds.
    pub fn on_click(&mut self, point: Point)
        ensures
            *final(self) == old(self).spec_clicked(point),
    {
        if self.clicks < u64::MAX {
            self.clicks = self.clicks + 1;
        }
        self.last_click = Some(point);
    }
}

} // verus!
