//! A retained-mode widget registry.
//!
//! The registry stores widget records in a dense internal storage whose order
//! respects the widgets' declared dependencies, hands callers stable handles
//! that survive every later reordering of storage, caches each widget's
//! on-screen rectangle, and dispatches render and click events only to the
//! widgets that opted into those capabilities when they were added.

pub mod rect;
pub mod ui;
pub mod widget;

pub use rect::{Point, Rect};
pub use ui::{WidgetIndex, UI};
pub use widget::{Layout, Widget};
