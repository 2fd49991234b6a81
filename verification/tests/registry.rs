use widget_registry::rect::{Point, Rect};
use widget_registry::ui::{WidgetIndex, UI};
use widget_registry::widget::{Layout, Widget};

fn fixed(x0: u64, y0: u64, x1: u64, y1: u64, renderable: bool, clickable: bool) -> Widget {
    Widget::new(
        Vec::new(),
        Layout::Fixed { top_left: Point(x0, y0), bot_right: Point(x1, y1) },
        renderable,
        clickable,
    )
}

fn from_dep(dep: WidgetIndex, deps: Vec<WidgetIndex>, off0: u64, off1: u64) -> Widget {
    Widget::new(
        deps,
        Layout::DepTopLeft { dep, tl_off: Point(off0, off0), br_off: Point(off1, off1) },
        false,
        false,
    )
}

#[test]
fn ui_test() {
    let mut ui = UI::new(Rect(0, 0, 800, 600));

    let t1 = ui.add_widget(Widget::new(
        Vec::new(),
        Layout::RootTopLeft { tl_off: Point(16, 16), br_off: Point(48, 48) },
        true,
        false,
    ));
    println!("{:?}", t1);

    let t2 = ui.add_widget(Widget::new(
        Vec::new(),
        Layout::RootBotRight { tl_off: Point(48, 48), br_off: Point(16, 16) },
        true,
        false,
    ));
    println!("{:?}", t2);

    let t3 = ui.add_widget(Widget::new(
        vec![t1],
        Layout::DepTopLeft { dep: t1, tl_off: Point(16, 16), br_off: Point(48, 48) },
        true,
        false,
    ));
    println!("{:?}", t3);

    ui.recalculate();
    for bounds in ui.render() {
        println!("{:?}", bounds);
    }

    let (_, b1) = ui.get_widget_and_bounds(t1);
    assert_eq!(*b1, Rect(16, 16, 48, 48));
    let (_, b2) = ui.get_widget_and_bounds(t2);
    assert_eq!(*b2, Rect(752, 552, 784, 584));
    let (_, b3) = ui.get_widget_and_bounds(t3);
    assert_eq!(*b3, Rect(32, 32, 64, 64));
}

#[test]
fn lib_test() {
    let mut ui = UI::new(Rect(0, 0, 800, 600));

    let t1 = ui.add_widget(Widget::new(
        Vec::new(),
        Layout::RootTopLeft { tl_off: Point(16, 16), br_off: Point(48, 48) },
        true,
        false,
    ));
    let t2 = ui.add_widget(Widget::new(
        Vec::new(),
        Layout::RootBotRight { tl_off: Point(48, 48), br_off: Point(16, 16) },
        true,
        false,
    ));
    let t3 = ui.add_widget(Widget::new(
        vec![t1],
        Layout::DepTopLeft { dep: t1, tl_off: Point(16, 16), br_off: Point(48, 48) },
        true,
        false,
    ));

    ui.recalculate();
    let drawn = ui.render();
    println!("{:?}", drawn);

    assert_eq!(drawn.len(), 3);
    assert_eq!(drawn[0], Rect(16, 16, 48, 48));
    assert_eq!(drawn[1], Rect(752, 552, 784, 584));
    assert_eq!(drawn[2], Rect(32, 32, 64, 64));
    assert_eq!((t1.0, t2.0, t3.0), (0, 1, 2));
}

#[test]
fn handle_stability() {
    let mut ui = UI::new(Rect(0, 0, 100, 100));
    let a = ui.add_widget(fixed(1, 1, 2, 2, false, false));
    let b = ui.add_widget(fixed(3, 3, 4, 4, false, false));
    // every later insertion reshuffles storage, the handles keep resolving
    let c = ui.add_widget(fixed(5, 5, 6, 6, false, false));
    let d = ui.add_widget(from_dep(b, vec![b], 1, 2));
    let e = ui.add_widget(fixed(7, 7, 8, 8, false, false));
    assert_eq!(
        ui.get_widget(a).layout,
        Layout::Fixed { top_left: Point(1, 1), bot_right: Point(2, 2) }
    );
    assert_eq!(
        ui.get_widget(b).layout,
        Layout::Fixed { top_left: Point(3, 3), bot_right: Point(4, 4) }
    );
    assert_eq!(
        ui.get_widget(c).layout,
        Layout::Fixed { top_left: Point(5, 5), bot_right: Point(6, 6) }
    );
    assert_eq!(
        ui.get_widget(d).layout,
        Layout::DepTopLeft { dep: b, tl_off: Point(1, 1), br_off: Point(2, 2) }
    );
    assert_eq!(
        ui.get_widget(e).layout,
        Layout::Fixed { top_left: Point(7, 7), bot_right: Point(8, 8) }
    );
}

#[test]
fn no_dependency_placement() {
    let mut ui = UI::new(Rect(0, 0, 100, 100));
    // a lands at slot 0; b, added with no dependencies, lands at slot 1 —
    // behind a, not at the end. b's layout reads a, so it sees a's value
    // computed earlier in the same pass; a's layout reads the handle that b
    // will receive, and a read that runs ahead of the pass yields the empty
    // rectangle at the origin.
    let a = ui.add_widget(Widget::new(
        Vec::new(),
        Layout::DepTopLeft { dep: WidgetIndex(1), tl_off: Point(1, 1), br_off: Point(2, 2) },
        false,
        false,
    ));
    let b = ui.add_widget(Widget::new(
        Vec::new(),
        Layout::DepTopLeft { dep: a, tl_off: Point(10, 10), br_off: Point(20, 20) },
        false,
        false,
    ));
    ui.recalculate();
    let (_, ba) = ui.get_widget_and_bounds(a);
    assert_eq!(*ba, Rect(0, 0, 0, 0));
    let (_, bb) = ui.get_widget_and_bounds(b);
    assert_eq!(*bb, Rect(10, 10, 20, 20));
    assert_eq!((a.0, b.0), (0, 1));
}

#[test]
fn dependency_chain_ordering() {
    let mut ui = UI::new(Rect(0, 0, 1000, 1000));
    let c1 = ui.add_widget(fixed(100, 100, 200, 200, false, false));
    let c2 = ui.add_widget(from_dep(c1, vec![c1], 10, 20));
    let c3 = ui.add_widget(from_dep(c2, vec![c2], 1, 2));
    ui.recalculate();
    let (_, b2) = ui.get_widget_and_bounds(c2);
    assert_eq!(*b2, Rect(110, 110, 120, 120));
    let (_, b3) = ui.get_widget_and_bounds(c3);
    assert_eq!(*b3, Rect(111, 111, 112, 112));
}

#[test]
fn duplicate_dependency_falls_to_front() {
    let mut ui = UI::new(Rect(0, 0, 100, 100));
    let a = ui.add_widget(fixed(30, 30, 40, 40, false, false));
    // the same dependency listed twice: the scan can never observe as many
    // slots as there are dependencies, so the widget lands at slot 0 — in
    // front of its own dependency, whose value it therefore cannot see.
    let b = ui.add_widget(from_dep(a, vec![a, a], 1, 2));
    ui.recalculate();
    let (_, bb) = ui.get_widget_and_bounds(b);
    assert_eq!(*bb, Rect(0, 0, 0, 0));
    let (_, ba) = ui.get_widget_and_bounds(a);
    assert_eq!(*ba, Rect(30, 30, 40, 40));
}

#[test]
fn render_dispatch_scoping() {
    let mut ui = UI::new(Rect(0, 0, 100, 100));
    let _a = ui.add_widget(fixed(1, 1, 2, 2, true, false));
    let _b = ui.add_widget(fixed(3, 3, 4, 4, false, false));
    let _c = ui.add_widget(fixed(5, 5, 6, 6, true, false));
    ui.recalculate();
    let drawn = ui.render();
    // exactly the widgets that opted in, in the order they were added
    assert_eq!(drawn, vec![Rect(1, 1, 2, 2), Rect(5, 5, 6, 6)]);
}

#[test]
fn click_dispatch_overlapping() {
    let mut ui = UI::new(Rect(0, 0, 100, 100));
    let a = ui.add_widget(fixed(0, 0, 10, 10, false, true));
    let b = ui.add_widget(fixed(5, 5, 15, 15, false, true));
    let c = ui.add_widget(fixed(0, 0, 20, 20, false, false));
    let d = ui.add_widget(fixed(50, 50, 60, 60, false, true));
    ui.recalculate();
    ui.click(Point(7, 7));
    // both overlapping clickable widgets fire; the non-clickable one and
    // the one not containing the point stay untouched
    assert_eq!(ui.get_widget(a).clicks, 1);
    assert_eq!(ui.get_widget(a).last_click, Some(Point { x: 7, y: 7 }));
    assert_eq!(ui.get_widget(b).clicks, 1);
    assert_eq!(ui.get_widget(c).clicks, 0);
    assert_eq!(ui.get_widget(d).clicks, 0);
    assert_eq!(ui.get_widget(d).last_click, None);
    ui.click(Point(55, 55));
    assert_eq!(ui.get_widget(a).clicks, 1);
    assert_eq!(ui.get_widget(d).clicks, 1);
}

#[test]
fn resize_recalculates() {
    let mut ui = UI::new(Rect(0, 0, 800, 600));
    let t = ui.add_widget(Widget::new(
        Vec::new(),
        Layout::RootBotRight { tl_off: Point(48, 48), br_off: Point(16, 16) },
        false,
        false,
    ));
    ui.recalculate();
    let (_, b) = ui.get_widget_and_bounds(t);
    assert_eq!(*b, Rect(752, 552, 784, 584));
    ui.resize(Rect(0, 0, 400, 300));
    assert_eq!(*ui.bounds(), Rect(0, 0, 400, 300));
    let (_, b) = ui.get_widget_and_bounds(t);
    assert_eq!(*b, Rect(352, 252, 384, 284));
}

#[test]
fn cache_is_stale_until_recalculated() {
    let mut ui = UI::new(Rect(0, 0, 100, 100));
    let a = ui.add_widget(fixed(1, 1, 2, 2, false, false));
    // before the first pass the handle resolves, but no bounds exist yet
    assert_eq!(ui.cached_bounds(a), None);
    assert_eq!(ui.cached_bounds(WidgetIndex(7)), None);
    ui.recalculate();
    assert_eq!(ui.cached_bounds(a), Some(Rect(1, 1, 2, 2)));
}

#[test]
fn empty_registry() {
    let mut ui = UI::new(Rect(0, 0, 10, 10));
    ui.recalculate();
    assert!(ui.render().is_empty());
    ui.click(Point(5, 5));
    assert_eq!(*ui.bounds(), Rect(0, 0, 10, 10));
}

#[test]
fn get_widget_mut_updates() {
    let mut ui = UI::new(Rect(0, 0, 100, 100));
    let a = ui.add_widget(fixed(1, 1, 2, 2, false, true));
    {
        let w = ui.get_widget_mut(a);
        w.layout = Layout::Fixed { top_left: Point(9, 9), bot_right: Point(11, 11) };
    }
    ui.recalculate();
    let (_, b) = ui.get_widget_and_bounds(a);
    assert_eq!(*b, Rect(9, 9, 11, 11));
}

#[test]
fn widget_record_state() {
    let mut w = Widget::new(Vec::new(), Layout::Fixed { top_left: Point(0, 0), bot_right: Point(1, 1) }, true, true);
    assert_eq!(w.clicks, 0);
    assert_eq!(w.last_click, None);
    assert!(w.renderable);
    assert!(w.clickable);
    assert!(w.dependencies().is_empty());
    w.on_click(Point(3, 4));
    w.on_click(Point(5, 6));
    assert_eq!(w.clicks, 2);
    assert_eq!(w.last_click, Some(Point { x: 5, y: 6 }));
}
