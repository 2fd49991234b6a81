//! The registry itself: stable handles, dependency-ordered storage, the
//! bounds cache, and the capability dispatch lists.

use vstd::prelude::*;

use crate::rect::{Point, Rect};
use crate::widget::{spec_lookup, Widget};

verus! {

/// A stable, caller-visible handle for a widget: assigned when the widget is
/// added, never reused, never reassigned. Handles stay valid for the life of
/// the registry no matter how often internal storage is reordered.
#[derive(Debug, Copy, Clone, PartialEq, Eq, Structural)]
pub struct WidgetIndex(pub usize);

/// The storage slots of a widget's declared dependencies, resolved through
/// the handle table.
pub open spec fn spec_dep_slots(table: Seq<usize>, deps: Seq<WidgetIndex>) -> Seq<usize> {
    deps.map_values(|d: WidgetIndex| table[d.0 as int])
}

/// The largest slot in a sequence of slots (zero for an empty sequence).
pub open spec fn spec_max_slot(s: Seq<usize>) -> usize
    decreases s.len(),
{
    if s.len() == 0 {
        0
    } else if s.len() == 1 {
        s[0]
    } else if s[0] >= spec_max_slot(s.drop_first()) {
        s[0]
    } else {
        spec_max_slot(s.drop_first())
    }
}

/// The storage slot at which a widget with the given resolved dependency
/// slots is placed, when storage currently holds `n` widgets.
///
/// The insertion scan walks the slots in increasing order and stops the
/// moment every dependency has been observed; the widget lands one past the
/// stopping point. So:
/// - with no dependencies the scan stops before inspecting anything, and the
///   widget lands at slot 1 — or at slot 0 when storage is still empty and
///   there is nothing to scan;
/// - with dependencies on distinct slots the scan stops at the largest of
///   them, and the widget lands right after it;
/// - when the same dependency slot is listed more than once the scan can
///   never observe as many slots as there are dependencies, runs off the end
///   of storage, and the widget falls back to slot 0, in front of everything
///   including its own dependencies.
pub open spec fn spec_insert_slot(n: int, dep_slots: Seq<usize>) -> int {
    if dep_slots.len() == 0 {
        if n == 0 {
            0
        } else {
            1
        }
    } else if dep_slots.no_duplicates() {
        spec_max_slot(dep_slots) + 1
    } else {
        0
    }
}

/// The dependency slots that an ascending scan of slots `0 .. i` has
/// observed: those below `i` that occur among `dep_slots`, in scan order.
pub open spec fn spec_seen(dep_slots: Seq<usize>, i: int) -> Seq<usize>
    decreases i,
{
    if i <= 0 {
        Seq::empty()
    } else if dep_slots.contains((i - 1) as usize) {
        spec_seen(dep_slots, i - 1).push((i - 1) as usize)
    } else {
        spec_seen(dep_slots, i - 1)
    }
}

/// The largest slot is itself a dependency slot, and no dependency slot
/// exceeds it.
proof fn lemma_max_slot(s: Seq<usize>)
    requires
        s.len() > 0,
    ensures
        s.contains(spec_max_slot(s)),
        forall|k: int| 0 <= k < s.len() ==> s[k] <= spec_max_slot(s),
    decreases s.len(),
{
    let m = spec_max_slot(s);
    if s.len() == 1 {
        assert(s.contains(m)) by {
            assert(s[0] == m);
        }
    } else {
        let rest = s.drop_first();
        lemma_max_slot(rest);
        let mr = spec_max_slot(rest);
        if s[0] >= mr {
            assert(s.contains(m)) by {
                assert(s[0] == m);
            }
        } else {
            let j = choose|j: int| 0 <= j < rest.len() && rest[j] == mr;
            assert(s[j + 1] == mr);
            assert(s.contains(m));
        }
        assert forall|k: int| 0 <= k < s.len() implies s[k] <= m by {
            if k >= 1 {
                assert(rest[k - 1] == s[k]);
            }
        }
    }
}

/// What the scan has observed after `i` slots: each observed slot at most
/// once, and exactly the dependency slots below `i`.
proof fn lemma_seen_props(dep_slots: Seq<usize>, i: int)
    requires
        i <= usize::MAX,
    ensures
        spec_seen(dep_slots, i).no_duplicates(),
        forall|x: usize|
            #[trigger] spec_seen(dep_slots, i).contains(x) <==> (dep_slots.contains(x) && x < i),
    decreases i,
{
    if i > 0 {
        lemma_seen_props(dep_slots, i - 1);
        let pre = spec_seen(dep_slots, i - 1);
        let cur = spec_seen(dep_slots, i);
        let v = (i - 1) as usize;
        if dep_slots.contains(v) {
            assert(cur == pre.push(v));
            assert(!pre.contains(v));
            assert forall|a: int, b: int| 0 <= a < b < cur.len() implies cur[a] != cur[b] by {
                if b == cur.len() - 1 {
                    assert(pre.contains(pre[a]));
                }
            }
            assert forall|x: usize| #[trigger] cur.contains(x) implies (dep_slots.contains(x) && x
                < i) by {
                let j = choose|j: int| 0 <= j < cur.len() && cur[j] == x;
                if j < pre.len() {
                    assert(pre.contains(pre[j]));
                }
            }
            assert forall|x: usize| dep_slots.contains(x) && x < i implies #[trigger] cur.contains(
                x,
            ) by {
                if x < i - 1 {
                    assert(pre.contains(x));
                    let j = choose|j: int| 0 <= j < pre.len() && pre[j] == x;
                    assert(cur[j] == x);
                } else {
                    assert(cur[cur.len() - 1] == x);
                }
            }
        } else {
            assert(cur == pre);
            assert forall|x: usize| dep_slots.contains(x) && x < i implies #[trigger] cur.contains(
                x,
            ) by {
                assert(x != v);
            }
        }
    }
}

/// How the count of observed dependency slots compares to the number of
/// declared dependencies: the scan has observed them all exactly when the
/// dependency slots are distinct and all lie below `i`.
proof fn lemma_seen_len(dep_slots: Seq<usize>, i: int)
    requires
        i <= usize::MAX,
    ensures
        (dep_slots.no_duplicates() && (forall|k: int|
            0 <= k < dep_slots.len() ==> dep_slots[k] < i)) ==> spec_seen(dep_slots, i).len()
            == dep_slots.len(),
        (exists|k: int| 0 <= k < dep_slots.len() && dep_slots[k] >= i) ==> spec_seen(
            dep_slots,
            i,
        ).len() < dep_slots.len(),
        !dep_slots.no_duplicates() ==> spec_seen(dep_slots, i).len() < dep_slots.len(),
{
    broadcast use vstd::seq_lib::seq_to_set_is_finite;
    broadcast use vstd::set::group_set_axioms;

    lemma_seen_props(dep_slots, i);
    let seen = spec_seen(dep_slots, i);
    seen.unique_seq_to_set();
    dep_slots.lemma_cardinality_of_set();
    assert(seen.to_set().subset_of(dep_slots.to_set()));
    if !dep_slots.no_duplicates() {
        if dep_slots.to_set().len() == dep_slots.len() {
            dep_slots.lemma_no_dup_set_cardinality();
        }
        vstd::set_lib::lemma_len_subset(seen.to_set(), dep_slots.to_set());
    } else {
        dep_slots.unique_seq_to_set();
        if forall|k: int| 0 <= k < dep_slots.len() ==> dep_slots[k] < i {
            assert forall|x: usize| dep_slots.to_set().contains(x) implies seen.to_set().contains(
                x,
            ) by {
                let j = choose|j: int| 0 <= j < dep_slots.len() && dep_slots[j] == x;
                assert(dep_slots[j] < i);
            }
            assert(seen.to_set() =~= dep_slots.to_set());
        }
    }
    if exists|k: int| 0 <= k < dep_slots.len() && dep_slots[k] >= i {
        let k = choose|k: int| 0 <= k < dep_slots.len() && dep_slots[k] >= i;
        let x = dep_slots[k];
        assert(dep_slots.contains(x));
        assert(!seen.contains(x));
        seen.to_set().lemma_subset_not_in_lt(dep_slots.to_set(), x);
    }
}

/// The bounds cache one recalculation pass writes for the first `n` storage
/// slots: each slot's rectangle comes from its widget's layout rule, fed the
/// root bounds, the handle table, and exactly the cache entries the same
/// pass has already written for the slots before it.
pub open spec fn spec_recalc(ws: Seq<Widget>, table: Seq<usize>, root: Rect, n: int) -> Seq<Rect>
    decreases n,
{
    if n <= 0 {
        Seq::empty()
    } else {
        let pre = spec_recalc(ws, table, root, n - 1);
        pre.push(ws[n - 1].spec_bounds(root, table, pre))
    }
}

/// A recalculation pass over `n` slots writes `n` cache entries.
pub proof fn lemma_recalc_len(ws: Seq<Widget>, table: Seq<usize>, root: Rect, n: int)
    ensures
        spec_recalc(ws, table, root, n).len() == if n >= 0 {
            n
        } else {
            0
        },
    decreases n,
{
    if n > 0 {
        lemma_recalc_len(ws, table, root, n - 1);
    }
}

/// Recalculation ordering: the value a pass writes for slot `i` is a
/// function of the root bounds, the handle table, and only the cache
/// entries the same pass wrote for the slots strictly before `i` — never of
/// a slot processed later in the pass.
pub proof fn lemma_recalc_slot(ws: Seq<Widget>, table: Seq<usize>, root: Rect, n: int, i: int)
    requires
        0 <= i < n,
    ensures
        spec_recalc(ws, table, root, n)[i] == ws[i].spec_bounds(
            root,
            table,
            spec_recalc(ws, table, root, i),
        ),
    decreases n,
{
    lemma_recalc_len(ws, table, root, n - 1);
    if i < n - 1 {
        lemma_recalc_slot(ws, table, root, n - 1, i);
    }
}

/// A widget whose layout rule reads another widget through its handle,
/// where that widget's slot lies strictly before its own, observes exactly
/// the value the same pass computed for that slot — the final value of the
/// pass, never a stale rectangle and never the value of a slot processed
/// later.
pub proof fn lemma_recalc_reads_dependency(
    ws: Seq<Widget>,
    table: Seq<usize>,
    root: Rect,
    n: int,
    i: int,
    dep: WidgetIndex,
)
    requires
        0 <= i < n,
        dep.0 < table.len(),
        (table[dep.0 as int] as int) < i,
    ensures
        spec_lookup(table, spec_recalc(ws, table, root, i), dep) == Some(
            spec_recalc(ws, table, root, n)[table[dep.0 as int] as int],
        ),
{
    let slot = table[dep.0 as int] as int;
    lemma_recalc_len(ws, table, root, i);
    lemma_recalc_slot(ws, table, root, i, slot);
    lemma_recalc_slot(ws, table, root, n, slot);
}

/// Whether `x` occurs among the resolved dependency slots `v`.
fn contains_slot(v: &Vec<usize>, x: usize) -> (b: bool)
    ensures
        b == v@.contains(x),
{
    let mut k: usize = 0;
    while k < v.len()
        invariant
            k <= v@.len(),
            forall|j: int| 0 <= j < k ==> v@[j] != x,
        decreases v@.len() - k,
    {
        if v[k] == x {
            assert(v@.contains(x));
            return true;
        }
        k += 1;
    }
    proof {
        if v@.contains(x) {
            let j = choose|j: int| 0 <= j < v@.len() && v@[j] == x;
            assert(v@[j] != x);
        }
    }
    false
}

/// The widget registry.
///
/// Widgets sit in dense storage whose order respects their declared
/// dependencies; the handle table maps each handle to the widget's current
/// storage slot and is the only state handles are valid against. The bounds
/// cache holds the most recently computed rectangle per slot, and the two
/// capability lists hold the handles of the widgets that opted into render
/// and click dispatch when they were added.
pub struct UI {
    widgets: Vec<Widget>,
    widget_bounds: Vec<Rect>,
    idxs: Vec<usize>,
    renderable_idxs: Vec<usize>,
    clickable_idxs: Vec<usize>,
    bounds: Rect,
}

impl UI {
    /// The widget records, in internal storage order.
    pub closed spec fn spec_widgets(self) -> Seq<Widget> {
        self.widgets@
    }

    /// The handle table: entry `h` is the current storage slot of the widget
    /// with handle `h`.
    pub closed spec fn spec_table(self) -> Seq<usize> {
        self.idxs@
    }

    /// The bounds cache, parallel to storage once a recalculation has run.
    pub closed spec fn spec_cache(self) -> Seq<Rect> {
        self.widget_bounds@
    }

    /// Handles of the widgets that take part in render dispatch, in the
    /// order they were added.
    pub closed spec fn spec_renderables(self) -> Seq<usize> {
        self.renderable_idxs@
    }

    /// Handles of the widgets that take part in click dispatch, in the
    /// order they were added.
    pub closed spec fn spec_clickables(self) -> Seq<usize> {
        self.clickable_idxs@
    }

    /// The root bounds the whole layout hangs from.
    pub closed spec fn spec_root(self) -> Rect {
        self.bounds
    }

    /// Well-formedness of the registry state.
    ///
    /// The handle table is a bijection from handles onto storage slots; the
    /// bounds cache never outgrows storage; and each capability list holds
    /// live handles of widgets carrying the matching flag, in strictly
    /// increasing handle order, each at most once.
    pub open spec fn wf(self) -> bool {
        &&& self.spec_table().len() == self.spec_widgets().len()
        &&& forall|h: int|
            0 <= h < self.spec_table().len() ==> (#[trigger] self.spec_table()[h])
                < self.spec_widgets().len()
        &&& forall|h1: int, h2: int|
            0 <= h1 < h2 < self.spec_table().len() ==> self.spec_table()[h1]
                != self.spec_table()[h2]
        &&& self.spec_cache().len() <= self.spec_widgets().len()
        &&& forall|k: int|
            0 <= k < self.spec_renderables().len() ==> (#[trigger] self.spec_renderables()[k])
                < self.spec_table().len()
        &&& forall|k: int|
            0 <= k < self.spec_renderables().len()
                ==> self.spec_widgets()[self.spec_table()[(#[trigger] self.spec_renderables()[k]) as int] as int].renderable
        &&& forall|k1: int, k2: int|
            0 <= k1 < k2 < self.spec_renderables().len() ==> self.spec_renderables()[k1]
                < self.spec_renderables()[k2]
        &&& forall|k: int|
            0 <= k < self.spec_clickables().len() ==> (#[trigger] self.spec_clickables()[k])
                < self.spec_table().len()
        &&& forall|k: int|
            0 <= k < self.spec_clickables().len()
                ==> self.spec_widgets()[self.spec_table()[(#[trigger] self.spec_clickables()[k]) as int] as int].clickable
        &&& forall|k1: int, k2: int|
            0 <= k1 < k2 < self.spec_clickables().len() ==> self.spec_clickables()[k1]
                < self.spec_clickables()[k2]
    }

    /// Topological soundness of storage order: every declared dependency
    /// sits at a strictly smaller storage slot than its dependent.
    pub open spec fn topo_ok(self) -> bool {
        forall|s: int, k: int|
            0 <= s < self.spec_widgets().len() && 0 <= k
                < self.spec_widgets()[s].deps@.len() ==> {
                let d = #[trigger] self.spec_widgets()[s].deps@[k];
                &&& d.0 < self.spec_table().len()
                &&& self.spec_table()[d.0 as int] < s
            }
    }

    /// A fresh registry with the given root bounds and no widgets.
    pub fn new(bounds: Rect) -> (ui: UI)
        ensures
            ui.wf(),
            ui.topo_ok(),
            ui.spec_widgets() == Seq::<Widget>::empty(),
            ui.spec_table() == Seq::<usize>::empty(),
            ui.spec_cache() == Seq::<Rect>::empty(),
            ui.spec_renderables() == Seq::<usize>::empty(),
            ui.spec_clickables() == Seq::<usize>::empty(),
            ui.spec_root() == bounds,
    {
        UI {
            widgets: Vec::new(),
            widget_bounds: Vec::new(),
            idxs: Vec::new(),
            renderable_idxs: Vec::new(),
            clickable_idxs: Vec::new(),
            bounds,
        }
    }

    /// Adds a widget and returns its handle, valid for the registry's
    /// lifetime. Every declared dependency must already be a live handle.
    ///
    /// The widget's storage slot is chosen by the insertion scan (see
    /// [`spec_insert_slot`]); every widget at or above that slot moves up by
    /// one, and the handle table is rewritten to follow the shift, so every
    /// handle issued earlier keeps resolving to the same record. The new
    /// handle is appended to the render and click dispatch lists exactly
    /// when the widget carries the matching capability flag. When the
    /// declared dependencies are distinct, the placement keeps storage
    /// topologically ordered. The bounds cache is left alone and is stale
    /// until the next recalculation.
    pub fn add_widget(&mut self, new: Widget) -> (h: WidgetIndex)
        requires
            old(self).wf(),
            forall|k: int|
                0 <= k < new.deps@.len() ==> (#[trigger] new.deps@[k]).0 < old(
                    self,
                ).spec_table().len(),
        ensures
            final(self).wf(),
            h.0 == old(self).spec_table().len(),
            final(self).spec_root() == old(self).spec_root(),
            final(self).spec_cache() == old(self).spec_cache(),
            final(self).spec_table().len() == old(self).spec_table().len() + 1,
            final(self).spec_table()[h.0 as int] as int == spec_insert_slot(
                old(self).spec_widgets().len() as int,
                spec_dep_slots(old(self).spec_table(), new.deps@),
            ),
            final(self).spec_widgets() == old(self).spec_widgets().insert(
                final(self).spec_table()[h.0 as int] as int,
                new,
            ),
            forall|k: int|
                0 <= k < old(self).spec_table().len() ==> (#[trigger] final(self).spec_table()[k])
                    as int == if old(self).spec_table()[k] >= final(self).spec_table()[h.0 as int] {
                    old(self).spec_table()[k] + 1
                } else {
                    old(self).spec_table()[k] as int
                },
            final(self).spec_renderables() == if new.renderable {
                old(self).spec_renderables().push(h.0)
            } else {
                old(self).spec_renderables()
            },
            final(self).spec_clickables() == if new.clickable {
                old(self).spec_clickables().push(h.0)
            } else {
                old(self).spec_clickables()
            },
            forall|k: int|
                0 <= k < old(self).spec_table().len() ==> final(self).spec_widgets()[(
                #[trigger] final(self).spec_table()[k]) as int] == old(self).spec_widgets()[old(
                    self,
                ).spec_table()[k] as int],
            final(self).spec_widgets()[final(self).spec_table()[h.0 as int] as int] == new,
            (old(self).topo_ok() && new.deps@.no_duplicates()) ==> final(self).topo_ok(),
    {
        let ghost t0 = self.idxs@;
        let ghost w0 = self.widgets@;
        let widget_index = self.idxs.len();

        // register the capabilities the widget opted into
        if new.renderable {
            self.renderable_idxs.push(widget_index);
        }
        if new.clickable {
            self.clickable_idxs.push(widget_index);
        }

        // resolve the declared dependencies to their current storage slots
        let mut dep_slots: Vec<usize> = Vec::new();
        let mut j: usize = 0;
        while j < new.deps.len()
            invariant
                j <= new.deps@.len(),
                dep_slots@.len() == j,
                forall|k: int|
                    0 <= k < j ==> (#[trigger] dep_slots@[k]) == t0[new.deps@[k].0 as int],
                forall|k: int| 0 <= k < new.deps@.len() ==> (#[trigger] new.deps@[k]).0 < t0.len(),
                self.idxs@ == t0,
            decreases new.deps@.len() - j,
        {
            dep_slots.push(self.idxs[new.deps[j].0]);
            j += 1;
        }
        proof {
            assert(dep_slots@ =~= spec_dep_slots(t0, new.deps@));
        }

        // scan existing storage for the insertion slot
        let n = self.widgets.len();
        let ghost ds = dep_slots@;
        proof {
            assert(forall|k: int| 0 <= k < ds.len() ==> (#[trigger] ds[k]) < n);
        }
        let mut found: Vec<usize> = Vec::new();
        let mut idx: usize = 0;
        let mut i: usize = 0;
        let mut more: usize = 1;
        while i < n && more == 1
            invariant
                i <= n,
                more <= 1,
                n == self.widgets@.len(),
                dep_slots@ == ds,
                forall|k: int| 0 <= k < ds.len() ==> (#[trigger] ds[k]) < n,
                more == 1 ==> (found@ == spec_seen(ds, i as int) && idx == 0),
                more == 1 ==> (i == 0 || spec_seen(ds, i as int).len() != ds.len()),
                more == 0 ==> idx as int == spec_insert_slot(n as int, ds),
            decreases n - i + more,
        {
            if contains_slot(&dep_slots, i) {
                found.push(i);
            }
            proof {
                assert(found@ =~= spec_seen(ds, i as int + 1));
            }
            if found.len() == dep_slots.len() {
                idx = i + 1;
                proof {
                    lemma_seen_len(ds, i as int + 1);
                    lemma_seen_props(ds, i as int);
                    if ds.len() == 0 {
                        if spec_seen(ds, i as int).len() > 0 {
                            assert(spec_seen(ds, i as int).contains(spec_seen(ds, i as int)[0]));
                        }
                        assert(i == 0);
                    } else {
                        assert(ds.no_duplicates());
                        assert(!(exists|k: int| 0 <= k < ds.len() && ds[k] >= i + 1));
                        lemma_max_slot(ds);
                        let m = spec_max_slot(ds);
                        let jm = choose|jm: int| 0 <= jm < ds.len() && ds[jm] == m;
                        assert(m < i + 1);
                        if i > 0 {
                            lemma_seen_len(ds, i as int);
                            assert(exists|k: int| 0 <= k < ds.len() && ds[k] >= i);
                            let k = choose|k: int| 0 <= k < ds.len() && ds[k] >= i;
                            assert(ds[k] <= m);
                            assert(m == i);
                        } else {
                            assert(m == 0);
                        }
                    }
                }
                more = 0;
            } else {
                i += 1;
            }
        }
        proof {
            if more == 1 {
                lemma_seen_len(ds, n as int);
                lemma_seen_props(ds, n as int);
                if ds.len() == 0 {
                    if spec_seen(ds, n as int).len() > 0 {
                        assert(spec_seen(ds, n as int).contains(spec_seen(ds, n as int)[0]));
                    }
                    assert(n == 0);
                } else {
                    assert(ds[0] < n);
                    assert(n > 0);
                    if ds.no_duplicates() {
                        assert(spec_seen(ds, n as int).len() == ds.len());
                        assert(false);
                    }
                }
            }
            assert(idx as int == spec_insert_slot(n as int, ds));
        }

        // place the record, shift the slots above it, extend the table
        proof {
            if ds.len() > 0 && ds.no_duplicates() {
                lemma_max_slot(ds);
                let jm = choose|jm: int| 0 <= jm < ds.len() && ds[jm] == spec_max_slot(ds);
                assert(spec_max_slot(ds) < n);
            }
            assert(idx <= n);
        }
        self.widgets.insert(idx, new);
        let ghost b0 = self.widget_bounds@;
        let ghost r1 = self.renderable_idxs@;
        let ghost c1 = self.clickable_idxs@;
        let ghost root0 = self.bounds;
        let mut k: usize = 0;
        while k < self.idxs.len()
            invariant
                k <= t0.len(),
                self.idxs@.len() == t0.len(),
                forall|j2: int| 0 <= j2 < t0.len() ==> (#[trigger] t0[j2]) < n,
                forall|j2: int|
                    0 <= j2 < k ==> (#[trigger] self.idxs@[j2]) as int == if t0[j2] >= idx {
                        t0[j2] + 1
                    } else {
                        t0[j2] as int
                    },
                forall|j2: int| k <= j2 < t0.len() ==> (#[trigger] self.idxs@[j2]) == t0[j2],
                self.widgets@ == w0.insert(idx as int, new),
                self.widget_bounds@ == b0,
                self.renderable_idxs@ == r1,
                self.clickable_idxs@ == c1,
                self.bounds == root0,
            decreases t0.len() - k,
        {
            let v = self.idxs[k];
            if v >= idx {
                self.idxs[k] = v + 1;
            }
            k += 1;
        }
        self.idxs.push(idx);

        proof {
            w0.insert_ensures(idx as int, new);
            let tf = self.idxs@;
            let wfin = self.widgets@;
            assert(tf.len() == t0.len() + 1);
            assert(tf[t0.len() as int] == idx);
            // handles issued earlier keep resolving to the record they named
            assert forall|j2: int|
                0 <= j2 < t0.len() implies wfin[(#[trigger] tf[j2]) as int] == w0[t0[j2] as int] by {
                if t0[j2] >= idx {
                    assert(tf[j2] == t0[j2] + 1);
                    assert(wfin[t0[j2] + 1] == w0[t0[j2] as int]);
                } else {
                    assert(tf[j2] == t0[j2]);
                    assert(wfin[t0[j2] as int] == w0[t0[j2] as int]);
                }
            }
            // the rewritten table is still a bijection onto the grown storage
            assert forall|h1: int, h2: int|
                0 <= h1 < h2 < tf.len() implies tf[h1] != tf[h2] by {
                if h2 < t0.len() {
                    assert(t0[h1] != t0[h2]);
                } else {
                    if t0[h1] >= idx {
                        assert(tf[h1] == t0[h1] + 1);
                    }
                }
            }
            assert forall|h1: int|
                0 <= h1 < tf.len() implies (#[trigger] tf[h1]) < wfin.len() by {}
            assert(self.wf());
            // placement respects the dependency order when the declared
            // dependencies are distinct
            if old(self).topo_ok() && new.deps@.no_duplicates() {
                if ds.len() > 0 && ds.no_duplicates() {
                    lemma_max_slot(ds);
                }
                assert forall|a: int, b: int|
                    0 <= a < b < ds.len() implies ds[a] != ds[b] by {
                    assert(ds[a] == t0[new.deps@[a].0 as int]);
                    assert(ds[b] == t0[new.deps@[b].0 as int]);
                    assert(new.deps@[a] != new.deps@[b]);
                }
                assert(ds.no_duplicates());
                assert forall|s2: int, k2: int|
                    0 <= s2 < wfin.len() && 0 <= k2 < wfin[s2].deps@.len() implies {
                    let d = #[trigger] wfin[s2].deps@[k2];
                    &&& d.0 < tf.len()
                    &&& tf[d.0 as int] < s2
                } by {
                    if s2 == idx {
                        assert(wfin[s2] == new);
                        let d = new.deps@[k2];
                        assert(ds[k2] == t0[d.0 as int]);
                        assert(t0[d.0 as int] <= spec_max_slot(ds));
                        assert(t0[d.0 as int] < idx);
                        assert(tf[d.0 as int] == t0[d.0 as int]);
                    } else {
                        let q = if s2 < idx {
                            s2
                        } else {
                            s2 - 1
                        };
                        if s2 > idx {
                            assert(wfin[q + 1] == w0[q]);
                        }
                        assert(wfin[s2] == w0[q]);
                        let d = w0[q].deps@[k2];
                        assert(d.0 < t0.len() && t0[d.0 as int] < q);
                        if t0[d.0 as int] >= idx {
                            assert(tf[d.0 as int] == t0[d.0 as int] + 1);
                        }
                    }
                }
                assert(self.topo_ok());
            }
        }
        WidgetIndex(widget_index)
    }

    /// The current root bounds.
    pub fn bounds(&self) -> (r: &Rect)
        ensures
            *r == self.spec_root(),
    {
        &self.bounds
    }

    /// The cached bounds the handle currently resolves to, or `None` when
    /// the handle is not live or its slot has no cache entry yet. Layout
    /// rules read other widgets' bounds through this lookup, so a read that
    /// runs ahead of the current pass is answered with `None`, never with a
    /// stale rectangle.
    pub fn cached_bounds(&self, idx: WidgetIndex) -> (r: Option<Rect>)
        ensures
            r == spec_lookup(self.spec_table(), self.spec_cache(), idx),
    {
        if idx.0 < self.idxs.len() {
            let slot = self.idxs[idx.0];
            if slot < self.widget_bounds.len() {
                Some(self.widget_bounds[slot])
            } else {
                None
            }
        } else {
            None
        }
    }

    /// The widget a live handle refers to.
    pub fn get_widget(&self, idx: WidgetIndex) -> (w: &Widget)
        requires
            self.wf(),
            idx.0 < self.spec_table().len(),
        ensures
            *w == self.spec_widgets()[self.spec_table()[idx.0 as int] as int],
    {
        let slot = self.idxs[idx.0];
        &self.widgets[slot]
    }

    /// The widget a live handle refers to, together with its most recently
    /// computed bounds; the cache must be filled, so a recalculation must
    /// have run since the last widget was added.
    pub fn get_widget_and_bounds(&self, idx: WidgetIndex) -> (r: (&Widget, &Rect))
        requires
            self.wf(),
            idx.0 < self.spec_table().len(),
            self.spec_cache().len() == self.spec_widgets().len(),
        ensures
            *r.0 == self.spec_widgets()[self.spec_table()[idx.0 as int] as int],
            *r.1 == self.spec_cache()[self.spec_table()[idx.0 as int] as int],
    {
        let slot = self.idxs[idx.0];
        (&self.widgets[slot], &self.widget_bounds[slot])
    }

    /// Mutable access to the widget a live handle refers to. The caller owns
    /// the widget's behaviour, but the capability flags are assumed immutable
    /// for the widget's lifetime: well-formedness of the registry is
    /// promised only to callers that leave them as they are.
    pub fn get_widget_mut(&mut self, idx: WidgetIndex) -> (w: &mut Widget)
        requires
            old(self).wf(),
            idx.0 < old(self).spec_table().len(),
        ensures
            *w == old(self).spec_widgets()[old(self).spec_table()[idx.0 as int] as int],
            final(self).spec_widgets() == old(self).spec_widgets().update(
                old(self).spec_table()[idx.0 as int] as int,
                *final(w),
            ),
            final(self).spec_table() == old(self).spec_table(),
            final(self).spec_cache() == old(self).spec_cache(),
            final(self).spec_renderables() == old(self).spec_renderables(),
            final(self).spec_clickables() == old(self).spec_clickables(),
            final(self).spec_root() == old(self).spec_root(),
            ((*final(w)).renderable == old(self).spec_widgets()[old(self).spec_table()[idx.0 as int] as int].renderable
                && (*final(w)).clickable == old(self).spec_widgets()[old(self).spec_table()[idx.0 as int] as int].clickable)
                ==> final(self).wf(),
    {
        let slot = self.idxs[idx.0];
        &mut self.widgets[slot]
    }

    /// Rebuilds the whole bounds cache: the cache is cleared, then storage
    /// is walked in slot order — the dependency-respecting order insertion
    /// established — and each widget's layout rule is run against the cache
    /// entries written so far in this very pass.
    pub fn recalculate(&mut self)
        requires
            old(self).wf(),
        ensures
            final(self).wf(),
            final(self).spec_widgets() == old(self).spec_widgets(),
            final(self).spec_table() == old(self).spec_table(),
            final(self).spec_renderables() == old(self).spec_renderables(),
            final(self).spec_clickables() == old(self).spec_clickables(),
            final(self).spec_root() == old(self).spec_root(),
            final(self).spec_cache() == spec_recalc(
                old(self).spec_widgets(),
                old(self).spec_table(),
                old(self).spec_root(),
                old(self).spec_widgets().len() as int,
            ),
            final(self).spec_cache().len() == final(self).spec_widgets().len(),
    {
        let ghost w0 = self.widgets@;
        let ghost t0 = self.idxs@;
        let ghost r0 = self.renderable_idxs@;
        let ghost c0 = self.clickable_idxs@;
        let ghost root0 = self.bounds;
        self.widget_bounds.clear();
        let n = self.widgets.len();
        let mut i: usize = 0;
        while i < n
            invariant
                i <= n,
                n == w0.len(),
                self.widgets@ == w0,
                self.idxs@ == t0,
                self.renderable_idxs@ == r0,
                self.clickable_idxs@ == c0,
                self.bounds == root0,
                self.widget_bounds@ == spec_recalc(w0, t0, root0, i as int),
                self.widget_bounds@.len() == i,
            decreases n - i,
        {
            let w_bounds = self.widgets[i].calculate_bounds(self);
            self.widget_bounds.push(w_bounds);
            proof {
                assert(self.widget_bounds@ =~= spec_recalc(w0, t0, root0, i as int + 1));
            }
            i += 1;
        }
    }

    /// Replaces the root bounds and unconditionally recalculates every
    /// widget's rectangle against them.
    pub fn resize(&mut self, bounds: Rect)
        requires
            old(self).wf(),
        ensures
            final(self).wf(),
            final(self).spec_widgets() == old(self).spec_widgets(),
            final(self).spec_table() == old(self).spec_table(),
            final(self).spec_renderables() == old(self).spec_renderables(),
            final(self).spec_clickables() == old(self).spec_clickables(),
            final(self).spec_root() == bounds,
            final(self).spec_cache() == spec_recalc(
                old(self).spec_widgets(),
                old(self).spec_table(),
                bounds,
                old(self).spec_widgets().len() as int,
            ),
            final(self).spec_cache().len() == final(self).spec_widgets().len(),
    {
        self.bounds = bounds;
        self.recalculate()
    }

    /// Dispatches a render pass: the rectangle handed to each widget that
    /// opted into rendering when it was added — its cached bounds — in the
    /// order those widgets were added, and no other widget's. The cache
    /// must be filled, so a recalculation must have run since the last
    /// widget was added.
    pub fn render(&self) -> (out: Vec<Rect>)
        requires
            self.wf(),
            self.spec_cache().len() == self.spec_widgets().len(),
        ensures
            out@.len() == self.spec_renderables().len(),
            forall|k: int|
                0 <= k < out@.len() ==> out@[k] == self.spec_cache()[self.spec_table()[(
                #[trigger] self.spec_renderables()[k]) as int] as int],
    {
        let mut out: Vec<Rect> = Vec::new();
        let m = self.renderable_idxs.len();
        let mut k: usize = 0;
        while k < m
            invariant
                k <= m,
                m == self.spec_renderables().len(),
                self.wf(),
                self.spec_cache().len() == self.spec_widgets().len(),
                out@.len() == k,
                forall|j: int|
                    0 <= j < k ==> out@[j] == self.spec_cache()[self.spec_table()[(
                    #[trigger] self.spec_renderables()[j]) as int] as int],
            decreases m - k,
        {
            let e = self.renderable_idxs[k];
            let slot = self.idxs[e];
            out.push(self.widget_bounds[slot]);
            k += 1;
        }
        out
    }

    /// Whether the click dispatch at `point` fires the widget at storage
    /// slot `slot`: some clickable handle resolves to that slot and the
    /// slot's cached bounds contain the point.
    pub open spec fn spec_click_hits(self, slot: int, point: Point) -> bool {
        exists|k: int|
            0 <= k < self.spec_clickables().len() && self.spec_table()[(
            #[trigger] self.spec_clickables()[k]) as int] == slot
                && self.spec_cache()[slot].spec_contains(point)
    }

    /// Dispatches a click at `point`: every widget that opted into clicking
    /// when it was added and whose cached bounds contain the point receives
    /// the click — all overlapping hits fire, with no topmost-wins cut-off —
    /// and no other widget changes. The cache must be filled, so a
    /// recalculation must have run since the last widget was added.
    pub fn click(&mut self, point: Point)
        requires
            old(self).wf(),
            old(self).spec_cache().len() == old(self).spec_widgets().len(),
        ensures
            final(self).wf(),
            final(self).spec_table() == old(self).spec_table(),
            final(self).spec_cache() == old(self).spec_cache(),
            final(self).spec_renderables() == old(self).spec_renderables(),
            final(self).spec_clickables() == old(self).spec_clickables(),
            final(self).spec_root() == old(self).spec_root(),
            final(self).spec_widgets().len() == old(self).spec_widgets().len(),
            forall|p: int|
                0 <= p < old(self).spec_widgets().len() ==> final(self).spec_widgets()[p] == if old(
                    self,
                ).spec_click_hits(p, point) {
                    old(self).spec_widgets()[p].spec_clicked(point)
                } else {
                    old(self).spec_widgets()[p]
                },
    {
        let ghost w0 = self.widgets@;
        let ghost t0 = self.idxs@;
        let ghost b0 = self.widget_bounds@;
        let ghost r0 = self.renderable_idxs@;
        let ghost c0 = self.clickable_idxs@;
        let ghost root0 = self.bounds;
        let m = self.clickable_idxs.len();
        let mut k: usize = 0;
        while k < m
            invariant
                k <= m,
                old(self).wf(),
                w0 == old(self).spec_widgets(),
                t0 == old(self).spec_table(),
                b0 == old(self).spec_cache(),
                r0 == old(self).spec_renderables(),
                c0 == old(self).spec_clickables(),
                b0.len() == w0.len(),
                m == c0.len(),
                self.idxs@ == t0,
                self.widget_bounds@ == b0,
                self.renderable_idxs@ == r0,
                self.clickable_idxs@ == c0,
                self.bounds == root0,
                self.widgets@.len() == w0.len(),
                forall|p: int|
                    0 <= p < w0.len() ==> (#[trigger] self.widgets@[p]) == if (exists|j: int|
                        0 <= j < k && t0[(#[trigger] c0[j]) as int] == p && b0[p].spec_contains(
                            point,
                        )) {
                        w0[p].spec_clicked(point)
                    } else {
                        w0[p]
                    },
            decreases m - k,
        {
            let e = self.clickable_idxs[k];
            let slot = self.idxs[e];
            let b = self.widget_bounds[slot];
            let ghost prev = self.widgets@;
            if b.contains(point) {
                proof {
                    // no earlier clickable handle resolved to this slot, so
                    // its record is still the one the call started with
                    if exists|j: int|
                        0 <= j < k && t0[(c0[j]) as int] == slot as int && b0[slot as int].spec_contains(point) {
                        let j = choose|j: int|
                            0 <= j < k && t0[(c0[j]) as int] == slot as int && b0[slot as int].spec_contains(point);
                        assert(c0[j] != c0[k as int]);
                        assert(false);
                    }
                }
                let w = &mut self.widgets[slot];
                w.on_click(point);
                proof {
                    assert forall|p: int|
                        0 <= p < w0.len() implies (#[trigger] self.widgets@[p]) == if (exists|
                        j: int,
                    |
                        0 <= j < k + 1 && t0[(#[trigger] c0[j]) as int] == p && b0[p].spec_contains(
                            point,
                        )) {
                        w0[p].spec_clicked(point)
                    } else {
                        w0[p]
                    } by {
                        if p == slot as int {
                            assert(t0[(c0[k as int]) as int] == p && b0[p].spec_contains(point));
                        } else {
                            assert(self.widgets@[p] == prev[p]);
                            if exists|j: int|
                                0 <= j < k + 1 && t0[(c0[j]) as int] == p && b0[p].spec_contains(
                                    point,
                                ) {
                                let j = choose|j: int|
                                    0 <= j < k + 1 && t0[(c0[j]) as int] == p
                                        && b0[p].spec_contains(point);
                                assert(j < k);
                                assert(exists|j2: int|
                                    0 <= j2 < k && t0[(c0[j2]) as int] == p
                                        && b0[p].spec_contains(point));
                            }
                        }
                    }
                }
            } else {
                proof {
                    assert forall|p: int|
                        0 <= p < w0.len() implies (#[trigger] self.widgets@[p]) == if (exists|
                        j: int,
                    |
                        0 <= j < k + 1 && t0[(#[trigger] c0[j]) as int] == p && b0[p].spec_contains(
                            point,
                        )) {
                        w0[p].spec_clicked(point)
                    } else {
                        w0[p]
                    } by {
                        if exists|j: int|
                            0 <= j < k + 1 && t0[(c0[j]) as int] == p && b0[p].spec_contains(
                                point,
                            ) {
                            let j = choose|j: int|
                                0 <= j < k + 1 && t0[(c0[j]) as int] == p && b0[p].spec_contains(
                                    point,
                                );
                            assert(j < k);
                            assert(exists|j2: int|
                                0 <= j2 < k && t0[(c0[j2]) as int] == p && b0[p].spec_contains(
                                    point,
                                ));
                        }
                    }
                }
            }
            k += 1;
        }
    }
}

} // verus!
