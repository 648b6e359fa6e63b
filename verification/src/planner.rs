//! The planner: assigns unassigned boxes to vehicles, first fit in plan
//! order, consuming boxes by scheduling priority (due date ascending, then
//! order id, then box insertion order). A box fits a vehicle when its weight
//! is at most the remaining space and the vehicle's arrival — if a leg is
//! scheduled — is no later than the order's due date; a vehicle with no
//! scheduled leg is treated as always feasible. Boxes no vehicle admits are
//! reported, not an error. The input plan is never touched: the result is a
//! fresh plan.

use vstd::prelude::*;

use crate::catalog::{OrderView, Problem};
use crate::imvec::{
    items_push,
    weights_model,
    weight_at,
    weights_len,
};
use crate::plan::{plan_wf, LoadPlan};
use crate::vehicle::{
    lemma_weight_sum_push,
    weight_sum,
    Vehicle,
    VehicleView,
};
use crate::ids::str_eq;

verus! {

/// A box awaiting assignment: which order it belongs to, its weight, and
/// the order's due date.
pub struct PendingBox {
    pub order_id: String,
    pub weight: u64,
    pub due_date: i64,
}

/// The mathematical value of a pending box.
#[verifier::ext_equal]
pub ghost struct PendingView {
    pub order_id: Seq<char>,
    pub weight: u64,
    pub due_date: i64,
}

impl View for PendingBox {
    type V = PendingView;

    open spec fn view(&self) -> PendingView {
        PendingView { order_id: self.order_id@, weight: self.weight, due_date: self.due_date }
    }
}

/// The values of a sequence of pending boxes.
pub open spec fn pending_views(s: Seq<PendingBox>) -> Seq<PendingView> {
    s.map_values(|b: PendingBox| b@)
}

/// The values of a sequence of vehicles.
pub open spec fn fleet_views(s: Seq<Vehicle>) -> Seq<VehicleView> {
    s.map_values(|v: Vehicle| v@)
}

/// How many boxes of weight `w` a weight list holds.
pub open spec fn count_weight(s: Seq<u64>, w: u64) -> int
    decreases s.len(),
{
    if s.len() == 0 {
        0
    } else {
        count_weight(s.drop_last(), w) + if s.last() == w {
            1int
        } else {
            0int
        }
    }
}

/// How many boxes of order `id` and weight `w` a load holds.
pub open spec fn count_items(items: Seq<(Seq<char>, u64)>, id: Seq<char>, w: u64) -> int
    decreases items.len(),
{
    if items.len() == 0 {
        0
    } else {
        count_items(items.drop_last(), id, w) + if items.last().0 == id && items.last().1 == w {
            1int
        } else {
            0int
        }
    }
}

/// How many boxes of order `id` and weight `w` a whole plan holds.
pub open spec fn placed_count(plan: Seq<VehicleView>, id: Seq<char>, w: u64) -> int
    decreases plan.len(),
{
    if plan.len() == 0 {
        0
    } else {
        placed_count(plan.drop_last(), id, w) + count_items(plan.last().items, id, w)
    }
}

pub proof fn lemma_count_weight_bounds(s: Seq<u64>, w: u64)
    ensures
        0 <= count_weight(s, w) <= s.len(),
    decreases s.len(),
{
    if s.len() > 0 {
        lemma_count_weight_bounds(s.drop_last(), w);
    }
}

pub proof fn lemma_count_items_nonneg(items: Seq<(Seq<char>, u64)>, id: Seq<char>, w: u64)
    ensures
        count_items(items, id, w) >= 0,
    decreases items.len(),
{
    if items.len() > 0 {
        lemma_count_items_nonneg(items.drop_last(), id, w);
    }
}

pub proof fn lemma_placed_count_nonneg(plan: Seq<VehicleView>, id: Seq<char>, w: u64)
    ensures
        placed_count(plan, id, w) >= 0,
    decreases plan.len(),
{
    if plan.len() > 0 {
        lemma_placed_count_nonneg(plan.drop_last(), id, w);
        lemma_count_items_nonneg(plan.last().items, id, w);
    }
}

pub proof fn lemma_count_weight_take_step(s: Seq<u64>, w: u64, m: int)
    requires
        0 <= m < s.len(),
    ensures
        count_weight(s.take(m + 1), w) == count_weight(s.take(m), w) + if s[m] == w {
            1int
        } else {
            0int
        },
{
    assert(s.take(m + 1).drop_last() =~= s.take(m));
    assert(s.take(m + 1).last() == s[m]);
}

pub proof fn lemma_count_items_take_step(items: Seq<(Seq<char>, u64)>, id: Seq<char>, w: u64, m: int)
    requires
        0 <= m < items.len(),
    ensures
        count_items(items.take(m + 1), id, w) == count_items(items.take(m), id, w) + if items[m].0
            == id && items[m].1 == w {
            1int
        } else {
            0int
        },
{
    assert(items.take(m + 1).drop_last() =~= items.take(m));
    assert(items.take(m + 1).last() == items[m]);
}

pub proof fn lemma_placed_count_take_step(plan: Seq<VehicleView>, id: Seq<char>, w: u64, m: int)
    requires
        0 <= m < plan.len(),
    ensures
        placed_count(plan.take(m + 1), id, w) == placed_count(plan.take(m), id, w) + count_items(
            plan[m].items,
            id,
            w,
        ),
{
    assert(plan.take(m + 1).drop_last() =~= plan.take(m));
    assert(plan.take(m + 1).last() == plan[m]);
}

/// The pending entry for box `j` of order `o`.
pub open spec fn pending_entry(o: OrderView, j: int) -> PendingView {
    PendingView { order_id: o.id, weight: o.boxes[j], due_date: o.due_date }
}

/// The pending boxes of order `o` from box index `j` on: box `j` is pending
/// unless the plan already holds more copies of its (id, weight) than the
/// order's earlier boxes account for.
pub open spec fn pending_from(o: OrderView, plan: Seq<VehicleView>, j: int) -> Seq<PendingView>
    decreases o.boxes.len() - j,
{
    if j < 0 || j >= o.boxes.len() {
        Seq::<PendingView>::empty()
    } else {
        let rest = pending_from(o, plan, j + 1);
        if count_weight(o.boxes.take(j), o.boxes[j]) >= placed_count(plan, o.id, o.boxes[j]) {
            seq![pending_entry(o, j)] + rest
        } else {
            rest
        }
    }
}

/// The unassigned boxes of the catalog from order index `k` on, in
/// scheduling priority order (the catalog is sorted).
pub open spec fn unassigned_from(cat: Seq<OrderView>, plan: Seq<VehicleView>, k: int) -> Seq<
    PendingView,
>
    decreases cat.len() - k,
{
    if k < 0 || k >= cat.len() {
        Seq::<PendingView>::empty()
    } else {
        pending_from(cat[k], plan, 0) + unassigned_from(cat, plan, k + 1)
    }
}

/// All boxes of the catalog not yet present in the plan, in scheduling
/// priority order.
pub open spec fn spec_unassigned(cat: Seq<OrderView>, plan: Seq<VehicleView>) -> Seq<PendingView> {
    unassigned_from(cat, plan, 0)
}

/// Whether the vehicle's arrival meets the due date; a vehicle with no
/// scheduled leg is treated as always feasible.
pub open spec fn feasible(v: VehicleView, due_date: i64) -> bool {
    match v.leg {
        None => true,
        Some(l) => l.arrive_date <= due_date,
    }
}

/// Whether the box can be loaded: it fits the remaining space (equality
/// included) and the vehicle is feasible for its due date.
pub open spec fn box_fits(v: VehicleView, b: PendingView) -> bool {
    v.space() >= b.weight && feasible(v, b.due_date)
}

/// The first vehicle index admitting the box, or -1 when none does.
pub open spec fn first_fit(plan: Seq<VehicleView>, b: PendingView) -> int
    decreases plan.len(),
{
    if plan.len() == 0 {
        -1
    } else if box_fits(plan[0], b) {
        0
    } else {
        let r = first_fit(plan.drop_first(), b);
        if r < 0 {
            -1
        } else {
            r + 1
        }
    }
}

/// The plan with box `b` loaded onto vehicle `i`; only that vehicle is
/// replaced, every other entry is shared unchanged.
pub open spec fn load_box(plan: Seq<VehicleView>, i: int, b: PendingView) -> Seq<VehicleView> {
    plan.update(
        i,
        VehicleView { items: plan[i].items.push((b.order_id, b.weight)), ..plan[i] },
    )
}

/// First-fit placement of every pending box, in order: the final plan and
/// the boxes no vehicle admitted.
pub open spec fn place_all(plan: Seq<VehicleView>, pend: Seq<PendingView>) -> (
    Seq<VehicleView>,
    Seq<PendingView>,
)
    decreases pend.len(),
{
    if pend.len() == 0 {
        (plan, Seq::<PendingView>::empty())
    } else {
        let b = pend[0];
        let i = first_fit(plan, b);
        if i >= 0 {
            place_all(load_box(plan, i, b), pend.drop_first())
        } else {
            let r = place_all(plan, pend.drop_first());
            (r.0, seq![b] + r.1)
        }
    }
}

/// One planner pass over a catalog and a plan.
pub open spec fn spec_run(cat: Seq<OrderView>, plan: Seq<VehicleView>) -> (
    Seq<VehicleView>,
    Seq<PendingView>,
) {
    place_all(plan, spec_unassigned(cat, plan))
}

pub proof fn lemma_first_fit_at(plan: Seq<VehicleView>, b: PendingView, i: int)
    requires
        0 <= i < plan.len(),
        box_fits(plan[i], b),
        forall|j: int| 0 <= j < i ==> !box_fits(#[trigger] plan[j], b),
    ensures
        first_fit(plan, b) == i,
    decreases plan.len(),
{
    if i > 0 {
        let d = plan.drop_first();
        assert(forall|j: int| 0 <= j < i - 1 ==> d[j] == plan[j + 1]);
        lemma_first_fit_at(d, b, i - 1);
    }
}

pub proof fn lemma_first_fit_props(plan: Seq<VehicleView>, b: PendingView)
    ensures
        first_fit(plan, b) >= 0 ==> first_fit(plan, b) < plan.len() && box_fits(
            plan[first_fit(plan, b)],
            b,
        ),
    decreases plan.len(),
{
    if plan.len() > 0 && !box_fits(plan[0], b) {
        let d = plan.drop_first();
        lemma_first_fit_props(d, b);
        if first_fit(d, b) >= 0 {
            assert(plan[first_fit(d, b) + 1] == d[first_fit(d, b)]);
        }
    }
}

pub proof fn lemma_first_fit_none(plan: Seq<VehicleView>, b: PendingView)
    requires
        forall|j: int| 0 <= j < plan.len() ==> !box_fits(#[trigger] plan[j], b),
    ensures
        first_fit(plan, b) == -1,
    decreases plan.len(),
{
    if plan.len() > 0 {
        let d = plan.drop_first();
        assert(forall|j: int| 0 <= j < d.len() ==> d[j] == plan[j + 1]);
        lemma_first_fit_none(d, b);
    }
}

/// Capacity boundary law: a feasible box whose weight exactly equals the
/// remaining space is admitted; a box exceeding the remaining space by any
/// positive amount is not.
pub proof fn lemma_capacity_boundary(v: VehicleView, b: PendingView)
    requires
        feasible(v, b.due_date),
    ensures
        v.space() == b.weight ==> box_fits(v, b),
        v.space() < b.weight ==> !box_fits(v, b),
{
}

pub proof fn lemma_first_fit_neg(plan: Seq<VehicleView>, b: PendingView)
    requires
        first_fit(plan, b) == -1,
    ensures
        forall|j: int| 0 <= j < plan.len() ==> !box_fits(#[trigger] plan[j], b),
    decreases plan.len(),
{
    if plan.len() > 0 {
        let d = plan.drop_first();
        assert(!box_fits(plan[0], b));
        assert(first_fit(d, b) == -1);
        lemma_first_fit_neg(d, b);
        assert forall|j: int| 0 <= j < plan.len() implies !box_fits(#[trigger] plan[j], b) by {
            if j > 0 {
                assert(plan[j] == d[j - 1]);
            }
        }
    }
}

/// Placement never touches a vehicle's kind, capacity or leg, and never
/// removes load: space only shrinks.
pub proof fn lemma_place_all_shape(plan: Seq<VehicleView>, pend: Seq<PendingView>)
    ensures
        place_all(plan, pend).0.len() == plan.len(),
        forall|j: int| 0 <= j < plan.len() ==> (#[trigger] place_all(plan, pend).0[j]).kind
            == plan[j].kind && place_all(plan, pend).0[j].capacity == plan[j].capacity
            && place_all(plan, pend).0[j].leg == plan[j].leg && weight_sum(
            place_all(plan, pend).0[j].items,
        ) >= weight_sum(plan[j].items),
    decreases pend.len(),
{
    if pend.len() > 0 {
        let b = pend[0];
        let i = first_fit(plan, b);
        if i >= 0 {
            lemma_first_fit_props(plan, b);
            let p2 = load_box(plan, i, b);
            lemma_weight_sum_push(plan[i].items, (b.order_id, b.weight));
            lemma_place_all_shape(p2, pend.drop_first());
            assert forall|j: int| 0 <= j < plan.len() implies (#[trigger] place_all(
                plan,
                pend,
            ).0[j]).kind == plan[j].kind && place_all(plan, pend).0[j].capacity
                == plan[j].capacity && place_all(plan, pend).0[j].leg == plan[j].leg
                && weight_sum(place_all(plan, pend).0[j].items) >= weight_sum(
                plan[j].items,
            ) by {
                assert(place_all(plan, pend).0[j] == place_all(p2, pend.drop_first()).0[j]);
                if j != i {
                    assert(p2[j] == plan[j]);
                }
            }
        } else {
            lemma_place_all_shape(plan, pend.drop_first());
        }
    }
}

/// Every box the placement pass reports unplaced fits no vehicle of the
/// plan it produced.
pub proof fn lemma_place_all_stuck(plan: Seq<VehicleView>, pend: Seq<PendingView>)
    ensures
        forall|m: int, j: int|
            0 <= m < place_all(plan, pend).1.len() && 0 <= j < place_all(plan, pend).0.len()
                ==> !box_fits(
                #[trigger] place_all(plan, pend).0[j],
                #[trigger] place_all(plan, pend).1[m],
            ),
    decreases pend.len(),
{
    if pend.len() > 0 {
        let b = pend[0];
        let i = first_fit(plan, b);
        if i >= 0 {
            lemma_place_all_stuck(load_box(plan, i, b), pend.drop_first());
            assert(place_all(plan, pend) == place_all(load_box(plan, i, b), pend.drop_first()));
        } else {
            let r = place_all(plan, pend.drop_first());
            lemma_first_fit_neg(plan, b);
            lemma_place_all_stuck(plan, pend.drop_first());
            lemma_place_all_shape(plan, pend.drop_first());
            assert forall|m: int, j: int|
                0 <= m < place_all(plan, pend).1.len() && 0 <= j < place_all(
                    plan,
                    pend,
                ).0.len() implies !box_fits(
                #[trigger] place_all(plan, pend).0[j],
                #[trigger] place_all(plan, pend).1[m],
            ) by {
                assert(place_all(plan, pend).0 == r.0);
                assert(place_all(plan, pend).1 == seq![b] + r.1);
                if m == 0 {
                    assert(place_all(plan, pend).1[0] == b);
                    assert(!box_fits(plan[j], b));
                    assert(r.0[j].capacity == plan[j].capacity && r.0[j].leg == plan[j].leg
                        && weight_sum(r.0[j].items) >= weight_sum(plan[j].items));
                } else {
                    assert(place_all(plan, pend).1[m] == r.1[m - 1]);
                }
            }
        }
    }
}

/// Placing boxes that fit no vehicle changes nothing and leaves every box
/// unplaced.
pub proof fn lemma_place_all_noop(plan: Seq<VehicleView>, pend: Seq<PendingView>)
    requires
        forall|m: int, j: int|
            0 <= m < pend.len() && 0 <= j < plan.len() ==> !box_fits(
                #[trigger] plan[j],
                #[trigger] pend[m],
            ),
    ensures
        place_all(plan, pend).0 == plan,
        place_all(plan, pend).1 == pend,
    decreases pend.len(),
{
    if pend.len() == 0 {
        assert(place_all(plan, pend).1 =~= pend);
    } else {
        let b = pend[0];
        assert(forall|j: int| 0 <= j < plan.len() ==> !box_fits(#[trigger] plan[j], b));
        lemma_first_fit_none(plan, b);
        let d = pend.drop_first();
        assert forall|m: int, j: int|
            0 <= m < d.len() && 0 <= j < plan.len() implies !box_fits(
            #[trigger] plan[j],
            #[trigger] d[m],
        ) by {
            assert(d[m] == pend[m + 1]);
        }
        lemma_place_all_noop(plan, d);
        assert(place_all(plan, pend).1 =~= pend);
    }
}

pub proof fn lemma_count_items_push(items: Seq<(Seq<char>, u64)>, p: (Seq<char>, u64), id: Seq<
    char,
>, w: u64)
    ensures
        count_items(items.push(p), id, w) == count_items(items, id, w) + if p.0 == id && p.1
            == w {
            1int
        } else {
            0int
        },
{
    assert(items.push(p).drop_last() =~= items);
    assert(items.push(p).last() == p);
}

pub proof fn lemma_placed_count_update(
    plan: Seq<VehicleView>,
    i: int,
    v: VehicleView,
    id: Seq<char>,
    w: u64,
)
    requires
        0 <= i < plan.len(),
    ensures
        placed_count(plan.update(i, v), id, w) == placed_count(plan, id, w) - count_items(
            plan[i].items,
            id,
            w,
        ) + count_items(v.items, id, w),
    decreases plan.len(),
{
    let s = plan.update(i, v);
    if i == plan.len() - 1 {
        assert(s.drop_last() =~= plan.drop_last());
        assert(s.last() == v);
    } else {
        assert(s.drop_last() =~= plan.drop_last().update(i, v));
        lemma_placed_count_update(plan.drop_last(), i, v, id, w);
        assert(s.last() == plan.last());
        assert(plan.drop_last()[i] == plan[i]);
    }
}

/// Loading one box bumps the plan's count for exactly that (id, weight).
pub proof fn lemma_load_box_counts(plan: Seq<VehicleView>, i: int, b: PendingView)
    requires
        0 <= i < plan.len(),
    ensures
        forall|id: Seq<char>, w: u64|
            placed_count(#[trigger] load_box(plan, i, b), id, w) == placed_count(plan, id, w)
                + if id == b.order_id && w == b.weight {
                1int
            } else {
                0int
            },
{
    let v = VehicleView { items: plan[i].items.push((b.order_id, b.weight)), ..plan[i] };
    assert forall|id: Seq<char>, w: u64|
        placed_count(#[trigger] load_box(plan, i, b), id, w) == placed_count(plan, id, w) + if id
            == b.order_id && w == b.weight {
            1int
        } else {
            0int
        } by {
        lemma_placed_count_update(plan, i, v, id, w);
        lemma_count_items_push(plan[i].items, (b.order_id, b.weight), id, w);
    }
}

/// The sequence without its first entry equal to `b`; unchanged when none.
pub open spec fn without_first(s: Seq<PendingView>, b: PendingView) -> Seq<PendingView>
    decreases s.len(),
{
    if s.len() == 0 {
        s
    } else if s[0] == b {
        s.drop_first()
    } else {
        seq![s[0]] + without_first(s.drop_first(), b)
    }
}

pub proof fn lemma_without_first_absent(s: Seq<PendingView>, b: PendingView)
    requires
        forall|m: int| 0 <= m < s.len() ==> s[m] != b,
    ensures
        without_first(s, b) == s,
    decreases s.len(),
{
    if s.len() > 0 {
        let d = s.drop_first();
        assert(forall|m: int| 0 <= m < d.len() ==> d[m] == s[m + 1]);
        lemma_without_first_absent(d, b);
        assert(seq![s[0]] + d =~= s);
    }
}

pub proof fn lemma_without_first_concat_absent(a: Seq<PendingView>, c: Seq<PendingView>, b: PendingView)
    requires
        forall|m: int| 0 <= m < a.len() ==> a[m] != b,
    ensures
        without_first(a + c, b) == a + without_first(c, b),
    decreases a.len(),
{
    if a.len() == 0 {
        assert(a + c =~= c);
        assert(a + without_first(c, b) =~= without_first(c, b));
    } else {
        let s = a + c;
        assert(s[0] == a[0]);
        assert(s.drop_first() =~= a.drop_first() + c);
        let d = a.drop_first();
        assert(forall|m: int| 0 <= m < d.len() ==> d[m] == a[m + 1]);
        lemma_without_first_concat_absent(d, c, b);
        assert(seq![a[0]] + (d + without_first(c, b)) =~= a + without_first(c, b));
    }
}

pub proof fn lemma_without_first_concat_present(a: Seq<PendingView>, c: Seq<PendingView>, b: PendingView)
    requires
        exists|m: int| 0 <= m < a.len() && a[m] == b,
    ensures
        without_first(a + c, b) == without_first(a, b) + c,
    decreases a.len(),
{
    let s = a + c;
    assert(s[0] == a[0]);
    if a[0] == b {
        assert(s.drop_first() =~= a.drop_first() + c);
    } else {
        let d = a.drop_first();
        let m = choose|m: int| 0 <= m < a.len() && a[m] == b;
        assert(d[m - 1] == b);
        assert(s.drop_first() =~= d + c);
        lemma_without_first_concat_present(d, c, b);
        assert(seq![a[0]] + (without_first(d, b) + c) =~= (seq![a[0]] + without_first(d, b)) + c);
    }
}

/// Every entry of an order's pending list carries the order's id and due
/// date.
pub proof fn lemma_pending_entries(o: OrderView, plan: Seq<VehicleView>, j: int)
    ensures
        forall|m: int|
            0 <= m < pending_from(o, plan, j).len() ==> (#[trigger] pending_from(o, plan, j)[m]).order_id
                == o.id && pending_from(o, plan, j)[m].due_date == o.due_date,
    decreases o.boxes.len() - j,
{
    if 0 <= j < o.boxes.len() {
        lemma_pending_entries(o, plan, j + 1);
        let rest = pending_from(o, plan, j + 1);
        let cur = pending_from(o, plan, j);
        if count_weight(o.boxes.take(j), o.boxes[j]) >= placed_count(plan, o.id, o.boxes[j]) {
            assert forall|m: int|
                0 <= m < cur.len() implies (#[trigger] cur[m]).order_id == o.id && cur[m].due_date
                == o.due_date by {
                if m == 0 {
                    assert(cur[m] == pending_entry(o, j));
                } else {
                    assert(cur[m] == rest[m - 1]);
                }
            }
        }
    }
}

/// An order whose placed counts are untouched keeps its pending list.
pub proof fn lemma_pending_same(o: OrderView, plan: Seq<VehicleView>, plan2: Seq<VehicleView>, j: int)
    requires
        forall|w: u64|
            placed_count(plan2, o.id, w) == placed_count(plan, o.id, w),
    ensures
        pending_from(o, plan2, j) == pending_from(o, plan, j),
    decreases o.boxes.len() - j,
{
    if 0 <= j < o.boxes.len() {
        lemma_pending_same(o, plan, plan2, j + 1);
    }
}

/// Once the bumped copy lies before `j`, the pending tail is unchanged.
pub proof fn lemma_pending_high(
    o: OrderView,
    plan: Seq<VehicleView>,
    plan2: Seq<VehicleView>,
    b: PendingView,
    j: int,
)
    requires
        o.id == b.order_id,
        forall|w: u64|
            #[trigger] placed_count(plan2, o.id, w) == placed_count(plan, o.id, w) + if w
                == b.weight {
                1int
            } else {
                0int
            },
        count_weight(o.boxes.take(j), b.weight) > placed_count(plan, o.id, b.weight),
        0 <= j,
    ensures
        pending_from(o, plan2, j) == pending_from(o, plan, j),
    decreases o.boxes.len() - j,
{
    if j < o.boxes.len() {
        if o.boxes[j] == b.weight {
            lemma_count_weight_take_step(o.boxes, b.weight, j);
        } else {
            assert(o.boxes.take(j + 1).drop_last() =~= o.boxes.take(j));
            lemma_count_weight_take_step(o.boxes, b.weight, j);
        }
        lemma_pending_high(o, plan, plan2, b, j + 1);
    }
}

/// Bumping the placed count of (id, weight) by one removes exactly the
/// first pending copy of that weight from the order's pending list.
pub proof fn lemma_pending_bump(
    o: OrderView,
    plan: Seq<VehicleView>,
    plan2: Seq<VehicleView>,
    b: PendingView,
    j: int,
)
    requires
        o.id == b.order_id,
        o.due_date == b.due_date,
        forall|w: u64|
            #[trigger] placed_count(plan2, o.id, w) == placed_count(plan, o.id, w) + if w
                == b.weight {
                1int
            } else {
                0int
            },
        count_weight(o.boxes.take(j), b.weight) <= placed_count(plan, o.id, b.weight),
        0 <= j,
    ensures
        pending_from(o, plan2, j) == without_first(pending_from(o, plan, j), b),
    decreases o.boxes.len() - j,
{
    let pc = placed_count(plan, o.id, b.weight);
    if j >= o.boxes.len() {
        assert(pending_from(o, plan, j).len() == 0);
    } else {
        let wj = o.boxes[j];
        let cwj = count_weight(o.boxes.take(j), wj);
        lemma_count_weight_take_step(o.boxes, b.weight, j);
        let p_tail = pending_from(o, plan, j + 1);
        let p2_tail = pending_from(o, plan2, j + 1);
        let e = pending_entry(o, j);
        if wj == b.weight {
            assert(e == b);
            if cwj == pc {
                lemma_pending_high(o, plan, plan2, b, j + 1);
                assert(pending_from(o, plan, j) == seq![e] + p_tail);
                assert(pending_from(o, plan2, j) == p2_tail);
                assert((seq![e] + p_tail)[0] == b);
                assert((seq![e] + p_tail).drop_first() =~= p_tail);
            } else {
                lemma_count_weight_bounds(o.boxes.take(j as int), b.weight);
                assert(cwj < pc);
                lemma_pending_bump(o, plan, plan2, b, j + 1);
                assert(pending_from(o, plan, j) == p_tail);
                assert(pending_from(o, plan2, j) == p2_tail);
            }
        } else {
            assert(e != b);
            assert(count_weight(o.boxes.take(j + 1), b.weight) == count_weight(
                o.boxes.take(j),
                b.weight,
            ));
            lemma_pending_bump(o, plan, plan2, b, j + 1);
            let cond = cwj >= placed_count(plan, o.id, wj);
            assert(placed_count(plan2, o.id, wj) == placed_count(plan, o.id, wj));
            if cond {
                assert(pending_from(o, plan, j) == seq![e] + p_tail);
                assert(pending_from(o, plan2, j) == seq![e] + p2_tail);
                assert((seq![e] + p_tail)[0] == e);
                assert((seq![e] + p_tail).drop_first() =~= p_tail);
                assert(without_first(seq![e] + p_tail, b) == seq![e] + without_first(p_tail, b));
            }
        }
    }
}

/// Every unassigned entry carries the id and due date of some order of the
/// catalog.
pub proof fn lemma_unassigned_member(cat: Seq<OrderView>, plan: Seq<VehicleView>, k: int)
    ensures
        forall|m: int|
            0 <= m < unassigned_from(cat, plan, k).len() ==> exists|t: int|
                k <= t < cat.len() && (#[trigger] unassigned_from(cat, plan, k)[m]).order_id
                    == cat[t].id && unassigned_from(cat, plan, k)[m].due_date
                    == cat[t].due_date,
    decreases cat.len() - k,
{
    if 0 <= k < cat.len() {
        lemma_unassigned_member(cat, plan, k + 1);
        lemma_pending_entries(cat[k], plan, 0);
        let blk = pending_from(cat[k], plan, 0);
        let rest = unassigned_from(cat, plan, k + 1);
        assert forall|m: int|
            0 <= m < unassigned_from(cat, plan, k).len() implies exists|t: int|
            k <= t < cat.len() && (#[trigger] unassigned_from(cat, plan, k)[m]).order_id
                == cat[t].id && unassigned_from(cat, plan, k)[m].due_date
                == cat[t].due_date by {
            if m < blk.len() {
                assert(unassigned_from(cat, plan, k)[m] == blk[m]);
                assert(blk[m].order_id == cat[k].id && blk[m].due_date == cat[k].due_date);
            } else {
                assert(unassigned_from(cat, plan, k)[m] == rest[m - blk.len()]);
            }
        }
    }
}

/// Loading one pending box onto any vehicle removes exactly the first
/// occurrence of that box's value from the catalog's unassigned sequence.
pub proof fn lemma_unassigned_bump(
    cat: Seq<OrderView>,
    plan: Seq<VehicleView>,
    plan2: Seq<VehicleView>,
    b: PendingView,
    k: int,
)
    requires
        crate::catalog::cat_wf(cat),
        forall|id: Seq<char>, w: u64|
            #[trigger] placed_count(plan2, id, w) == placed_count(plan, id, w) + if id
                == b.order_id && w == b.weight {
                1int
            } else {
                0int
            },
        forall|t: int|
            0 <= t < cat.len() && (#[trigger] cat[t]).id == b.order_id ==> cat[t].due_date
                == b.due_date,
        0 <= k,
    ensures
        unassigned_from(cat, plan2, k) == without_first(unassigned_from(cat, plan, k), b),
    decreases cat.len() - k,
{
    if k >= cat.len() {
        assert(unassigned_from(cat, plan, k).len() == 0);
    } else {
        let o = cat[k];
        let blk = pending_from(o, plan, 0);
        let blk2 = pending_from(o, plan2, 0);
        let rest = unassigned_from(cat, plan, k + 1);
        let rest2 = unassigned_from(cat, plan2, k + 1);
        lemma_pending_entries(o, plan, 0);
        if o.id == b.order_id {
            lemma_placed_count_nonneg(plan, o.id, b.weight);
            assert(o.boxes.take(0) =~= Seq::<u64>::empty());
            lemma_pending_bump(o, plan, plan2, b, 0);
            assert(blk2 == without_first(blk, b));
            assert forall|t: int| k + 1 <= t < cat.len() implies (#[trigger] cat[t]).id
                != o.id by {
                assert(cat[k].id != cat[t].id);
            }
            assert(rest2 == rest) by {
                lemma_unassigned_same(cat, plan, plan2, b, k + 1);
            }
            if exists|m: int| 0 <= m < blk.len() && blk[m] == b {
                lemma_without_first_concat_present(blk, rest, b);
            } else {
                assert(forall|m: int| 0 <= m < blk.len() ==> blk[m] != b);
                lemma_without_first_absent(blk, b);
                lemma_without_first_concat_absent(blk, rest, b);
                assert forall|m: int| 0 <= m < rest.len() implies rest[m] != b by {
                    lemma_unassigned_member(cat, plan, k + 1);
                    if rest[m] == b {
                        let t = choose|t: int|
                            k + 1 <= t < cat.len() && rest[m].order_id == cat[t].id
                                && rest[m].due_date == cat[t].due_date;
                        assert(cat[t].id == o.id);
                        assert(cat[k].id != cat[t].id);
                    }
                }
                lemma_without_first_absent(rest, b);
            }
        } else {
            assert forall|w: u64|
                placed_count(plan2, o.id, w) == placed_count(plan, o.id, w) by {
                assert(placed_count(plan2, o.id, w) == placed_count(plan, o.id, w) + 0);
            }
            lemma_pending_same(o, plan, plan2, 0);
            assert forall|m: int| 0 <= m < blk.len() implies blk[m] != b by {
                assert(blk[m].order_id == o.id);
            }
            lemma_unassigned_bump(cat, plan, plan2, b, k + 1);
            lemma_without_first_concat_absent(blk, rest, b);
        }
    }
}

/// A plan whose placed counts changed only for an order id that no order
/// from `k` on carries keeps the whole unassigned tail.
pub proof fn lemma_unassigned_same(
    cat: Seq<OrderView>,
    plan: Seq<VehicleView>,
    plan2: Seq<VehicleView>,
    b: PendingView,
    k: int,
)
    requires
        forall|id: Seq<char>, w: u64|
            #[trigger] placed_count(plan2, id, w) == placed_count(plan, id, w) + if id
                == b.order_id && w == b.weight {
                1int
            } else {
                0int
            },
        forall|t: int| k <= t < cat.len() ==> (#[trigger] cat[t]).id != b.order_id,
        0 <= k,
    ensures
        unassigned_from(cat, plan2, k) == unassigned_from(cat, plan, k),
    decreases cat.len() - k,
{
    if k < cat.len() {
        let o = cat[k];
        assert forall|w: u64|
            placed_count(plan2, o.id, w) == placed_count(plan, o.id, w) by {
            assert(placed_count(plan2, o.id, w) == placed_count(plan, o.id, w) + 0);
        }
        lemma_pending_same(o, plan, plan2, 0);
        lemma_unassigned_same(cat, plan, plan2, b, k + 1);
    }
}

/// The placement pass tracks the unassigned sequence: boxes already
/// reported unplaced (`front`, none of which fits any vehicle) stay
/// unassigned, and every placed box leaves the unassigned sequence, so the
/// plan a pass returns has exactly the reported boxes unassigned.
pub proof fn lemma_place_all_tracks(
    cat: Seq<OrderView>,
    plan: Seq<VehicleView>,
    pend: Seq<PendingView>,
    front: Seq<PendingView>,
)
    requires
        crate::catalog::cat_wf(cat),
        spec_unassigned(cat, plan) == front + pend,
        forall|m: int, j: int|
            0 <= m < front.len() && 0 <= j < plan.len() ==> !box_fits(
                #[trigger] plan[j],
                #[trigger] front[m],
            ),
    ensures
        spec_unassigned(cat, place_all(plan, pend).0) == front + place_all(plan, pend).1,
    decreases pend.len(),
{
    if pend.len() == 0 {
        assert(place_all(plan, pend).0 == plan);
        assert(front + place_all(plan, pend).1 =~= front);
        assert(front + pend =~= front);
    } else {
        let b = pend[0];
        let i = first_fit(plan, b);
        let d = pend.drop_first();
        if i >= 0 {
            lemma_first_fit_props(plan, b);
            let plan2 = load_box(plan, i, b);
            lemma_load_box_counts(plan, i, b);
            assert forall|m: int| 0 <= m < front.len() implies front[m] != b by {
                if front[m] == b {
                    assert(!box_fits(plan[i], front[m]));
                    assert(box_fits(plan[i], b));
                }
            }
            let u = spec_unassigned(cat, plan);
            let fl = front.len() as int;
            assert(u[fl] == b);
            lemma_unassigned_member(cat, plan, 0);
            assert(unassigned_from(cat, plan, 0)[fl] == b);
            assert forall|t: int|
                0 <= t < cat.len() && (#[trigger] cat[t]).id == b.order_id implies cat[t].due_date
                == b.due_date by {
                let t0 = choose|t0: int|
                    0 <= t0 < cat.len() && unassigned_from(cat, plan, 0)[fl].order_id
                        == cat[t0].id && unassigned_from(cat, plan, 0)[fl].due_date
                        == cat[t0].due_date;
                if t != t0 {
                    if t < t0 {
                        assert(cat[t].id != cat[t0].id);
                    } else {
                        assert(cat[t0].id != cat[t].id);
                    }
                }
            }
            lemma_unassigned_bump(cat, plan, plan2, b, 0);
            lemma_without_first_concat_absent(front, pend, b);
            assert(without_first(pend, b) == d);
            assert(spec_unassigned(cat, plan2) == front + d);
            assert forall|m: int, jj: int|
                0 <= m < front.len() && 0 <= jj < plan2.len() implies !box_fits(
                #[trigger] plan2[jj],
                #[trigger] front[m],
            ) by {
                assert(!box_fits(plan[jj], front[m]));
                if jj == i {
                    lemma_weight_sum_push(plan[i].items, (b.order_id, b.weight));
                    assert(plan2[i].capacity == plan[i].capacity && plan2[i].leg == plan[i].leg);
                    assert(weight_sum(plan2[i].items) >= weight_sum(plan[i].items));
                } else {
                    assert(plan2[jj] == plan[jj]);
                }
            }
            lemma_place_all_tracks(cat, plan2, d, front);
            assert(place_all(plan, pend) == place_all(plan2, d));
        } else {
            lemma_first_fit_neg(plan, b);
            let front2 = front + seq![b];
            assert(front + pend =~= front2 + d);
            assert forall|m: int, j: int|
                0 <= m < front2.len() && 0 <= j < plan.len() implies !box_fits(
                #[trigger] plan[j],
                #[trigger] front2[m],
            ) by {
                if m < front.len() {
                    assert(front2[m] == front[m]);
                } else {
                    assert(front2[m] == b);
                }
            }
            lemma_place_all_tracks(cat, plan, d, front2);
            assert(place_all(plan, pend).0 == place_all(plan, d).0);
            assert(place_all(plan, pend).1 == seq![b] + place_all(plan, d).1);
            assert(front2 + place_all(plan, d).1 =~= front + (seq![b] + place_all(plan, d).1));
        }
    }
}

/// The scheduling priority between two pending boxes: earlier due date
/// first, ties by order id; boxes of one order are interchangeable here
/// (their insertion order is kept by construction).
pub open spec fn pending_le(a: PendingView, b: PendingView) -> bool {
    a.due_date < b.due_date || (a.due_date == b.due_date && (crate::ids::lex_lt(
        a.order_id,
        b.order_id,
    ) || a.order_id == b.order_id))
}

/// Priority ordering law: under a well-formed catalog the unassigned
/// sequence is ordered by scheduling priority, so the planner considers
/// boxes of an order with an earlier due date first.
pub proof fn lemma_unassigned_sorted(cat: Seq<OrderView>, plan: Seq<VehicleView>, k: int)
    requires
        crate::catalog::cat_wf(cat),
        0 <= k,
    ensures
        forall|p: int, q: int|
            0 <= p < q < unassigned_from(cat, plan, k).len() ==> pending_le(
                #[trigger] unassigned_from(cat, plan, k)[p],
                #[trigger] unassigned_from(cat, plan, k)[q],
            ),
    decreases cat.len() - k,
{
    if k < cat.len() {
        lemma_unassigned_sorted(cat, plan, k + 1);
        lemma_pending_entries(cat[k], plan, 0);
        lemma_unassigned_member(cat, plan, k + 1);
        let blk = pending_from(cat[k], plan, 0);
        let rest = unassigned_from(cat, plan, k + 1);
        let s = unassigned_from(cat, plan, k);
        assert forall|p: int, q: int| 0 <= p < q < s.len() implies pending_le(
            #[trigger] s[p],
            #[trigger] s[q],
        ) by {
            if q < blk.len() {
                assert(s[p] == blk[p] && s[q] == blk[q]);
            } else if p >= blk.len() {
                assert(s[p] == rest[p - blk.len()] && s[q] == rest[q - blk.len()]);
            } else {
                assert(s[p] == blk[p] && s[q] == rest[q - blk.len()]);
                let m = q - blk.len();
                let t = choose|t: int|
                    k + 1 <= t < cat.len() && (#[trigger] rest[m]).order_id == cat[t].id
                        && rest[m].due_date == cat[t].due_date;
                assert(crate::catalog::prio_lt(cat[k], cat[t]));
            }
        }
    }
}

/// Idempotence law: a second planner pass over the plan a first pass
/// returned, with the catalog unchanged, returns that plan unchanged and
/// reports the same unplaced boxes.
pub proof fn lemma_planner_idempotent(cat: Seq<OrderView>, plan: Seq<VehicleView>)
    requires
        crate::catalog::cat_wf(cat),
    ensures
        spec_run(cat, spec_run(cat, plan).0).0 == spec_run(cat, plan).0,
        spec_run(cat, spec_run(cat, plan).0).1 == spec_run(cat, plan).1,
{
    let u = spec_unassigned(cat, plan);
    let p2 = spec_run(cat, plan).0;
    let l = spec_run(cat, plan).1;
    assert(u =~= Seq::<PendingView>::empty() + u);
    lemma_place_all_tracks(cat, plan, u, Seq::<PendingView>::empty());
    assert(Seq::<PendingView>::empty() + l =~= l);
    assert(spec_unassigned(cat, p2) == l);
    lemma_place_all_stuck(plan, u);
    lemma_place_all_noop(p2, l);
}

/// Whether the plan already holds at least `k` boxes of order `id` and
/// weight `w`.
#[verifier::loop_isolation(false)]
fn placed_at_least(vehicles: &Vec<Vehicle>, id: &str, w: u64, k: usize) -> (r: bool)
    ensures
        r == (placed_count(fleet_views(vehicles@), id@, w) >= k),
{
    let ghost vs = fleet_views(vehicles@);
    let n = vehicles.len();
    let mut need: usize = k;
    let mut vi: usize = 0;
    while vi < n
        invariant
            n == vs.len(),
            0 <= vi <= n,
            need <= k,
            placed_count(vs.take(vi as int), id@, w) >= k - need,
            need > 0 ==> placed_count(vs.take(vi as int), id@, w) == k - need,
        decreases n - vi,
    {
        assert(vs[vi as int] == vehicles@[vi as int]@);
        let v = &vehicles[vi];
        let ghost items = vs[vi as int].items;
        let m = crate::imvec::items_len(&v.items);
        let mut ii: usize = 0;
        while ii < m
            invariant
                m == items.len(),
                items == vs[vi as int].items,
                0 <= ii <= m,
                vi < n,
                need <= k,
                placed_count(vs.take(vi as int), id@, w) + count_items(
                    items.take(ii as int),
                    id@,
                    w,
                ) >= k - need,
                need > 0 ==> placed_count(vs.take(vi as int), id@, w) + count_items(
                    items.take(ii as int),
                    id@,
                    w,
                ) == k - need,
            decreases m - ii,
        {
            let p = crate::imvec::item_at(&v.items, ii);
            proof {
                lemma_count_items_take_step(items, id@, w, ii as int);
            }
            if p.1 == w && str_eq(p.0.as_str(), id) {
                if need > 0 {
                    need = need - 1;
                }
            }
            ii = ii + 1;
        }
        proof {
            assert(items.take(m as int) =~= items);
            lemma_placed_count_take_step(vs, id@, w, vi as int);
        }
        vi = vi + 1;
    }
    proof {
        assert(vs.take(n as int) =~= vs);
    }
    need == 0
}

/// How many of the first `j` boxes of the list weigh the same as box `j`.
#[verifier::loop_isolation(false)]
fn occ_before(boxes: &im::Vector<u64>, j: usize) -> (c: usize)
    requires
        j < weights_model(*boxes).len(),
    ensures
        c == count_weight(weights_model(*boxes).take(j as int), weights_model(*boxes)[j as int]),
        c <= j,
{
    let ghost bs = weights_model(*boxes);
    let w = weight_at(boxes, j);
    let mut c: usize = 0;
    let mut m: usize = 0;
    while m < j
        invariant
            0 <= m <= j,
            c == count_weight(bs.take(m as int), w),
            c <= m,
        decreases j - m,
    {
        proof {
            lemma_count_weight_take_step(bs, w, m as int);
        }
        if weight_at(boxes, m) == w {
            c = c + 1;
        }
        m = m + 1;
    }
    c
}

/// The boxes of the catalog not yet present in the plan, ordered by
/// scheduling priority: due date ascending, then order id, then box
/// insertion order. This ordering is what the planner consumes.
#[verifier::loop_isolation(false)]
pub fn unassigned_boxes(cat: &Problem, plan: &LoadPlan) -> (r: Vec<PendingBox>)
    ensures
        pending_views(r@) == spec_unassigned(cat@, plan@),
{
    let ghost cv = cat@;
    let ghost pv = plan@;
    let mut out: Vec<PendingBox> = Vec::new();
    let n = cat.orders.len();
    let mut k: usize = 0;
    proof {
        assert(pending_views(out@) =~= Seq::<PendingView>::empty());
        assert(spec_unassigned(cv, pv) =~= pending_views(out@) + unassigned_from(cv, pv, 0));
    }
    while k < n
        invariant
            n == cv.len(),
            0 <= k <= n,
            spec_unassigned(cv, pv) == pending_views(out@) + unassigned_from(cv, pv, k as int),
        decreases n - k,
    {
        assert(cv[k as int] == cat.orders@[k as int]@);
        let o = &cat.orders[k];
        let ghost ov = cv[k as int];
        let m = weights_len(&o.boxes);
        let mut j: usize = 0;
        proof {
            assert(unassigned_from(cv, pv, k as int) == pending_from(ov, pv, 0)
                + unassigned_from(cv, pv, k as int + 1));
        }
        while j < m
            invariant
                m == ov.boxes.len(),
                0 <= j <= m,
                k < n,
                ov == cv[k as int],
                *o == cat.orders@[k as int],
                spec_unassigned(cv, pv) == pending_views(out@) + pending_from(ov, pv, j as int)
                    + unassigned_from(cv, pv, k as int + 1),
            decreases m - j,
        {
            let c = occ_before(&o.boxes, j);
            let w = weight_at(&o.boxes, j);
            let ghost out_prev = out@;
            if !placed_at_least(&plan.vehicles, o.id.as_str(), w, c + 1) {
                let b = PendingBox { order_id: o.id.clone(), weight: w, due_date: o.due_date };
                proof {
                    assert(b@ == pending_entry(ov, j as int));
                }
                out.push(b);
            }
            proof {
                assert(fleet_views(plan.vehicles@) =~= pv);
                assert(pending_from(ov, pv, j as int) == (if count_weight(
                    ov.boxes.take(j as int),
                    ov.boxes[j as int],
                ) >= placed_count(pv, ov.id, ov.boxes[j as int]) {
                    seq![pending_entry(ov, j as int)] + pending_from(ov, pv, j as int + 1)
                } else {
                    pending_from(ov, pv, j as int + 1)
                }));
                if out@ != out_prev {
                    assert(pending_views(out@) =~= pending_views(out_prev).push(
                        pending_entry(ov, j as int),
                    ));
                    assert(pending_views(out_prev) + (seq![pending_entry(ov, j as int)]
                        + pending_from(ov, pv, j as int + 1)) =~= pending_views(out@)
                        + pending_from(ov, pv, j as int + 1));
                }
            }
            j = j + 1;
        }
        proof {
            assert(pending_from(ov, pv, m as int) =~= Seq::<PendingView>::empty());
            assert(pending_views(out@) + pending_from(ov, pv, m as int) =~= pending_views(out@));
        }
        k = k + 1;
    }
    proof {
        assert(unassigned_from(cv, pv, n as int) =~= Seq::<PendingView>::empty());
        assert(pending_views(out@) + unassigned_from(cv, pv, n as int) =~= pending_views(out@));
    }
    out
}

/// The first vehicle of the list that admits the box, if any.
#[verifier::loop_isolation(false)]
fn find_fit(vehicles: &Vec<Vehicle>, b: &PendingBox) -> (r: Option<usize>)
    requires
        plan_wf(fleet_views(vehicles@)),
    ensures
        (r matches Some(i) ==> first_fit(fleet_views(vehicles@), b@) == i),
        (r is None ==> first_fit(fleet_views(vehicles@), b@) == -1),
{
    let ghost vs = fleet_views(vehicles@);
    let n = vehicles.len();
    let mut i: usize = 0;
    while i < n
        invariant
            n == vs.len(),
            0 <= i <= n,
            forall|j: int| 0 <= j < i ==> !box_fits(#[trigger] vs[j], b@),
        decreases n - i,
    {
        assert(vs[i as int] == vehicles@[i as int]@);
        let v = &vehicles[i];
        let sp = v.space();
        let due_ok = match v.leg {
            None => true,
            Some(l) => l.arrive_date <= b.due_date,
        };
        if sp >= b.weight && due_ok {
            proof {
                lemma_first_fit_at(vs, b@, i as int);
            }
            return Some(i);
        }
        i = i + 1;
    }
    proof {
        lemma_first_fit_none(vs, b@);
    }
    None
}

/// One planner pass: places every currently unassigned box it can, first
/// fit in vehicle order, consuming boxes in scheduling priority order, and
/// reports the boxes no vehicle admitted. The given plan is read, never
/// changed: the result is a fresh snapshot sharing untouched loads.
#[verifier::loop_isolation(false)]
pub fn run_planner(cat: &Problem, plan: &LoadPlan) -> (r: (LoadPlan, Vec<PendingBox>))
    requires
        plan_wf(plan@),
    ensures
        r.0@ == spec_run(cat@, plan@).0,
        pending_views(r.1@) == spec_run(cat@, plan@).1,
        plan_wf(r.0@),
{
    let pend = unassigned_boxes(cat, plan);
    let ghost pv = pending_views(pend@);
    let n = plan.vehicles.len();
    let mut cur: Vec<Vehicle> = Vec::new();
    let mut vi: usize = 0;
    while vi < n
        invariant
            n == plan@.len(),
            0 <= vi <= n,
            fleet_views(cur@) == plan@.take(vi as int),
        decreases n - vi,
    {
        assert(plan@[vi as int] == plan.vehicles@[vi as int]@);
        let v = plan.vehicles[vi].duplicate();
        cur.push(v);
        proof {
            assert(fleet_views(cur@) =~= plan@.take(vi as int + 1));
        }
        vi = vi + 1;
    }
    proof {
        assert(plan@.take(n as int) =~= plan@);
        assert(pv.skip(0) =~= pv);
    }
    let total = pend.len();
    let mut unplaced: Vec<PendingBox> = Vec::new();
    let mut bi: usize = 0;
    proof {
        assert(pending_views(unplaced@) =~= Seq::<PendingView>::empty());
        assert(pending_views(unplaced@) + place_all(fleet_views(cur@), pv.skip(0)).1 =~= place_all(
            fleet_views(cur@),
            pv.skip(0),
        ).1);
    }
    while bi < total
        invariant
            total == pend@.len(),
            0 <= bi <= total,
            pv == pending_views(pend@),
            plan_wf(fleet_views(cur@)),
            place_all(plan@, pv).0 == place_all(fleet_views(cur@), pv.skip(bi as int)).0,
            place_all(plan@, pv).1 == pending_views(unplaced@) + place_all(
                fleet_views(cur@),
                pv.skip(bi as int),
            ).1,
        decreases total - bi,
    {
        let ghost cvs = fleet_views(cur@);
        let ghost rest = pv.skip(bi as int);
        proof {
            assert(pend@[bi as int]@ == pv[bi as int]);
            assert(rest[0] == pv[bi as int]);
            assert(rest.drop_first() =~= pv.skip(bi as int + 1));
        }
        let b = &pend[bi];
        let found = find_fit(&cur, b);
        match found {
            Some(i) => {
                proof {
                    lemma_first_fit_props(cvs, b@);
                    assert(box_fits(cvs[i as int], b@));
                }
                let ghost pvec = cur@;
                let ghost prior = cvs[i as int];
                let mut v = cur.remove(i);
                items_push(&mut v.items, b.order_id.clone(), b.weight);
                let ghost v_after = v;
                cur.insert(i, v);
                proof {
                    let li = i as int;
                    pvec.remove_ensures(li);
                    pvec.remove(li).insert_ensures(li, v_after);
                    assert(prior == pvec[li]@);
                    assert(v_after@ == (VehicleView {
                        items: prior.items.push((b@.order_id, b@.weight)),
                        ..prior
                    }));
                    assert forall|q: int| 0 <= q < cur@.len() implies fleet_views(cur@)[q]
                        == load_box(cvs, li, b@)[q] by {
                        assert(fleet_views(cur@)[q] == cur@[q]@);
                        if q != li {
                            assert(cur@[q] == pvec[q]);
                            assert(cvs[q] == pvec[q]@);
                        }
                    }
                    assert(fleet_views(cur@) =~= load_box(cvs, li, b@));
                    lemma_weight_sum_push(prior.items, (b@.order_id, b@.weight));
                    assert forall|q: int| 0 <= q < fleet_views(cur@).len() implies (
                    #[trigger] fleet_views(cur@)[q]).wf() by {
                        if q != li {
                            assert(fleet_views(cur@)[q] == cvs[q]);
                        }
                    }
                    assert(place_all(cvs, rest) == place_all(
                        load_box(cvs, li, b@),
                        rest.drop_first(),
                    ));
                }
            },
            None => {
                let ghost up_prev = unplaced@;
                unplaced.push(
                    PendingBox {
                        order_id: b.order_id.clone(),
                        weight: b.weight,
                        due_date: b.due_date,
                    },
                );
                proof {
                    assert(place_all(cvs, rest).0 == place_all(cvs, rest.drop_first()).0);
                    assert(place_all(cvs, rest).1 == seq![b@] + place_all(
                        cvs,
                        rest.drop_first(),
                    ).1);
                    assert(pending_views(unplaced@) =~= pending_views(up_prev).push(b@));
                    assert(pending_views(up_prev) + (seq![b@] + place_all(
                        cvs,
                        pv.skip(bi as int + 1),
                    ).1) =~= pending_views(unplaced@) + place_all(cvs, pv.skip(bi as int + 1)).1);
                }
            },
        }
        bi = bi + 1;
    }
    proof {
        assert(pv.skip(total as int) =~= Seq::<PendingView>::empty());
    }
    let lp = LoadPlan { vehicles: cur };
    proof {
        assert(lp@ =~= fleet_views(lp.vehicles@));
        assert(pending_views(unplaced@) + Seq::<PendingView>::empty() =~= pending_views(
            unplaced@,
        ));
    }
    (lp, unplaced)
}

} // verus!
