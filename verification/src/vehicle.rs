//! Vehicles: a transport unit with a kind, a capacity, an ordered load of
//! (order id, weight) boxes, and an optional scheduled depart/arrive leg.
//! The invariant of a vehicle is that its load never exceeds its capacity,
//! so its remaining space is never negative.

use vstd::prelude::*;

use crate::imvec::{items_model, items_new, items_push, items_len, item_at, items_dup};

verus! {

/// The closed enumeration of transport modes.
#[derive(Clone, Copy, PartialEq, Eq, Structural, Debug)]
pub enum VehicleKind {
    Truck,
    Train,
}

/// A scheduled depart/arrive leg; `arrive_date` is `depart_date` plus the
/// transit duration the leg was scheduled with.
#[derive(Clone, Copy, PartialEq, Eq, Structural, Debug)]
pub struct Leg {
    pub depart_date: i64,
    pub arrive_date: i64,
}

/// A transport unit. `items` is the ordered load of (order id, weight)
/// boxes; `leg` is `None` until a leg is scheduled.
pub struct Vehicle {
    pub kind: VehicleKind,
    pub capacity: u64,
    pub items: im::Vector<(String, u64)>,
    pub leg: Option<Leg>,
}

/// The mathematical value of a vehicle: its load as a sequence of
/// (id characters, weight) pairs, beside the plain fields.
#[verifier::ext_equal]
pub ghost struct VehicleView {
    pub kind: VehicleKind,
    pub capacity: u64,
    pub items: Seq<(Seq<char>, u64)>,
    pub leg: Option<Leg>,
}

impl View for Vehicle {
    type V = VehicleView;

    open spec fn view(&self) -> VehicleView {
        VehicleView {
            kind: self.kind,
            capacity: self.capacity,
            items: items_model(self.items),
            leg: self.leg,
        }
    }
}

/// The total weight of a load.
pub open spec fn weight_sum(items: Seq<(Seq<char>, u64)>) -> int
    decreases items.len(),
{
    if items.len() == 0 {
        0
    } else {
        weight_sum(items.drop_last()) + items.last().1
    }
}

impl VehicleView {
    /// Remaining space: capacity minus the weight already loaded.
    pub open spec fn space(self) -> int {
        self.capacity - weight_sum(self.items)
    }

    /// The vehicle invariant: the load fits the capacity.
    pub open spec fn wf(self) -> bool {
        weight_sum(self.items) <= self.capacity
    }
}

pub proof fn lemma_weight_sum_push(items: Seq<(Seq<char>, u64)>, p: (Seq<char>, u64))
    ensures
        weight_sum(items.push(p)) == weight_sum(items) + p.1,
{
    assert(items.push(p).drop_last() =~= items);
    assert(items.push(p).last() == p);
}

pub proof fn lemma_weight_sum_take_step(items: Seq<(Seq<char>, u64)>, i: int)
    requires
        0 <= i < items.len(),
    ensures
        weight_sum(items.take(i + 1)) == weight_sum(items.take(i)) + items[i].1,
{
    assert(items.take(i + 1).drop_last() =~= items.take(i));
    assert(items.take(i + 1).last() == items[i]);
}

pub proof fn lemma_weight_sum_take_le(items: Seq<(Seq<char>, u64)>, i: int)
    requires
        0 <= i <= items.len(),
    ensures
        weight_sum(items.take(i)) <= weight_sum(items),
    decreases items.len() - i,
{
    if i == items.len() {
        assert(items.take(i) =~= items);
    } else {
        lemma_weight_sum_take_step(items, i);
        lemma_weight_sum_take_le(items, i + 1);
    }
}

/// The space law: for every well-formed vehicle, remaining space is the
/// capacity minus the summed weights of its load, and it is nonnegative.
pub proof fn lemma_space_nonneg(v: VehicleView)
    requires
        v.wf(),
    ensures
        v.space() == v.capacity - weight_sum(v.items),
        v.space() >= 0,
{
}

impl Vehicle {
    /// A new vehicle of the given kind: empty load, zero capacity, no leg.
    pub fn new(kind: VehicleKind) -> (v: Vehicle)
        ensures
            v@.kind == kind,
            v@.capacity == 0,
            v@.items == Seq::<(Seq<char>, u64)>::empty(),
            v@.leg is None,
            v@.wf(),
    {
        Vehicle { kind, capacity: 0, items: items_new(), leg: None }
    }

    /// Remaining space of a well-formed vehicle; never negative.
    pub fn space(&self) -> (r: u64)
        requires
            self@.wf(),
        ensures
            r == self@.space(),
    {
        let n = items_len(&self.items);
        let mut total: u64 = 0;
        let mut i: usize = 0;
        while i < n
            invariant
                n == self@.items.len(),
                0 <= i <= n,
                self@.wf(),
                total == weight_sum(self@.items.take(i as int)),
            decreases n - i,
        {
            let p = item_at(&self.items, i);
            proof {
                lemma_weight_sum_take_step(self@.items, i as int);
                lemma_weight_sum_take_le(self@.items, i + 1);
            }
            total = total + p.1;
            i = i + 1;
        }
        proof {
            assert(self@.items.take(n as int) =~= self@.items);
        }
        self.capacity - total
    }

    /// Decides the vehicle invariant at run time, for callers that cannot
    /// establish it statically.
    #[verifier::loop_isolation(false)]
    pub fn check_wf(&self) -> (r: bool)
        ensures
            r == self@.wf(),
    {
        let n = items_len(&self.items);
        let mut total: u64 = 0;
        let mut i: usize = 0;
        while i < n
            invariant
                n == self@.items.len(),
                0 <= i <= n,
                total == weight_sum(self@.items.take(i as int)),
                total <= self.capacity,
            decreases n - i,
        {
            let p = item_at(&self.items, i);
            proof {
                lemma_weight_sum_take_step(self@.items, i as int);
            }
            if p.1 > self.capacity - total {
                proof {
                    lemma_weight_sum_take_le(self@.items, i + 1);
                }
                return false;
            }
            total = total + p.1;
            i = i + 1;
        }
        proof {
            assert(self@.items.take(n as int) =~= self@.items);
        }
        true
    }

    /// Schedules the vehicle's leg: it departs at `leaving` and arrives
    /// `hours` hours later. Load, kind and capacity are unchanged.
    pub fn travel(self, leaving: i64, hours: u32) -> (v: Vehicle)
        requires
            leaving + (hours as int) * 3600 <= i64::MAX,
        ensures
            v@.kind == self@.kind,
            v@.capacity == self@.capacity,
            v@.items == self@.items,
            v@.leg == Some(
                Leg {
                    depart_date: leaving,
                    arrive_date: (leaving + (hours as int) * 3600) as i64,
                },
            ),
    {
        let arrive: i64 = leaving + (hours as i64) * 3600;
        Vehicle { leg: Some(Leg { depart_date: leaving, arrive_date: arrive }), ..self }
    }

    /// An independent copy with the same mathematical value; the load is
    /// shared structurally, never mutated in place.
    pub fn duplicate(&self) -> (v: Vehicle)
        ensures
            v@ == self@,
    {
        Vehicle {
            kind: self.kind,
            capacity: self.capacity,
            items: items_dup(&self.items),
            leg: self.leg,
        }
    }

    /// The load as a plain vector of (order id, weight) pairs, for
    /// inspection and display.
    pub fn contents(&self) -> (r: Vec<(String, u64)>)
        ensures
            r@.len() == self@.items.len(),
            forall|i: int| 0 <= i < r@.len() ==> (r@[i].0@, r@[i].1) == self@.items[i],
    {
        let n = items_len(&self.items);
        let mut r: Vec<(String, u64)> = Vec::new();
        let mut i: usize = 0;
        while i < n
            invariant
                n == self@.items.len(),
                0 <= i <= n,
                r@.len() == i,
                forall|j: int| 0 <= j < i ==> (r@[j].0@, r@[j].1) == self@.items[j],
            decreases n - i,
        {
            let p = item_at(&self.items, i);
            r.push(p);
            i = i + 1;
        }
        r
    }
}

} // verus!
