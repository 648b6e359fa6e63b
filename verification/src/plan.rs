//! The load plan: the ordered vehicle list (the fleet's trips), each with
//! its current load. A plan is a value; the planner never mutates a plan it
//! was given, it returns a fresh one.

use vstd::prelude::*;

use crate::errors::PlanError;
use crate::imvec::items_new;
use crate::vehicle::{Leg, Vehicle, VehicleKind, VehicleView};

verus! {

/// Every vehicle of the plan satisfies its capacity invariant.
pub open spec fn plan_wf(p: Seq<VehicleView>) -> bool {
    forall|i: int| 0 <= i < p.len() ==> (#[trigger] p[i]).wf()
}

/// A vehicle as it is first added: empty load, no leg.
pub open spec fn fresh_vehicle(kind: VehicleKind, capacity: u64) -> VehicleView {
    VehicleView { kind, capacity, items: Seq::<(Seq<char>, u64)>::empty(), leg: None }
}

/// The vehicle with its leg scheduled: departing at `depart_date`, arriving
/// `hours` hours later.
pub open spec fn with_leg(v: VehicleView, depart_date: i64, hours: u32) -> VehicleView {
    VehicleView {
        leg: Some(
            Leg { depart_date, arrive_date: (depart_date + (hours as int) * 3600) as i64 },
        ),
        ..v
    }
}

/// An immutable-by-replacement snapshot: the ordered vehicles of the fleet
/// with their loads.
pub struct LoadPlan {
    pub vehicles: Vec<Vehicle>,
}

impl View for LoadPlan {
    type V = Seq<VehicleView>;

    open spec fn view(&self) -> Seq<VehicleView> {
        self.vehicles@.map_values(|v: Vehicle| v@)
    }
}

impl LoadPlan {
    /// An empty plan.
    pub fn new() -> (p: LoadPlan)
        ensures
            p@ == Seq::<VehicleView>::empty(),
            plan_wf(p@),
    {
        let p = LoadPlan { vehicles: Vec::new() };
        proof {
            assert(p@ =~= Seq::<VehicleView>::empty());
        }
        p
    }

    /// The number of vehicles.
    pub fn vehicle_count(&self) -> (n: usize)
        ensures
            n == self@.len(),
    {
        self.vehicles.len()
    }

    /// Appends a vehicle with an empty load and returns its stable index.
    /// Fails with `InvalidCapacity`, leaving the plan unchanged, when the
    /// capacity is negative.
    pub fn add_vehicle(&mut self, kind: VehicleKind, capacity: i64) -> (r: Result<
        usize,
        PlanError,
    >)
        ensures
            capacity < 0 ==> r == Err::<usize, PlanError>(PlanError::InvalidCapacity)
                && final(self)@ == old(self)@,
            capacity >= 0 ==> r == Ok::<usize, PlanError>(old(self)@.len() as usize)
                && final(self)@ == old(self)@.push(fresh_vehicle(kind, capacity as u64)),
            plan_wf(old(self)@) ==> plan_wf(final(self)@),
    {
        if capacity < 0 {
            return Err(PlanError::InvalidCapacity);
        }
        let ix = self.vehicles.len();
        let v = Vehicle { kind, capacity: capacity as u64, items: items_new(), leg: None };
        self.vehicles.push(v);
        proof {
            assert(self@ =~= old(self)@.push(fresh_vehicle(kind, capacity as u64)));
            if plan_wf(old(self)@) {
                assert forall|i: int| 0 <= i < self@.len() implies (
                #[trigger] self@[i]).wf() by {
                    if i < old(self)@.len() {
                        assert(self@[i] == old(self)@[i]);
                    }
                }
            }
        }
        Ok(ix)
    }

    /// Schedules the leg of the vehicle at `index`: departure and arrival
    /// `hours` hours later. Fails with `UnknownVehicle`, leaving the plan
    /// unchanged, when the index is out of range.
    pub fn schedule_leg(&mut self, index: usize, depart_date: i64, hours: u32) -> (r: Result<
        (),
        PlanError,
    >)
        requires
            depart_date + (hours as int) * 3600 <= i64::MAX,
        ensures
            index >= old(self)@.len() ==> r == Err::<(), PlanError>(PlanError::UnknownVehicle)
                && final(self)@ == old(self)@,
            index < old(self)@.len() ==> r == Ok::<(), PlanError>(()) && final(self)@ == old(
                self,
            )@.update(index as int, with_leg(old(self)@[index as int], depart_date, hours)),
            plan_wf(old(self)@) ==> plan_wf(final(self)@),
    {
        if index >= self.vehicles.len() {
            return Err(PlanError::UnknownVehicle);
        }
        let ghost prior = self.vehicles@;
        let v = self.vehicles.remove(index);
        let v2 = v.travel(depart_date, hours);
        self.vehicles.insert(index, v2);
        proof {
            let oi = index as int;
            prior.remove_ensures(oi);
            prior.remove(oi).insert_ensures(oi, v2);
            assert forall|m: int| 0 <= m < self@.len() implies self@[m] == old(self)@.update(
                oi,
                with_leg(old(self)@[oi], depart_date, hours),
            )[m] by {
                assert(self@[m] == self.vehicles@[m]@);
                if m != oi {
                    assert(self.vehicles@[m] == prior[m]);
                }
            }
            assert(self@ =~= old(self)@.update(
                oi,
                with_leg(old(self)@[oi], depart_date, hours),
            ));
            if plan_wf(old(self)@) {
                assert forall|i: int| 0 <= i < self@.len() implies (
                #[trigger] self@[i]).wf() by {
                    assert(old(self)@[i].wf());
                    if i == oi {
                        assert(self@[i].items == old(self)@[i].items && self@[i].capacity == old(
                            self,
                        )@[i].capacity);
                    }
                }
            }
        }
        Ok(())
    }

    /// The vehicle at `index`, or `UnknownVehicle` when out of range.
    pub fn vehicle_at(&self, index: usize) -> (r: Result<&Vehicle, PlanError>)
        ensures
            index < self@.len() ==> (r matches Ok(v) && v@ == self@[index as int]),
            index >= self@.len() ==> r == Err::<&Vehicle, PlanError>(PlanError::UnknownVehicle),
    {
        if index < self.vehicles.len() {
            let v = &self.vehicles[index];
            proof {
                assert(self@[index as int] == self.vehicles@[index as int]@);
            }
            Ok(v)
        } else {
            Err(PlanError::UnknownVehicle)
        }
    }

    /// The ordered vehicle list, for display.
    pub fn list_vehicles(&self) -> (r: &Vec<Vehicle>)
        ensures
            r@.map_values(|v: Vehicle| v@) == self@,
    {
        &self.vehicles
    }

    /// Decides the plan invariant at run time, for callers that cannot
    /// establish it statically.
    #[verifier::loop_isolation(false)]
    pub fn check_wf(&self) -> (r: bool)
        ensures
            r == plan_wf(self@),
    {
        let n = self.vehicles.len();
        let mut i: usize = 0;
        while i < n
            invariant
                n == self@.len(),
                0 <= i <= n,
                forall|j: int| 0 <= j < i ==> (#[trigger] self@[j]).wf(),
            decreases n - i,
        {
            assert(self@[i as int] == self.vehicles@[i as int]@);
            if !self.vehicles[i].check_wf() {
                return false;
            }
            i = i + 1;
        }
        true
    }
}

} // verus!
