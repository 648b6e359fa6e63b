use chrono::TimeZone;
use chrono::Utc;
use loadplan::catalog::Problem;
use loadplan::errors::PlanError;
use loadplan::plan::LoadPlan;
use loadplan::planner::{run_planner, unassigned_boxes};
use loadplan::vehicle::{Vehicle, VehicleKind};

#[test]
fn test_new_vehicle() {
    let v = Vehicle::new(VehicleKind::Truck);
    assert!(v.kind == VehicleKind::Truck);
    let v = Vehicle::new(VehicleKind::Train);
    assert!(v.kind == VehicleKind::Train);
}

#[test]
fn test_space() {
    // Weights are integers in tenths of the display unit: 77.0 -> 770.
    let mut v = Vehicle::new(VehicleKind::Truck);
    assert!(v.kind == VehicleKind::Truck);
    v.capacity = 1000;
    v.items.push_back((String::from("a"), 770));
    assert_eq!(230, v.space());
    v.items.push_back((String::from("a"), 129));
    assert_eq!(101, v.space());
}

#[test]
fn test_travel() {
    let mut v = Vehicle::new(VehicleKind::Truck);
    assert!(v.kind == VehicleKind::Truck);
    v.capacity = 1000;
    let start = Utc.with_ymd_and_hms(2020, 10, 1, 6, 0, 0).unwrap();
    let finish = Utc.with_ymd_and_hms(2020, 10, 3, 7, 0, 0).unwrap();
    let v = v.travel(start.timestamp(), 49);
    assert_eq!(finish.timestamp(), v.leg.unwrap().arrive_date);
}

fn contents_of(plan: &LoadPlan, index: usize) -> Vec<(String, u64)> {
    plan.vehicle_at(index).unwrap().contents()
}

#[test]
fn test_end_to_end() {
    let mut cat = Problem::new();
    cat.add_order(String::from("A"), 1).unwrap();
    cat.add_box("A", 50).unwrap();
    cat.add_box("A", 60).unwrap();
    cat.add_order(String::from("B"), 2).unwrap();
    cat.add_box("B", 40).unwrap();
    let mut plan = LoadPlan::new();
    plan.add_vehicle(VehicleKind::Truck, 100).unwrap();
    let (plan2, unplaced) = run_planner(&cat, &plan);
    let loaded = contents_of(&plan2, 0);
    assert_eq!(
        vec![(String::from("A"), 50u64), (String::from("B"), 40u64)],
        loaded
    );
    assert_eq!(10, plan2.vehicle_at(0).unwrap().space());
    assert_eq!(1, unplaced.len());
    assert_eq!("A", unplaced[0].order_id);
    assert_eq!(60, unplaced[0].weight);
}

#[test]
fn test_planner_idempotent() {
    let mut cat = Problem::new();
    cat.add_order(String::from("A"), 1).unwrap();
    cat.add_box("A", 50).unwrap();
    cat.add_box("A", 60).unwrap();
    cat.add_order(String::from("B"), 2).unwrap();
    cat.add_box("B", 40).unwrap();
    let mut plan = LoadPlan::new();
    plan.add_vehicle(VehicleKind::Truck, 100).unwrap();
    plan.add_vehicle(VehicleKind::Train, 55).unwrap();
    let (plan2, unplaced2) = run_planner(&cat, &plan);
    let (plan3, unplaced3) = run_planner(&cat, &plan2);
    assert_eq!(plan2.vehicle_count(), plan3.vehicle_count());
    for i in 0..plan2.vehicle_count() {
        assert_eq!(contents_of(&plan2, i), contents_of(&plan3, i));
    }
    // Everything the first pass reported unplaced stays unplaced.
    let again: Vec<(String, u64)> = unplaced3
        .iter()
        .map(|b| (b.order_id.clone(), b.weight))
        .collect();
    let first: Vec<(String, u64)> = unplaced2
        .iter()
        .map(|b| (b.order_id.clone(), b.weight))
        .collect();
    assert_eq!(first, again);
}

#[test]
fn test_planner_does_not_mutate_input() {
    let mut cat = Problem::new();
    cat.add_order(String::from("A"), 1).unwrap();
    cat.add_box("A", 30).unwrap();
    cat.add_box("A", 20).unwrap();
    let mut plan = LoadPlan::new();
    plan.add_vehicle(VehicleKind::Truck, 100).unwrap();
    let (plan2, _) = run_planner(&cat, &plan);
    let before: Vec<Vec<(String, u64)>> = (0..plan.vehicle_count())
        .map(|i| contents_of(&plan, i))
        .collect();
    let (plan3, _) = run_planner(&cat, &plan2);
    let after: Vec<Vec<(String, u64)>> = (0..plan.vehicle_count())
        .map(|i| contents_of(&plan, i))
        .collect();
    assert_eq!(before, after);
    assert!(contents_of(&plan, 0).is_empty());
    assert_eq!(2, contents_of(&plan2, 0).len());
    assert_eq!(2, contents_of(&plan3, 0).len());
}

#[test]
fn test_priority_by_due_date() {
    let mut cat = Problem::new();
    cat.add_order(String::from("late"), 20).unwrap();
    cat.add_box("late", 70).unwrap();
    cat.add_order(String::from("early"), 10).unwrap();
    cat.add_box("early", 70).unwrap();
    let mut plan = LoadPlan::new();
    plan.add_vehicle(VehicleKind::Truck, 100).unwrap();
    let (plan2, unplaced) = run_planner(&cat, &plan);
    let loaded = contents_of(&plan2, 0);
    assert_eq!(vec![(String::from("early"), 70u64)], loaded);
    assert_eq!(1, unplaced.len());
    assert_eq!("late", unplaced[0].order_id);
}

#[test]
fn test_priority_ties_by_id() {
    let mut cat = Problem::new();
    cat.add_order(String::from("b"), 5).unwrap();
    cat.add_box("b", 60).unwrap();
    cat.add_order(String::from("a"), 5).unwrap();
    cat.add_box("a", 60).unwrap();
    let pend = unassigned_boxes(&cat, &LoadPlan::new());
    assert_eq!(2, pend.len());
    assert_eq!("a", pend[0].order_id);
    assert_eq!("b", pend[1].order_id);
}

#[test]
fn test_capacity_boundary() {
    let mut cat = Problem::new();
    cat.add_order(String::from("A"), 1).unwrap();
    cat.add_box("A", 100).unwrap();
    let mut plan = LoadPlan::new();
    plan.add_vehicle(VehicleKind::Truck, 100).unwrap();
    // Exactly the remaining space: placed.
    let (plan2, unplaced) = run_planner(&cat, &plan);
    assert!(unplaced.is_empty());
    assert_eq!(0, plan2.vehicle_at(0).unwrap().space());
    // One unit over the remaining space: not placed.
    let mut cat2 = Problem::new();
    cat2.add_order(String::from("A"), 1).unwrap();
    cat2.add_box("A", 101).unwrap();
    let (plan3, unplaced2) = run_planner(&cat2, &plan);
    assert_eq!(1, unplaced2.len());
    assert!(contents_of(&plan3, 0).is_empty());
}

#[test]
fn test_due_date_feasibility() {
    let mut cat = Problem::new();
    cat.add_order(String::from("A"), 1000).unwrap();
    cat.add_box("A", 10).unwrap();
    let mut plan = LoadPlan::new();
    plan.add_vehicle(VehicleKind::Train, 100).unwrap();
    // Arrives at 3600, after the due date 1000: infeasible.
    plan.schedule_leg(0, 0, 1).unwrap();
    let (_, unplaced) = run_planner(&cat, &plan);
    assert_eq!(1, unplaced.len());
    // Arrives at 0, before the due date: feasible.
    plan.schedule_leg(0, 0, 0).unwrap();
    let (plan2, unplaced2) = run_planner(&cat, &plan);
    assert!(unplaced2.is_empty());
    assert_eq!(vec![(String::from("A"), 10u64)], contents_of(&plan2, 0));
}

#[test]
fn test_duplicate_boxes_place_once_each() {
    let mut cat = Problem::new();
    cat.add_order(String::from("A"), 1).unwrap();
    cat.add_box("A", 50).unwrap();
    cat.add_box("A", 50).unwrap();
    let mut plan = LoadPlan::new();
    plan.add_vehicle(VehicleKind::Truck, 100).unwrap();
    let (plan2, unplaced) = run_planner(&cat, &plan);
    assert!(unplaced.is_empty());
    assert_eq!(2, contents_of(&plan2, 0).len());
    // Nothing is left unassigned against the new plan.
    assert!(unassigned_boxes(&cat, &plan2).is_empty());
    // A second pass changes nothing.
    let (plan3, unplaced3) = run_planner(&cat, &plan2);
    assert!(unplaced3.is_empty());
    assert_eq!(contents_of(&plan2, 0), contents_of(&plan3, 0));
}

#[test]
fn test_add_order_duplicate_id() {
    let mut cat = Problem::new();
    assert!(cat.add_order(String::from("A"), 1).is_ok());
    assert_eq!(
        Err(PlanError::DuplicateId),
        cat.add_order(String::from("A"), 9)
    );
}

#[test]
fn test_add_box_unknown_order_leaves_catalog_unchanged() {
    let mut cat = Problem::new();
    cat.add_order(String::from("A"), 1).unwrap();
    cat.add_box("A", 5).unwrap();
    let plan = LoadPlan::new();
    let before: Vec<(String, u64)> = unassigned_boxes(&cat, &plan)
        .iter()
        .map(|b| (b.order_id.clone(), b.weight))
        .collect();
    assert_eq!(Err(PlanError::UnknownOrder), cat.add_box("missing", 5));
    let after: Vec<(String, u64)> = unassigned_boxes(&cat, &plan)
        .iter()
        .map(|b| (b.order_id.clone(), b.weight))
        .collect();
    assert_eq!(before, after);
}

#[test]
fn test_add_box_invalid_weight() {
    let mut cat = Problem::new();
    cat.add_order(String::from("A"), 1).unwrap();
    assert_eq!(Err(PlanError::InvalidWeight), cat.add_box("A", 0));
    assert_eq!(Err(PlanError::InvalidWeight), cat.add_box("A", -7));
    let pend = unassigned_boxes(&cat, &LoadPlan::new());
    assert!(pend.is_empty());
}

#[test]
fn test_add_vehicle_invalid_capacity() {
    let mut plan = LoadPlan::new();
    assert_eq!(
        Err(PlanError::InvalidCapacity),
        plan.add_vehicle(VehicleKind::Truck, -1)
    );
    assert_eq!(0, plan.vehicle_count());
    assert_eq!(Ok(0), plan.add_vehicle(VehicleKind::Truck, 0));
    assert_eq!(Ok(1), plan.add_vehicle(VehicleKind::Train, 250));
}

#[test]
fn test_unknown_vehicle() {
    let mut plan = LoadPlan::new();
    assert_eq!(Err(PlanError::UnknownVehicle), plan.schedule_leg(0, 0, 1));
    assert!(plan.vehicle_at(0).is_err());
    plan.add_vehicle(VehicleKind::Truck, 10).unwrap();
    assert!(plan.vehicle_at(0).is_ok());
    assert_eq!(Err(PlanError::UnknownVehicle), plan.schedule_leg(1, 0, 1));
    assert_eq!(Ok(()), plan.schedule_leg(0, 100, 2));
    let v = plan.vehicle_at(0).unwrap();
    assert_eq!(100, v.leg.unwrap().depart_date);
    assert_eq!(100 + 2 * 3600, v.leg.unwrap().arrive_date);
}

#[test]
fn test_unassigned_reflects_added_boxes() {
    let mut cat = Problem::new();
    cat.add_order(String::from("A"), 3).unwrap();
    cat.add_box("A", 7).unwrap();
    cat.add_box("A", 9).unwrap();
    let pend = unassigned_boxes(&cat, &LoadPlan::new());
    let got: Vec<(String, u64)> = pend
        .iter()
        .map(|b| (b.order_id.clone(), b.weight))
        .collect();
    // Box insertion order is kept within an order.
    assert_eq!(
        vec![(String::from("A"), 7u64), (String::from("A"), 9u64)],
        got
    );
    assert_eq!(3, pend[0].due_date);
}

#[test]
fn test_plan_wf_check() {
    let mut plan = LoadPlan::new();
    plan.add_vehicle(VehicleKind::Truck, 10).unwrap();
    assert!(plan.check_wf());
    // Overload a vehicle by hand: the runtime check notices.
    plan.vehicles[0].items.push_back((String::from("x"), 11));
    assert!(!plan.check_wf());
}
