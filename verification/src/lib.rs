//! A load-planning core: customer orders decomposed into weighted boxes are
//! assigned to a fleet of vehicles of limited capacity, respecting capacity
//! and due-date constraints. Plans are immutable snapshots: every planner run
//! returns a fresh plan and leaves its input untouched.

pub mod catalog;
pub mod errors;
pub mod ids;
pub mod imvec;
pub mod plan;
pub mod planner;
pub mod vehicle;
