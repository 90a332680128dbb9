//! One planning run: the end points are checked, the route is searched,
//! and its energy is held against the drone's store.

use crate::drone::Drone;
use crate::optimizer::Optimizer;
use crate::route::path_cost;
use crate::search::{is_outcome, Strategy};
use crate::terrain::{Point, Terrain, TerrainType};
use vstd::prelude::*;
use vstd::string::*;

verus! {

/// The store of energy that a run gives its drone: a thousand units.
pub const DRONE_CAPACITY: u64 = 1_000_000;

/// Whether `total_energy` is more than 85 percent of `max_energy`.
pub open spec fn over_budget(total_energy: nat, max_energy: nat) -> bool {
    total_energy * 100 > max_energy * 85
}

/// What a run found.
pub struct SimulationReport {
    /// The route from start to end; empty when the end cannot be reached.
    pub path: Vec<Point>,
    /// The sum of the movement costs of the cells of the route.
    pub total_energy: u128,
    /// Whether the route takes more than 85 percent of the drone's store.
    pub energy_warning: bool,
    /// The drone, at the start with a full store.
    pub drone: Drone,
}

/// Whether `total_energy` is more than 85 percent of `max_energy`.
pub fn exceeds_energy_budget(total_energy: u128, max_energy: u64) -> (exceeded: bool)
    ensures
        exceeded == over_budget(total_energy as nat, max_energy as nat),
{
    if total_energy > u64::MAX as u128 {
        true
    } else {
        total_energy * 100 > max_energy as u128 * 85
    }
}

/// Checks that both end points lie inside the grid and that neither is an
/// obstacle.
pub fn check_endpoints(terrain: &Terrain, start: &Point, end: &Point) -> (checked: Result<
    (),
    String,
>)
    ensures
        match checked {
            Ok(_) => terrain@.passable(start.x as int, start.y as int) && terrain@.passable(
                end.x as int,
                end.y as int,
            ),
            Err(message) => if !terrain@.contains(start.x as int, start.y as int)
                || !terrain@.contains(end.x as int, end.y as int) {
                message@ == "Start or end position is invalid or blocked!"@
            } else {
                &&& terrain@.kind(start.x as int, start.y as int) == TerrainType::Obstacle
                    || terrain@.kind(end.x as int, end.y as int) == TerrainType::Obstacle
                &&& message@ == "Start or end position is an obstacle!"@
            },
        },
{
    if !terrain.is_valid_position(start) || !terrain.is_valid_position(end) {
        return Err(String::from_str("Start or end position is invalid or blocked!"));
    }
    if terrain.is_obstacle(start) || terrain.is_obstacle(end) {
        return Err(String::from_str("Start or end position is an obstacle!"));
    }
    Ok(())
}

/// What a run reports of the route that the search returned: its
/// energy, whether that is too much for the drone, and the drone at the
/// start with a full store.
pub fn report_flight(terrain: &Terrain, start: Point, path: Vec<Point>) -> (report:
    SimulationReport)
    ensures
        report.path@ == path@,
        report.total_energy == path_cost(terrain@, path@),
        report.energy_warning == over_budget(path_cost(terrain@, path@), DRONE_CAPACITY as nat),
        report.drone@ == Drone::new_state(start, DRONE_CAPACITY as nat),
{
    let drone = Drone::new(start, DRONE_CAPACITY);
    let optimizer = Optimizer::new(terrain);
    let total_energy = optimizer.calculate_path_cost(&path);
    let energy_warning = exceeds_energy_budget(total_energy, drone.get_max_energy());
    SimulationReport { path, total_energy, energy_warning, drone }
}

/// Plans the flight from `start` to `end` with A*. Fails when an end
/// point lies outside the grid or on an obstacle.
pub fn run_simulation(terrain: &Terrain, start: Point, end: Point) -> (outcome: Result<
    SimulationReport,
    String,
>)
    ensures
        match outcome {
            Ok(report) => {
                &&& terrain@.passable(start.x as int, start.y as int)
                &&& terrain@.passable(end.x as int, end.y as int)
                &&& is_outcome(Strategy::AStar, terrain@, start, end, report.path@)
                &&& report.total_energy == path_cost(terrain@, report.path@)
                &&& report.energy_warning == over_budget(
                    path_cost(terrain@, report.path@),
                    DRONE_CAPACITY as nat,
                )
                &&& report.drone@ == Drone::new_state(start, DRONE_CAPACITY as nat)
            },
            Err(message) => if !terrain@.contains(start.x as int, start.y as int)
                || !terrain@.contains(end.x as int, end.y as int) {
                message@ == "Start or end position is invalid or blocked!"@
            } else {
                &&& terrain@.kind(start.x as int, start.y as int) == TerrainType::Obstacle
                    || terrain@.kind(end.x as int, end.y as int) == TerrainType::Obstacle
                &&& message@ == "Start or end position is an obstacle!"@
            },
        },
{
    match check_endpoints(terrain, &start, &end) {
        Err(message) => Err(message),
        Ok(_) => {
            let optimizer = Optimizer::new(terrain);
            let path = optimizer.find_path(&start, &end);
            Ok(report_flight(terrain, start, path))
        },
    }
}

} // verus!
