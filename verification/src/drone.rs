//! The vehicle's energy ledger and the record of where it has flown.
//! Energy is counted in thousandths of a unit.

use crate::terrain::Point;
use vstd::prelude::*;

verus! {

/// The share of `max` that `current` is, in thousandths of a percent;
/// nothing for a vehicle without capacity.
pub open spec fn energy_share(current: nat, max: nat) -> Option<nat> {
    if max == 0 {
        None
    } else {
        Some(current * 100_000 / max)
    }
}

/// The state of a drone as its contracts see it.
pub struct DroneState {
    pub position: Point,
    pub max_energy: nat,
    pub current_energy: nat,
    pub flight_path: Seq<Point>,
}

/// A drone: where it is, how much energy it holds, and the way it has
/// flown.
pub struct Drone {
    position: Point,
    max_energy: u64,
    current_energy: u64,
    flight_path: Vec<Point>,
}

impl View for Drone {
    type V = DroneState;

    closed spec fn view(&self) -> DroneState {
        DroneState {
            position: self.position,
            max_energy: self.max_energy as nat,
            current_energy: self.current_energy as nat,
            flight_path: self.flight_path@,
        }
    }
}

impl Drone {
    /// The state of a new drone: at its start with a full store, its
    /// flight path holding the start alone.
    pub open spec fn new_state(start_pos: Point, capacity: nat) -> DroneState {
        DroneState {
            position: start_pos,
            max_energy: capacity,
            current_energy: capacity,
            flight_path: seq![start_pos],
        }
    }

    /// A drone at `start_pos` with a full store of energy; its flight
    /// path begins there.
    pub fn new(start_pos: Point, max_energy_capacity: u64) -> (drone: Drone)
        ensures
            drone@ == Drone::new_state(start_pos, max_energy_capacity as nat),
    {
        let mut drone = Drone {
            position: start_pos,
            max_energy: max_energy_capacity,
            current_energy: max_energy_capacity,
            flight_path: Vec::new(),
        };
        drone.add_to_path(start_pos);
        assert(drone@.flight_path =~= seq![start_pos]);
        drone
    }

    /// Moves the drone; its flight path is not changed.
    pub fn set_position(&mut self, pos: Point)
        ensures
            final(self)@ == (DroneState { position: pos, ..old(self)@ }),
    {
        self.position = pos;
    }

    pub fn get_position(&self) -> (position: Point)
        ensures
            position == self@.position,
    {
        self.position
    }

    pub fn get_max_energy(&self) -> (energy: u64)
        ensures
            energy == self@.max_energy,
    {
        self.max_energy
    }

    pub fn get_current_energy(&self) -> (energy: u64)
        ensures
            energy == self@.current_energy,
    {
        self.current_energy
    }

    /// Takes `amount` from the store; the store never falls below zero.
    pub fn consume_energy(&mut self, amount: u64)
        ensures
            final(self)@ == (DroneState {
                current_energy: if amount >= old(self)@.current_energy {
                    0
                } else {
                    (old(self)@.current_energy - amount) as nat
                },
                ..old(self)@
            }),
    {
        if amount >= self.current_energy {
            self.current_energy = 0;
        } else {
            self.current_energy = self.current_energy - amount;
        }
    }

    /// Fills the store to its capacity.
    pub fn reset_energy(&mut self)
        ensures
            final(self)@ == (DroneState {
                current_energy: old(self)@.max_energy,
                ..old(self)@
            }),
    {
        self.current_energy = self.max_energy;
    }

    /// Whether the store holds at least `required`.
    pub fn has_energy(&self, required: u64) -> (enough: bool)
        ensures
            enough == (self@.current_energy >= required),
    {
        self.current_energy >= required
    }

    /// Appends a waypoint to the flight path.
    pub fn add_to_path(&mut self, point: Point)
        ensures
            final(self)@ == (DroneState {
                flight_path: old(self)@.flight_path.push(point),
                ..old(self)@
            }),
    {
        self.flight_path.push(point);
    }

    pub fn get_flight_path(&self) -> (path: &Vec<Point>)
        ensures
            path@ == self@.flight_path,
    {
        &self.flight_path
    }

    /// Forgets the flight path.
    pub fn clear_path(&mut self)
        ensures
            final(self)@ == (DroneState { flight_path: Seq::empty(), ..old(self)@ }),
    {
        self.flight_path.clear();
    }

    /// The share of the capacity that the store holds, in thousandths of
    /// a percent, rounded down; nothing for a drone without capacity.
    pub fn get_energy_percentage(&self) -> (share: Option<u128>)
        ensures
            share is Some <==> energy_share(self@.current_energy, self@.max_energy) is Some,
            share is Some ==> share->0 == energy_share(
                self@.current_energy,
                self@.max_energy,
            )->0,
    {
        if self.max_energy == 0 {
            None
        } else {
            Some(self.current_energy as u128 * 100_000 / self.max_energy as u128)
        }
    }

    /// Whether the store holds less than a fifth of the capacity. A drone
    /// without capacity is never low.
    pub fn is_low_energy(&self) -> (low: bool)
        ensures
            low == match energy_share(self@.current_energy, self@.max_energy) {
                Some(share) => share < 20_000,
                None => false,
            },
    {
        match self.get_energy_percentage() {
            Some(share) => share < 20_000,
            None => false,
        }
    }
}

} // verus!
