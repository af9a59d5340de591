//! The pure state of the racing variant that shares the lattice: cars,
//! bombs, racers and the simple driver logic. Track layout and movement
//! against the obstacle map belong to the host.

use vstd::prelude::*;

use crate::checkpoint::{forward, point_to_section, spec_point_to_section, Checkpoint};
use crate::hex::{DirectionIndex, HexPoint, HexVector};

verus! {

/// Which of the three cars, in `0..3`.
pub type CarNumber = usize;

/// Remaining fuse steps: `0..4` for a placed bomb, more for one still
/// waiting to appear.
pub type FuseLength = usize;

/// A car as drawn: its number and its facing.
#[derive(Clone, Copy, Debug, PartialEq)]
pub struct Car {
    pub car_number: CarNumber,
    pub direction: HexVector,
}

impl Car {
    pub fn new(car_number: CarNumber, direction: HexVector) -> (c: Car)
        ensures
            c == (Car { car_number, direction }),
    {
        Car { car_number, direction }
    }
}

/// A bomb counting down on the track.
#[derive(Clone, Copy, Debug, PartialEq)]
pub struct Bomb {
    pub fuse_length: FuseLength,
}

impl Bomb {
    pub fn new(fuse_length: FuseLength) -> (b: Bomb)
        ensures
            b == (Bomb { fuse_length }),
    {
        Bomb { fuse_length }
    }

    /// A chain reaction burns the whole fuse at once.
    pub fn trigger_chain_reaction(self) -> (b: Bomb)
        ensures
            b == (Bomb { fuse_length: 0 as FuseLength }),
    {
        Bomb { fuse_length: 0 }
    }

    /// One step of the countdown; `None` when the bomb goes off.
    pub fn decrement(self) -> (r: Option<Bomb>)
        ensures
            r == if self.fuse_length > 0 {
                Some(Bomb { fuse_length: (self.fuse_length - 1) as FuseLength })
            } else {
                None::<Bomb>
            },
    {
        if self.fuse_length > 0 {
            Some(Bomb { fuse_length: self.fuse_length - 1 })
        } else {
            None
        }
    }
}

/// What can occupy a track cell.
#[derive(Clone, Copy, Debug, PartialEq)]
pub enum CellContents {
    Bomb(Bomb),
    Car(Car),
    Wall,
}

/// What a translation animation can carry across the screen.
#[derive(Clone, Copy, Debug, PartialEq)]
pub enum DrawableObject {
    DrawableCar(Car),
}

/// The items a racer can pick up, cycled in a fixed order.
#[derive(Clone, Copy, Debug, PartialEq, Eq, Structural)]
pub enum Powerup {
    Bomb,
    Kick,
    Zip,
    SpikeShield,
}

impl Powerup {
    /// The first item of the cycle.
    pub fn first() -> (p: Powerup)
        ensures
            p == Powerup::Bomb,
    {
        Powerup::Bomb
    }

    /// The next item of the cycle, `None` after the last.
    pub fn next(self) -> (r: Option<Powerup>)
        ensures
            r == match self {
                Powerup::Bomb => Some(Powerup::Kick),
                Powerup::Kick => Some(Powerup::Zip),
                Powerup::Zip => Some(Powerup::SpikeShield),
                Powerup::SpikeShield => None::<Powerup>,
            },
    {
        match self {
            Powerup::Bomb => Some(Powerup::Kick),
            Powerup::Kick => Some(Powerup::Zip),
            Powerup::Zip => Some(Powerup::SpikeShield),
            Powerup::SpikeShield => None,
        }
    }
}

/// A racer: which car it drives, its progress counter, its facing and its
/// position.
#[derive(Clone, Copy, Debug, PartialEq)]
pub struct Racer {
    pub car_number: CarNumber,
    pub checkpoint: Checkpoint,
    pub direction_index: DirectionIndex,
    pub position: HexPoint,
}

impl Racer {
    /// A racer dropped at a position, facing forward along the track, with
    /// its progress counter started at the section it stands in.
    pub fn new(car_number: CarNumber, position: HexPoint) -> (r: Racer)
        requires
            i32::MIN < position.q,
            i32::MIN < position.r,
        ensures
            r.car_number == car_number,
            r.position == position,
            r.checkpoint as int == spec_point_to_section(position),
            r.direction_index as int == (spec_point_to_section(position) + 2) % 6,
    {
        let checkpoint = point_to_section(position);
        let direction_index = forward(position);
        Racer { car_number, checkpoint, direction_index, position }
    }

    /// Turn one direction step counter-clockwise.
    pub fn turn_left(self) -> (r: Racer)
        requires
            0 <= self.direction_index < 6,
        ensures
            r == (Racer { direction_index: ((self.direction_index + 1) % 6) as DirectionIndex, ..self }),
            0 <= r.direction_index < 6,
    {
        Racer { direction_index: (self.direction_index + 1) % 6, ..self }
    }

    /// Turn one direction step clockwise.
    pub fn turn_right(self) -> (r: Racer)
        requires
            0 <= self.direction_index < 6,
        ensures
            r == (Racer { direction_index: ((self.direction_index + 5) % 6) as DirectionIndex, ..self }),
            0 <= r.direction_index < 6,
    {
        Racer { direction_index: (self.direction_index + 5) % 6, ..self }
    }

    /// The car this racer is drawn as.
    pub fn to_car(self) -> (c: Car)
        requires
            0 <= self.direction_index < 6,
        ensures
            c.car_number == self.car_number,
            c.direction == crate::hex::spec_dir(self.direction_index as int),
    {
        Car::new(self.car_number, HexVector::from_index(self.direction_index))
    }
}

/// What the simple driver decides to do next.
#[derive(Clone, Copy, Debug, PartialEq, Eq, Structural)]
pub enum Action {
    TurnLeft,
    TurnRight,
    GoForward,
}

/// The simple driver: keeps a racer moving around the track.
#[derive(Clone, Copy, Debug, PartialEq)]
pub struct Ai {
    pub racer: Racer,
}

impl Ai {
    pub fn new(racer: Racer) -> (a: Ai)
        ensures
            a == (Ai { racer }),
    {
        Ai { racer }
    }

    /// Drive forward whenever already facing forward, otherwise turn left
    /// until facing forward.
    pub fn next_action(self) -> (a: Action)
        requires
            i32::MIN < self.racer.position.q,
            i32::MIN < self.racer.position.r,
        ensures
            a == if self.racer.direction_index as int == (spec_point_to_section(
                self.racer.position,
            ) + 2) % 6 {
                Action::GoForward
            } else {
                Action::TurnLeft
            },
    {
        if self.racer.direction_index == forward(self.racer.position) {
            Action::GoForward
        } else {
            Action::TurnLeft
        }
    }
}

} // verus!
