//! Checkpoint arithmetic of the racing variant: the track around the origin
//! is cut into six angular sections, and a racer's progress is the number of
//! section lines crossed, counted with sign.

use vstd::prelude::*;

use crate::hex::{DirectionIndex, HexPoint};

verus! {

/// A section index, always in `0..6`: 0 reaches from the positive-`q` axis
/// up to but not including the first checkpoint line, and so on around.
pub type Section = i32;

/// Section count crossed since the start; increases past 5 on completed laps
/// and is negative when driving the wrong way.
pub type Checkpoint = i32;

/// Number of completed laps: 0 during the first lap, negative after driving
/// backwards across the start.
pub type Lap = i32;

/// The section a position belongs to.
pub open spec fn spec_point_to_section(p: HexPoint) -> int {
    if p.q == 0 {
        if p.r < 0 {
            2
        } else {
            5
        }
    } else if p.q > 0 {
        if p.r > 0 {
            5
        } else if -p.r < p.q {
            0
        } else {
            1
        }
    } else {
        if p.r < 0 {
            2
        } else if -p.q > p.r {
            3
        } else {
            4
        }
    }
}

/// Which of the six angular sections a position lies in.
pub fn point_to_section(hex_point: HexPoint) -> (s: Section)
    requires
        i32::MIN < hex_point.q,
        i32::MIN < hex_point.r,
    ensures
        s as int == spec_point_to_section(hex_point),
        0 <= s < 6,
{
    if hex_point.q == 0 {
        if hex_point.r < 0 {
            2
        } else {
            5
        }
    } else if hex_point.q > 0 {
        if hex_point.r > 0 {
            5
        } else if -hex_point.r < hex_point.q {
            0
        } else {
            1
        }
    } else {
        if hex_point.r < 0 {
            2
        } else if -hex_point.q > hex_point.r {
            3
        } else {
            4
        }
    }
}

/// Whether a position lies exactly on one of the six checkpoint lines.
pub open spec fn spec_at_checkpoint(p: HexPoint) -> bool {
    p.q == 0 || p.r == 0 || p.q == -p.r
}

/// Whether a position sits on a checkpoint line.
pub fn at_checkpoint(hex_point: HexPoint) -> (b: bool)
    requires
        i32::MIN < hex_point.r,
    ensures
        b == spec_at_checkpoint(hex_point),
{
    hex_point.q == 0 || hex_point.r == 0 || hex_point.q == -hex_point.r
}

/// The direction that makes progress around the track from `hex_point`.
pub fn forward(hex_point: HexPoint) -> (d: DirectionIndex)
    requires
        i32::MIN < hex_point.q,
        i32::MIN < hex_point.r,
    ensures
        d as int == (spec_point_to_section(hex_point) + 2) % 6,
        0 <= d < 6,
{
    let section = point_to_section(hex_point);
    (section + 2) % 6
}

/// The direction that goes back around the track from `hex_point`; from a
/// checkpoint line it aims at the section before the line.
pub fn backward(hex_point: HexPoint) -> (d: DirectionIndex)
    requires
        i32::MIN < hex_point.q,
        i32::MIN < hex_point.r,
    ensures
        d as int == if spec_at_checkpoint(hex_point) {
            (spec_point_to_section(hex_point) + 10) % 6
        } else {
            (spec_point_to_section(hex_point) + 5) % 6
        },
        0 <= d < 6,
{
    let mut section = point_to_section(hex_point);
    if at_checkpoint(hex_point) {
        section = (section + 5) % 6;
    }
    (section + 5) % 6
}

/// The section a progress counter currently points at: the counter reduced
/// modulo six, with the remainder kept non-negative.
pub fn checkpoint_to_section(checkpoint: Checkpoint) -> (s: Section)
    ensures
        s as int == (checkpoint as int) % 6,
        0 <= s < 6,
{
    if checkpoint >= 0 {
        checkpoint % 6
    } else {
        5 + (checkpoint + 1) % 6
    }
}

/// How the progress counter moves when a racer steps to a new position:
/// forward over one or two section lines counts up, backward counts down,
/// anything else leaves it unchanged.
pub fn update_checkpoint(old_checkpoint: Checkpoint, new_hex_point: HexPoint) -> (c: Checkpoint)
    requires
        i32::MIN + 2 <= old_checkpoint <= i32::MAX - 2,
        i32::MIN < new_hex_point.q,
        i32::MIN < new_hex_point.r,
    ensures
        ({
            let old_section = (old_checkpoint as int) % 6;
            let new_section = spec_point_to_section(new_hex_point);
            c as int == if new_section == (old_section + 1) % 6 {
                old_checkpoint + 1
            } else if new_section == (old_section + 2) % 6 {
                old_checkpoint + 2
            } else if new_section == (old_section + 5) % 6 {
                old_checkpoint - 1
            } else if new_section == (old_section + 4) % 6 {
                old_checkpoint - 2
            } else {
                old_checkpoint as int
            }
        }),
{
    let old_section = checkpoint_to_section(old_checkpoint);
    let new_section = point_to_section(new_hex_point);
    if new_section == (old_section + 1) % 6 {
        old_checkpoint + 1
    } else if new_section == (old_section + 2) % 6 {
        old_checkpoint + 2
    } else if new_section == (old_section + 5) % 6 {
        old_checkpoint - 1
    } else if new_section == (old_section + 4) % 6 {
        old_checkpoint - 2
    } else {
        old_checkpoint
    }
}

/// The number of completed laps a progress counter stands for: the counter
/// divided by six, rounded towards minus infinity.
pub fn checkpoint_to_lap(checkpoint: Checkpoint) -> (l: Lap)
    ensures
        l as int == (checkpoint as int) / 6,
{
    if checkpoint >= 0 {
        checkpoint / 6
    } else {
        (checkpoint + 1) / 6 - 1
    }
}

} // verus!
