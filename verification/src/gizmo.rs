//! The arms and rings a person drags: their axes, and which of several
//! things on screen the pointer is on.
//!
//! How far the pointer is from each is reckoned outside. A distance is not
//! less than nought, so two of them compare as the bits of the fractions
//! they are.

use vstd::prelude::*;
use crate::fraction::{less, less_fraction, no_number};
use crate::world::Triple;

verus! {

/// The bits of a whole one.
pub const UNIT: u32 = 0x3f80_0000;

/// Which of the three axes a handle belongs to.
#[derive(Clone, Copy, Debug, PartialEq, Eq, Structural)]
pub enum Axis {
    /// The first one, drawn red.
    X,
    /// The second, drawn green.
    Y,
    /// The third, drawn blue.
    Z,
}

impl Axis {
    /// All three, in the order everything here returns them in.
    pub const ALL: [Axis; 3] = [Axis::X, Axis::Y, Axis::Z];

    /// Its place in a three-component vector.
    pub open spec fn number(self) -> usize {
        match self {
            Axis::X => 0,
            Axis::Y => 1,
            Axis::Z => 2,
        }
    }

    /// Its place in a three-component vector.
    pub fn place(self) -> (result: usize)
        ensures
            result == self.number(),
            result < 3,
    {
        match self {
            Axis::X => 0,
            Axis::Y => 1,
            Axis::Z => 2,
        }
    }

    /// Which way it points, by the bits of the fractions: one along it and
    /// nought across.
    pub fn way(self) -> (result: Triple)
        ensures
            result == match self {
                Axis::X => Triple { x: UNIT, y: 0, z: 0 },
                Axis::Y => Triple { x: 0, y: UNIT, z: 0 },
                Axis::Z => Triple { x: 0, y: 0, z: UNIT },
            },
    {
        match self {
            Axis::X => Triple { x: UNIT, y: 0, z: 0 },
            Axis::Y => Triple { x: 0, y: UNIT, z: 0 },
            Axis::Z => Triple { x: 0, y: 0, z: UNIT },
        }
    }

    /// What it is drawn in, as sRGB bytes: red, green and blue in turn.
    pub fn tint(self) -> (result: [u8; 3])
        ensures
            result@ == match self {
                Axis::X => seq![230u8, 70, 70],
                Axis::Y => seq![90u8, 210, 90],
                Axis::Z => seq![80u8, 130, 240],
            },
    {
        let tint: [u8; 3] = match self {
            Axis::X => [230, 70, 70],
            Axis::Y => [90, 210, 90],
            Axis::Z => [80, 130, 240],
        };
        assert(tint@ =~= match self {
            Axis::X => seq![230u8, 70, 70],
            Axis::Y => seq![90u8, 210, 90],
            Axis::Z => seq![80u8, 130, 240],
        });
        tint
    }

    /// The axis in a place.
    pub fn at(place: usize) -> (result: Option<Axis>)
        ensures
            result is Some == (place < 3),
            result is Some ==> result->0.number() == place,
    {
        if place == 0 {
            Some(Axis::X)
        } else if place == 1 {
            Some(Axis::Y)
        } else if place == 2 {
            Some(Axis::Z)
        } else {
            None
        }
    }
}

/// Every axis has a place of its own.
pub proof fn axes_have_their_own_places(one: Axis, other: Axis)
    ensures
        one.number() == other.number() ==> one == other,
        one.number() < 3,
{
}

/// What the gizmo does with a drag.
#[derive(Clone, Copy, Debug, PartialEq, Eq, Structural)]
pub enum Tool {
    /// Slide it along an axis.
    Move,
    /// Turn it about an axis.
    Turn,
    /// Stretch it along an axis.
    Size,
}

impl Default for Tool {
    fn default() -> (result: Tool)
        ensures
            result == Tool::Move,
    {
        Tool::Move
    }
}

impl Tool {
    /// What it is called on screen.
    pub open spec fn said(self) -> Seq<char> {
        match self {
            Tool::Move => "move"@,
            Tool::Turn => "turn"@,
            Tool::Size => "size"@,
        }
    }

    /// What to call it on screen.
    pub fn word(self) -> (result: &'static str)
        ensures
            result@ == self.said(),
    {
        match self {
            Tool::Move => "move",
            Tool::Turn => "turn",
            Tool::Size => "size",
        }
    }

    /// The key that picks it.
    pub open spec fn letter(self) -> Seq<char> {
        match self {
            Tool::Move => "w"@,
            Tool::Turn => "e"@,
            Tool::Size => "r"@,
        }
    }
}

/// Which of the first so many things is nearest, nearer than a reach: the
/// first of those equally near. One that is not on screen is at no distance
/// at all.
pub open spec fn nearest_of(away: Seq<Option<u32>>, reach: u32, count: nat) -> Option<nat>
    decreases count,
{
    if count == 0 {
        None
    } else {
        let so_far = nearest_of(away, reach, (count - 1) as nat);
        let best = match so_far {
            None => reach,
            Some(index) => away[index as int]->0,
        };
        match away[count - 1] {
            Some(distance) => if less(distance, best) {
                Some((count - 1) as nat)
            } else {
                so_far
            },
            None => so_far,
        }
    }
}

/// What is found is on screen and within reach, nothing is nearer, and
/// nothing before it is as near; where nothing is found, nothing is within
/// reach. What is no number is at no distance.
pub proof fn nearest_is_nearest(away: Seq<Option<u32>>, reach: u32, count: nat)
    requires
        count <= away.len(),
    ensures
        match nearest_of(away, reach, count) {
            None => forall|i: int|
                0 <= i < count && (#[trigger] away[i]) is Some ==> !less(away[i]->0, reach),
            Some(index) => {
                &&& index < count
                &&& away[index as int] is Some
                &&& less(away[index as int]->0, reach)
                &&& forall|i: int|
                    0 <= i < count && (#[trigger] away[i]) is Some ==> !less(
                        away[i]->0,
                        away[index as int]->0,
                    )
                &&& forall|i: int|
                    0 <= i < index && (#[trigger] away[i]) is Some ==> less(
                        away[index as int]->0,
                        away[i]->0,
                    ) || no_number(away[i]->0)
            },
        },
    decreases count,
{
    if count > 0 {
        nearest_is_nearest(away, reach, (count - 1) as nat);
    }
}

/// Which of several things the pointer is on: the nearest within reach, by
/// the bits of how far it is from each.
pub fn nearest(away: &Vec<Option<u32>>, reach: u32) -> (result: Option<usize>)
    ensures
        match nearest_of(away@, reach, away@.len()) {
            None => result is None,
            Some(index) => result is Some && result->0 == index,
        },
{
    let mut best: u32 = reach;
    let mut found: Option<usize> = None;
    let mut i: usize = 0;
    while i < away.len()
        invariant
            i <= away@.len(),
            match nearest_of(away@, reach, i as nat) {
                None => found is None && best == reach,
                Some(index) => found is Some && found->0 == index && index < i
                    && away@[index as int] == Some(best),
            },
        decreases away@.len() - i,
    {
        match away[i] {
            Some(distance) => {
                if less_fraction(distance, best) {
                    best = distance;
                    found = Some(i);
                }
            },
            None => {},
        }
        i = i + 1;
    }
    found
}

/// Which arm the pointer is on, if it is on one.
pub fn grabbed(away: &Vec<Option<u32>>, reach: u32) -> (result: Option<Axis>)
    requires
        away@.len() == 3,
    ensures
        match nearest_of(away@, reach, 3) {
            None => result is None,
            Some(index) => result is Some && result->0.number() == index,
        },
{
    proof {
        nearest_is_nearest(away@, reach, 3);
    }
    match nearest(away, reach) {
        None => None,
        Some(index) => Axis::at(index),
    }
}

/// Each tool is called what it does, and picked with three keys side by side.
pub proof fn tools_are_called_what_they_do(one: Tool)
    ensures
        one == Tool::Move ==> one.said() == "move"@,
        one == Tool::Turn ==> one.said() == "turn"@,
        one == Tool::Size ==> one.said() == "size"@,
        one == Tool::Move ==> one.letter() == "w"@,
        one == Tool::Turn ==> one.letter() == "e"@,
        one == Tool::Size ==> one.letter() == "r"@,
{
}

} // verus!
