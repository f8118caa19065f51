//! What a player asks for with the movement keys.

use vstd::prelude::*;

verus! {

/// The movement keys that are held down.
#[derive(Debug, Clone, Copy, Default)]
pub struct MovementInput {
    pub forward: bool,
    pub backward: bool,
    pub left: bool,
    pub right: bool,
    pub jump: bool,
    pub sprint: bool,
}

impl MovementInput {
    /// One step along x and along z in the direction asked for.
    pub open spec fn spec_direction(&self) -> (int, int) {
        (
            (if self.right {
                1int
            } else {
                0
            }) - (if self.left {
                1int
            } else {
                0
            }),
            (if self.backward {
                1int
            } else {
                0
            }) - (if self.forward {
                1int
            } else {
                0
            }),
        )
    }

    /// The direction asked for, as steps along x and z: left is towards lower
    /// x, forward towards lower z; keys that pull against each other give no
    /// step.
    pub fn direction(&self) -> (d: (i8, i8))
        ensures
            (d.0 as int, d.1 as int) == self.spec_direction(),
    {
        let mut x: i8 = 0;
        let mut z: i8 = 0;
        if self.forward {
            z -= 1;
        }
        if self.backward {
            z += 1;
        }
        if self.left {
            x -= 1;
        }
        if self.right {
            x += 1;
        }
        (x, z)
    }

    /// Whether a direction is asked for at all.
    pub fn is_moving(&self) -> (b: bool)
        ensures
            b <==> self.spec_direction() != (0int, 0int),
    {
        let (x, z) = self.direction();
        x != 0 || z != 0
    }
}

} // verus!
