//! Per-connection session state: a display name and the last transform the
//! connection reported.

use crate::action::Lanes;
use vstd::prelude::*;

verus! {

/// A logged-in member of a world.  The transform lanes are raw 32-bit bit
/// patterns, stored and relayed verbatim.
pub struct User {
    pub name: Vec<u8>,
    pub position: Lanes,
    pub velocity: Lanes,
    pub rotation: Lanes,
}

/// Mathematical model of a [`User`].
#[verifier::ext_equal]
pub struct UserModel {
    pub name: Seq<u8>,
    pub position: Lanes,
    pub velocity: Lanes,
    pub rotation: Lanes,
}

impl View for User {
    type V = UserModel;

    open spec fn view(&self) -> UserModel {
        UserModel {
            name: self.name@,
            position: self.position,
            velocity: self.velocity,
            rotation: self.rotation,
        }
    }
}

/// The zeroed transform a user starts with at login.
pub open spec fn zero_lanes() -> Lanes {
    (0u32, 0u32, 0u32)
}

impl User {
    /// A fresh user with a zeroed transform.
    pub fn new(name: Vec<u8>) -> (u: User)
        ensures
            u@ == (UserModel {
                name: name@,
                position: zero_lanes(),
                velocity: zero_lanes(),
                rotation: zero_lanes(),
            }),
    {
        User { name, position: (0, 0, 0), velocity: (0, 0, 0), rotation: (0, 0, 0) }
    }
}

} // verus!
