//! The screen edge or corner a host may pin the menu to.

use vstd::prelude::*;

verus! {

/// Where the host anchors the menu surface on screen.  The centre is the
/// default; the host translates the choice into whatever its surface
/// protocol expects.
#[derive(Clone, Copy, PartialEq, Eq, Structural, Debug)]
pub enum ConfigAnchor {
    Center,
    Top,
    Bottom,
    Left,
    Right,
    TopLeft,
    TopRight,
    BottomLeft,
    BottomRight,
}

impl Default for ConfigAnchor {
    fn default() -> (r: Self)
        ensures
            r == ConfigAnchor::Center,
    {
        ConfigAnchor::Center
    }
}

} // verus!
