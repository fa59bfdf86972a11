pub mod bits;
pub mod board;
pub mod catalog;
pub mod codec;
pub mod coord;
pub mod danger;
pub mod search;

use vstd::prelude::*;

verus! {

/// A marker for who owns a cell: `Player(0)` is the empty marker,
/// `Player(1)` and `Player(2)` are the two competing players.
#[derive(PartialEq, Eq, Structural, Clone, Copy, Debug, Hash)]
pub struct Player(pub u8);

impl Player {
    /// True of the empty marker and of the two real players.
    pub open spec fn valid(self) -> bool {
        self.0 <= 2
    }

    /// True of the two real players only.
    pub open spec fn is_real(self) -> bool {
        self.0 == 1 || self.0 == 2
    }

    /// The empty-cell marker.
    pub fn empty() -> (r: Player)
        ensures
            r.0 == 0,
    {
        Player(0)
    }

    /// The other real player.
    pub fn opponent(self) -> (r: Player)
        requires
            self.is_real(),
        ensures
            r.is_real(),
            r.0 == 3 - self.0,
    {
        Player(3 - self.0)
    }

    /// This player's position in a per-player pair of counters.
    pub fn index(self) -> (r: usize)
        requires
            self.is_real(),
        ensures
            r == self.0 - 1,
            r < 2,
    {
        self.0 as usize - 1
    }
}

} // verus!
