//! Players: the powers of the game, not the people who play them.

use vstd::prelude::*;

verus! {

/// Identifies a player. The value 0 stands for "no player" where an owner is
/// recorded.
pub type PlayerID = u8;

/// A power of the game, such as "France".
pub struct Player {
    player_id: PlayerID,
    player_name: String,
}

impl Player {
    /// The player's identifier, as a specification value.
    pub closed spec fn spec_id(&self) -> PlayerID {
        self.player_id
    }

    /// The player's visible name, as a specification value.
    pub closed spec fn spec_name(&self) -> Seq<char> {
        self.player_name@
    }

    /// A player with the given identifier and visible name.
    pub fn new(player_id: PlayerID, player_name: String) -> (player: Self)
        ensures
            player.spec_id() == player_id,
            player.spec_name() == player_name@,
    {
        Player { player_id, player_name }
    }

    /// The player's identifier.
    pub fn id(&self) -> (id: PlayerID)
        ensures
            id == self.spec_id(),
    {
        self.player_id
    }

    /// The player's visible name.
    pub fn name(&self) -> (name: &String)
        ensures
            name@ == self.spec_name(),
    {
        &self.player_name
    }
}

} // verus!
