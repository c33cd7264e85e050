//! Units: the pieces that receive orders.

use vstd::prelude::*;
use crate::player::PlayerID;

verus! {

/// The kind of a unit.
#[derive(Clone, Copy, PartialEq, Eq, Structural, Debug)]
pub enum UnitType {
    Army,
    Fleet,
}

/// A unit on the board: who owns it and of which kind it is.
pub struct Unit {
    owner: PlayerID,
    unit_type: UnitType,
}

impl Unit {
    /// The owning player, as a specification value.
    pub closed spec fn spec_owner(&self) -> PlayerID {
        self.owner
    }

    /// The unit's kind, as a specification value.
    pub closed spec fn spec_type(&self) -> UnitType {
        self.unit_type
    }

    /// A unit of the given kind that belongs to `owner`.
    pub fn new(owner: PlayerID, unit_type: UnitType) -> (unit: Self)
        ensures
            unit.spec_owner() == owner,
            unit.spec_type() == unit_type,
    {
        Self { owner, unit_type }
    }

    /// The owning player.
    pub fn owner(&self) -> (owner: PlayerID)
        ensures
            owner == self.spec_owner(),
    {
        self.owner
    }

    /// The unit's kind.
    pub fn get_type(&self) -> (unit_type: UnitType)
        ensures
            unit_type == self.spec_type(),
    {
        self.unit_type
    }

    /// Whether the unit can carry another across water: fleets can, armies
    /// cannot.
    pub fn can_convoy(&self) -> (able: bool)
        ensures
            able == (self.spec_type() == UnitType::Fleet),
    {
        match self.unit_type {
            UnitType::Army => false,
            UnitType::Fleet => true,
        }
    }

    /// Whether the unit can be carried across water: armies can, fleets
    /// cannot.
    pub fn can_be_convoyed(&self) -> (able: bool)
        ensures
            able == (self.spec_type() == UnitType::Army),
    {
        match self.unit_type {
            UnitType::Army => true,
            UnitType::Fleet => false,
        }
    }
}

} // verus!
