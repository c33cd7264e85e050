//! Provinces: the spaces of the board.

use vstd::prelude::*;
use crate::player::PlayerID;
use crate::unit::Unit;

verus! {

/// Identifies a province.
pub type ProvinceID = u8;

/// The terrain of a province.
#[derive(Clone, Copy, PartialEq, Eq, Structural, Debug)]
pub enum ProvinceType {
    /// Inland or coastal ground.
    Land,
    /// One named coast of a province that has several.
    Coast,
    /// Open water.
    Water,
    /// Open water of the game's variants.
    DeepSea,
}

impl ProvinceType {
    /// Whether a fleet here may be ordered to convoy: only on water.
    pub fn can_convoy_through(&self) -> (able: bool)
        ensures
            able == (*self == ProvinceType::Water || *self == ProvinceType::DeepSea),
    {
        match self {
            Self::Land => false,
            Self::Coast => false,
            Self::Water => true,
            Self::DeepSea => true,
        }
    }

    /// Whether a convoy may end here: only on ground.
    pub fn can_convoy_into(&self) -> (able: bool)
        ensures
            able == (*self == ProvinceType::Land || *self == ProvinceType::Coast),
    {
        match self {
            Self::Land => true,
            Self::Coast => true,
            Self::Water => false,
            Self::DeepSea => false,
        }
    }

    /// Whether a convoy may start here: only on ground.
    pub fn can_convoy_out_of(&self) -> (able: bool)
        ensures
            able == (*self == ProvinceType::Land || *self == ProvinceType::Coast),
    {
        match self {
            Self::Land => true,
            Self::Coast => true,
            Self::Water => false,
            Self::DeepSea => false,
        }
    }
}

/// One province of the board.
pub struct Province {
    province_id: ProvinceID,
    /// Visible name, such as "NTH" or "Par".
    province_name: String,
    province_type: ProvinceType,
    /// The owning player; 0 while nobody owns the province.
    owned_by: PlayerID,
    /// `None` where the province is no supply center; otherwise what it
    /// counts for.
    sc_value: Option<u8>,
    /// The players that may build here.
    core_of: Vec<PlayerID>,
    /// The provinces that are coasts of this one.
    has_coasts: Vec<ProvinceID>,
    /// The province that this one is a coast of, if any.
    is_coast_of: Option<ProvinceID>,
    occupied_by: Option<Unit>,
    /// A unit driven out of the province that has not yet retreated.
    disloged_unit: Option<Unit>,
    available_for_retreat: bool,
}

impl Province {
    /// The province's identifier, as a specification value.
    pub closed spec fn spec_id(&self) -> ProvinceID {
        self.province_id
    }

    /// The province's visible name, as a specification value.
    pub closed spec fn spec_name(&self) -> Seq<char> {
        self.province_name@
    }

    /// The province's terrain, as a specification value.
    pub closed spec fn spec_type(&self) -> ProvinceType {
        self.province_type
    }

    /// Whether the province is as a board holds it before play: unowned, no
    /// supply center, nobody's core, without coasts, empty, and closed to
    /// retreats.
    pub closed spec fn is_blank(&self) -> bool {
        &&& self.owned_by == 0
        &&& self.sc_value is None
        &&& self.core_of@.len() == 0
        &&& self.has_coasts@.len() == 0
        &&& self.is_coast_of is None
        &&& self.occupied_by is None
        &&& self.disloged_unit is None
        &&& !self.available_for_retreat
    }

    /// A blank province with the given identifier, name and terrain.
    pub fn new(province_id: ProvinceID, province_name: String, province_type: ProvinceType) -> (province: Self)
        ensures
            province.spec_id() == province_id,
            province.spec_name() == province_name@,
            province.spec_type() == province_type,
            province.is_blank(),
    {
        Province {
            province_id,
            province_name,
            province_type,
            owned_by: 0,
            sc_value: None,
            core_of: Vec::new(),
            has_coasts: Vec::new(),
            is_coast_of: None,
            occupied_by: None,
            disloged_unit: None,
            available_for_retreat: false,
        }
    }

    /// The province's identifier.
    pub fn id(&self) -> (id: ProvinceID)
        ensures
            id == self.spec_id(),
    {
        self.province_id
    }

    /// The province's terrain.
    pub fn get_type(&self) -> (province_type: ProvinceType)
        ensures
            province_type == self.spec_type(),
    {
        self.province_type
    }
}

} // verus!
