//! The board: provinces and the connections between them.

use vstd::prelude::*;
use crate::province::Province;
use crate::province::ProvinceID;
use crate::unit::UnitType;

verus! {

/// An undirected connection between two distinct provinces, with the kinds
/// of unit that may pass along it.
pub struct Connection {
    province_1_id: ProvinceID,
    province_2_id: ProvinceID,
    allowed_unit_types: Vec<UnitType>,
}

impl Connection {
    /// The smaller of the two province identifiers.
    pub closed spec fn first(&self) -> ProvinceID {
        self.province_1_id
    }

    /// The larger of the two province identifiers.
    pub closed spec fn second(&self) -> ProvinceID {
        self.province_2_id
    }

    /// The kinds of unit that may pass.
    pub closed spec fn allowed_types(&self) -> Seq<UnitType> {
        self.allowed_unit_types@
    }

    /// The connection between two distinct provinces, given in either order:
    /// the smaller identifier is stored first.
    pub fn new(province_1_id: ProvinceID, province_2_id: ProvinceID, allowed_unit_types: Vec<UnitType>) -> (connection: Self)
        requires
            province_1_id != province_2_id,
        ensures
            connection.first() < connection.second(),
            connection.first() == province_1_id || connection.first() == province_2_id,
            connection.second() == province_1_id || connection.second() == province_2_id,
            connection.allowed_types() == allowed_unit_types@,
    {
        let (id1, id2) = if province_1_id < province_2_id {
            (province_1_id, province_2_id)
        } else {
            (province_2_id, province_1_id)
        };
        Self { province_1_id: id1, province_2_id: id2, allowed_unit_types }
    }

    /// Whether a unit of the given kind may pass along the connection.
    pub fn allowed(&self, unit_type: &UnitType) -> (pass: bool)
        ensures
            pass == self.allowed_types().contains(*unit_type),
    {
        let mut i: usize = 0;
        while i < self.allowed_unit_types.len()
            invariant
                i <= self.allowed_unit_types@.len(),
                forall|k: int| 0 <= k < i ==> self.allowed_unit_types@[k] != *unit_type,
            decreases self.allowed_unit_types@.len() - i,
        {
            if self.allowed_unit_types[i] == *unit_type {
                return true;
            }
            i += 1;
        }
        false
    }

    /// Whether the connection joins provinces `a` and `b`, in either order.
    pub fn joins(&self, a: ProvinceID, b: ProvinceID) -> (joined: bool)
        ensures
            joined == ((self.first() == a && self.second() == b) || (self.first() == b
                && self.second() == a)),
    {
        (self.province_1_id == a && self.province_2_id == b) || (self.province_1_id == b
            && self.province_2_id == a)
    }
}

/// The board of one game.
pub struct GameMap {
    provinces: Vec<Province>,
    connections: Vec<Connection>,
}

impl GameMap {
    /// The board's provinces.
    pub closed spec fn lands(&self) -> Seq<Province> {
        self.provinces@
    }

    /// The board's connections.
    pub closed spec fn links(&self) -> Seq<Connection> {
        self.connections@
    }

    /// A board of the given provinces and connections.
    pub fn new(provinces: Vec<Province>, connections: Vec<Connection>) -> (board: Self)
        ensures
            board.lands() == provinces@,
            board.links() == connections@,
    {
        GameMap { provinces, connections }
    }

    /// Whether some connection joins `a` and `b` and lets a unit of the given
    /// kind pass.
    pub fn can_traverse(&self, a: ProvinceID, b: ProvinceID, unit_type: &UnitType) -> (pass: bool)
        ensures
            pass == exists|k: int|
                0 <= k < self.links().len() && #[trigger] link_admits(self.links()[k], a, b, *unit_type),
    {
        let mut i: usize = 0;
        while i < self.connections.len()
            invariant
                i <= self.connections@.len(),
                forall|k: int| 0 <= k < i ==> !#[trigger] link_admits(self.connections@[k], a, b, *unit_type),
            decreases self.connections@.len() - i,
        {
            if self.connections[i].joins(a, b) && self.connections[i].allowed(unit_type) {
                assert(link_admits(self.links()[i as int], a, b, *unit_type));
                return true;
            }
            i += 1;
        }
        false
    }
}

/// Whether the connection joins `a` and `b`, in either order, and lets a unit
/// of the given kind pass.
pub open spec fn link_admits(link: Connection, a: ProvinceID, b: ProvinceID, unit_type: UnitType) -> bool {
    &&& (link.first() == a && link.second() == b) || (link.first() == b && link.second() == a)
    &&& link.allowed_types().contains(unit_type)
}

} // verus!
