//! Orders: one unit's instruction for the turn, together with the state that
//! resolution writes into it.

use vstd::prelude::*;
use crate::province::ProvinceID;

verus! {

/// The kind of an order.
#[derive(Clone, Copy, PartialEq, Eq, Structural, Debug)]
pub enum OrderType {
    /// The unit stays where it is.
    Hold,
    /// The unit moves to another province.
    Move,
    /// The unit adds its strength to another unit's hold or move.
    Support,
    /// The unit carries an army across water.
    Convoy,
    /// An order that the board never allows, such as a move between two
    /// provinces that are not connected.
    IllegalOrder,
    /// A support that no unit took up.
    RequiredOrderNotGiven,
    /// A support that was cut because another unit moved against the
    /// supporting unit.
    SupportCut,
}

/// Why an order could not be built.
#[derive(Clone, Copy, PartialEq, Eq, Structural, Debug)]
pub enum OrderError {
    /// A move whose destination is the province the unit stands in.
    MoveIntoOwnProvince,
    /// Origin or destination do not fit the kind of order.
    InconsistentProvinces,
    /// A kind that only resolution may give to an order.
    NotAPlayerOrder,
}

/// What an order is, as a mathematical value.
pub struct OrderView {
    /// The kind the order was given with.
    pub original: OrderType,
    /// The current kind; resolution may replace a support's kind.
    pub kind: OrderType,
    /// Where the ordered unit stands.
    pub location: ProvinceID,
    /// Where the ordered, supported or convoyed unit starts.
    pub source: ProvinceID,
    /// Where the ordered, supported or convoyed unit is to end.
    pub target: ProvinceID,
    /// One, plus one for each support received.
    pub strength: nat,
    /// Whether the order's outcome is fixed.
    pub resolved: bool,
    /// Whether the order did what it was given for.
    pub succeeded: bool,
    /// Whether the unit was driven out of its province.
    pub dislodged: bool,
}

/// Whether origin and destination fit an order of kind `kind` given to the
/// unit at `location`.
pub open spec fn provinces_fit(kind: OrderType, location: ProvinceID, source: ProvinceID, target: ProvinceID) -> bool {
    match kind {
        OrderType::Hold => source == location && target == location,
        OrderType::Move => source == location && target != location,
        OrderType::Support => source != location,
        OrderType::Convoy => source != location && target != location && source != target,
        _ => true,
    }
}

/// Whether players may give an order of this kind.
pub open spec fn player_kind(kind: OrderType) -> bool {
    kind != OrderType::RequiredOrderNotGiven && kind != OrderType::SupportCut
}

impl OrderView {
    /// An order as it is before resolution.
    pub open spec fn fresh(kind: OrderType, location: ProvinceID, source: ProvinceID, target: ProvinceID) -> OrderView {
        OrderView {
            original: kind,
            kind,
            location,
            source,
            target,
            strength: 1,
            resolved: false,
            succeeded: false,
            dislodged: false,
        }
    }

    /// The invariant of every order: a player's kind with fitting provinces,
    /// a strength of at least one, no outcome before resolution, and a kind
    /// that only a failed support may have lost.
    pub open spec fn wf(self) -> bool {
        &&& player_kind(self.original)
        &&& provinces_fit(self.original, self.location, self.source, self.target)
        &&& 1 <= self.strength <= u8::MAX
        &&& !self.resolved ==> self.kind == self.original && !self.succeeded && !self.dislodged
        &&& self.kind != self.original ==> {
            &&& self.original == OrderType::Support
            &&& self.kind == OrderType::SupportCut || self.kind == OrderType::RequiredOrderNotGiven
            &&& !self.succeeded
        }
    }

    /// Whether the order is a move into `destination`.
    pub open spec fn moves_into(self, destination: ProvinceID) -> bool {
        self.kind == OrderType::Move && self.target == destination
    }

    /// Whether the order supports the unit at `supporting` in staying there.
    pub open spec fn supports_hold(self, supporting: ProvinceID) -> bool {
        self.kind == OrderType::Support && self.source == supporting && self.target == supporting
    }

    /// Whether the order supports a move from `from` to `to`.
    pub open spec fn supports_move(self, from: ProvinceID, to: ProvinceID) -> bool {
        self.kind == OrderType::Support && self.source == from && self.target == to
    }

    /// Whether the order convoys a unit from `from` to `to`.
    pub open spec fn convoys(self, from: ProvinceID, to: ProvinceID) -> bool {
        self.kind == OrderType::Convoy && self.source == from && self.target == to
    }

    /// The order after resolution fixed its outcome, with `kind` as its kind
    /// from then on.
    pub open spec fn settle(self, kind: OrderType, succeeded: bool, dislodged: bool) -> OrderView {
        OrderView { kind, resolved: true, succeeded, dislodged, ..self }
    }
}

/// One unit's order for the turn.
#[derive(Clone, Copy, Debug)]
pub struct Order {
    original_order_type: OrderType,
    order_type: OrderType,
    order_of: ProvinceID,
    order_from: ProvinceID,
    order_to: ProvinceID,
    order_strength: u8,
    resolved: bool,
    succeeded: bool,
    dislodged: bool,
}

impl View for Order {
    type V = OrderView;

    closed spec fn view(&self) -> OrderView {
        OrderView {
            original: self.original_order_type,
            kind: self.order_type,
            location: self.order_of,
            source: self.order_from,
            target: self.order_to,
            strength: self.order_strength as nat,
            resolved: self.resolved,
            succeeded: self.succeeded,
            dislodged: self.dislodged,
        }
    }
}

impl Order {
    /// The type's invariant: every order is well formed.
    #[verifier::type_invariant]
    pub open spec fn inv(self) -> bool {
        self@.wf()
    }

    /// Builds the order of kind `order_type` for the unit at `order_of`.
    ///
    /// A move must start where the unit stands and end elsewhere; a hold has
    /// the unit's province as origin and destination; a support or convoy
    /// names another unit's province as origin, and a convoy three distinct
    /// provinces.
    pub fn new(order_type: OrderType, order_of: ProvinceID, order_from: ProvinceID, order_to: ProvinceID) -> (built: Result<Order, OrderError>)
        ensures
            match built {
                Ok(order) => {
                    &&& player_kind(order_type)
                    &&& provinces_fit(order_type, order_of, order_from, order_to)
                    &&& order@ == OrderView::fresh(order_type, order_of, order_from, order_to)
                },
                Err(OrderError::NotAPlayerOrder) => !player_kind(order_type),
                Err(OrderError::MoveIntoOwnProvince) => order_type == OrderType::Move && order_to
                    == order_of,
                Err(OrderError::InconsistentProvinces) => {
                    &&& player_kind(order_type)
                    &&& !(order_type == OrderType::Move && order_to == order_of)
                    &&& !provinces_fit(order_type, order_of, order_from, order_to)
                },
            },
    {
        let fits = match order_type {
            OrderType::RequiredOrderNotGiven | OrderType::SupportCut => {
                return Err(OrderError::NotAPlayerOrder);
            },
            OrderType::Move => {
                if order_to == order_of {
                    return Err(OrderError::MoveIntoOwnProvince);
                }
                order_from == order_of
            },
            OrderType::Hold => order_from == order_of && order_to == order_of,
            OrderType::Support => order_from != order_of,
            OrderType::Convoy => order_from != order_of && order_to != order_of && order_from
                != order_to,
            OrderType::IllegalOrder => true,
        };
        if !fits {
            return Err(OrderError::InconsistentProvinces);
        }
        Ok(
            Order {
                original_order_type: order_type,
                order_type,
                order_of,
                order_from,
                order_to,
                order_strength: 1,
                resolved: false,
                succeeded: false,
                dislodged: false,
            },
        )
    }

    /// The kind the order was given with.
    pub fn original_order_type(&self) -> (kind: OrderType)
        ensures
            kind == self@.original,
    {
        self.original_order_type
    }

    /// The order's current kind.
    pub fn order_type(&self) -> (kind: OrderType)
        ensures
            kind == self@.kind,
    {
        self.order_type
    }

    /// The province of the ordered unit.
    pub fn location(&self) -> (province: ProvinceID)
        ensures
            province == self@.location,
    {
        self.order_of
    }

    /// The origin of the order.
    pub fn source(&self) -> (province: ProvinceID)
        ensures
            province == self@.source,
    {
        self.order_from
    }

    /// The destination of the order.
    pub fn target(&self) -> (province: ProvinceID)
        ensures
            province == self@.target,
    {
        self.order_to
    }

    /// The order's strength.
    pub fn strength(&self) -> (strength: u8)
        ensures
            strength == self@.strength,
    {
        self.order_strength
    }

    /// Whether the order's outcome is fixed.
    pub fn is_resolved(&self) -> (resolved: bool)
        ensures
            resolved == self@.resolved,
    {
        self.resolved
    }

    /// Whether the order did what it was given for.
    pub fn has_succeeded(&self) -> (succeeded: bool)
        ensures
            succeeded == self@.succeeded,
    {
        self.succeeded
    }

    /// Whether the unit was driven out of its province.
    pub fn is_dislodged(&self) -> (dislodged: bool)
        ensures
            dislodged == self@.dislodged,
    {
        self.dislodged
    }

    /// Whether the order is a move into `destination`.
    pub fn is_moving_into(&self, destination: ProvinceID) -> (yes: bool)
        ensures
            yes == self@.moves_into(destination),
    {
        (self.order_type == OrderType::Move) && (self.order_to == destination)
    }

    /// Whether the order supports the unit at `supporting` in staying there:
    /// a support whose origin and destination are both that province.
    pub fn is_support_holding(&self, supporting: ProvinceID) -> (yes: bool)
        ensures
            yes == self@.supports_hold(supporting),
    {
        (self.order_type == OrderType::Support) && (self.order_from == supporting) && (self.order_to
            == supporting)
    }

    /// Whether the order supports a move from `from` to `to`.
    pub fn is_support_moving(&self, from: ProvinceID, to: ProvinceID) -> (yes: bool)
        ensures
            yes == self@.supports_move(from, to),
    {
        (self.order_type == OrderType::Support) && (self.order_from == from) && (self.order_to
            == to)
    }

    /// Whether the order convoys a unit from `from` to `to`.
    pub fn is_convoying(&self, from: ProvinceID, to: ProvinceID) -> (yes: bool)
        ensures
            yes == self@.convoys(from, to),
    {
        (self.order_type == OrderType::Convoy) && (self.order_from == from) && (self.order_to
            == to)
    }

    /// Adds one to the strength of an order that is not yet resolved.
    pub fn increase_strength(&mut self)
        requires
            !old(self)@.resolved,
            old(self)@.strength < u8::MAX,
        ensures
            final(self)@ == (OrderView { strength: old(self)@.strength + 1, ..old(self)@ }),
    {
        proof {
            use_type_invariant(&*self);
        }
        self.order_strength = self.order_strength + 1;
    }

    /// The order with its outcome fixed: resolved, with `kind` as its kind
    /// from then on.
    pub(crate) fn settled(&self, kind: OrderType, succeeded: bool, dislodged: bool) -> (done: Order)
        requires
            self@.settle(kind, succeeded, dislodged).wf(),
        ensures
            done@ == self@.settle(kind, succeeded, dislodged),
    {
        Order {
            original_order_type: self.original_order_type,
            order_type: kind,
            order_of: self.order_of,
            order_from: self.order_from,
            order_to: self.order_to,
            order_strength: self.order_strength,
            resolved: true,
            succeeded,
            dislodged,
        }
    }
}

} // verus!
