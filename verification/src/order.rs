//! Orders: the atomic unit of the book. An order carries an identity, a side,
//! a remaining size and an arrival timestamp; resident orders at one price are
//! ranked by arrival (earliest first, ties broken by id).

use vstd::prelude::*;

verus! {

/// The side of an order: a bid buys, an ask sells.
#[derive(Debug, Copy, Clone, PartialEq, Eq, Structural)]
pub enum Side {
    Bid,
    Ask,
}

pub open spec fn spec_opposite(side: Side) -> Side {
    match side {
        Side::Bid => Side::Ask,
        Side::Ask => Side::Bid,
    }
}

impl Side {
    /// The side that an incoming order of this side is matched against.
    pub fn opposite(&self) -> (r: Side)
        ensures
            r == spec_opposite(*self),
    {
        match self {
            Side::Bid => Side::Ask,
            Side::Ask => Side::Bid,
        }
    }

    /// The side's lower-case name.
    pub fn as_str(&self) -> (r: &'static str)
        ensures
            *self is Bid ==> r@ == "bid"@,
            *self is Ask ==> r@ == "ask"@,
    {
        match self {
            Side::Bid => "bid",
            Side::Ask => "ask",
        }
    }
}

/// One order: identity, side, remaining size and arrival timestamp.
///
/// `size` is an exact decimal quantity in a caller-chosen minor unit; it is
/// decremented by the matching algorithm and `size == 0` marks the order
/// fully filled. Two orders are equal as entities exactly when their ids
/// match, regardless of the mutable size.
#[derive(Debug, Copy, Clone, Eq)]
pub struct Order {
    pub id: u128,
    pub size: u64,
    pub side: Side,
    pub timestamp: i64,
}

impl PartialEq for Order {
    fn eq(&self, other: &Self) -> (r: bool) {
        self.id == other.id
    }
}

impl vstd::std_specs::cmp::PartialEqSpecImpl for Order {
    open spec fn obeys_eq_spec() -> bool {
        true
    }

    open spec fn eq_spec(&self, other: &Self) -> bool {
        self.id == other.id
    }
}

/// `a` arrives strictly before `b`: earlier timestamp, ties broken by id.
pub open spec fn arrival_lt(a: Order, b: Order) -> bool {
    a.timestamp < b.timestamp || (a.timestamp == b.timestamp && a.id < b.id)
}

/// An ordering key over orders: arrival time, ties broken by id. It ranks
/// resident orders at one price so that time priority can be enforced.
#[derive(Debug, Clone, Copy, Eq, PartialEq)]
pub struct OrderByTimestamp(pub Order);

impl OrderByTimestamp {
    /// Whether this key ranks strictly before `other`.
    pub fn lt(&self, other: &OrderByTimestamp) -> (r: bool)
        ensures
            r == arrival_lt(self.0, other.0),
    {
        self.0.timestamp < other.0.timestamp || (self.0.timestamp == other.0.timestamp
            && self.0.id < other.0.id)
    }
}

/// Relies on `uuid::Uuid::new_v4`, a freshly generated random (version 4)
/// UUID, taken as its 128-bit value. The result is random: nothing is
/// promised of it.
#[verifier::external_body]
fn fresh_order_id() -> u128 {
    uuid::Uuid::new_v4().as_u128()
}

impl Order {
    /// A new order with a fresh identity and the current arrival timestamp.
    pub fn new(side: Side, size: u64) -> (r: Order)
        ensures
            r.side == side,
            r.size == size,
    {
        Order { id: fresh_order_id(), size, side, timestamp: crate::time::timestamp() }
    }

    /// A new bid with a fresh identity and the current arrival timestamp.
    pub fn bid(size: u64) -> (r: Order)
        ensures
            r.side == Side::Bid,
            r.size == size,
    {
        Order::new(Side::Bid, size)
    }

    /// A new ask with a fresh identity and the current arrival timestamp.
    pub fn ask(size: u64) -> (r: Order)
        ensures
            r.side == Side::Ask,
            r.size == size,
    {
        Order::new(Side::Ask, size)
    }

    /// Whether the order has been fully consumed.
    pub fn is_filled(&self) -> (r: bool)
        ensures
            r == (self.size == 0),
    {
        self.size == 0
    }
}

} // verus!
