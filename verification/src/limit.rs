//! A price level: all resting orders at one exact price, with an O(1)
//! aggregate volume counter. The resident orders are kept in arrival order
//! (earliest first, ties broken by id), which is what enforces time priority
//! during matching.

use vstd::prelude::*;

use crate::order::arrival_lt;
use crate::order::spec_opposite;
use crate::order::Order;
use crate::order::OrderByTimestamp;
use crate::order::Side;
use crate::order_book::Match;

verus! {

/// The mathematical model of a price level: its price and its resident
/// orders in arrival order.
pub ghost struct LimitModel {
    pub price: u64,
    pub orders: Seq<Order>,
}

/// The sum of the sizes of a sequence of orders.
pub open spec fn sum_sizes(s: Seq<Order>) -> int
    decreases s.len(),
{
    if s.len() == 0 {
        0
    } else {
        s[0].size + sum_sizes(s.drop_first())
    }
}

/// The orders arrive in strictly increasing arrival order.
pub open spec fn sorted_by_arrival(s: Seq<Order>) -> bool {
    forall|i: int, j: int| 0 <= i < j < s.len() ==> arrival_lt(#[trigger] s[i], #[trigger] s[j])
}

/// No two orders share an id.
pub open spec fn ids_unique(s: Seq<Order>) -> bool {
    forall|i: int, j: int|
        0 <= i < j < s.len() ==> (#[trigger] s[i]).id != (#[trigger] s[j]).id
}

/// Every order has a strictly positive remaining size.
pub open spec fn all_sized(s: Seq<Order>) -> bool {
    forall|i: int| 0 <= i < s.len() ==> (#[trigger] s[i]).size > 0
}

/// Every order is on the given side.
pub open spec fn all_side(s: Seq<Order>, side: Side) -> bool {
    forall|i: int| 0 <= i < s.len() ==> (#[trigger] s[i]).side == side
}

/// Some order in the sequence has the given id.
pub open spec fn contains_id(s: Seq<Order>, id: u128) -> bool {
    exists|i: int| 0 <= i < s.len() && (#[trigger] s[i]).id == id
}

/// The sequence with `o` inserted at its arrival-order position.
pub open spec fn insert_by_arrival(s: Seq<Order>, o: Order) -> Seq<Order>
    decreases s.len(),
{
    if s.len() == 0 {
        seq![o]
    } else if arrival_lt(o, s[0]) {
        seq![o] + s
    } else {
        seq![s[0]] + insert_by_arrival(s.drop_first(), o)
    }
}

/// The first order with the given id, if any.
pub open spec fn find_order(s: Seq<Order>, id: u128) -> Option<Order>
    decreases s.len(),
{
    if s.len() == 0 {
        None
    } else if s[0].id == id {
        Some(s[0])
    } else {
        find_order(s.drop_first(), id)
    }
}

/// The sequence with the first order of the given id removed.
pub open spec fn remove_order_seq(s: Seq<Order>, id: u128) -> Seq<Order>
    decreases s.len(),
{
    if s.len() == 0 {
        s
    } else if s[0].id == id {
        s.drop_first()
    } else {
        seq![s[0]] + remove_order_seq(s.drop_first(), id)
    }
}

impl LimitModel {
    /// Well-formedness of a price level: resident orders in strict arrival
    /// order, ids unique, and every resident still has size to trade.
    pub open spec fn wf(self) -> bool {
        &&& sorted_by_arrival(self.orders)
        &&& ids_unique(self.orders)
        &&& all_sized(self.orders)
    }
}

pub proof fn lemma_sum_nonneg(s: Seq<Order>)
    ensures
        sum_sizes(s) >= 0,
    decreases s.len(),
{
    if s.len() > 0 {
        lemma_sum_nonneg(s.drop_first());
    }
}

pub proof fn lemma_sum_concat(a: Seq<Order>, b: Seq<Order>)
    ensures
        sum_sizes(a + b) == sum_sizes(a) + sum_sizes(b),
    decreases a.len(),
{
    if a.len() == 0 {
        assert(a + b =~= b);
    } else {
        assert((a + b).drop_first() =~= a.drop_first() + b);
        lemma_sum_concat(a.drop_first(), b);
    }
}

pub proof fn lemma_sum_push(s: Seq<Order>, o: Order)
    ensures
        sum_sizes(s.push(o)) == sum_sizes(s) + o.size,
{
    assert(s.push(o) =~= s + seq![o]);
    lemma_sum_concat(s, seq![o]);
    assert(sum_sizes(seq![o]) == o.size + sum_sizes(seq![o].drop_first()));
    assert(seq![o].drop_first() =~= Seq::<Order>::empty());
}

/// Splitting a sequence at any point splits its volume.
pub proof fn lemma_sum_split(s: Seq<Order>, i: int)
    requires
        0 <= i <= s.len(),
    ensures
        sum_sizes(s) == sum_sizes(s.take(i)) + sum_sizes(s.skip(i)),
{
    assert(s.take(i) + s.skip(i) =~= s);
    lemma_sum_concat(s.take(i), s.skip(i));
}

/// Stepping a suffix forward by one element.
pub proof fn lemma_skip_step<T>(s: Seq<T>, i: int)
    requires
        0 <= i < s.len(),
    ensures
        s.skip(i).len() == s.len() - i,
        s.skip(i)[0] == s[i],
        s.skip(i).drop_first() =~= s.skip(i + 1),
        s.skip(i) =~= seq![s[i]] + s.skip(i + 1),
{
    assert(s.skip(i).drop_first() =~= s.skip(i + 1));
    assert(s.skip(i) =~= seq![s[i]] + s.skip(i + 1));
}

/// `insert_by_arrival` inserts at the first position whose resident arrives
/// after the new order.
proof fn lemma_insert_by_arrival_at(s: Seq<Order>, o: Order, pos: int)
    requires
        0 <= pos <= s.len(),
        forall|i: int| 0 <= i < pos ==> !arrival_lt(o, #[trigger] s[i]),
        pos < s.len() ==> arrival_lt(o, s[pos]),
    ensures
        insert_by_arrival(s, o) =~= s.insert(pos, o),
    decreases s.len(),
{
    if s.len() == 0 {
        assert(insert_by_arrival(s, o) =~= s.insert(0, o));
    } else if pos == 0 {
        assert(arrival_lt(o, s[0]));
        assert(seq![o] + s =~= s.insert(0, o));
    } else {
        assert(!arrival_lt(o, s[0]));
        assert forall|i: int| 0 <= i < pos - 1 implies !arrival_lt(o, #[trigger] s.drop_first()[i]) by {
            assert(s.drop_first()[i] == s[i + 1]);
        }
        if pos - 1 < s.drop_first().len() {
            assert(s.drop_first()[pos - 1] == s[pos]);
        }
        lemma_insert_by_arrival_at(s.drop_first(), o, pos - 1);
        assert(seq![s[0]] + s.drop_first().insert(pos - 1, o) =~= s.insert(pos, o));
    }
}

/// `find_order` and `remove_order_seq` at a concrete position: if the first
/// occurrence of `id` is at `pos`, finding returns that order and removal
/// deletes exactly that position.
proof fn lemma_find_remove_at(s: Seq<Order>, id: u128, pos: int)
    requires
        0 <= pos < s.len(),
        forall|i: int| 0 <= i < pos ==> (#[trigger] s[i]).id != id,
        s[pos].id == id,
    ensures
        find_order(s, id) == Some(s[pos]),
        remove_order_seq(s, id) =~= s.remove(pos),
    decreases s.len(),
{
    if pos == 0 {
        assert(s.drop_first() =~= s.remove(0));
    } else {
        assert(s[0].id != id);
        assert forall|i: int| 0 <= i < pos - 1 implies (#[trigger] s.drop_first()[i]).id != id by {
            assert(s.drop_first()[i] == s[i + 1]);
        }
        assert(s.drop_first()[pos - 1] == s[pos]);
        lemma_find_remove_at(s.drop_first(), id, pos - 1);
        assert(seq![s[0]] + s.drop_first().remove(pos - 1) =~= s.remove(pos));
    }
}

/// A successful find returns an element of the sequence carrying the id.
pub proof fn lemma_find_order_contains(s: Seq<Order>, id: u128)
    ensures
        find_order(s, id) is Some <==> contains_id(s, id),
        find_order(s, id) is Some ==> {
            let o = find_order(s, id)->0;
            &&& o.id == id
            &&& exists|w: int| 0 <= w < s.len() && #[trigger] s[w] == o
        },
    decreases s.len(),
{
    if s.len() == 0 {
        assert(!contains_id(s, id));
    } else if s[0].id == id {
        assert(contains_id(s, id));
    } else {
        lemma_find_order_contains(s.drop_first(), id);
        if find_order(s, id) is Some {
            let o = find_order(s, id)->0;
            let w = choose|w: int| 0 <= w < s.drop_first().len() && #[trigger] s.drop_first()[w]
                == o;
            assert(s[w + 1] == o);
            let w2 = choose|w2: int|
                0 <= w2 < s.drop_first().len() && (#[trigger] s.drop_first()[w2]).id == id;
            assert(s[w2 + 1].id == id);
        } else {
            if contains_id(s, id) {
                let w = choose|w: int| 0 <= w < s.len() && (#[trigger] s[w]).id == id;
                assert(s.drop_first()[w - 1].id == id);
            }
        }
    }
}

/// When no order has the id, finding and removal are trivial.
proof fn lemma_find_remove_absent(s: Seq<Order>, id: u128)
    requires
        forall|i: int| 0 <= i < s.len() ==> (#[trigger] s[i]).id != id,
    ensures
        find_order(s, id) == None::<Order>,
        remove_order_seq(s, id) =~= s,
    decreases s.len(),
{
    if s.len() > 0 {
        assert forall|i: int| 0 <= i < s.drop_first().len() implies (#[trigger] s.drop_first()[
            i
        ]).id != id by {
            assert(s.drop_first()[i] == s[i + 1]);
        }
        lemma_find_remove_absent(s.drop_first(), id);
        assert(seq![s[0]] + s.drop_first() =~= s);
    }
}

/// The arrival-order position for a new order: the index of the first
/// resident that arrives after it.
fn arrival_position(orders: &Vec<Order>, order: Order) -> (pos: usize)
    ensures
        0 <= pos <= orders@.len(),
        forall|i: int| 0 <= i < pos ==> !arrival_lt(order, #[trigger] orders@[i]),
        pos < orders@.len() ==> arrival_lt(order, orders@[pos as int]),
{
    let key = OrderByTimestamp(order);
    let mut pos: usize = 0;
    while pos < orders.len()
        invariant
            0 <= pos <= orders@.len(),
            key.0 == order,
            forall|i: int| 0 <= i < pos ==> !arrival_lt(order, #[trigger] orders@[i]),
        decreases orders@.len() - pos,
    {
        let resident = OrderByTimestamp(orders[pos]);
        if key.lt(&resident) {
            return pos;
        }
        pos += 1;
    }
    pos
}

/// The position of the first resident with the given id, if any.
fn find_position(orders: &Vec<Order>, id: u128) -> (r: Option<usize>)
    ensures
        match r {
            Some(pos) => {
                &&& 0 <= pos < orders@.len()
                &&& orders@[pos as int].id == id
                &&& forall|i: int| 0 <= i < pos ==> (#[trigger] orders@[i]).id != id
            },
            None => forall|i: int| 0 <= i < orders@.len() ==> (#[trigger] orders@[i]).id != id,
        },
{
    let mut pos: usize = 0;
    while pos < orders.len()
        invariant
            0 <= pos <= orders@.len(),
            forall|i: int| 0 <= i < pos ==> (#[trigger] orders@[i]).id != id,
        decreases orders@.len() - pos,
    {
        if orders[pos].id == id {
            return Some(pos);
        }
        pos += 1;
    }
    None
}

/// A price level of the book: all resting orders at `price`, kept in arrival
/// order, with the aggregate `total_volume` maintained incrementally.
#[derive(Debug)]
pub struct Limit {
    pub price: u64,
    pub orders: Vec<Order>,
    pub total_volume: u64,
}

impl View for Limit {
    type V = LimitModel;

    open spec fn view(&self) -> LimitModel {
        LimitModel { price: self.price, orders: self.orders@ }
    }
}

impl Limit {
    /// Well-formedness: the model is well formed and the cached volume is
    /// exactly the sum of the resident sizes.
    pub open spec fn wf(&self) -> bool {
        &&& self@.wf()
        &&& self.total_volume == sum_sizes(self.orders@)
    }

    /// An empty price level at the given price.
    pub fn new(price: u64) -> (r: Limit)
        ensures
            r.wf(),
            r.price == price,
            r.orders@ =~= Seq::<Order>::empty(),
            r.total_volume == 0,
    {
        Limit { price, orders: Vec::new(), total_volume: 0 }
    }

    /// True iff no orders reside at this level.
    pub fn is_empty(&self) -> (r: bool)
        ensures
            r == (self.orders@.len() == 0),
    {
        self.orders.len() == 0
    }

    /// Inserts an order at its arrival-order position and adds its size to
    /// the aggregate volume. The caller guarantees the order is not already
    /// present.
    pub fn add_order(&mut self, order: Order)
        requires
            old(self).wf(),
            order.size > 0,
            !contains_id(old(self).orders@, order.id),
            sum_sizes(old(self).orders@) + order.size <= u64::MAX,
        ensures
            final(self).wf(),
            final(self).price == old(self).price,
            final(self).orders@ == insert_by_arrival(old(self).orders@, order),
            final(self).orders@.len() == old(self).orders@.len() + 1,
            final(self).total_volume == old(self).total_volume + order.size,
            forall|id: u128|
                #[trigger] contains_id(final(self).orders@, id) <==> (contains_id(
                    old(self).orders@,
                    id,
                ) || id == order.id),
            forall|k: int|
                0 <= k < final(self).orders@.len() ==> (final(self).orders@[k] == order || old(
                    self,
                ).orders@.contains(#[trigger] final(self).orders@[k])),
    {
        let ghost s = self.orders@;
        let pos = arrival_position(&self.orders, order);
        proof {
            lemma_insert_by_arrival_at(s, order, pos as int);
        }
        self.orders.insert(pos, order);
        proof {
            let t = self.orders@;
            assert(t =~= s.take(pos as int) + seq![order] + s.skip(pos as int));
            lemma_sum_concat(s.take(pos as int) + seq![order], s.skip(pos as int));
            lemma_sum_concat(s.take(pos as int), seq![order]);
            assert(sum_sizes(seq![order]) == order.size + sum_sizes(seq![order].drop_first()));
            assert(seq![order].drop_first() =~= Seq::<Order>::empty());
            lemma_sum_split(s, pos as int);
            // Sortedness, uniqueness and membership of the inserted sequence.
            assert forall|i: int, j: int| 0 <= i < j < t.len() implies arrival_lt(
                #[trigger] t[i],
                #[trigger] t[j],
            ) by {
                lemma_arrival_insert_sorted(s, order, pos as int, i, j);
            }
            assert forall|i: int, j: int|
                0 <= i < j < t.len() implies (#[trigger] t[i]).id != (#[trigger] t[j]).id by {
                if i != pos && j != pos {
                    let i0: int = if i < pos { i } else { i - 1 };
                    let j0: int = if j < pos { j } else { j - 1 };
                    assert(t[i] == s[i0] && t[j] == s[j0]);
                } else if i == pos {
                    let j0: int = j - 1;
                    assert(t[j] == s[j0]);
                    assert(!contains_id(s, order.id));
                    assert(!(s[j0].id == order.id));
                } else {
                    assert(t[i] == s[i]);
                    assert(!(s[i].id == order.id));
                }
            }
            assert forall|id: u128| #[trigger]
                contains_id(t, id) implies (contains_id(s, id) || id == order.id) by {
                let w = choose|w: int| 0 <= w < t.len() && (#[trigger] t[w]).id == id;
                if w < pos {
                    assert(s[w].id == id);
                } else if w > pos {
                    assert(s[w - 1].id == id);
                }
            }
            assert forall|id: u128|
                (contains_id(s, id) || id == order.id) implies #[trigger] contains_id(t, id) by {
                if id == order.id {
                    assert(t[pos as int].id == id);
                } else {
                    let w = choose|w: int| 0 <= w < s.len() && (#[trigger] s[w]).id == id;
                    if w < pos {
                        assert(t[w].id == id);
                    } else {
                        assert(t[w + 1].id == id);
                    }
                }
            }
            assert forall|k: int|
                0 <= k < t.len() && t[k] != order implies s.contains(#[trigger] t[k]) by {
                if k < pos {
                    assert(t[k] == s[k]);
                } else if k > pos {
                    assert(t[k] == s[k - 1]);
                }
            }
        }
        self.total_volume = self.total_volume + order.size;
    }

    /// Removes the order with the given id from the level, subtracting its
    /// size from the aggregate volume; absence is a normal, reported outcome.
    #[verifier::rlimit(50)]
    pub fn remove_order(&mut self, id: u128) -> (r: Option<Order>)
        requires
            old(self).wf(),
        ensures
            final(self).wf(),
            final(self).price == old(self).price,
            r == find_order(old(self).orders@, id),
            final(self).orders@ == remove_order_seq(old(self).orders@, id),
            r is None ==> *final(self) == *old(self),
            r is Some ==> {
                &&& contains_id(old(self).orders@, id)
                &&& r->0.id == id
                &&& final(self).orders@.len() == old(self).orders@.len() - 1
                &&& final(self).total_volume == old(self).total_volume - r->0.size
                &&& !contains_id(final(self).orders@, id)
            },
            r is None <==> !contains_id(old(self).orders@, id),
            forall|id2: u128|
                id2 != id ==> (#[trigger] contains_id(final(self).orders@, id2) <==> contains_id(
                    old(self).orders@,
                    id2,
                )),
            forall|k: int|
                0 <= k < final(self).orders@.len() ==> old(self).orders@.contains(
                    #[trigger] final(self).orders@[k],
                ),
    {
        let ghost s = self.orders@;
        let pos = match find_position(&self.orders, id) {
            None => {
                proof {
                    lemma_find_remove_absent(s, id);
                }
                return None;
            },
            Some(pos) => pos,
        };
        proof {
            lemma_find_remove_at(s, id, pos as int);
        }
        let removed = self.orders.remove(pos);
        proof {
            let t = self.orders@;
            assert(t =~= s.take(pos as int) + s.skip(pos as int + 1));
            lemma_sum_split(s, pos as int);
            lemma_skip_step(s, pos as int);
            lemma_sum_concat(seq![s[pos as int]], s.skip(pos as int + 1));
            assert(sum_sizes(seq![s[pos as int]] + s.skip(pos as int + 1)) == sum_sizes(
                s.skip(pos as int),
            ));
            assert(sum_sizes(seq![s[pos as int]]) == s[pos as int].size);
            lemma_sum_concat(s.take(pos as int), s.skip(pos as int + 1));
            lemma_sum_nonneg(s.take(pos as int));
            lemma_sum_nonneg(s.skip(pos as int + 1));
            assert forall|i: int, j: int| 0 <= i < j < t.len() implies arrival_lt(
                #[trigger] t[i],
                #[trigger] t[j],
            ) by {
                let i0: int = if i < pos { i } else { i + 1 };
                let j0: int = if j < pos { j } else { j + 1 };
                assert(t[i] == s[i0] && t[j] == s[j0]);
            }
            assert forall|i: int, j: int|
                0 <= i < j < t.len() implies (#[trigger] t[i]).id != (#[trigger] t[j]).id by {
                let i0: int = if i < pos { i } else { i + 1 };
                let j0: int = if j < pos { j } else { j + 1 };
                assert(t[i] == s[i0] && t[j] == s[j0]);
            }
            assert forall|k: int| 0 <= k < t.len() implies s.contains(#[trigger] t[k]) by {
                let k0: int = if k < pos { k } else { k + 1 };
                assert(t[k] == s[k0]);
            }
            assert(!contains_id(t, id)) by {
                if contains_id(t, id) {
                    let w = choose|w: int| 0 <= w < t.len() && (#[trigger] t[w]).id == id;
                    let w0: int = if w < pos { w } else { w + 1 };
                    assert(t[w] == s[w0]);
                    assert(s[w0].id == id && s[pos as int].id == id && w0 != pos);
                }
            }
            assert forall|id2: u128|
                id2 != id && contains_id(s, id2) implies #[trigger] contains_id(t, id2) by {
                let w = choose|w: int| 0 <= w < s.len() && (#[trigger] s[w]).id == id2;
                if w < pos {
                    assert(t[w].id == id2);
                } else {
                    assert(w > pos);
                    assert(t[w - 1].id == id2);
                }
            }
        }
        self.total_volume = self.total_volume - removed.size;
        Some(removed)
    }

    /// Pairs two orders of opposite sides: the smaller remaining size is
    /// transferred, both orders are decremented by it, and the produced leg
    /// records post-fill snapshots of both at the given price.
    fn match_orders(order1: &mut Order, order2: &mut Order, price: u64) -> (m: Match)
        requires
            old(order1).side == spec_opposite(old(order2).side),
        ensures
            m == spec_match(*old(order1), *old(order2), price),
            *final(order1) == taker_of(m, old(order1).side),
            *final(order2) == resident_of(m, old(order1).side),
    {
        let a = *order1;
        let b = *order2;
        let size_filled = if a.size <= b.size {
            a.size
        } else {
            b.size
        };
        order1.size = a.size - size_filled;
        order2.size = b.size - size_filled;
        if a.side == Side::Bid {
            Match { ask: *order2, bid: *order1, size_filled, price }
        } else {
            Match { ask: *order1, bid: *order2, size_filled, price }
        }
    }

    /// The matching step within one price level: repeatedly pairs the
    /// aggressor against the resident orders in arrival order (oldest first,
    /// ties by id), stopping as soon as the aggressor is fully consumed;
    /// fully consumed residents are removed and the aggregate volume is
    /// decremented by the total quantity transferred. Returns the ordered
    /// sequence of legs produced.
    pub fn fill(&mut self, order: &mut Order) -> (matches: Vec<Match>)
        requires
            old(self).wf(),
            all_side(old(self).orders@, spec_opposite(old(order).side)),
        ensures
            final(self).wf(),
            final(self).price == old(self).price,
            matches@ == spec_fill(old(self).orders@, *old(order), old(self).price).matches,
            final(self).orders@ == spec_fill(old(self).orders@, *old(order), old(self).price).remaining,
            *final(order) == spec_fill(old(self).orders@, *old(order), old(self).price).taker,
    {
        let ghost orders0 = self.orders@;
        let ghost taker0 = *order;
        let ghost p = self.price;
        let mut matches: Vec<Match> = Vec::new();
        let mut kept: Vec<Order> = Vec::new();
        let mut filled_total: u64 = 0;
        let mut i: usize = 0;
        proof {
            assert(orders0.skip(0) =~= orders0);
            assert(orders0.take(0) =~= Seq::<Order>::empty());
            assert(Seq::<Match>::empty() + spec_fill(orders0, taker0, p).matches =~= spec_fill(
                orders0,
                taker0,
                p,
            ).matches);
            assert(Seq::<Order>::empty() + spec_fill(orders0, taker0, p).remaining =~= spec_fill(
                orders0,
                taker0,
                p,
            ).remaining);
        }
        while i < self.orders.len()
            invariant
                0 <= i <= orders0.len(),
                self.orders@ == orders0,
                self.price == p,
                self.total_volume == sum_sizes(orders0),
                all_side(orders0, spec_opposite(taker0.side)),
                order.side == taker0.side,
                order.size <= taker0.size,
                filled_total == taker0.size - order.size,
                spec_fill(orders0, taker0, p).matches == matches@ + spec_fill(
                    orders0.skip(i as int),
                    *order,
                    p,
                ).matches,
                spec_fill(orders0, taker0, p).remaining == kept@ + spec_fill(
                    orders0.skip(i as int),
                    *order,
                    p,
                ).remaining,
                spec_fill(orders0, taker0, p).taker == spec_fill(
                    orders0.skip(i as int),
                    *order,
                    p,
                ).taker,
                sum_sizes(kept@) == sum_sizes(orders0.take(i as int)) - filled_total,
            decreases orders0.len() - i,
        {
            let ghost pre_taker = *order;
            let ghost tail = orders0.skip(i as int);
            let ghost kept0 = kept@;
            let ghost ms0 = matches@;
            proof {
                lemma_skip_step(orders0, i as int);
                assert(orders0.take(i as int + 1) =~= orders0.take(i as int).push(
                    orders0[i as int],
                ));
                lemma_sum_push(orders0.take(i as int), orders0[i as int]);
            }
            let resident0 = self.orders[i];
            if order.size == 0 {
                kept.push(resident0);
                proof {
                    lemma_sum_push(kept0, resident0);
                    assert(spec_fill(tail, pre_taker, p).remaining == tail);
                    assert(spec_fill(tail, pre_taker, p).matches
                        == Seq::<Match>::empty());
                    assert(spec_fill(orders0.skip(i as int + 1), pre_taker, p).remaining
                        == orders0.skip(i as int + 1));
                    assert(kept0 + tail =~= kept@ + orders0.skip(i as int + 1));
                }
            } else {
                let mut resident = resident0;
                let m = Self::match_orders(order, &mut resident, self.price);
                matches.push(m);
                if resident.size > 0 {
                    kept.push(resident);
                }
                proof {
                    lemma_fill_unfold(tail, pre_taker, p);
                    assert(tail[0] == orders0[i as int]);
                    assert(tail.drop_first() =~= orders0.skip(i as int + 1));
                    assert(m == spec_match(pre_taker, orders0[i as int], p));
                    assert(*order == taker_of(m, pre_taker.side));
                    assert(resident == resident_of(m, pre_taker.side));
                    let rest = spec_fill(orders0.skip(i as int + 1), *order, p);
                    assert(ms0 + (seq![m] + rest.matches) =~= (ms0 + seq![m]) + rest.matches);
                    assert(matches@ =~= ms0 + seq![m]);
                    if resident.size > 0 {
                        assert(kept0 + (seq![resident] + rest.remaining) =~= (kept0 + seq![
                            resident,
                        ]) + rest.remaining);
                        assert(kept@ =~= kept0 + seq![resident]);
                        lemma_sum_push(kept0, resident);
                    } else {
                        assert(kept0 + (Seq::<Order>::empty() + rest.remaining) =~= kept0
                            + rest.remaining);
                    }
                    assert(order.size == pre_taker.size - m.size_filled);
                    assert(filled_total + m.size_filled <= taker0.size);
                }
                filled_total = filled_total + m.size_filled;
            }
            i += 1;
        }
        proof {
            assert(orders0.skip(orders0.len() as int) =~= Seq::<Order>::empty());
            assert(matches@ + Seq::<Match>::empty() =~= matches@);
            assert(kept@ + Seq::<Order>::empty() =~= kept@);
            lemma_sum_nonneg(kept@);
            assert(orders0.take(orders0.len() as int) =~= orders0);
            lemma_fill_props(orders0, taker0, p);
        }
        self.orders = kept;
        self.total_volume = self.total_volume - filled_total;
        matches
    }
}

/// The outcome of matching an aggressor against the resident orders of one
/// price level: the trade legs produced, the residents that survive, and the
/// aggressor with its remaining size.
pub ghost struct FillOutcome {
    pub matches: Seq<Match>,
    pub remaining: Seq<Order>,
    pub taker: Order,
}

/// One pairing of the aggressor with a resident order: the transferred
/// quantity is the smaller of the two remaining sizes, both sizes are
/// decremented by it, and the leg records the post-fill snapshots at the
/// resting order's price.
pub open spec fn spec_match(taker: Order, resident: Order, price: u64) -> Match {
    let q = if taker.size <= resident.size {
        taker.size
    } else {
        resident.size
    };
    let new_taker = Order {
        id: taker.id,
        size: (taker.size - q) as u64,
        side: taker.side,
        timestamp: taker.timestamp,
    };
    let new_resident = Order {
        id: resident.id,
        size: (resident.size - q) as u64,
        side: resident.side,
        timestamp: resident.timestamp,
    };
    if taker.side == Side::Bid {
        Match { ask: new_resident, bid: new_taker, size_filled: q, price }
    } else {
        Match { ask: new_taker, bid: new_resident, size_filled: q, price }
    }
}

/// The resident (maker) snapshot recorded in a trade leg, given the
/// aggressor's side.
pub open spec fn resident_of(m: Match, taker_side: Side) -> Order {
    if taker_side == Side::Bid {
        m.ask
    } else {
        m.bid
    }
}

/// The aggressor (taker) snapshot recorded in a trade leg, given its side.
pub open spec fn taker_of(m: Match, taker_side: Side) -> Order {
    if taker_side == Side::Bid {
        m.bid
    } else {
        m.ask
    }
}

/// The matching step within one price level: the aggressor is paired against
/// the resident orders in sequence order (which the level keeps as arrival
/// order), fully consumed residents are removed, and matching stops as soon
/// as the aggressor's size reaches zero.
pub open spec fn spec_fill(orders: Seq<Order>, taker: Order, price: u64) -> FillOutcome
    decreases orders.len(),
{
    if taker.size == 0 || orders.len() == 0 {
        FillOutcome { matches: Seq::empty(), remaining: orders, taker }
    } else {
        let m = spec_match(taker, orders[0], price);
        let new_taker = taker_of(m, taker.side);
        let new_resident = resident_of(m, taker.side);
        let rest = spec_fill(orders.drop_first(), new_taker, price);
        FillOutcome {
            matches: seq![m] + rest.matches,
            remaining: (if new_resident.size == 0 {
                Seq::<Order>::empty()
            } else {
                seq![new_resident]
            }) + rest.remaining,
            taker: rest.taker,
        }
    }
}

/// Some leg in the sequence fully consumed the resident with the given id.
pub open spec fn match_removes(ms: Seq<Match>, taker_side: Side, id: u128) -> bool {
    exists|j: int|
        0 <= j < ms.len() && resident_of(#[trigger] ms[j], taker_side).size == 0 && resident_of(
            ms[j],
            taker_side,
        ).id == id
}

/// One unfolding step of `spec_fill` for a non-exhausted aggressor.
proof fn lemma_fill_unfold(orders: Seq<Order>, taker: Order, price: u64)
    requires
        orders.len() > 0,
        taker.size > 0,
    ensures
        ({
            let m = spec_match(taker, orders[0], price);
            let nt = taker_of(m, taker.side);
            let nr = resident_of(m, taker.side);
            let rest = spec_fill(orders.drop_first(), nt, price);
            &&& spec_fill(orders, taker, price).matches == seq![m] + rest.matches
            &&& spec_fill(orders, taker, price).remaining == (if nr.size == 0 {
                Seq::<Order>::empty()
            } else {
                seq![nr]
            }) + rest.remaining
            &&& spec_fill(orders, taker, price).taker == rest.taker
        }),
{
}

/// The positional shape of a fill: a fully consumed prefix of `d` residents
/// leaves; the survivors keep their identity, side and arrival mark, aligned
/// with the old suffix, and only the first survivor may have shrunk. Each
/// leg `j` pairs the aggressor with resident `j`, at the level's price.
/// Identity and accounting of a fill: the aggressor keeps its identity and
/// leaves with exactly the size that the level could not supply, and the
/// volume the survivors lose is exactly what the aggressor gained.
#[verifier::spinoff_prover]
proof fn lemma_fill_taker_sum(orders: Seq<Order>, taker: Order, price: u64)
    ensures
        ({
            let f = spec_fill(orders, taker, price);
            &&& f.taker.id == taker.id
            &&& f.taker.side == taker.side
            &&& f.taker.timestamp == taker.timestamp
            &&& f.taker.size == (if sum_sizes(orders) >= taker.size {
                0
            } else {
                taker.size - sum_sizes(orders)
            })
            &&& f.remaining.len() <= orders.len()
            &&& sum_sizes(f.remaining) == sum_sizes(orders) - (taker.size - f.taker.size)
        }),
    decreases orders.len(),
{
    let f = spec_fill(orders, taker, price);
    if taker.size == 0 || orders.len() == 0 {
        lemma_sum_nonneg(orders);
    } else {
        let m = spec_match(taker, orders[0], price);
        let nt = taker_of(m, taker.side);
        let nr = resident_of(m, taker.side);
        let tail = orders.drop_first();
        let rest = spec_fill(tail, nt, price);
        lemma_fill_unfold(orders, taker, price);
        lemma_fill_taker_sum(tail, nt, price);
        lemma_sum_nonneg(tail);
        if nr.size == 0 {
            assert(f.remaining =~= rest.remaining);
        } else {
            assert(nt.size == 0);
            assert(rest.remaining == tail);
            assert(f.remaining =~= seq![nr] + tail);
            assert(sum_sizes(f.remaining) == nr.size + sum_sizes(tail)) by {
                lemma_sum_concat(seq![nr], tail);
                assert(sum_sizes(seq![nr]) == nr.size + sum_sizes(seq![nr].drop_first()));
                assert(seq![nr].drop_first() =~= Seq::<Order>::empty());
            }
        }
    }
}

/// The survivors of a fill: a fully consumed prefix of `d` residents leaves;
/// each survivor keeps its identity, side and arrival mark, aligned with the
/// old suffix, and only the first survivor may have shrunk.
#[verifier::rlimit(100)]
#[verifier::spinoff_prover]
proof fn lemma_fill_remaining(orders: Seq<Order>, taker: Order, price: u64)
    requires
        all_sized(orders),
    ensures
        ({
            let f = spec_fill(orders, taker, price);
            let d = orders.len() - f.remaining.len();
            &&& 0 <= d <= orders.len()
            &&& forall|j: int|
                0 <= j < f.remaining.len() ==> {
                    &&& (#[trigger] f.remaining[j]).id == orders[d + j].id
                    &&& f.remaining[j].side == orders[d + j].side
                    &&& f.remaining[j].timestamp == orders[d + j].timestamp
                    &&& 0 < f.remaining[j].size <= orders[d + j].size
                    &&& (j > 0 ==> f.remaining[j] == orders[d + j])
                }
        }),
    decreases orders.len(),
{
    let f = spec_fill(orders, taker, price);
    let d = orders.len() - f.remaining.len();
    if taker.size == 0 || orders.len() == 0 {
    } else {
        let m = spec_match(taker, orders[0], price);
        let nt = taker_of(m, taker.side);
        let nr = resident_of(m, taker.side);
        let tail = orders.drop_first();
        let rest = spec_fill(tail, nt, price);
        lemma_fill_unfold(orders, taker, price);
        assert forall|i: int| 0 <= i < tail.len() implies (#[trigger] tail[i]).size > 0 by {
            assert(tail[i] == orders[i + 1]);
        }
        lemma_fill_remaining(tail, nt, price);
        let d2 = tail.len() - rest.remaining.len();
        if nr.size == 0 {
            assert(f.remaining =~= rest.remaining);
            assert(d == d2 + 1);
            assert forall|j: int|
                0 <= j < f.remaining.len() implies {
                    &&& (#[trigger] f.remaining[j]).id == orders[d + j].id
                    &&& f.remaining[j].side == orders[d + j].side
                    &&& f.remaining[j].timestamp == orders[d + j].timestamp
                    &&& 0 < f.remaining[j].size <= orders[d + j].size
                    &&& (j > 0 ==> f.remaining[j] == orders[d + j])
                } by {
                assert(f.remaining[j] == rest.remaining[j]);
                assert(tail[d2 + j] == orders[d + j]);
            }
        } else {
            assert(nt.size == 0);
            assert(rest.remaining == tail);
            assert(f.remaining =~= seq![nr] + tail);
            assert(d == 0);
            assert forall|j: int|
                0 <= j < f.remaining.len() implies {
                    &&& (#[trigger] f.remaining[j]).id == orders[d + j].id
                    &&& f.remaining[j].side == orders[d + j].side
                    &&& f.remaining[j].timestamp == orders[d + j].timestamp
                    &&& 0 < f.remaining[j].size <= orders[d + j].size
                    &&& (j > 0 ==> f.remaining[j] == orders[d + j])
                } by {
                if j > 0 {
                    assert(f.remaining[j] == tail[j - 1]);
                    assert(tail[j - 1] == orders[j]);
                }
            }
        }
    }
}

/// The legs of a fill: leg `j` pairs the aggressor with resident `j`, at the
/// level's price, transferring a positive quantity; exactly the residents of
/// the fully consumed prefix appear with a zero-size snapshot.
#[verifier::spinoff_prover]
proof fn lemma_fill_matches(orders: Seq<Order>, taker: Order, price: u64)
    requires
        all_sized(orders),
    ensures
        ({
            let f = spec_fill(orders, taker, price);
            let d = orders.len() - f.remaining.len();
            &&& 0 <= d <= orders.len()
            &&& d <= f.matches.len() <= orders.len()
            &&& (f.matches.len() == d || f.matches.len() == d + 1)
            &&& forall|j: int|
                0 <= j < f.matches.len() ==> {
                    &&& (#[trigger] f.matches[j]).price == price
                    &&& f.matches[j].size_filled > 0
                    &&& resident_of(f.matches[j], taker.side).id == orders[j].id
                    &&& resident_of(f.matches[j], taker.side).side == orders[j].side
                    &&& resident_of(f.matches[j], taker.side).timestamp == orders[j].timestamp
                    &&& taker_of(f.matches[j], taker.side).id == taker.id
                    &&& taker_of(f.matches[j], taker.side).side == taker.side
                    &&& (resident_of(f.matches[j], taker.side).size == 0 <==> j < d)
                }
        }),
    decreases orders.len(),
{
    let f = spec_fill(orders, taker, price);
    let d = orders.len() - f.remaining.len();
    if taker.size == 0 || orders.len() == 0 {
    } else {
        let m = spec_match(taker, orders[0], price);
        let nt = taker_of(m, taker.side);
        let nr = resident_of(m, taker.side);
        let tail = orders.drop_first();
        let rest = spec_fill(tail, nt, price);
        lemma_fill_unfold(orders, taker, price);
        assert forall|i: int| 0 <= i < tail.len() implies (#[trigger] tail[i]).size > 0 by {
            assert(tail[i] == orders[i + 1]);
        }
        lemma_fill_matches(tail, nt, price);
        let d2 = tail.len() - rest.remaining.len();
        if nr.size == 0 {
            assert(f.remaining =~= rest.remaining);
            assert(d == d2 + 1);
            assert forall|j: int|
                0 <= j < f.matches.len() implies {
                    &&& (#[trigger] f.matches[j]).price == price
                    &&& f.matches[j].size_filled > 0
                    &&& resident_of(f.matches[j], taker.side).id == orders[j].id
                    &&& resident_of(f.matches[j], taker.side).side == orders[j].side
                    &&& resident_of(f.matches[j], taker.side).timestamp == orders[j].timestamp
                    &&& taker_of(f.matches[j], taker.side).id == taker.id
                    &&& taker_of(f.matches[j], taker.side).side == taker.side
                    &&& (resident_of(f.matches[j], taker.side).size == 0 <==> j < d)
                } by {
                if j == 0 {
                    assert(f.matches[j] == m);
                } else {
                    assert(f.matches[j] == rest.matches[j - 1]);
                    assert(tail[j - 1] == orders[j]);
                    assert(nt.side == taker.side && nt.id == taker.id);
                }
            }
        } else {
            assert(nt.size == 0);
            assert(rest.matches =~= Seq::<Match>::empty());
            assert(rest.remaining == tail);
            assert(f.remaining =~= seq![nr] + tail);
            assert(d == 0);
            assert(f.matches =~= seq![m]);
        }
    }
}

/// The combined shape of a fill, for callers that need all of it at once.
proof fn lemma_fill_core(orders: Seq<Order>, taker: Order, price: u64)
    requires
        all_sized(orders),
    ensures
        ({
            let f = spec_fill(orders, taker, price);
            let d = orders.len() - f.remaining.len();
            &&& f.taker.id == taker.id
            &&& f.taker.side == taker.side
            &&& f.taker.timestamp == taker.timestamp
            &&& f.taker.size == (if sum_sizes(orders) >= taker.size {
                0
            } else {
                taker.size - sum_sizes(orders)
            })
            &&& 0 <= d <= orders.len()
            &&& d <= f.matches.len() <= orders.len()
            &&& (f.matches.len() == d || f.matches.len() == d + 1)
            &&& sum_sizes(f.remaining) == sum_sizes(orders) - (taker.size - f.taker.size)
            &&& forall|j: int|
                0 <= j < f.remaining.len() ==> {
                    &&& (#[trigger] f.remaining[j]).id == orders[d + j].id
                    &&& f.remaining[j].side == orders[d + j].side
                    &&& f.remaining[j].timestamp == orders[d + j].timestamp
                    &&& 0 < f.remaining[j].size <= orders[d + j].size
                    &&& (j > 0 ==> f.remaining[j] == orders[d + j])
                }
            &&& forall|j: int|
                0 <= j < f.matches.len() ==> {
                    &&& (#[trigger] f.matches[j]).price == price
                    &&& f.matches[j].size_filled > 0
                    &&& resident_of(f.matches[j], taker.side).id == orders[j].id
                    &&& resident_of(f.matches[j], taker.side).side == orders[j].side
                    &&& resident_of(f.matches[j], taker.side).timestamp == orders[j].timestamp
                    &&& taker_of(f.matches[j], taker.side).id == taker.id
                    &&& taker_of(f.matches[j], taker.side).side == taker.side
                    &&& (resident_of(f.matches[j], taker.side).size == 0 <==> j < d)
                }
        }),
{
    lemma_fill_taker_sum(orders, taker, price);
    lemma_fill_remaining(orders, taker, price);
    lemma_fill_matches(orders, taker, price);
}

/// What a fill preserves of a well-formed level: the survivors are again a
/// well-formed level on the same side, the consumed volume is exactly what
/// the aggressor gained, and an id survives iff no leg fully consumed it.
pub proof fn lemma_fill_props(orders: Seq<Order>, taker: Order, price: u64)
    requires
        sorted_by_arrival(orders),
        ids_unique(orders),
        all_sized(orders),
        all_side(orders, spec_opposite(taker.side)),
    ensures
        ({
            let f = spec_fill(orders, taker, price);
            &&& sorted_by_arrival(f.remaining)
            &&& ids_unique(f.remaining)
            &&& all_sized(f.remaining)
            &&& all_side(f.remaining, spec_opposite(taker.side))
            &&& f.remaining.len() <= orders.len()
            &&& f.taker.id == taker.id
            &&& f.taker.side == taker.side
            &&& f.taker.timestamp == taker.timestamp
            &&& f.taker.size <= taker.size
            &&& f.taker.size == (if sum_sizes(orders) >= taker.size {
                0
            } else {
                taker.size - sum_sizes(orders)
            })
            &&& sum_sizes(f.remaining) == sum_sizes(orders) - (taker.size - f.taker.size)
            &&& forall|id: u128|
                #[trigger] contains_id(f.remaining, id) ==> contains_id(orders, id)
            &&& forall|id: u128|
                match_removes(f.matches, taker.side, id) ==> contains_id(orders, id)
            &&& forall|id: u128|
                contains_id(orders, id) ==> (#[trigger] contains_id(f.remaining, id)
                    <==> !match_removes(f.matches, taker.side, id))
        }),
{
    lemma_fill_core(orders, taker, price);
    lemma_sum_nonneg(orders);
    let f = spec_fill(orders, taker, price);
    let d = orders.len() - f.remaining.len();
    assert forall|i: int, j: int| 0 <= i < j < f.remaining.len() implies arrival_lt(
        #[trigger] f.remaining[i],
        #[trigger] f.remaining[j],
    ) by {
        assert(arrival_lt(orders[d + i], orders[d + j]));
    }
    assert forall|i: int, j: int|
        0 <= i < j < f.remaining.len() implies (#[trigger] f.remaining[i]).id != (
    #[trigger] f.remaining[j]).id by {
        assert(orders[d + i].id != orders[d + j].id);
    }
    assert forall|id: u128| #[trigger]
        contains_id(f.remaining, id) implies contains_id(orders, id) by {
        let w = choose|w: int| 0 <= w < f.remaining.len() && (#[trigger] f.remaining[w]).id == id;
        assert(orders[d + w].id == id);
    }
    assert forall|id: u128| match_removes(f.matches, taker.side, id) implies contains_id(
        orders,
        id,
    ) by {
        let j = choose|j: int|
            0 <= j < f.matches.len() && resident_of(#[trigger] f.matches[j], taker.side).size == 0
                && resident_of(f.matches[j], taker.side).id == id;
        assert(orders[j].id == id);
    }
    assert forall|id: u128| contains_id(orders, id) implies (#[trigger] contains_id(
        f.remaining,
        id,
    ) <==> !match_removes(f.matches, taker.side, id)) by {
        let w = choose|w: int| 0 <= w < orders.len() && (#[trigger] orders[w]).id == id;
        if w < d {
            // Resident `w` was fully consumed: leg `w` removes it, and by id
            // uniqueness it cannot also survive.
            assert(resident_of(f.matches[w], taker.side).size == 0);
            assert(resident_of(f.matches[w], taker.side).id == id);
            assert(match_removes(f.matches, taker.side, id));
            if contains_id(f.remaining, id) {
                let v = choose|v: int|
                    0 <= v < f.remaining.len() && (#[trigger] f.remaining[v]).id == id;
                assert(orders[d + v].id == id);
                assert(orders[w].id != orders[d + v].id);
            }
        } else {
            assert(f.remaining[w - d].id == id);
            assert(contains_id(f.remaining, id));
            if match_removes(f.matches, taker.side, id) {
                let j = choose|j: int|
                    0 <= j < f.matches.len() && resident_of(
                        #[trigger] f.matches[j],
                        taker.side,
                    ).size == 0 && resident_of(f.matches[j], taker.side).id == id;
                assert(j < d);
                assert(orders[j].id == orders[w].id && j != w);
            }
        }
    }
}

/// Time priority within one price level: the legs that one fill produces
/// pair the aggressor with resident orders in strict arrival order (earliest
/// timestamp first, ties broken by id).
pub proof fn lemma_fill_respects_time_priority(orders: Seq<Order>, taker: Order, price: u64)
    requires
        sorted_by_arrival(orders),
        all_sized(orders),
    ensures
        forall|i: int, j: int|
            0 <= i < j < spec_fill(orders, taker, price).matches.len() ==> arrival_lt(
                resident_of(#[trigger] spec_fill(orders, taker, price).matches[i], taker.side),
                resident_of(#[trigger] spec_fill(orders, taker, price).matches[j], taker.side),
            ),
{
    lemma_fill_core(orders, taker, price);
    let f = spec_fill(orders, taker, price);
    assert forall|i: int, j: int| 0 <= i < j < f.matches.len() implies arrival_lt(
        resident_of(#[trigger] f.matches[i], taker.side),
        resident_of(#[trigger] f.matches[j], taker.side),
    ) by {
        assert(arrival_lt(orders[i], orders[j]));
    }
}

/// Every leg executes at the resting side's limit price — the price passed
/// to the fill, never anything taken from the aggressor — and transfers a
/// strictly positive quantity.
pub proof fn lemma_fill_prices_are_makers(orders: Seq<Order>, taker: Order, price: u64)
    requires
        all_sized(orders),
    ensures
        forall|j: int|
            0 <= j < spec_fill(orders, taker, price).matches.len() ==> (
            #[trigger] spec_fill(orders, taker, price).matches[j]).price == price && spec_fill(
                orders,
                taker,
                price,
            ).matches[j].size_filled > 0,
{
    lemma_fill_core(orders, taker, price);
}

/// Sortedness of an arrival-order insertion, pointwise.
proof fn lemma_arrival_insert_sorted(s: Seq<Order>, o: Order, pos: int, i: int, j: int)
    requires
        sorted_by_arrival(s),
        ids_unique(s),
        !contains_id(s, o.id),
        0 <= pos <= s.len(),
        forall|k: int| 0 <= k < pos ==> !arrival_lt(o, #[trigger] s[k]),
        pos < s.len() ==> arrival_lt(o, s[pos]),
        0 <= i < j < s.insert(pos, o).len(),
    ensures
        arrival_lt(s.insert(pos, o)[i], s.insert(pos, o)[j]),
{
    let t = s.insert(pos, o);
    assert forall|k: int| 0 <= k < s.len() implies (#[trigger] s[k]).id != o.id by {
        assert(!contains_id(s, o.id));
    }
    if i != pos && j != pos {
        let i0: int = if i < pos { i } else { i - 1 };
        let j0: int = if j < pos { j } else { j - 1 };
        assert(t[i] == s[i0] && t[j] == s[j0]);
    } else if i == pos {
        // t[i] is o, and j > pos, so t[j] == s[j - 1] with j - 1 >= pos.
        let j0: int = j - 1;
        assert(t[j] == s[j0]);
        assert(pos < s.len());
        if j0 == pos {
            assert(arrival_lt(o, s[pos]));
        } else {
            assert(arrival_lt(s[pos as int], s[j0]));
            assert(arrival_lt(o, s[pos]));
        }
    } else {
        // j == pos: t[j] is o and i < pos, so !arrival_lt(o, s[i]) and the
        // ids differ, hence s[i] arrives strictly before o.
        assert(t[i] == s[i]);
        assert(!arrival_lt(o, s[i]));
        assert(s[i].id != o.id);
    }
}

} // verus!
